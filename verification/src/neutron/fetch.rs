//! Reading every entry of a table of the older layout.
use vstd::prelude::*;
use vstd::utf8::{decode_utf8, valid_utf8};
use crate::bytes::{from_be, read_be8, copy_range, string_from_utf8, lemma_from_be_bound, lemma_pow256_values};
use crate::astro::{astro_decode_from, astro_decode};
use crate::error::NeutronError;
use crate::linked_list::{Decoded, prepend, pairs_view};
use crate::neutron::{records_ok, record_key, record_seek, astro_items};
use crate::neutron::search::read_index_records;

verus! {

/// The entries of a table from the `i`th index record on, whose values
/// start at `vs`.
pub open spec fn fetch_values(b: Seq<u8>, items: Seq<Seq<u8>>, vs: int, i: int) -> Decoded<
    Seq<(Seq<char>, Seq<char>)>,
>
    decreases items.len() - i,
{
    if i < 0 || i >= items.len() {
        Decoded::Value(Seq::empty())
    } else {
        let start = vs + record_seek(items[i]) as usize as int;
        let end = if i == items.len() - 1 {
            b.len() as int
        } else {
            vs + record_seek(items[i + 1]) as usize as int
        };
        if start > usize::MAX || end > usize::MAX || start > end || end > b.len() {
            Decoded::Panics
        } else if !valid_utf8(b.subrange(start, end)) {
            Decoded::Panics
        } else {
            prepend(
                seq![(record_key(items[i]), decode_utf8(b.subrange(start, end)))],
                fetch_values(b, items, vs, i + 1),
            )
        }
    }
}

/// What reading every entry of the table bytes `b` gives.
pub open spec fn fetch_table(b: Seq<u8>) -> Decoded<Seq<(Seq<char>, Seq<char>)>> {
    if b.len() < 16 {
        Decoded::Panics
    } else {
        let il = from_be(b.subrange(0, 8)) as usize as int;
        let bl = from_be(b.subrange(8, 16)) as usize as int;
        let ie = 16 + il;
        if ie > b.len() {
            Decoded::Panics
        } else {
            match astro_decode_from(b.subrange(16, ie), 0) {
                Decoded::Value(items) => if !records_ok(items) || ie + bl > usize::MAX {
                    Decoded::Panics
                } else {
                    fetch_values(b, items, ie + bl, 0)
                },
                _ => Decoded::Panics,
            }
        }
    }
}

/// Every entry of a table: each key with the bytes from its value position
/// to the next record's value position (or the end), as text. Requires that
/// the reader does not panic (on a short or malformed table, positions out
/// of order, or text that is not UTF-8).
pub fn fetch(buffer: &Vec<u8>) -> (r: Result<Vec<(String, String)>, NeutronError>)
    requires
        !(fetch_table(buffer@) is Panics),
    ensures
        r is Ok,
        fetch_table(buffer@) == Decoded::Value(pairs_view(r->Ok_0@)),
{
    let blen = buffer.len();
    let index_len = read_be8(buffer.as_slice(), 0) as usize;
    let bloom_len = read_be8(buffer.as_slice(), 8) as usize;
    let index_end = 16 + index_len;
    let index_buffer = copy_range(buffer.as_slice(), 16, index_end);
    let items = astro_decode(index_buffer.as_slice()).unwrap();
    let ghost iv = items@.map_values(|v: Vec<u8>| v@);
    let keys_seeks = read_index_records(&items);
    let value_start = index_end + bloom_len;
    let mut res: Vec<(String, String)> = Vec::new();
    let mut i: usize = 0;
    assert(fetch_table(buffer@) == fetch_values(buffer@, iv, value_start as int, 0));
    assert(prepend(pairs_view(res@), fetch_values(buffer@, iv, value_start as int, 0)) =~= fetch_values(
        buffer@,
        iv,
        value_start as int,
        0,
    )) by {
        match fetch_values(buffer@, iv, value_start as int, 0) {
            Decoded::Value(v) => {
                assert(pairs_view(res@) + v =~= v);
            },
            _ => {},
        }
    }
    while i < keys_seeks.len()
        invariant
            i <= keys_seeks@.len() == iv.len(),
            blen == buffer@.len(),
            forall|j: int|
                0 <= j < keys_seeks@.len() ==> (#[trigger] keys_seeks@[j]).0@ == record_key(iv[j])
                    && keys_seeks@[j].1 as nat == record_seek(iv[j]),
            !(fetch_values(buffer@, iv, value_start as int, 0) is Panics),
            fetch_table(buffer@) == fetch_values(buffer@, iv, value_start as int, 0),
            prepend(pairs_view(res@), fetch_values(buffer@, iv, value_start as int, i as int))
                == fetch_values(buffer@, iv, value_start as int, 0),
        decreases keys_seeks@.len() - i,
    {
        let ghost acc = pairs_view(res@);
        let seek_i = keys_seeks[i].1 as usize;
        assert(value_start + seek_i <= usize::MAX);
        let start = value_start + seek_i;
        let end = if i == keys_seeks.len() - 1 {
            blen
        } else {
            let seek_next = keys_seeks[i + 1].1 as usize;
            value_start + seek_next
        };
        let value_buffer = copy_range(buffer.as_slice(), start, end);
        let value = string_from_utf8(value_buffer).unwrap();
        let key = keys_seeks[i].0.clone();
        let ghost head = (key@, value@);
        res.push((key, value));
        proof {
            assert(pairs_view(res@) =~= acc + seq![head]);
            match fetch_values(buffer@, iv, value_start as int, i + 1) {
                Decoded::Value(v) => {
                    assert(acc + (seq![head] + v) =~= (acc + seq![head]) + v);
                },
                _ => {},
            }
        }
        i = i + 1;
    }
    assert(pairs_view(res@) + Seq::<(Seq<char>, Seq<char>)>::empty() =~= pairs_view(res@));
    Ok(res)
}

} // verus!
