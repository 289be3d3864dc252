//! Finding one key's value in a table of the older layout: the index's
//! length and the bloom filter's length as eight big-endian bytes each, the
//! astro-encoded index, the bloom filter, and the values.
use vstd::prelude::*;
use vstd::utf8::{decode_utf8, valid_utf8};
use crate::bytes::{from_be, read_be8, copy_range, string_from_utf8, lemma_from_be_bound, lemma_pow256_values};
use crate::astro::{astro_decode_from, astro_decode};
use crate::error::NeutronError;
use crate::linked_list::Decoded;
use crate::neutron::{records_ok, record_ok, record_key, record_seek, first_key_from, astro_items};

verus! {

/// What reading the value of the `i`th index record gives, for a file with
/// index length `il` and bloom filter length `bl`.
pub open spec fn read_search_value(f: Seq<u8>, items: Seq<Seq<u8>>, i: int, il: int, bl: int) -> Decoded<
    Seq<char>,
> {
    let start = 16 + il + bl + record_seek(items[i]);
    if start > u64::MAX {
        Decoded::Panics
    } else {
        let end = if i == items.len() - 1 {
            f.len() as int
        } else {
            start + record_seek(items[i + 1])
        };
        if end > u64::MAX || end < start {
            Decoded::Panics
        } else if end > f.len() {
            Decoded::Invalid(NeutronError::UnexpectedEnd)
        } else if !valid_utf8(f.subrange(start, end)) {
            Decoded::Panics
        } else {
            Decoded::Value(decode_utf8(f.subrange(start, end)))
        }
    }
}

/// What looking `key` up in the table bytes `f` gives.
pub open spec fn search_table(key: Seq<char>, f: Seq<u8>) -> Decoded<Seq<char>> {
    if f.len() < 16 {
        Decoded::Invalid(NeutronError::UnexpectedEnd)
    } else {
        let il = from_be(f.subrange(0, 8)) as usize as int;
        let bl = from_be(f.subrange(8, 16)) as usize as int;
        if 16 + il > f.len() {
            Decoded::Invalid(NeutronError::UnexpectedEnd)
        } else {
            match astro_decode_from(f.subrange(16, 16 + il), 0) {
                Decoded::Value(items) => if !records_ok(items) {
                    Decoded::Panics
                } else {
                    match first_key_from(items, key, 0) {
                        None => Decoded::Invalid(NeutronError::NotFound),
                        Some(i) => read_search_value(f, items, i, il, bl),
                    }
                },
                _ => Decoded::Panics,
            }
        }
    }
}

/// Reads the key and value position of a well-formed index record.
pub(crate) fn read_index_record(x: &Vec<u8>) -> (r: (String, u64))
    requires
        record_ok(x@),
    ensures
        r.0@ == record_key(x@),
        r.1 as nat == record_seek(x@),
{
    let ks = astro_decode(x.as_slice()).unwrap();
    assert(ks@.map_values(|v: Vec<u8>| v@) == astro_items(x@));
    assert(ks@[0]@ == astro_items(x@)[0]);
    assert(ks@[1]@ == astro_items(x@)[1]);
    let k0 = copy_range(ks[0].as_slice(), 0, ks[0].len());
    assert(k0@ =~= ks@[0]@);
    let key = string_from_utf8(k0).unwrap();
    let seek = read_be8(ks[1].as_slice(), 0);
    assert(ks@[1]@.subrange(0, 8) =~= ks@[1]@);
    (key, seek)
}

/// Reads all index records, each well formed.
pub(crate) fn read_index_records(items: &Vec<Vec<u8>>) -> (r: Vec<(String, u64)>)
    requires
        records_ok(items@.map_values(|v: Vec<u8>| v@)),
    ensures
        r@.len() == items@.len(),
        forall|j: int|
            0 <= j < r@.len() ==> (#[trigger] r@[j]).0@ == record_key(items@[j]@) && r@[j].1 as nat
                == record_seek(items@[j]@),
{
    let mut r: Vec<(String, u64)> = Vec::new();
    let mut j: usize = 0;
    while j < items.len()
        invariant
            j <= items@.len(),
            records_ok(items@.map_values(|v: Vec<u8>| v@)),
            r@.len() == j,
            forall|m: int|
                0 <= m < j ==> (#[trigger] r@[m]).0@ == record_key(items@[m]@) && r@[m].1 as nat
                    == record_seek(items@[m]@),
        decreases items@.len() - j,
    {
        assert(items@.map_values(|v: Vec<u8>| v@)[j as int] == items@[j as int]@);
        let e = read_index_record(&items[j]);
        r.push(e);
        j = j + 1;
    }
    r
}

/// The value of `key` in the bytes of a table: the bytes from its value
/// position to the next record's position (added to its own, as the layout
/// is read here) or to the end of the file; an error when no record has the
/// key or the file ends early. Requires that the reader does not panic
/// (on a malformed index, positions that overflow or text that is not UTF-8).
pub fn search(key: &str, f: &Vec<u8>) -> (r: Result<String, NeutronError>)
    requires
        !(search_table(key@, f@) is Panics),
    ensures
        match search_table(key@, f@) {
            Decoded::Value(v) => r is Ok && r->Ok_0@ == v,
            Decoded::Invalid(e) => r == Err::<String, NeutronError>(e),
            Decoded::Panics => false,
        },
{
    let flen = f.len();
    if flen < 16 {
        return Err(NeutronError::UnexpectedEnd);
    }
    let index_len = read_be8(f.as_slice(), 0) as usize;
    let bloom_len = read_be8(f.as_slice(), 8) as usize;
    if index_len > flen - 16 {
        return Err(NeutronError::UnexpectedEnd);
    }
    let index_buffer = copy_range(f.as_slice(), 16, 16 + index_len);
    let items = astro_decode(index_buffer.as_slice()).unwrap();
    let ghost iv = items@.map_values(|v: Vec<u8>| v@);
    let index = read_index_records(&items);
    let target = key.to_owned();
    let mut i: usize = 0;
    assert(iv == astro_items(f@.subrange(16, 16 + index_len)));
    assert(search_table(key@, f@) == match first_key_from(iv, key@, 0) {
        None => Decoded::Invalid(NeutronError::NotFound),
        Some(i) => read_search_value(f@, iv, i, index_len as int, bloom_len as int),
    });
    while i < index.len()
        invariant
            i <= index@.len() == iv.len(),
            search_table(key@, f@) == match first_key_from(iv, key@, 0) {
                None => Decoded::Invalid(NeutronError::NotFound),
                Some(i) => read_search_value(f@, iv, i, index_len as int, bloom_len as int),
            },
            target@ == key@,
            forall|j: int|
                0 <= j < index@.len() ==> (#[trigger] index@[j]).0@ == record_key(iv[j]) && index@[j].1 as nat
                    == record_seek(iv[j]),
            first_key_from(iv, key@, 0) == first_key_from(iv, key@, i as int),
        ensures
            i <= index@.len(),
            i < index@.len() ==> index@[i as int].0@ == key@,
            first_key_from(iv, key@, 0) == first_key_from(iv, key@, i as int),
        decreases index@.len() - i,
    {
        if index[i].0 == target {
            break;
        }
        i = i + 1;
    }
    if i == index.len() {
        return Err(NeutronError::NotFound);
    }
    assert(first_key_from(iv, key@, 0) == Some(i as int));
    proof {
        lemma_pow256_values();
        lemma_from_be_bound(f@.subrange(0, 8));
        lemma_from_be_bound(f@.subrange(8, 16));
    }
    let seek = index[i].1;
    let start: u64 = 16 + index_len as u64 + bloom_len as u64 + seek;
    let end: u64 = if i == index.len() - 1 {
        flen as u64
    } else {
        start + index[i + 1].1
    };
    let value_len = (end - start) as usize;
    if end > flen as u64 {
        return Err(NeutronError::UnexpectedEnd);
    }
    let value_buffer = copy_range(f.as_slice(), start as usize, end as usize);
    Ok(string_from_utf8(value_buffer).unwrap())
}

} // verus!
