//! Reading a list in the indexed-list format.
use vstd::prelude::*;
use crate::bytes::{read_le, copy_range, string_from_utf8};
use crate::error::NeutronError;
use crate::linked_list::{Decoded, pairs_view, prepend};
use crate::list::{read_prefixed, parse_entries, parse_indexed_list, index_of};

verus! {

/// Reads the marker at `at` and the length after it.
pub(crate) fn read_prefixed_at(b: &[u8], at: usize) -> (r: (usize, usize))
    requires
        read_prefixed(b@, at as int) is Some,
    ensures
        read_prefixed(b@, at as int) == Some((r.0 as int, r.1 as int)),
{
    let marker = b[at];
    let w: usize = if marker == 1 || marker == 2 || marker == 4 || marker == 8 {
        marker as usize
    } else {
        0
    };
    let len = read_le(b, at + 1, w);
    (len as usize, at + 1 + w)
}

/// Reads the index entry at `i` and the value it points to.
fn read_entry(arg: &Vec<u8>, index: &Vec<u8>, i: usize) -> (r: (String, String, usize))
    requires
        i < index@.len(),
        !(parse_entries(arg@, index@, i as int) is Panics),
    ensures
        i < r.2 <= index@.len(),
        parse_entries(arg@, index@, i as int) == prepend(
            seq![(r.0@, r.1@)],
            parse_entries(arg@, index@, r.2 as int),
        ),
{
    let ilen = index.len();
    let alen = arg.len();
    let (key_length, ks) = read_prefixed_at(index.as_slice(), i);
    assert(ks + key_length <= index@.len());
    let key_bytes = copy_range(index.as_slice(), ks, ks + key_length);
    let key = string_from_utf8(key_bytes).unwrap();
    let vp = ks + key_length;
    assert(vp + 8 <= index@.len());
    let value_index = read_le(index.as_slice(), vp, 8) as usize;
    assert(read_prefixed(arg@, value_index as int) is Some);
    let (value_length, vs) = read_prefixed_at(arg.as_slice(), value_index);
    assert(vs + value_length <= arg@.len());
    let value_bytes = copy_range(arg.as_slice(), vs, vs + value_length);
    let value = string_from_utf8(value_bytes).unwrap();
    (key, value, vp + 8)
}

/// Decodes a list. A version byte other than 1 gives the empty list.
/// Requires that the decoder does not index past the bytes nor meet text
/// that is not UTF-8.
pub fn list(arg: &Vec<u8>) -> (r: Result<Vec<(String, String)>, NeutronError>)
    requires
        !(parse_indexed_list(arg@) is Panics),
    ensures
        r is Ok,
        parse_indexed_list(arg@) == Decoded::Value(pairs_view(r->Ok_0@)),
{
    let mut res: Vec<(String, String)> = Vec::new();
    if arg[0] == 1 {
        let alen = arg.len();
        assert(index_of(arg@) is Some);
        let index_size = read_le(arg.as_slice(), 1, 8) as usize;
        assert(9 + index_size <= arg@.len());
        let index = copy_range(arg.as_slice(), 9, 9 + index_size);
        assert(index_of(arg@) == Some(index@));
        let mut i: usize = 0;
        assert(prepend(pairs_view(res@), parse_entries(arg@, index@, 0)) =~= parse_entries(
            arg@,
            index@,
            0,
        )) by {
            match parse_entries(arg@, index@, 0) {
                Decoded::Value(v) => {
                    assert(pairs_view(res@) + v =~= v);
                },
                _ => {},
            }
        }
        while i < index.len()
            invariant
                i <= index@.len(),
                parse_indexed_list(arg@) == parse_entries(arg@, index@, 0),
                !(parse_entries(arg@, index@, 0) is Panics),
                prepend(pairs_view(res@), parse_entries(arg@, index@, i as int)) == parse_entries(
                    arg@,
                    index@,
                    0,
                ),
            decreases index@.len() - i,
        {
            let ghost acc = pairs_view(res@);
            let (key, value, next) = read_entry(arg, &index, i);
            let ghost head = (key@, value@);
            res.push((key, value));
            proof {
                assert(pairs_view(res@) =~= acc + seq![head]);
                match parse_entries(arg@, index@, next as int) {
                    Decoded::Value(v) => {
                        assert(acc + (seq![head] + v) =~= (acc + seq![head]) + v);
                    },
                    _ => {},
                }
            }
            i = next;
        }
        assert(parse_entries(arg@, index@, i as int) == Decoded::<Seq<(Seq<char>, Seq<char>)>>::Value(
            Seq::empty(),
        ));
        assert(pairs_view(res@) + Seq::<(Seq<char>, Seq<char>)>::empty() =~= pairs_view(res@));
    } else {
        assert(pairs_view(res@) =~= Seq::<(Seq<char>, Seq<char>)>::empty());
    }
    Ok(res)
}

} // verus!
