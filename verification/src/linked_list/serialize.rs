//! Writing records and lists in the linked-list format.
use vstd::prelude::*;
use vstd::utf8::encode_utf8;
use crate::bytes::{push_le, push_all, lemma_pow256_values};
use crate::linked_list::{spec_object, spec_list, pairs_view, length_width};

verus! {

/// The bytes of one record: key length, key, width of the value length,
/// value length and value.
pub fn object(key: &str, value: &str) -> (r: Vec<u8>)
    ensures
        r@ == spec_object(key@, value@),
{
    let key_bytes = key.as_bytes();
    let key_length: u8 = (key_bytes.len() % 256) as u8;
    let value_bytes = value.as_bytes();
    let value_length: usize = value_bytes.len();
    let mut r: Vec<u8> = Vec::new();
    r.push(key_length);
    push_all(&mut r, key_bytes);
    proof {
        lemma_pow256_values();
    }
    let w: usize = if value_length < 256 {
        1
    } else if value_length < 65536 {
        2
    } else if (value_length as u64) < 4294967296 {
        4
    } else {
        8
    };
    assert(w == length_width(value_bytes@.len()));
    r.push(w as u8);
    push_le(&mut r, value_length as u128, w);
    push_all(&mut r, value_bytes);
    assert(r@ =~= spec_object(key@, value@));
    r
}

/// The bytes of a list: the records of its pairs in order.
pub fn list(objects: &Vec<(String, String)>) -> (r: Vec<u8>)
    ensures
        r@ == spec_list(pairs_view(objects@)),
{
    let mut r: Vec<u8> = Vec::new();
    let mut i: usize = 0;
    while i < objects.len()
        invariant
            i <= objects@.len(),
            r@ == spec_list(pairs_view(objects@.subrange(0, i as int))),
        decreases objects@.len() - i,
    {
        let o = object(objects[i].0.as_str(), objects[i].1.as_str());
        push_all(&mut r, o.as_slice());
        proof {
            let p = pairs_view(objects@.subrange(0, i + 1));
            assert(p.drop_last() =~= pairs_view(objects@.subrange(0, i as int)));
        }
        i = i + 1;
    }
    assert(objects@.subrange(0, i as int) =~= objects@);
    r
}

} // verus!
