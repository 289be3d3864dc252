//! Writing a list in the indexed-list format.
use vstd::prelude::*;
use vstd::utf8::encode_utf8;
use crate::bytes::{push_le, push_all, lemma_pow256_values, le_bytes};
use crate::linked_list::pairs_view;
use crate::list::{
    len_prefix, key_entry, value_entry, values_region, index_size, index_region, spec_indexed_list,
    lemma_prefix_sizes, lemma_index_region_len,
};

verus! {

/// Appends the marker and length of `bytes`, then `bytes`.
fn push_prefixed(out: &mut Vec<u8>, bytes: &[u8])
    ensures
        final(out)@ == old(out)@ + len_prefix(bytes@.len()) + bytes@,
{
    let len: usize = bytes.len();
    let ghost start = old(out)@;
    proof {
        lemma_pow256_values();
    }
    if len < 256 {
        out.push(1u8);
        out.push(len as u8);
        assert(out@ =~= start + len_prefix(bytes@.len()));
    } else if len < 65536 {
        out.push(2u8);
        push_le(out, len as u128, 2);
        assert(out@ =~= start + len_prefix(bytes@.len()));
    } else if (len as u64) < 4294967296 {
        push_le(out, 4, 4);
        push_le(out, len as u128, 4);
        assert(out@ =~= start + len_prefix(bytes@.len()));
    } else {
        push_le(out, 8, 8);
        push_le(out, len as u128, 8);
        assert(out@ =~= start + len_prefix(bytes@.len()));
    }
    push_all(out, bytes);
}

/// The bytes of a list in the indexed-list format. Requires that they fit
/// in memory.
pub fn list(arg: &Vec<(String, String)>) -> (r: Vec<u8>)
    requires
        spec_indexed_list(pairs_view(arg@)).len() <= usize::MAX,
    ensures
        r@ == spec_indexed_list(pairs_view(arg@)),
{
    let ghost objs = pairs_view(arg@);
    proof {
        lemma_index_region_len(objs, index_size(objs) + 9);
    }
    let mut index: Vec<(Vec<u8>, u64)> = Vec::new();
    let mut val_res: Vec<u8> = Vec::new();
    let mut i: usize = 0;
    while i < arg.len()
        invariant
            i <= arg@.len() == objs.len(),
            objs == pairs_view(arg@),
            index@.len() == i,
            forall|j: int|
                0 <= j < i ==> (#[trigger] index@[j]).0@ == key_entry(objs[j].0) && index@[j].1
                    == values_region(objs.subrange(0, j)).len(),
            val_res@ == values_region(objs.subrange(0, i as int)),
            9 + index_size(objs) + values_region(objs).len() <= usize::MAX,
        decreases arg@.len() - i,
    {
        proof {
            lemma_prefix_sizes(objs, i as int);
            assert(objs.subrange(0, i + 1).drop_last() =~= objs.subrange(0, i as int));
            lemma_prefix_sizes(objs, i + 1);
        }
        let mut key_res: Vec<u8> = Vec::new();
        push_prefixed(&mut key_res, arg[i].0.as_str().as_bytes());
        assert(key_res@ =~= key_entry(objs[i as int].0));
        index.push((key_res, val_res.len() as u64));
        push_prefixed(&mut val_res, arg[i].1.as_str().as_bytes());
        assert(val_res@ =~= values_region(objs.subrange(0, i + 1)));
        i = i + 1;
    }
    assert(objs.subrange(0, i as int) =~= objs);
    let mut size: u64 = 0;
    let mut j: usize = 0;
    while j < index.len()
        invariant
            j <= index@.len() == objs.len(),
            forall|k: int|
                0 <= k < index@.len() ==> (#[trigger] index@[k]).0@ == key_entry(objs[k].0) && index@[k].1
                    == values_region(objs.subrange(0, k)).len(),
            size == index_size(objs.subrange(0, j as int)),
            9 + index_size(objs) + values_region(objs).len() <= usize::MAX,
        decreases index@.len() - j,
    {
        proof {
            assert(objs.subrange(0, j + 1).drop_last() =~= objs.subrange(0, j as int));
            lemma_prefix_sizes(objs, j + 1);
        }
        size = size + index[j].0.len() as u64 + 8;
        j = j + 1;
    }
    assert(objs.subrange(0, j as int) =~= objs);
    let mut r: Vec<u8> = Vec::new();
    r.push(1u8);
    push_le(&mut r, size as u128, 8);
    let base: u64 = size + 9;
    let ghost header = r@;
    let mut k: usize = 0;
    while k < index.len()
        invariant
            k <= index@.len() == objs.len(),
            forall|m: int|
                0 <= m < index@.len() ==> (#[trigger] index@[m]).0@ == key_entry(objs[m].0) && index@[m].1
                    == values_region(objs.subrange(0, m)).len(),
            base == index_size(objs) + 9,
            r@ == header + index_region(objs.subrange(0, k as int), base as nat),
            9 + index_size(objs) + values_region(objs).len() <= usize::MAX,
        decreases index@.len() - k,
    {
        proof {
            lemma_prefix_sizes(objs, k as int);
            assert(objs.subrange(0, k + 1).drop_last() =~= objs.subrange(0, k as int));
        }
        push_all(&mut r, index[k].0.as_slice());
        push_le(&mut r, (index[k].1 + base) as u128, 8);
        assert(r@ =~= header + index_region(objs.subrange(0, k + 1), base as nat));
        k = k + 1;
    }
    assert(objs.subrange(0, k as int) =~= objs);
    push_all(&mut r, val_res.as_slice());
    assert(r@ =~= spec_indexed_list(objs));
    r
}

} // verus!
