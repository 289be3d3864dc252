//! Writing a neutron table.
use vstd::prelude::*;
use crate::bytes::{push_le, push_all};
use crate::astro::astro_encode;
use crate::linked_list::pairs_view;
use crate::neutron::{spec_table, table_values, key_records, key_record};

verus! {

/// The bytes of a table with this bloom filter and these entries, which
/// come as a map does: in strictly increasing key order.
pub fn run(bloom: Vec<u8>, key_values: &Vec<(String, String)>) -> (r: Vec<u8>)
    requires
        crate::text_store::pairs_sorted(pairs_view(key_values@)),
    ensures
        r@ == spec_table(bloom@, pairs_view(key_values@)),
{
    let ghost objs = pairs_view(key_values@);
    let mut keys: Vec<Vec<u8>> = Vec::new();
    let mut values: Vec<u8> = Vec::new();
    let mut i: usize = 0;
    while i < key_values.len()
        invariant
            i <= key_values@.len() == objs.len(),
            objs == pairs_view(key_values@),
            keys@.len() == i,
            forall|j: int| 0 <= j < i ==> (#[trigger] keys@[j])@ == key_records(objs)[j],
            values@ == table_values(objs.subrange(0, i as int)),
        decreases key_values@.len() - i,
    {
        let mut key_bytes: Vec<u8> = Vec::new();
        push_all(&mut key_bytes, key_values[i].0.as_str().as_bytes());
        let mut index_bytes: Vec<u8> = Vec::new();
        push_le(&mut index_bytes, values.len() as u128, 8);
        let pair = vec![key_bytes, index_bytes];
        assert(pair@.map_values(|v: Vec<u8>| v@) =~= seq![
            crate::types::into_bytes::IntoBytes::spec_into_bytes(&key_values@[i as int].0),
            crate::bytes::le_bytes(values@.len(), 8),
        ]);
        let key_index_bytes = astro_encode(&pair);
        assert(key_index_bytes@ == key_record(objs[i as int].0, table_values(objs.subrange(0, i as int)).len()));
        keys.push(key_index_bytes);
        push_all(&mut values, key_values[i].1.as_str().as_bytes());
        proof {
            assert(objs.subrange(0, i + 1).drop_last() =~= objs.subrange(0, i as int));
        }
        i = i + 1;
    }
    assert(objs.subrange(0, i as int) =~= objs);
    assert(keys@.map_values(|v: Vec<u8>| v@) =~= key_records(objs));
    let keys_buffer = astro_encode(&keys);
    let mut r: Vec<u8> = Vec::new();
    push_le(&mut r, bloom.len() as u128, 8);
    push_all(&mut r, bloom.as_slice());
    push_le(&mut r, keys_buffer.len() as u128, 8);
    push_all(&mut r, keys_buffer.as_slice());
    push_all(&mut r, values.as_slice());
    r
}

} // verus!
