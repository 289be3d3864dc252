//! Putting a key and value: the log records to append and the cache update.
use vstd::prelude::*;
use crate::bytes::{le_bytes, push_le, push_all};
use crate::hashes::{fides_blake_3, fides_hash};
use crate::types::into_bytes::IntoBytes;
use crate::store::{
    Store, KeyObject, ValueObject, hash_map, hashes_unique, graves_set, graves_unique, keys_sorted,
    insert_key, find_entry, find_grave, lemma_hash_map_insert,
};

verus! {

/// The log record of a put key: type 1, the key's hash, its value's hash,
/// the key's length and the key.
pub open spec fn key_log_record(key_hash: Seq<u8>, value_hash: Seq<u8>, key: Seq<u8>) -> Seq<u8> {
    seq![1u8] + key_hash + value_hash + le_bytes(key.len(), 8) + key
}

/// The log record of a new value: type 2, its hash, its length and its bytes.
pub open spec fn value_log_record(value_hash: Seq<u8>, value: Seq<u8>) -> Seq<u8> {
    seq![2u8] + value_hash + le_bytes(value.len(), 8) + value
}

/// What a put asks of its caller: the bytes to append to the log, the key's
/// hash, and whether the cache has outgrown its limit (then the caller
/// flushes the cache to a table, empties the log and the cache, and compacts).
pub struct PutRecord {
    pub log: Vec<u8>,
    pub key_hash: [u8; 32],
    pub flush: bool,
}

/// Appends the bytes of a hash.
pub fn push_hash(out: &mut Vec<u8>, h: &[u8; 32])
    ensures
        final(out)@ == old(out)@ + h@,
{
    let ghost start = old(out)@;
    let mut i: usize = 0;
    while i < 32
        invariant
            i <= 32,
            h@.len() == 32,
            out@ == start + h@.subrange(0, i as int),
        decreases 32 - i,
    {
        out.push(h[i]);
        i = i + 1;
        assert(out@ =~= start + h@.subrange(0, i as int));
    }
    assert(h@.subrange(0, 32) =~= h@);
}

/// The relation of a store before and after putting a key with the bytes
/// `kb` and a value with the bytes `vb`, with the log records `log`.
pub open spec fn put_relation<K, V>(
    old: &Store<K, V>,
    new: &Store<K, V>,
    kb: Seq<u8>,
    value: V,
    vb: Seq<u8>,
    log: Seq<u8>,
) -> bool {
    let kh = fides_blake_3(kb);
    let vh = fides_blake_3(vb);
    let new_value = !old.value_map().contains_key(vh);
    let ko = new.key_map()[kh];
    let vo = new.value_map()[vh];
    &&& new.wf()
    &&& log == key_log_record(kh, vh, kb) + if new_value {
        value_log_record(vh, vb)
    } else {
        Seq::empty()
    }
    &&& new.key_map() == old.key_map().insert(kh, ko)
    &&& ko.value_hash@ == vh
    &&& ko.key_size == kb.len()
    &&& ko.key_log_position == old.log_len + 73
    &&& new_value ==> {
        &&& new.value_map() == old.value_map().insert(vh, vo)
        &&& vo.value == value
        &&& vo.value_size == 40 + vb.len()
        &&& vo.value_log_position == old.log_len + 74 + kb.len()
        &&& new.cache_size == old.cache_size + 64 + vstd::layout::size_of::<KeyObject>()
            + vstd::layout::size_of::<ValueObject<V>>()
    }
    &&& !new_value ==> {
        &&& new.value_map() == old.value_map()
        &&& new.cache_size == old.cache_size + 32 + vstd::layout::size_of::<KeyObject>()
    }
    &&& new.log_len == old.log_len + log.len()
    &&& new.graves == old.graves
    &&& new.tables == old.tables
    &&& new.cache_limit == old.cache_limit
    &&& new.directory == old.directory
}

impl<K: IntoBytes, V: IntoBytes> Store<K, V> {
    /// Puts a key and a value into the cache: logs the key with its value's
    /// hash, and the value when no cached value has its hash. The caller
    /// appends the records to the log, flushes when asked, and then calls
    /// `remove_grave` with the key's hash. Requires that the log's length
    /// and the cache's size do not overflow.
    pub fn put(&mut self, key: &K, value: V) -> (r: PutRecord)
        requires
            old(self).wf(),
            old(self).log_len + 114 + key.spec_into_bytes().len() + value.spec_into_bytes().len()
                <= u64::MAX,
            old(self).cache_size + 64 + vstd::layout::size_of::<KeyObject>()
                + vstd::layout::size_of::<ValueObject<V>>() <= u64::MAX,
            40 + value.spec_into_bytes().len() <= usize::MAX,
        ensures
            put_relation(old(self), final(self), key.spec_into_bytes(), value, value.spec_into_bytes(), r.log@),
            r.key_hash@ == fides_blake_3(key.spec_into_bytes()),
            r.flush == (final(self).cache_size > final(self).cache_limit),
    {
        let key_bytes = key.into_bytes();
        let value_bytes = value.into_bytes();
        let key_hash = fides_hash(key_bytes.as_slice());
        let value_hash = fides_hash(value_bytes.as_slice());
        let ghost old_values = self.values@;
        let ghost kh = key_hash@;
        let ghost vh = value_hash@;
        let ghost new_value = !hash_map(old_values).contains_key(vh);
        let mut log: Vec<u8> = Vec::new();
        log.push(1u8);
        push_hash(&mut log, &key_hash);
        push_hash(&mut log, &value_hash);
        push_le(&mut log, key_bytes.len() as u128, 8);
        let key_object = KeyObject {
            value_hash,
            key_size: key_bytes.len(),
            key_log_position: self.log_len + 73,
        };
        push_all(&mut log, key_bytes.as_slice());
        self.cache_size = self.cache_size + 32 + std::mem::size_of::<KeyObject>() as u64;
        insert_key(&mut self.keys, key_hash, key_object);
        match find_entry(&self.values, &value_hash) {
            None => {
                log.push(2u8);
                let value_log_position = self.log_len + 74 + key_bytes.len() as u64;
                push_hash(&mut log, &value_hash);
                push_le(&mut log, value_bytes.len() as u128, 8);
                push_all(&mut log, value_bytes.as_slice());
                let value_object = ValueObject {
                    value,
                    value_size: 32 + 8 + value_bytes.len(),
                    value_log_position,
                };
                self.cache_size = self.cache_size + 32 + std::mem::size_of::<ValueObject<V>>() as u64;
                proof {
                    lemma_hash_map_insert(old_values, old_values.len() as int, (value_hash, value_object));
                }
                self.values.push((value_hash, value_object));
                proof {
                    assert(self.values@ == old_values.insert(old_values.len() as int, (value_hash, value_object)));
                }
            },
            Some(_) => {
                proof {
                    crate::store::lemma_hash_map(old_values);
                }
            },
        }
        proof {
            crate::store::lemma_hash_map(old_values);
        }
        assert(log@ =~= key_log_record(kh, vh, key_bytes@) + if new_value {
            value_log_record(vh, value_bytes@)
        } else {
            Seq::empty()
        });
        self.log_len = self.log_len + log.len() as u64;
        let flush = self.cache_size > self.cache_limit;
        PutRecord { log, key_hash, flush }
    }
}

impl<K, V> Store<K, V> {
    /// Forgets that the key with this hash was deleted.
    pub fn remove_grave(&mut self, key_hash: &[u8; 32])
        requires
            old(self).wf(),
        ensures
            final(self).wf(),
            final(self).grave_set() == old(self).grave_set().remove(key_hash@),
            final(self).keys == old(self).keys,
            final(self).values == old(self).values,
            final(self).tables == old(self).tables,
            final(self).cache_size == old(self).cache_size,
            final(self).cache_limit == old(self).cache_limit,
            final(self).log_len == old(self).log_len,
            final(self).directory == old(self).directory,
    {
        let ghost g = self.graves@;
        match find_grave(&self.graves, key_hash) {
            Some(i) => {
                self.graves.remove(i);
                proof {
                    let t = self.graves@;
                    assert(t == g.remove(i as int));
                    assert(graves_unique(t)) by {
                        assert forall|a: int, b: int| 0 <= a < b < t.len() implies (#[trigger] t[a]@) != (
                        #[trigger] t[b]@) by {
                            if a < i && b < i {
                            } else if a < i {
                                assert(t[b] == g[b + 1]);
                            } else {
                                assert(t[a] == g[a + 1]);
                                assert(t[b] == g[b + 1]);
                            }
                        }
                    }
                    assert forall|x: Seq<u8>| #[trigger] graves_set(t).contains(x) <==> graves_set(g).remove(
                        key_hash@,
                    ).contains(x) by {
                        if graves_set(t).contains(x) {
                            let k = choose|k: int| 0 <= k < t.len() && (#[trigger] t[k])@ == x;
                            if k < i {
                                assert(t[k] == g[k]);
                                assert(g[k]@ != g[i as int]@);
                            } else {
                                assert(t[k] == g[k + 1]);
                                assert(g[k + 1]@ != g[i as int]@);
                            }
                        }
                        if graves_set(g).remove(key_hash@).contains(x) {
                            let k = choose|k: int| 0 <= k < g.len() && (#[trigger] g[k])@ == x;
                            assert(k != i);
                            if k < i {
                                assert(t[k] == g[k]);
                            } else {
                                assert(t[k - 1] == g[k]);
                            }
                        }
                    }
                    assert(graves_set(t) =~= graves_set(g).remove(key_hash@));
                }
            },
            None => {
                proof {
                    assert forall|x: Seq<u8>| #[trigger] graves_set(g).contains(x) implies x != key_hash@ by {
                        let k = choose|k: int| 0 <= k < g.len() && (#[trigger] g[k])@ == x;
                        assert(g[k]@ != key_hash@);
                    }
                    assert(graves_set(g) =~= graves_set(g).remove(key_hash@));
                }
            },
        }
    }

    /// Empties the cache and the log, after the cache was flushed to a table.
    pub fn reset_cache(&mut self)
        requires
            old(self).wf(),
        ensures
            final(self).wf(),
            final(self).keys@.len() == 0,
            final(self).values@.len() == 0,
            final(self).cache_size == 0,
            final(self).log_len == 0,
            final(self).graves == old(self).graves,
            final(self).tables == old(self).tables,
            final(self).cache_limit == old(self).cache_limit,
            final(self).directory == old(self).directory,
    {
        self.keys.clear();
        self.values.clear();
        self.cache_size = 0;
        self.log_len = 0;
    }
}

impl<K, V> Store<K, V> {
    /// Ends a put of the key with hash `key_hash`: when the cache has
    /// outgrown its limit (the caller has then flushed it to a table and
    /// compacted the levels), empties the cache and the log; then forgets the
    /// key's grave. Afterwards the key is no grave and the cache is within
    /// its limit.
    pub fn finish_put(&mut self, key_hash: &[u8; 32])
        requires
            old(self).wf(),
        ensures
            final(self).wf(),
            final(self).grave_set() == old(self).grave_set().remove(key_hash@),
            !final(self).grave_set().contains(key_hash@),
            final(self).cache_size <= final(self).cache_limit,
            old(self).cache_size > old(self).cache_limit ==> {
                &&& final(self).keys@.len() == 0
                &&& final(self).values@.len() == 0
                &&& final(self).cache_size == 0
                &&& final(self).log_len == 0
            },
            old(self).cache_size <= old(self).cache_limit ==> {
                &&& final(self).keys == old(self).keys
                &&& final(self).values == old(self).values
                &&& final(self).cache_size == old(self).cache_size
                &&& final(self).log_len == old(self).log_len
            },
            final(self).tables == old(self).tables,
            final(self).cache_limit == old(self).cache_limit,
            final(self).directory == old(self).directory,
    {
        if self.cache_size > self.cache_limit {
            self.reset_cache();
        }
        self.remove_grave(key_hash);
    }
}

} // verus!
