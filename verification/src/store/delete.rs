//! Deleting a key: a grave record in the log and a grave in memory.
use vstd::prelude::*;
use crate::hashes::{fides_blake_3, fides_hash};
use crate::types::into_bytes::IntoBytes;
use crate::store::{Store, graves_set, graves_unique, find_grave};
use crate::store::put::push_hash;

verus! {

/// The log record of a deleted key: type 3 and the key's hash.
pub open spec fn grave_log_record(key_hash: Seq<u8>) -> Seq<u8> {
    seq![3u8] + key_hash
}

/// The relation of a store before and after deleting the key with the bytes
/// `kb`, with the log record `log` when one is written.
pub open spec fn delete_relation<K, V>(old: &Store<K, V>, new: &Store<K, V>, kb: Seq<u8>, log: Option<Seq<u8>>) -> bool {
    let kh = fides_blake_3(kb);
    &&& new.wf()
    &&& old.grave_set().contains(kh) ==> {
        &&& log is None
        &&& new.grave_set() == old.grave_set()
        &&& new.log_len == old.log_len
    }
    &&& !old.grave_set().contains(kh) ==> {
        &&& log == Some(grave_log_record(kh))
        &&& new.grave_set() == old.grave_set().insert(kh)
        &&& new.log_len == old.log_len + 33
    }
    &&& new.keys == old.keys
    &&& new.values == old.values
    &&& new.tables == old.tables
    &&& new.cache_size == old.cache_size
    &&& new.cache_limit == old.cache_limit
    &&& new.directory == old.directory
}

impl<K: IntoBytes, V> Store<K, V> {
    /// Deletes a key: when it is not already a grave, gives the grave record
    /// to append to the log and adds the grave. Requires that the log's
    /// length does not overflow.
    pub fn delete(&mut self, key: &K) -> (r: Option<Vec<u8>>)
        requires
            old(self).wf(),
            old(self).log_len + 33 <= u64::MAX,
        ensures
            delete_relation(
                old(self),
                final(self),
                key.spec_into_bytes(),
                match r {
                    Some(v) => Some(v@),
                    None => None,
                },
            ),
    {
        let key_bytes = key.into_bytes();
        let key_hash = fides_hash(key_bytes.as_slice());
        let ghost g = self.graves@;
        match find_grave(&self.graves, &key_hash) {
            Some(i) => {
                assert(graves_set(g).contains(key_hash@)) by {
                    assert(g[i as int]@ == key_hash@);
                }
                None
            },
            None => {
                let mut log: Vec<u8> = Vec::new();
                log.push(3u8);
                push_hash(&mut log, &key_hash);
                self.graves.push(key_hash);
                self.log_len = self.log_len + 33;
                proof {
                    let t = self.graves@;
                    assert(t == g.push(key_hash));
                    assert(!graves_set(g).contains(key_hash@)) by {
                        if graves_set(g).contains(key_hash@) {
                            let k = choose|k: int| 0 <= k < g.len() && (#[trigger] g[k])@ == key_hash@;
                            assert(g[k]@ != key_hash@);
                        }
                    }
                    assert(graves_unique(t)) by {
                        assert forall|a: int, b: int| 0 <= a < b < t.len() implies (#[trigger] t[a]@) != (
                        #[trigger] t[b]@) by {
                            if b == g.len() {
                                assert(t[a] == g[a]);
                            } else {
                                assert(t[a] == g[a] && t[b] == g[b]);
                            }
                        }
                    }
                    assert forall|x: Seq<u8>| #[trigger] graves_set(t).contains(x) <==> graves_set(g).insert(
                        key_hash@,
                    ).contains(x) by {
                        if graves_set(t).contains(x) {
                            let k = choose|k: int| 0 <= k < t.len() && (#[trigger] t[k])@ == x;
                            if k < g.len() {
                                assert(t[k] == g[k]);
                            }
                        }
                        if graves_set(g).contains(x) {
                            let k = choose|k: int| 0 <= k < g.len() && (#[trigger] g[k])@ == x;
                            assert(t[k] == g[k]);
                        }
                        if x == key_hash@ {
                            assert(t[g.len() as int] == key_hash);
                        }
                    }
                    assert(graves_set(t) =~= graves_set(g).insert(key_hash@));
                    assert(log@ =~= grave_log_record(key_hash@));
                }
                Some(log)
            },
        }
    }
}

/// Deleting a key twice has the effect of deleting it once: the second
/// delete logs nothing and leaves the graves and the log as they were.
pub proof fn lemma_delete_twice<K, V>(
    s0: Store<K, V>,
    s1: Store<K, V>,
    s2: Store<K, V>,
    kb: Seq<u8>,
    log1: Option<Seq<u8>>,
    log2: Option<Seq<u8>>,
)
    requires
        delete_relation(&s0, &s1, kb, log1),
        delete_relation(&s1, &s2, kb, log2),
    ensures
        log2 is None,
        s2.grave_set() == s1.grave_set(),
        s2.log_len == s1.log_len,
        s2.keys == s0.keys,
        s2.values == s0.values,
{
}

} // verus!
