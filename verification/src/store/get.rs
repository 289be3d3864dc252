//! Getting a key's value: from the cache when it is there, else by a binary
//! search of each table's index on disk.
use vstd::prelude::*;
use crate::hashes::{fides_blake_3, fides_hash};
use crate::types::into_bytes::IntoBytes;
use crate::store::{
    Store, KEY_INDEX_SIZE, HashOrder, compare_hashes, lex_lt, find_key, find_entry, find_grave,
    hash_map, lemma_hash_map, lemma_sorted_unique, graves_set, read_hash, lemma_lex_irreflexive, lemma_lex_asymmetric,
    lemma_lex_transitive,
};
use crate::bytes::{from_le, read_u64, copy_range};
use crate::error::NeutronError;
use crate::linked_list::Decoded;
use crate::store::Table;
use crate::store::compaction::files_view;

verus! {

/// What the cache says of a key hash.
pub enum Cached<V> {
    /// The cached value.
    Value(V),
    /// The key was deleted, or its value is not cached.
    Missing,
    /// The key is not in the cache; the tables have to be searched.
    NotCached,
}

/// What a get finds in memory: the cached value, that the key is missing, or
/// that the tables have to be searched for this key hash.
pub enum Lookup<'a, V> {
    Found(&'a V),
    Missing,
    SearchTables([u8; 32]),
}

impl<K, V> Store<K, V> {
    /// What the cache says of the key with hash `kh`: graves first, then the
    /// cached keys and their values.
    pub open spec fn cached_lookup(&self, kh: Seq<u8>) -> Cached<V> {
        if self.grave_set().contains(kh) {
            Cached::Missing
        } else if self.key_map().contains_key(kh) {
            let vh = self.key_map()[kh].value_hash@;
            if self.value_map().contains_key(vh) {
                Cached::Value(self.value_map()[vh].value)
            } else {
                Cached::Missing
            }
        } else {
            Cached::NotCached
        }
    }
}

impl<K: IntoBytes, V> Store<K, V> {
    /// Looks a key up in memory.
    pub fn get(&self, key: &K) -> (r: Lookup<'_, V>)
        requires
            self.wf(),
        ensures
            match self.cached_lookup(fides_blake_3(key.spec_into_bytes())) {
                Cached::Value(v) => r is Found && *r->Found_0 == v,
                Cached::Missing => r is Missing,
                Cached::NotCached => r is SearchTables && r->SearchTables_0@ == fides_blake_3(
                    key.spec_into_bytes(),
                ),
            },
    {
        let key_bytes = key.into_bytes();
        let key_hash = fides_hash(key_bytes.as_slice());
        proof {
            lemma_sorted_unique(self.keys@);
            lemma_hash_map(self.keys@);
            lemma_hash_map(self.values@);
        }
        match find_grave(&self.graves, &key_hash) {
            Some(i) => {
                assert(self.graves@[i as int]@ == key_hash@);
                return Lookup::Missing;
            },
            None => {
                assert(!self.grave_set().contains(key_hash@)) by {
                    if self.grave_set().contains(key_hash@) {
                        let k = choose|k: int| 0 <= k < self.graves@.len() && (#[trigger] self.graves@[k])@ == key_hash@;
                        assert(self.graves@[k]@ != key_hash@);
                    }
                }
            },
        }
        let (j, found) = find_key(&self.keys, &key_hash);
        if !found {
            assert(!self.key_map().contains_key(key_hash@)) by {
                if self.key_map().contains_key(key_hash@) {
                    let k = choose|k: int| 0 <= k < self.keys@.len() && self.keys@[k].0@ == key_hash@;
                    if k < j {
                        lemma_irreflexive_at(self.keys@[k].0@);
                    } else if k > j {
                        crate::store::lemma_lex_total(self.keys@[j as int].0@, key_hash@);
                        crate::store::lemma_lex_asymmetric(self.keys@[j as int].0@, self.keys@[k].0@);
                    }
                }
            }
            return Lookup::SearchTables(key_hash);
        }
        let value_hash = &self.keys[j].1.value_hash;
        match find_entry(&self.values, value_hash) {
            Some(i) => Lookup::Found(&self.values[i].1.value),
            None => Lookup::Missing,
        }
    }
}

/// A read gives back a write: after a put of a key and value (and the
/// grave of the key removed, as a put ends), the cache gives for the key the
/// value put, or, when a value with the same hash was already cached, that
/// value.
pub proof fn lemma_put_then_get<K, V>(
    s1: Store<K, V>,
    s2: Store<K, V>,
    s3: Store<K, V>,
    kb: Seq<u8>,
    v: V,
    vb: Seq<u8>,
    log: Seq<u8>,
)
    requires
        s1.wf(),
        crate::store::put::put_relation(&s1, &s2, kb, v, vb, log),
        s3.grave_set() == s2.grave_set().remove(fides_blake_3(kb)),
        s3.keys == s2.keys,
        s3.values == s2.values,
    ensures
        s3.cached_lookup(fides_blake_3(kb)) == Cached::Value(
            if !s1.value_map().contains_key(fides_blake_3(vb)) {
                v
            } else {
                s1.value_map()[fides_blake_3(vb)].value
            },
        ),
        !s3.grave_set().contains(fides_blake_3(kb)),
{
    let kh = fides_blake_3(kb);
    let vh = fides_blake_3(vb);
    assert(s3.key_map() == s2.key_map());
    assert(s3.value_map() == s2.value_map());
    assert(s2.key_map().contains_key(kh));
    if s1.value_map().contains_key(vh) {
        assert(s2.value_map().contains_key(vh));
    } else {
        assert(s2.value_map() == s1.value_map().insert(vh, s2.value_map()[vh]));
    }
}

/// A deleted key is missing: after a delete, the cache gives nothing for it.
pub proof fn lemma_delete_then_get<K, V>(s1: Store<K, V>, s2: Store<K, V>, kb: Seq<u8>, log: Option<Seq<u8>>)
    requires
        s1.wf(),
        crate::store::delete::delete_relation(&s1, &s2, kb, log),
    ensures
        s2.cached_lookup(fides_blake_3(kb)) is Missing,
{
}

/// The latest put wins: after two puts of one key, each ended by removing
/// the key's grave, the cache gives for the key the value of the second put
/// (or, when a value with its hash was already cached, that value).
pub proof fn lemma_latest_put_wins<K, V>(
    s1: Store<K, V>,
    s2: Store<K, V>,
    s3: Store<K, V>,
    s4: Store<K, V>,
    s5: Store<K, V>,
    kb: Seq<u8>,
    v1: V,
    vb1: Seq<u8>,
    log1: Seq<u8>,
    v2: V,
    vb2: Seq<u8>,
    log2: Seq<u8>,
)
    requires
        s1.wf(),
        crate::store::put::put_relation(&s1, &s2, kb, v1, vb1, log1),
        s3.wf(),
        s3.grave_set() == s2.grave_set().remove(fides_blake_3(kb)),
        s3.keys == s2.keys,
        s3.values == s2.values,
        crate::store::put::put_relation(&s3, &s4, kb, v2, vb2, log2),
        s5.grave_set() == s4.grave_set().remove(fides_blake_3(kb)),
        s5.keys == s4.keys,
        s5.values == s4.values,
    ensures
        s5.cached_lookup(fides_blake_3(kb)) == Cached::Value(
            if !s3.value_map().contains_key(fides_blake_3(vb2)) {
                v2
            } else {
                s3.value_map()[fides_blake_3(vb2)].value
            },
        ),
{
    lemma_put_then_get(s3, s4, s5, kb, v2, vb2, log2);
}

/// A put undoes a delete: after a delete of a key and then a put of it
/// (ended by removing its grave), the cache gives for the key the value put
/// (or, when a value with its hash was already cached, that value).
pub proof fn lemma_put_after_delete<K, V>(
    s0: Store<K, V>,
    s1: Store<K, V>,
    s2: Store<K, V>,
    s3: Store<K, V>,
    kb: Seq<u8>,
    dlog: Option<Seq<u8>>,
    v: V,
    vb: Seq<u8>,
    log: Seq<u8>,
)
    requires
        s0.wf(),
        crate::store::delete::delete_relation(&s0, &s1, kb, dlog),
        crate::store::put::put_relation(&s1, &s2, kb, v, vb, log),
        s3.grave_set() == s2.grave_set().remove(fides_blake_3(kb)),
        s3.keys == s2.keys,
        s3.values == s2.values,
    ensures
        s3.cached_lookup(fides_blake_3(kb)) == Cached::Value(
            if !s1.value_map().contains_key(fides_blake_3(vb)) {
                v
            } else {
                s1.value_map()[fides_blake_3(vb)].value
            },
        ),
{
    lemma_put_then_get(s1, s2, s3, kb, v, vb, log);
}

/// A deleted key stays missing while other keys are put: after a delete of
/// a key and then a put of a key with another hash (ended by removing that
/// key's grave), the cache still gives nothing for the deleted key.
pub proof fn lemma_delete_survives_other_put<K, V>(
    s0: Store<K, V>,
    s1: Store<K, V>,
    s2: Store<K, V>,
    s3: Store<K, V>,
    kb: Seq<u8>,
    dlog: Option<Seq<u8>>,
    kb2: Seq<u8>,
    v: V,
    vb: Seq<u8>,
    log: Seq<u8>,
)
    requires
        s0.wf(),
        crate::store::delete::delete_relation(&s0, &s1, kb, dlog),
        crate::store::put::put_relation(&s1, &s2, kb2, v, vb, log),
        fides_blake_3(kb2) != fides_blake_3(kb),
        s3.grave_set() == s2.grave_set().remove(fides_blake_3(kb2)),
        s3.keys == s2.keys,
        s3.values == s2.values,
    ensures
        s3.cached_lookup(fides_blake_3(kb)) is Missing,
{
    assert(s1.grave_set().contains(fides_blake_3(kb)));
    assert(s3.grave_set().contains(fides_blake_3(kb)));
}

/// A deleted key stays missing across a flush: after a delete of a key and
/// then the emptying of the cache and the log that ends a flush, the cache
/// still gives nothing for the key (its grave is kept).
pub proof fn lemma_delete_survives_flush<K, V>(
    s0: Store<K, V>,
    s1: Store<K, V>,
    s2: Store<K, V>,
    kb: Seq<u8>,
    dlog: Option<Seq<u8>>,
)
    requires
        s0.wf(),
        crate::store::delete::delete_relation(&s0, &s1, kb, dlog),
        s2.graves == s1.graves,
        s2.keys@.len() == 0,
        s2.values@.len() == 0,
    ensures
        s2.cached_lookup(fides_blake_3(kb)) is Missing,
{
    assert(s1.grave_set().contains(fides_blake_3(kb)));
    assert(s2.grave_set() == s1.grave_set());
}

/// A read is kept by a put of another key: when the cache gives a value for
/// a key, a put of a key with another hash that ends without a flush (its
/// grave removed, the cache kept) leaves the cache giving that value.
pub proof fn lemma_other_put_keeps_read<K, V>(
    s1: Store<K, V>,
    s2: Store<K, V>,
    s3: Store<K, V>,
    kh: Seq<u8>,
    v: V,
    kb2: Seq<u8>,
    v2: V,
    vb2: Seq<u8>,
    log: Seq<u8>,
)
    requires
        s1.wf(),
        s1.cached_lookup(kh) == Cached::Value(v),
        crate::store::put::put_relation(&s1, &s2, kb2, v2, vb2, log),
        fides_blake_3(kb2) != kh,
        s3.grave_set() == s2.grave_set().remove(fides_blake_3(kb2)),
        s3.keys == s2.keys,
        s3.values == s2.values,
    ensures
        s3.cached_lookup(kh) == Cached::Value(v),
{
    let vh = s1.key_map()[kh].value_hash@;
    assert(s3.key_map() == s2.key_map());
    assert(s3.value_map() == s2.value_map());
    assert(s2.key_map()[kh] == s1.key_map()[kh]);
    if !s1.value_map().contains_key(fides_blake_3(vb2)) {
        assert(vh != fides_blake_3(vb2));
        assert(s2.value_map()[vh] == s1.value_map()[vh]);
    }
}

/// A read is kept by a delete of another key: when the cache gives a value
/// for a key, a delete of a key with another hash leaves the cache giving
/// that value.
pub proof fn lemma_other_delete_keeps_read<K, V>(
    s1: Store<K, V>,
    s2: Store<K, V>,
    kh: Seq<u8>,
    v: V,
    kb2: Seq<u8>,
    dlog: Option<Seq<u8>>,
)
    requires
        s1.wf(),
        s1.cached_lookup(kh) == Cached::Value(v),
        crate::store::delete::delete_relation(&s1, &s2, kb2, dlog),
        fides_blake_3(kb2) != kh,
    ensures
        s2.cached_lookup(kh) == Cached::Value(v),
{
    assert(s2.key_map() == s1.key_map());
    assert(s2.value_map() == s1.value_map());
}

proof fn lemma_irreflexive_at(a: Seq<u8>)
    ensures
        !lex_lt(a, a),
{
    crate::store::lemma_lex_irreflexive(a);
}

/// The state of a binary search of a table's index for a key hash: the
/// lowest and highest entry numbers still possible.
pub struct TableSearch {
    pub low: u64,
    pub high: u64,
}

impl TableSearch {
    /// A search of a table with `key_count` keys, from entry 0 to entry
    /// `key_count`.
    pub fn new(key_count: u64) -> (r: TableSearch)
        ensures
            r.low == 0,
            r.high == key_count,
    {
        TableSearch { low: 0, high: key_count }
    }

    /// The entry to compare next: the middle of the range.
    pub open spec fn mid(&self) -> int {
        self.low + (self.high - self.low) / 2
    }

    /// The position of the next entry's key hash in the table, or `None`
    /// when the range is empty. Requires that the position does not
    /// overflow.
    pub fn probe(&self, index_position: u64) -> (r: Option<u64>)
        requires
            self.low <= self.high ==> index_position + self.mid() * KEY_INDEX_SIZE <= u64::MAX,
        ensures
            self.low > self.high ==> r is None,
            self.low <= self.high ==> r == Some((index_position + self.mid() * KEY_INDEX_SIZE) as u64),
    {
        if self.low <= self.high {
            let mid = self.low + (self.high - self.low) / 2;
            assert(mid * KEY_INDEX_SIZE <= u64::MAX);
            Some(index_position + mid * KEY_INDEX_SIZE)
        } else {
            None
        }
    }

    /// Compares the key hash with the entry's key hash: `true` when they are
    /// equal, else narrows the range to the side where the key hash would be.
    /// When that side is empty below entry 0 or past the largest entry
    /// number, the range becomes empty and the search ends without the key.
    pub fn step(&mut self, key_hash: &[u8; 32], table_key_hash: &[u8; 32]) -> (r: bool)
        requires
            old(self).low <= old(self).high,
        ensures
            r == (key_hash@ == table_key_hash@),
            r ==> *final(self) == *old(self),
            lex_lt(table_key_hash@, key_hash@) && old(self).mid() < u64::MAX ==> final(self).low == old(self).mid() + 1
                && final(self).high == old(self).high,
            lex_lt(key_hash@, table_key_hash@) && old(self).mid() > 0 ==> final(self).high == old(self).mid() - 1
                && final(self).low == old(self).low,
            !r && (lex_lt(table_key_hash@, key_hash@) ==> old(self).mid() == u64::MAX) && (lex_lt(
                key_hash@,
                table_key_hash@,
            ) ==> old(self).mid() == 0) ==> final(self).low > final(self).high,
    {
        let mid = self.low + (self.high - self.low) / 2;
        match compare_hashes(key_hash, table_key_hash) {
            HashOrder::Equal => true,
            HashOrder::Greater => {
                if mid < u64::MAX {
                    self.low = mid + 1;
                } else {
                    self.low = 1;
                    self.high = 0;
                }
                false
            },
            HashOrder::Less => {
                if mid > 0 {
                    self.high = mid - 1;
                } else {
                    self.low = 1;
                    self.high = 0;
                }
                false
            },
        }
    }
}

/// What the index entry at `entry` of a table's bytes points to: the value
/// bytes of the value entry at the entry's value position (after the
/// value's hash and eight-byte length), or an error where they lie past the
/// end.
pub open spec fn entry_value(t: Seq<u8>, entry: int) -> Decoded<Option<Seq<u8>>> {
    if entry + 56 > t.len() {
        Decoded::Invalid(NeutronError::UnexpectedEnd)
    } else {
        let vp = from_le(t.subrange(entry + 48, entry + 56)) as int;
        if vp + 40 > t.len() {
            Decoded::Invalid(NeutronError::UnexpectedEnd)
        } else {
            let vs = from_le(t.subrange(vp + 32, vp + 40)) as int;
            if vp + 40 + vs > t.len() {
                Decoded::Invalid(NeutronError::UnexpectedEnd)
            } else {
                Decoded::Value(Some(t.subrange(vp + 40, vp + 40 + vs)))
            }
        }
    }
}

/// The key hash of the `i`th index entry of a table whose index starts at
/// `ip`.
pub open spec fn index_hash(t: Seq<u8>, ip: int, i: int) -> Seq<u8> {
    t.subrange(ip + i * 56, ip + i * 56 + 32)
}

/// What a binary search of a table's index for the key hash `kh` gives,
/// between entries `low` and `high`: the value of the entry with the hash,
/// `None` when the range empties, or an error where a read lies past the end.
pub open spec fn search_from(t: Seq<u8>, ip: int, low: int, high: int, kh: Seq<u8>) -> Decoded<Option<Seq<u8>>>
    decreases high - low + 1,
{
    if low > high || low < 0 {
        Decoded::Value(None)
    } else {
        let mid = low + (high - low) / 2;
        let p = ip + mid * 56;
        if p + 32 > t.len() {
            Decoded::Invalid(NeutronError::UnexpectedEnd)
        } else if index_hash(t, ip, mid) == kh {
            entry_value(t, p)
        } else if lex_lt(index_hash(t, ip, mid), kh) {
            if mid >= u64::MAX {
                Decoded::Value(None)
            } else {
                search_from(t, ip, mid + 1, high, kh)
            }
        } else if mid == 0 {
            Decoded::Value(None)
        } else {
            search_from(t, ip, low, mid - 1, kh)
        }
    }
}

/// Searches the bytes of a table, whose index of `key_count` entries starts
/// at `index_position`, for a key hash: the value bytes of its entry,
/// `None` when the search ends without it, or an error where a read lies
/// past the end of the bytes. Requires that the positions fit in 64 bits.
pub fn search_table(table: &Vec<u8>, index_position: u64, key_count: u64, key_hash: &[u8; 32]) -> (r: Result<
    Option<Vec<u8>>,
    NeutronError,
>)
    requires
        index_position + key_count * 56 + 56 <= u64::MAX,
    ensures
        match search_from(table@, index_position as int, 0, key_count as int, key_hash@) {
            Decoded::Value(Some(v)) => r is Ok && r->Ok_0 is Some && r->Ok_0->0@ == v,
            Decoded::Value(None) => r == Ok::<Option<Vec<u8>>, NeutronError>(None),
            Decoded::Invalid(e) => r == Err::<Option<Vec<u8>>, NeutronError>(e),
            Decoded::Panics => false,
        },
{
    let ghost goal = search_from(table@, index_position as int, 0, key_count as int, key_hash@);
    let len = table.len();
    let mut search = TableSearch::new(key_count);
    loop
        invariant
            len == table@.len(),
            search.high <= key_count,
            index_position + key_count * 56 + 56 <= u64::MAX,
            search_from(table@, index_position as int, search.low as int, search.high as int, key_hash@) == goal,
            goal == search_from(table@, index_position as int, 0, key_count as int, key_hash@),
        decreases search.high - search.low + 1,
    {
        let p = match search.probe(index_position) {
            Some(p) => p,
            None => {
                return Ok(None);
            },
        };
        let ghost mid = search.mid();
        if p > len as u64 || (len as u64) - p < 32 {
            return Err(NeutronError::UnexpectedEnd);
        }
        let pu = p as usize;
        let table_key_hash = read_hash(table.as_slice(), pu);
        assert(table_key_hash@ == index_hash(table@, index_position as int, mid));
        let ghost lo = search.low as int;
        let ghost hi = search.high as int;
        proof {
            lemma_lex_irreflexive(key_hash@);
            if lex_lt(key_hash@, table_key_hash@) {
                lemma_lex_asymmetric(key_hash@, table_key_hash@);
            }
            if lex_lt(table_key_hash@, key_hash@) {
                lemma_lex_asymmetric(table_key_hash@, key_hash@);
            }
            crate::store::lemma_lex_total(key_hash@, table_key_hash@);
        }
        if search.step(key_hash, &table_key_hash) {
            return read_entry_value(table, p);
        }
        if search.low > search.high {
            assert(search_from(table@, index_position as int, lo, hi, key_hash@) == Decoded::<Option<Seq<u8>>>::Value(None));
            return Ok(None);
        }
    }
}

/// What searching the tables from the `i`th on, in order, for a key hash
/// gives: the value of the first table that has the key, nothing when none
/// has it, or the first error.
pub open spec fn tables_search(tables: Seq<Table>, files: Seq<Seq<u8>>, kh: Seq<u8>, i: int) -> Decoded<
    Option<Seq<u8>>,
>
    decreases tables.len() - i,
{
    if i < 0 || i >= tables.len() {
        Decoded::Value(None)
    } else {
        match search_from(files[i], tables[i].index_position as int, 0, tables[i].key_count as int, kh) {
            Decoded::Value(None) => tables_search(tables, files, kh, i + 1),
            d => d,
        }
    }
}

impl<K, V> Store<K, V> {
    /// Searches the store's tables, in their order (newest first), for a key
    /// hash, given the bytes of each table: the value bytes of the first
    /// table that has the key, `NotFound` when none has it, or the error of
    /// a table whose bytes end early. Requires that each table's index
    /// positions fit in 64 bits.
    pub fn get_from_tables(&self, key_hash: &[u8; 32], files: &Vec<Vec<u8>>) -> (r: Result<Vec<u8>, NeutronError>)
        requires
            files@.len() == self.tables@.len(),
            forall|i: int|
                0 <= i < self.tables@.len() ==> (#[trigger] self.tables@[i]).index_position + self.tables@[i].key_count
                    * 56 + 56 <= u64::MAX,
        ensures
            match tables_search(self.tables@, files_view(files@), key_hash@, 0) {
                Decoded::Value(Some(v)) => r is Ok && r->Ok_0@ == v,
                Decoded::Value(None) => r == Err::<Vec<u8>, NeutronError>(NeutronError::NotFound),
                Decoded::Invalid(e) => r == Err::<Vec<u8>, NeutronError>(e),
                Decoded::Panics => false,
            },
    {
        let ghost fv = files_view(files@);
        let ghost goal = tables_search(self.tables@, fv, key_hash@, 0);
        let mut i: usize = 0;
        while i < self.tables.len()
            invariant
                i <= self.tables@.len(),
                files@.len() == self.tables@.len(),
                fv == files_view(files@),
                forall|k: int|
                    0 <= k < self.tables@.len() ==> (#[trigger] self.tables@[k]).index_position
                        + self.tables@[k].key_count * 56 + 56 <= u64::MAX,
                tables_search(self.tables@, fv, key_hash@, i as int) == goal,
                goal == tables_search(self.tables@, files_view(files@), key_hash@, 0),
            decreases self.tables@.len() - i,
        {
            let t = &self.tables[i];
            assert(t.index_position + t.key_count * 56 + 56 <= u64::MAX);
            assert(fv[i as int] == files@[i as int]@);
            let ghost d = search_from(fv[i as int], t.index_position as int, 0, t.key_count as int, key_hash@);
            assert(tables_search(self.tables@, fv, key_hash@, i as int) == match d {
                Decoded::Value(None) => tables_search(self.tables@, fv, key_hash@, i + 1),
                _ => d,
            });
            match search_table(&files[i], t.index_position, t.key_count, key_hash) {
                Ok(Some(v)) => {
                    assert(d == Decoded::Value(Some(v@)));
                    assert(goal == d);
                    return Ok(v);
                },
                Ok(None) => {},
                Err(e) => {
                    assert(d == Decoded::<Option<Seq<u8>>>::Invalid(e));
                    assert(goal == d);
                    return Err(e);
                },
            }
            i = i + 1;
        }
        Err(NeutronError::NotFound)
    }
}

/// Reads the value that the index entry at `entry` points to.
fn read_entry_value(table: &Vec<u8>, entry: u64) -> (r: Result<Option<Vec<u8>>, NeutronError>)
    ensures
        match entry_value(table@, entry as int) {
            Decoded::Value(Some(v)) => r is Ok && r->Ok_0 is Some && r->Ok_0->0@ == v,
            Decoded::Value(None) => r == Ok::<Option<Vec<u8>>, NeutronError>(None),
            Decoded::Invalid(e) => r == Err::<Option<Vec<u8>>, NeutronError>(e),
            Decoded::Panics => false,
        },
{
    let len = table.len() as u64;
    if entry > len || len - entry < 56 {
        return Err(NeutronError::UnexpectedEnd);
    }
    let vp = read_u64(table.as_slice(), (entry + 48) as usize);
    if vp > len || len - vp < 40 {
        return Err(NeutronError::UnexpectedEnd);
    }
    let vs = read_u64(table.as_slice(), (vp + 32) as usize);
    if vs > len - vp - 40 {
        return Err(NeutronError::UnexpectedEnd);
    }
    let start = (vp + 40) as usize;
    Ok(Some(copy_range(table.as_slice(), start, start + vs as usize)))
}

/// The index of a table lists `n` key hashes in strictly increasing order.
pub open spec fn index_sorted(t: Seq<u8>, ip: int, n: int) -> bool {
    &&& 0 <= ip
    &&& ip + n * 56 <= t.len()
    &&& forall|i: int, j: int| 0 <= i < j < n ==> lex_lt(#[trigger] index_hash(t, ip, i), #[trigger] index_hash(t, ip, j))
}

/// A search finds what the index lists: when the index lists its key hashes
/// in order and its `j`th entry has the key hash, the search from the whole
/// range (entry 0 to the key count, as a table search starts) gives what
/// that entry points to.
pub proof fn lemma_search_finds_entry(t: Seq<u8>, ip: int, n: int, j: int, kh: Seq<u8>)
    requires
        index_sorted(t, ip, n),
        0 <= j < n <= u64::MAX,
        index_hash(t, ip, j) == kh,
    ensures
        search_from(t, ip, 0, n, kh) == entry_value(t, ip + j * 56),
{
    lemma_search_range(t, ip, n, j, kh, 0, n);
}

proof fn lemma_search_range(t: Seq<u8>, ip: int, n: int, j: int, kh: Seq<u8>, low: int, high: int)
    requires
        index_sorted(t, ip, n),
        0 <= j < n <= u64::MAX,
        index_hash(t, ip, j) == kh,
        0 <= low <= j <= high <= n,
    ensures
        search_from(t, ip, low, high, kh) == entry_value(t, ip + j * 56),
    decreases high - low,
{
    let mid = low + (high - low) / 2;
    assert(low <= mid <= high);
    assert(mid < n);
    assert(ip + mid * 56 + 32 <= ip + n * 56) by (nonlinear_arith)
        requires
            mid < n,
    ;
    if mid == j {
    } else if mid < j {
        assert(lex_lt(index_hash(t, ip, mid), kh));
        lemma_lex_irreflexive(kh);
        lemma_search_range(t, ip, n, j, kh, mid + 1, high);
    } else {
        assert(lex_lt(kh, index_hash(t, ip, mid)));
        lemma_lex_asymmetric(kh, index_hash(t, ip, mid));
        lemma_lex_irreflexive(kh);
        lemma_search_range(t, ip, n, j, kh, low, mid - 1);
    }
}

} // verus!
