//! Flushing the cache to a level-1 table: the table's bytes, laid out from
//! the cached keys (in hash order), the cached values and the log.
use vstd::prelude::*;
use crate::bytes::{le_bytes, push_le, push_all, copy_range};
use crate::error::NeutronError;
use crate::store::{
    Store, Table, KeyObject, ValueObject, KEY_INDEX_SIZE, TABLE_HEADER_SIZE, hash_map, hashes_unique,
    find_entry, lemma_hash_map, lemma_hash_map_insert, lemma_sorted_unique, keys_sorted,
};
use crate::store::put::push_hash;
use crate::store::new::{sort_tables, sort_by_name};
use crate::store::get::{search_from, entry_value, index_hash, index_sorted, lemma_search_finds_entry};
use crate::store::lex_lt;
use crate::hashes::fides_blake_3;
use crate::bytes::from_le;
use crate::linked_list::Decoded;

verus! {

/// The running state of laying out a table from the cached keys: the next
/// key's position and the next value's position in their areas, the index
/// entries (key hash, key position, key size, value position), the position
/// given to each value hash, the total key size, and the value hashes in the
/// order of their data.
pub struct FlushScan {
    pub key_position: nat,
    pub value_position: nat,
    pub index: Seq<(Seq<u8>, nat, nat, nat)>,
    pub positions: Map<Seq<u8>, nat>,
    pub keys_size: nat,
    pub order: Seq<Seq<u8>>,
}

/// Lays out the keys in order. Every key counts towards the key size; a key
/// whose value is neither placed nor cached gets no index entry; a value is
/// placed once, at its first key.
pub open spec fn flush_scan<V>(keys: Seq<([u8; 32], KeyObject)>, values: Map<Seq<u8>, ValueObject<V>>) -> FlushScan
    decreases keys.len(),
{
    if keys.len() == 0 {
        FlushScan {
            key_position: 0,
            value_position: 0,
            index: Seq::empty(),
            positions: Map::empty(),
            keys_size: 0,
            order: Seq::empty(),
        }
    } else {
        let sc = flush_scan(keys.drop_last(), values);
        let kh = keys.last().0@;
        let ko = keys.last().1;
        let vh = ko.value_hash@;
        let ks = sc.keys_size + (ko.key_size as nat);
        if sc.positions.contains_key(vh) {
            FlushScan {
                key_position: sc.key_position + 8 + (ko.key_size as nat),
                index: sc.index.push((kh, sc.key_position, ko.key_size as nat, sc.positions[vh])),
                keys_size: ks,
                ..sc
            }
        } else if values.contains_key(vh) {
            FlushScan {
                key_position: sc.key_position + 8 + (ko.key_size as nat),
                value_position: sc.value_position + (values[vh].value_size as nat),
                index: sc.index.push((kh, sc.key_position, ko.key_size as nat, sc.value_position)),
                positions: sc.positions.insert(vh, sc.value_position),
                keys_size: ks,
                order: sc.order.push(vh),
            }
        } else {
            FlushScan { keys_size: ks, ..sc }
        }
    }
}

/// The bytes of the index entries, with key positions counted from
/// `keys_position` and value positions from `values_position`.
pub open spec fn index_bytes(index: Seq<(Seq<u8>, nat, nat, nat)>, keys_position: nat, values_position: nat) -> Seq<u8>
    decreases index.len(),
{
    if index.len() == 0 {
        Seq::empty()
    } else {
        let e = index.last();
        index_bytes(index.drop_last(), keys_position, values_position) + e.0 + le_bytes(e.1 + keys_position, 8)
            + le_bytes(e.2, 8) + le_bytes(values_position + e.3, 8)
    }
}

/// The bytes of every cached key, read from the log.
pub open spec fn key_data(keys: Seq<([u8; 32], KeyObject)>, log: Seq<u8>) -> Seq<u8>
    decreases keys.len(),
{
    if keys.len() == 0 {
        Seq::empty()
    } else {
        let ko = keys.last().1;
        key_data(keys.drop_last(), log) + log.subrange(
            ko.key_log_position as int,
            ko.key_log_position + ko.key_size,
        )
    }
}

/// The log entries of the placed values, in order.
pub open spec fn value_data<V>(order: Seq<Seq<u8>>, values: Map<Seq<u8>, ValueObject<V>>, log: Seq<u8>) -> Seq<u8>
    decreases order.len(),
{
    if order.len() == 0 {
        Seq::empty()
    } else {
        let vo = values[order.last()];
        value_data(order.drop_last(), values, log) + log.subrange(
            vo.value_log_position as int,
            vo.value_log_position + vo.value_size,
        )
    }
}

/// Every cached key's bytes lie inside the log.
pub open spec fn keys_in_log(keys: Seq<([u8; 32], KeyObject)>, log: Seq<u8>) -> bool {
    forall|i: int| 0 <= i < keys.len() ==> (#[trigger] keys[i]).1.key_log_position + keys[i].1.key_size <= log.len()
}

/// Every placed value's log entry lies inside the log.
pub open spec fn values_in_log<V>(order: Seq<Seq<u8>>, values: Map<Seq<u8>, ValueObject<V>>, log: Seq<u8>) -> bool {
    forall|i: int|
        0 <= i < order.len() ==> values[#[trigger] order[i]].value_log_position + values[order[i]].value_size
            <= log.len()
}

/// The header's positions of a flushed table: index position, index size,
/// key data position and value data position.
pub open spec fn flush_positions(bloom_len: nat, key_count: nat, keys_size: nat) -> (nat, nat, nat, nat) {
    let ip = 25 + bloom_len;
    let isz = key_count * 56;
    let kp = ip + isz;
    (ip, isz, kp, kp + keys_size)
}

/// The bytes of the table that a flush writes.
pub open spec fn flush_bytes<V>(
    keys: Seq<([u8; 32], KeyObject)>,
    values: Map<Seq<u8>, ValueObject<V>>,
    bloom: Seq<u8>,
    log: Seq<u8>,
) -> Seq<u8> {
    let sc = flush_scan(keys, values);
    let (ip, isz, kp, vp) = flush_positions(bloom.len(), keys.len(), sc.keys_size);
    seq![1u8] + le_bytes(keys.len(), 8) + le_bytes(ip, 8) + le_bytes(kp, 8) + bloom + index_bytes(sc.index, kp, vp)
        + key_data(keys, log) + value_data(sc.order, values, log)
}

/// A flushed table's bytes and header fields.
pub struct FlushedTable {
    pub bytes: Vec<u8>,
    pub key_count: u64,
    pub index_position: u64,
    pub keys_position: u64,
}

/// Laying out a prefix of the keys gives positions and sizes no larger than
/// laying out all of them, and every index entry lies within them.
proof fn lemma_flush_scan_bounds<V>(keys: Seq<([u8; 32], KeyObject)>, values: Map<Seq<u8>, ValueObject<V>>, j: int)
    requires
        0 <= j <= keys.len(),
    ensures
        flush_scan(keys.subrange(0, j), values).key_position <= flush_scan(keys, values).key_position,
        flush_scan(keys.subrange(0, j), values).value_position <= flush_scan(keys, values).value_position,
        flush_scan(keys.subrange(0, j), values).keys_size <= flush_scan(keys, values).keys_size,
    decreases keys.len(),
{
    if keys.len() > 0 {
        let k2 = keys.drop_last();
        if j < keys.len() {
            assert(k2.subrange(0, j) =~= keys.subrange(0, j));
            lemma_flush_scan_bounds(k2, values, j);
        } else {
            assert(keys.subrange(0, j) =~= keys);
        }
        lemma_flush_scan_bounds(k2, values, k2.len() as int);
        assert(k2.subrange(0, k2.len() as int) =~= k2);
    } else {
        assert(keys.subrange(0, j) =~= keys);
    }
}

/// Every index entry lies within the laid-out areas, every placed position
/// is within the value area, and every placed value is cached.
proof fn lemma_scan_facts<V>(keys: Seq<([u8; 32], KeyObject)>, values: Map<Seq<u8>, ValueObject<V>>)
    ensures
        ({
            let sc = flush_scan(keys, values);
            &&& forall|i: int|
                0 <= i < sc.index.len() ==> (#[trigger] sc.index[i]).1 + 8 + sc.index[i].2 <= sc.key_position
                    && sc.index[i].3 <= sc.value_position
            &&& forall|h: Seq<u8>| #[trigger] sc.positions.contains_key(h) ==> sc.positions[h] <= sc.value_position
            &&& forall|j: int| 0 <= j < sc.order.len() ==> values.contains_key(#[trigger] sc.order[j])
        }),
    decreases keys.len(),
{
    if keys.len() > 0 {
        let k2 = keys.drop_last();
        lemma_scan_facts(k2, values);
        let sc = flush_scan(k2, values);
        let sc2 = flush_scan(keys, values);
        assert forall|i: int| 0 <= i < sc2.index.len() implies (#[trigger] sc2.index[i]).1 + 8 + sc2.index[i].2
            <= sc2.key_position && sc2.index[i].3 <= sc2.value_position by {
            if i < sc.index.len() {
                assert(sc2.index[i] == sc.index[i]);
            }
        }
        assert forall|j: int| 0 <= j < sc2.order.len() implies values.contains_key(#[trigger] sc2.order[j]) by {
            if j < sc.order.len() {
                assert(sc2.order[j] == sc.order[j]);
            }
        }
    }
}

/// The index entries as numbers.
pub open spec fn index_view(index: Seq<([u8; 32], u64, u64, u64)>) -> Seq<(Seq<u8>, nat, nat, nat)> {
    index.map_values(|e: ([u8; 32], u64, u64, u64)| (e.0@, e.1 as nat, e.2 as nat, e.3 as nat))
}

impl<K, V> Store<K, V> {
    /// The bytes of the level-1 table that flushing the cache writes, given
    /// the bytes of its bloom filter and of the log: the header, the bloom
    /// filter, the index of the keys whose value is cached, the bytes of
    /// every cached key and the entries of the placed values. An error when
    /// a key or value lies past the end of the log. Requires that the
    /// table's positions fit in 64 bits.
    pub fn flush_table(&self, bloom_filter: &Vec<u8>, log: &Vec<u8>) -> (r: Result<FlushedTable, NeutronError>)
        requires
            self.wf(),
            ({
                let sc = flush_scan(self.keys@, self.value_map());
                let pos = flush_positions(bloom_filter@.len(), self.keys@.len(), sc.keys_size);
                pos.3 + sc.key_position + sc.value_position <= u64::MAX
            }),
        ensures
            ({
                let sc = flush_scan(self.keys@, self.value_map());
                let pos = flush_positions(bloom_filter@.len(), self.keys@.len(), sc.keys_size);
                &&& (keys_in_log(self.keys@, log@) && values_in_log(sc.order, self.value_map(), log@)) ==> {
                    &&& r is Ok
                    &&& r->Ok_0.bytes@ == flush_bytes(self.keys@, self.value_map(), bloom_filter@, log@)
                    &&& r->Ok_0.key_count == self.keys@.len()
                    &&& r->Ok_0.index_position == pos.0
                    &&& r->Ok_0.keys_position == pos.2
                }
                &&& !(keys_in_log(self.keys@, log@) && values_in_log(sc.order, self.value_map(), log@)) ==> r
                    == Err::<FlushedTable, NeutronError>(NeutronError::UnexpectedEnd)
            }),
    {
        let ghost keys = self.keys@;
        let ghost vm = self.value_map();
        let ghost full = flush_scan(keys, vm);
        proof {
            lemma_hash_map(self.values@);
            lemma_scan_facts(keys, vm);
            lemma_flush_scan_bounds(keys, vm, keys.len() as int);
            assert(keys.subrange(0, keys.len() as int) =~= keys);
        }
        let mut key_position: u64 = 0;
        let mut value_position: u64 = 0;
        let mut index: Vec<([u8; 32], u64, u64, u64)> = Vec::new();
        let mut positions: Vec<([u8; 32], u64)> = Vec::new();
        let mut keys_size: u64 = 0;
        let mut order: Vec<[u8; 32]> = Vec::new();
        let mut i: usize = 0;
        proof {
            assert(keys.subrange(0, 0) =~= Seq::<([u8; 32], KeyObject)>::empty());
            assert(hash_map(positions@).map_values(|v: u64| v as nat) =~= Map::<Seq<u8>, nat>::empty());
            assert(index_view(index@) =~= Seq::<(Seq<u8>, nat, nat, nat)>::empty());
            assert(order@.map_values(|h: [u8; 32]| h@) =~= Seq::<Seq<u8>>::empty());
        }
        while i < self.keys.len()
            invariant
                self.wf(),
                keys == self.keys@,
                vm == self.value_map(),
                full == flush_scan(keys, vm),
                hashes_unique(self.values@),
                forall|k: int|
                    0 <= k < self.values@.len() ==> #[trigger] vm.contains_key(self.values@[k].0@) && vm[self.values@[k].0@]
                        == self.values@[k].1,
                i <= keys.len(),
                full.key_position + full.value_position + full.keys_size <= u64::MAX,
                ({
                    let sc = flush_scan(keys.subrange(0, i as int), vm);
                    &&& key_position == sc.key_position
                    &&& value_position == sc.value_position
                    &&& keys_size == sc.keys_size
                    &&& index_view(index@) == sc.index
                    &&& hashes_unique(positions@)
                    &&& hash_map(positions@).map_values(|v: u64| v as nat) == sc.positions
                    &&& order@.map_values(|h: [u8; 32]| h@) == sc.order
                }),
            decreases keys.len() - i,
        {
            let ghost prev = keys.subrange(0, i as int);
            let ghost sc = flush_scan(prev, vm);
            proof {
                lemma_flush_scan_bounds(keys, vm, i + 1);
                assert(keys.subrange(0, i + 1).drop_last() =~= prev);
                lemma_hash_map(positions@);
            }
            let ko = &self.keys[i].1;
            let kh = self.keys[i].0;
            let vh = ko.value_hash;
            keys_size = keys_size + ko.key_size as u64;
            let ghost old_positions = positions@;
            let mut placed: Option<u64> = None;
            match find_entry(&positions, &vh) {
                Some(j) => {
                    placed = Some(positions[j].1);
                    assert(sc.positions.contains_key(vh@));
                },
                None => {
                    assert(!sc.positions.contains_key(vh@)) by {
                        if sc.positions.contains_key(vh@) {
                            assert(hash_map(positions@).contains_key(vh@));
                        }
                    }
                    match find_entry(&self.values, &vh) {
                        Some(j) => {
                            let cur = value_position;
                            order.push(vh);
                            proof {
                                lemma_hash_map_insert(old_positions, old_positions.len() as int, (vh, cur));
                                assert(old_positions.push((vh, cur)) == old_positions.insert(old_positions.len() as int, (vh, cur)));
                            }
                            positions.push((vh, cur));
                            value_position = value_position + self.values[j].1.value_size as u64;
                            placed = Some(cur);
                            proof {
                                assert(hash_map(positions@).map_values(|v: u64| v as nat) =~= sc.positions.insert(vh@, cur as nat));
                            }
                        },
                        None => {
                            assert(!vm.contains_key(vh@)) by {
                                if vm.contains_key(vh@) {
                                    crate::store::lemma_hash_map(self.values@);
                                    let k = choose|k: int| 0 <= k < self.values@.len() && self.values@[k].0@ == vh@;
                                }
                            }
                        },
                    }
                },
            }
            match placed {
                Some(vp) => {
                    index.push((kh, key_position, ko.key_size as u64, vp));
                    key_position = key_position + 8 + ko.key_size as u64;
                },
                None => {},
            }
            proof {
                let sc2 = flush_scan(keys.subrange(0, i + 1), vm);
                assert(index_view(index@) =~= sc2.index);
                assert(order@.map_values(|h: [u8; 32]| h@) =~= sc2.order);
            }
            i = i + 1;
        }
        assert(keys.subrange(0, i as int) =~= keys);
        // the header
        let key_count = self.keys.len() as u64;
        let index_position: u64 = TABLE_HEADER_SIZE + bloom_filter.len() as u64;
        let index_size: u64 = key_count * KEY_INDEX_SIZE;
        let keys_position: u64 = index_position + index_size;
        let values_position: u64 = keys_position + keys_size;
        let mut out: Vec<u8> = Vec::new();
        out.push(1u8);
        push_le(&mut out, key_count as u128, 8);
        push_le(&mut out, index_position as u128, 8);
        push_le(&mut out, keys_position as u128, 8);
        push_all(&mut out, bloom_filter.as_slice());
        let ghost header = out@;
        // the index
        let mut k: usize = 0;
        proof {
            assert(index_view(index@).subrange(0, 0) =~= Seq::<(Seq<u8>, nat, nat, nat)>::empty());
        }
        while k < index.len()
            invariant
                k <= index@.len(),
                index_view(index@) == full.index,
                forall|m: int|
                    0 <= m < full.index.len() ==> (#[trigger] full.index[m]).1 + 8 + full.index[m].2 <= full.key_position
                        && full.index[m].3 <= full.value_position,
                values_position as nat + full.key_position + full.value_position <= u64::MAX,
                keys_position <= values_position,
                out@ == header + index_bytes(index_view(index@).subrange(0, k as int), keys_position as nat, values_position as nat),
            decreases index@.len() - k,
        {
            let e = &index[k];
            assert(index_view(index@)[k as int] == (e.0@, e.1 as nat, e.2 as nat, e.3 as nat));
            push_hash(&mut out, &e.0);
            push_le(&mut out, (e.1 + keys_position) as u128, 8);
            push_le(&mut out, e.2 as u128, 8);
            push_le(&mut out, (values_position + e.3) as u128, 8);
            proof {
                assert(index_view(index@).subrange(0, k + 1).drop_last() =~= index_view(index@).subrange(0, k as int));
                assert(out@ =~= header + index_bytes(index_view(index@).subrange(0, k + 1), keys_position as nat, values_position as nat));
            }
            k = k + 1;
        }
        assert(index_view(index@).subrange(0, k as int) =~= full.index);
        let ghost with_index = out@;
        // the keys' bytes
        let mut m: usize = 0;
        let log_len = log.len();
        proof {
            assert(keys.subrange(0, 0) =~= Seq::<([u8; 32], KeyObject)>::empty());
        }
        while m < self.keys.len()
            invariant
                m <= keys.len(),
                keys == self.keys@,
                log_len == log@.len(),
                forall|j: int| 0 <= j < m ==> (#[trigger] keys[j]).1.key_log_position + keys[j].1.key_size <= log@.len(),
                out@ == with_index + key_data(keys.subrange(0, m as int), log@),
            decreases keys.len() - m,
        {
            let ko = &self.keys[m].1;
            if ko.key_log_position > log_len as u64 || ko.key_size as u64 > log_len as u64 - ko.key_log_position {
                assert(!keys_in_log(keys, log@)) by {
                    assert(keys[m as int].1 == *ko);
                }
                return Err(NeutronError::UnexpectedEnd);
            }
            let start = ko.key_log_position as usize;
            let bytes = copy_range(log.as_slice(), start, start + ko.key_size);
            push_all(&mut out, bytes.as_slice());
            proof {
                assert(keys.subrange(0, m + 1).drop_last() =~= keys.subrange(0, m as int));
                assert(out@ =~= with_index + key_data(keys.subrange(0, m + 1), log@));
            }
            m = m + 1;
        }
        assert(keys.subrange(0, m as int) =~= keys);
        assert(keys_in_log(keys, log@));
        let ghost with_keys = out@;
        // the values' entries
        let mut n: usize = 0;
        let ghost ord = order@.map_values(|h: [u8; 32]| h@);
        proof {
            assert(ord.subrange(0, 0) =~= Seq::<Seq<u8>>::empty());
            crate::store::lemma_hash_map(self.values@);
        }
        while n < order.len()
            invariant
                n <= order@.len(),
                ord == order@.map_values(|h: [u8; 32]| h@),
                ord == full.order,
                full == flush_scan(keys, vm),
                keys == self.keys@,
                keys_in_log(keys, log@),
                log_len == log@.len(),
                vm == self.value_map(),
                hashes_unique(self.values@),
                forall|k: int|
                    0 <= k < self.values@.len() ==> #[trigger] vm.contains_key(self.values@[k].0@) && vm[self.values@[k].0@]
                        == self.values@[k].1,
                forall|j: int| 0 <= j < n ==> vm[#[trigger] ord[j]].value_log_position + vm[ord[j]].value_size <= log@.len(),
                out@ == with_keys + value_data(ord.subrange(0, n as int), vm, log@),
            decreases order@.len() - n,
        {
            let vh = order[n];
            assert(ord[n as int] == vh@);
            match find_entry(&self.values, &vh) {
                Some(j) => {
                    let vo = &self.values[j].1;
                    assert(self.values@[j as int].0@ == vh@);
                    assert(vm.contains_key(self.values@[j as int].0@));
                    assert(vm[vh@] == *vo);
                    if vo.value_log_position > log_len as u64 || vo.value_size as u64 > log_len as u64 - vo.value_log_position {
                        assert(!values_in_log(full.order, vm, log@)) by {
                            assert(full.order[n as int] == vh@);
                        }
                        return Err(NeutronError::UnexpectedEnd);
                    }
                    let start = vo.value_log_position as usize;
                    let bytes = copy_range(log.as_slice(), start, start + vo.value_size);
                    push_all(&mut out, bytes.as_slice());
                    proof {
                        assert(ord.subrange(0, n + 1).drop_last() =~= ord.subrange(0, n as int));
                        assert(out@ =~= with_keys + value_data(ord.subrange(0, n + 1), vm, log@));
                    }
                },
                None => {
                    proof {
                        lemma_scan_facts(keys, vm);
                        assert(vm.contains_key(ord[n as int]));
                        crate::store::lemma_hash_map(self.values@);
                    }
                    assert(false);
                },
            }
            n = n + 1;
        }
        assert(ord.subrange(0, n as int) =~= ord);
        Ok(FlushedTable { bytes: out, key_count, index_position, keys_position })
    }
}

/// The hashes one after another.
pub open spec fn graves_concat(g: Seq<[u8; 32]>) -> Seq<u8>
    decreases g.len(),
{
    if g.len() == 0 {
        Seq::empty()
    } else {
        graves_concat(g.drop_last()) + g.last()@
    }
}

impl<K, V> Store<K, V> {
    /// The bytes of the graves file: the graves' hashes one after another
    /// (written when there is at least one grave).
    pub fn graves_bytes(&self) -> (r: Vec<u8>)
        ensures
            r@ == graves_concat(self.graves@),
    {
        let mut r: Vec<u8> = Vec::new();
        let mut i: usize = 0;
        while i < self.graves.len()
            invariant
                i <= self.graves@.len(),
                r@ == graves_concat(self.graves@.subrange(0, i as int)),
            decreases self.graves@.len() - i,
        {
            push_hash(&mut r, &self.graves[i]);
            proof {
                assert(self.graves@.subrange(0, i + 1).drop_last() =~= self.graves@.subrange(0, i as int));
            }
            i = i + 1;
        }
        assert(self.graves@.subrange(0, i as int) =~= self.graves@);
        r
    }

    /// Adds a table and orders the tables by name, greatest first.
    pub fn add_table(&mut self, table: Table)
        ensures
            final(self).tables@ == sort_by_name(old(self).tables@.push(table)),
            final(self).keys == old(self).keys,
            final(self).values == old(self).values,
            final(self).graves == old(self).graves,
            final(self).cache_size == old(self).cache_size,
            final(self).cache_limit == old(self).cache_limit,
            final(self).log_len == old(self).log_len,
            final(self).directory == old(self).directory,
    {
        let mut tables: Vec<Table> = Vec::new();
        std::mem::swap(&mut tables, &mut self.tables);
        tables.push(table);
        self.tables = sort_tables(tables);
    }
}

/// The table entry of a table file: its bloom filter, key count, level,
/// name, size and index and key data positions.
pub open spec fn table_entry(
    bloom_filter: Vec<u8>,
    key_count: u64,
    level: u8,
    name: String,
    file_size: nat,
    index_position: u64,
    keys_position: u64,
) -> Table {
    Table { bloom_filter, key_count, level, name, file_size: file_size as u64, index_position, keys_position }
}

impl<K, V> Store<K, V> {
    /// Adds the table that a flush wrote: a table of level 1, named `name`,
    /// with the bloom filter `bloom_filter`, the flushed table's key count
    /// and positions, and the size of its bytes; the tables stay ordered by
    /// name, greatest first.
    pub fn add_flushed_table(&mut self, flushed: &FlushedTable, bloom_filter: Vec<u8>, name: String)
        ensures
            final(self).tables@ == sort_by_name(
                old(self).tables@.push(
                    table_entry(
                        bloom_filter,
                        flushed.key_count,
                        1,
                        name,
                        flushed.bytes@.len(),
                        flushed.index_position,
                        flushed.keys_position,
                    ),
                ),
            ),
            final(self).keys == old(self).keys,
            final(self).values == old(self).values,
            final(self).graves == old(self).graves,
            final(self).cache_size == old(self).cache_size,
            final(self).cache_limit == old(self).cache_limit,
            final(self).log_len == old(self).log_len,
            final(self).directory == old(self).directory,
    {
        let table = Table {
            bloom_filter,
            key_count: flushed.key_count,
            level: 1,
            name,
            file_size: flushed.bytes.len() as u64,
            index_position: flushed.index_position,
            keys_position: flushed.keys_position,
        };
        self.add_table(table);
    }
}

/// Flushing adds a table: after `add_table`, the tables are the earlier
/// ones and the new one.
pub proof fn lemma_add_table_tables(tables: Seq<Table>, table: Table)
    ensures
        crate::store::new::names_descending(sort_by_name(tables.push(table))),
        sort_by_name(tables.push(table)).len() == tables.len() + 1,
        forall|t: Table| #[trigger] sort_by_name(tables.push(table)).contains(t) <==> (t == table || tables.contains(t)),
{
    crate::store::new::lemma_sort_by_name_sorted(tables.push(table));
    crate::store::compaction::lemma_sort_by_name_contains(tables.push(table));
    assert forall|t: Table| #[trigger] tables.push(table).contains(t) <==> (t == table || tables.contains(t)) by {
        if tables.push(table).contains(t) {
            let i = choose|i: int| 0 <= i < tables.len() + 1 && tables.push(table)[i] == t;
            if i < tables.len() {
                assert(tables[i] == t);
            }
        }
        if t == table {
            assert(tables.push(table)[tables.len() as int] == t);
        }
        if tables.contains(t) {
            let i = choose|i: int| 0 <= i < tables.len() && tables[i] == t;
            assert(tables.push(table)[i] == t);
        }
    }
}

/// When every cached key's value is cached, every key gets an index entry,
/// in the keys' order.
proof fn lemma_scan_indexes_all<V>(keys: Seq<([u8; 32], KeyObject)>, values: Map<Seq<u8>, ValueObject<V>>)
    requires
        forall|i: int| 0 <= i < keys.len() ==> values.contains_key(#[trigger] keys[i].1.value_hash@),
    ensures
        flush_scan(keys, values).index.len() == keys.len(),
        forall|i: int| 0 <= i < keys.len() ==> (#[trigger] flush_scan(keys, values).index[i]).0 == keys[i].0@,
    decreases keys.len(),
{
    if keys.len() > 0 {
        let k2 = keys.drop_last();
        assert forall|i: int| 0 <= i < k2.len() implies values.contains_key(#[trigger] k2[i].1.value_hash@) by {
            assert(k2[i] == keys[i]);
        }
        lemma_scan_indexes_all(k2, values);
        assert(values.contains_key(keys[keys.len() - 1].1.value_hash@));
        let sc = flush_scan(k2, values);
        let sc2 = flush_scan(keys, values);
        assert forall|i: int| 0 <= i < keys.len() implies (#[trigger] sc2.index[i]).0 == keys[i].0@ by {
            if i < k2.len() {
                assert(sc2.index[i] == sc.index[i]);
                assert(k2[i] == keys[i]);
            }
        }
    }
}

/// The index entries lie 56 bytes apart: the `i`th one's key hash at
/// `56 * i`, its value position in its last eight bytes.
pub(crate) proof fn lemma_index_bytes_layout(index: Seq<(Seq<u8>, nat, nat, nat)>, kp: nat, vp: nat)
    requires
        forall|i: int| 0 <= i < index.len() ==> (#[trigger] index[i]).0.len() == 32,
    ensures
        index_bytes(index, kp, vp).len() == index.len() * 56,
        forall|i: int|
            0 <= i < index.len() ==> #[trigger] index_bytes(index, kp, vp).subrange(i * 56, i * 56 + 32) == index[i].0
                && index_bytes(index, kp, vp).subrange(i * 56 + 48, i * 56 + 56) == le_bytes(vp + index[i].3, 8),
    decreases index.len(),
{
    if index.len() > 0 {
        let d = index.drop_last();
        assert forall|i: int| 0 <= i < d.len() implies (#[trigger] d[i]).0.len() == 32 by {
            assert(d[i] == index[i]);
        }
        lemma_index_bytes_layout(d, kp, vp);
        let e = index.last();
        let pre = index_bytes(d, kp, vp);
        let all = index_bytes(index, kp, vp);
        crate::bytes::lemma_from_le_bytes(e.1 + kp, 8);
        crate::bytes::lemma_from_le_bytes(e.2, 8);
        crate::bytes::lemma_from_le_bytes(vp + e.3, 8);
        assert(all == pre + e.0 + le_bytes(e.1 + kp, 8) + le_bytes(e.2, 8) + le_bytes(vp + e.3, 8));
        assert(all.len() == index.len() * 56);
        assert forall|i: int|
            0 <= i < index.len() implies #[trigger] all.subrange(i * 56, i * 56 + 32) == index[i].0 && all.subrange(
            i * 56 + 48,
            i * 56 + 56,
        ) == le_bytes(vp + index[i].3, 8) by {
            if i < d.len() {
                assert(i * 56 + 56 <= d.len() * 56) by (nonlinear_arith)
                    requires
                        i < d.len(),
                ;
                assert(all.subrange(i * 56, i * 56 + 32) =~= pre.subrange(i * 56, i * 56 + 32));
                assert(all.subrange(i * 56 + 48, i * 56 + 56) =~= pre.subrange(i * 56 + 48, i * 56 + 56));
                assert(d[i] == index[i]);
            } else {
                assert(i * 56 == pre.len());
                assert(all.subrange(i * 56, i * 56 + 32) =~= e.0);
                assert(all.subrange(i * 56 + 48, i * 56 + 56) =~= le_bytes(vp + e.3, 8));
            }
        }
    }
}

/// A read after a flush finds the key: when every cached key's value is
/// cached, the search of the flushed table's index for a cached key's hash,
/// over the whole range as a table search starts, reaches that key's index
/// entry.
pub proof fn lemma_flushed_key_is_found<V>(
    keys: Seq<([u8; 32], KeyObject)>,
    values: Map<Seq<u8>, ValueObject<V>>,
    bloom: Seq<u8>,
    log: Seq<u8>,
    j: int,
)
    requires
        keys_sorted(keys),
        forall|i: int| 0 <= i < keys.len() ==> values.contains_key(#[trigger] keys[i].1.value_hash@),
        0 <= j < keys.len() <= u64::MAX,
    ensures
        search_from(flush_bytes(keys, values, bloom, log), (25 + bloom.len()) as int, 0, keys.len() as int, keys[j].0@)
            == entry_value(flush_bytes(keys, values, bloom, log), 25 + bloom.len() + j * 56),
{
    let t = flush_bytes(keys, values, bloom, log);
    let sc = flush_scan(keys, values);
    let n = keys.len();
    let ip = 25 + bloom.len();
    let (_, _, kp, vp) = flush_positions(bloom.len(), n, sc.keys_size);
    lemma_scan_indexes_all(keys, values);
    assert forall|i: int| 0 <= i < sc.index.len() implies (#[trigger] sc.index[i]).0.len() == 32 by {
        assert(sc.index[i].0 == keys[i].0@);
    }
    lemma_index_bytes_layout(sc.index, kp, vp);
    let head = seq![1u8] + le_bytes(n, 8) + le_bytes(ip, 8) + le_bytes(kp, 8) + bloom;
    crate::bytes::lemma_from_le_bytes(n, 8);
    crate::bytes::lemma_from_le_bytes(ip, 8);
    crate::bytes::lemma_from_le_bytes(kp, 8);
    assert(head.len() == ip);
    let ib = index_bytes(sc.index, kp, vp);
    let rest = key_data(keys, log) + value_data(sc.order, values, log);
    assert(t =~= head + ib + rest);
    assert forall|i: int| 0 <= i < n implies #[trigger] index_hash(t, ip as int, i) == keys[i].0@ by {
        assert(i * 56 + 32 <= n * 56) by (nonlinear_arith)
            requires
                i < n,
        ;
        assert(index_hash(t, ip as int, i) =~= ib.subrange(i * 56, i * 56 + 32));
        assert(sc.index[i].0 == keys[i].0@);
    }
    assert(index_sorted(t, ip as int, n as int)) by {
        assert forall|a: int, b: int| 0 <= a < b < n implies lex_lt(#[trigger] index_hash(t, ip as int, a), #[trigger] index_hash(t, ip as int, b)) by {
            assert(index_hash(t, ip as int, a) == keys[a].0@);
            assert(index_hash(t, ip as int, b) == keys[b].0@);
        }
    }
    lemma_search_finds_entry(t, ip as int, n as int, j, keys[j].0@);
}


/// Every cached key's value is cached and its log entry lies inside the log.
pub open spec fn values_logged<V>(keys: Seq<([u8; 32], KeyObject)>, values: Map<Seq<u8>, ValueObject<V>>, log: Seq<u8>) -> bool {
    forall|i: int|
        0 <= i < keys.len() ==> values.contains_key(#[trigger] keys[i].1.value_hash@)
            && values[keys[i].1.value_hash@].value_log_position + values[keys[i].1.value_hash@].value_size <= log.len()
}

/// Laying out the keys places each value's log entry, whole, at the
/// position that its keys' index entries give, and the key data is as long
/// as the key size.
proof fn lemma_scan_positions<V>(keys: Seq<([u8; 32], KeyObject)>, values: Map<Seq<u8>, ValueObject<V>>, log: Seq<u8>)
    requires
        values_logged(keys, values, log),
        keys_in_log(keys, log),
    ensures
        ({
            let sc = flush_scan(keys, values);
            let vd = value_data(sc.order, values, log);
            &&& sc.value_position == vd.len()
            &&& key_data(keys, log).len() == sc.keys_size
            &&& sc.index.len() == keys.len()
            &&& forall|h: Seq<u8>|
                #[trigger] sc.positions.contains_key(h) ==> values.contains_key(h) && sc.positions[h]
                    + values[h].value_size <= vd.len() && vd.subrange(
                    sc.positions[h] as int,
                    sc.positions[h] + values[h].value_size,
                ) == log.subrange(
                    values[h].value_log_position as int,
                    values[h].value_log_position + values[h].value_size,
                )
            &&& forall|i: int|
                0 <= i < keys.len() ==> sc.positions.contains_key(#[trigger] keys[i].1.value_hash@)
                    && sc.index[i].3 == sc.positions[keys[i].1.value_hash@]
        }),
    decreases keys.len(),
{
    if keys.len() > 0 {
        let k2 = keys.drop_last();
        assert forall|i: int| 0 <= i < k2.len() implies values.contains_key(#[trigger] k2[i].1.value_hash@)
            && values[k2[i].1.value_hash@].value_log_position + values[k2[i].1.value_hash@].value_size
            <= log.len() by {
            assert(k2[i] == keys[i]);
        }
        assert forall|i: int| 0 <= i < k2.len() implies (#[trigger] k2[i]).1.key_log_position + k2[i].1.key_size
            <= log.len() by {
            assert(k2[i] == keys[i]);
        }
        lemma_scan_positions(k2, values, log);
        let sc = flush_scan(k2, values);
        let sc2 = flush_scan(keys, values);
        let vd = value_data(sc.order, values, log);
        let vd2 = value_data(sc2.order, values, log);
        let last = keys.len() - 1;
        let vh = keys[last].1.value_hash@;
        assert(keys[last] == keys.last());
        assert(values.contains_key(vh));
        if sc.positions.contains_key(vh) {
            assert(sc2.order == sc.order);
            assert forall|i: int| 0 <= i < keys.len() implies sc2.positions.contains_key(
                #[trigger] keys[i].1.value_hash@,
            ) && sc2.index[i].3 == sc2.positions[keys[i].1.value_hash@] by {
                if i < k2.len() {
                    assert(k2[i] == keys[i]);
                    assert(sc2.index[i] == sc.index[i]);
                }
            }
        } else {
            let vo = values[vh];
            let seg = log.subrange(vo.value_log_position as int, vo.value_log_position + vo.value_size);
            assert(sc2.order.drop_last() =~= sc.order);
            assert(sc2.order.last() == vh);
            assert(vd2 == vd + seg);
            assert forall|h: Seq<u8>| #[trigger] sc2.positions.contains_key(h) implies values.contains_key(h)
                && sc2.positions[h] + values[h].value_size <= vd2.len() && vd2.subrange(
                sc2.positions[h] as int,
                sc2.positions[h] + values[h].value_size,
            ) == log.subrange(
                values[h].value_log_position as int,
                values[h].value_log_position + values[h].value_size,
            ) by {
                if h == vh {
                    assert(vd2.subrange(vd.len() as int, vd.len() + vo.value_size) =~= seg);
                } else {
                    assert(sc.positions.contains_key(h));
                    assert(vd2.subrange(sc.positions[h] as int, sc.positions[h] + values[h].value_size)
                        =~= vd.subrange(sc.positions[h] as int, sc.positions[h] + values[h].value_size));
                }
            }
            assert forall|i: int| 0 <= i < keys.len() implies sc2.positions.contains_key(
                #[trigger] keys[i].1.value_hash@,
            ) && sc2.index[i].3 == sc2.positions[keys[i].1.value_hash@] by {
                if i < k2.len() {
                    assert(k2[i] == keys[i]);
                    assert(sc2.index[i] == sc.index[i]);
                }
            }
        }
    }
}

/// Where the `j`th key's value lies in a flushed table: its index entry
/// holds the value's position, and the value's log entry lies whole at that
/// position.
proof fn lemma_flushed_entry_layout<V>(
    keys: Seq<([u8; 32], KeyObject)>,
    values: Map<Seq<u8>, ValueObject<V>>,
    bloom: Seq<u8>,
    log: Seq<u8>,
    j: int,
)
    requires
        values_logged(keys, values, log),
        keys_in_log(keys, log),
        0 <= j < keys.len(),
    ensures
        ({
            let t = flush_bytes(keys, values, bloom, log);
            let sc = flush_scan(keys, values);
            let vo = values[keys[j].1.value_hash@];
            let vpos = flush_positions(bloom.len(), keys.len(), sc.keys_size).3 + sc.positions[keys[j].1.value_hash@];
            let entry = 25 + bloom.len() + j * 56;
            &&& keys.len() <= t.len()
            &&& entry + 56 <= t.len()
            &&& t.subrange(entry + 48, entry + 56) == le_bytes(vpos, 8)
            &&& vpos + vo.value_size <= t.len()
            &&& t.subrange(vpos as int, vpos + vo.value_size) == log.subrange(
                vo.value_log_position as int,
                vo.value_log_position + vo.value_size,
            )
        }),
{
    let t = flush_bytes(keys, values, bloom, log);
    let sc = flush_scan(keys, values);
    let n = keys.len();
    let ip = 25 + bloom.len();
    let (_, _, kp, vp) = flush_positions(bloom.len(), n, sc.keys_size);
    lemma_scan_positions(keys, values, log);
    lemma_scan_indexes_all(keys, values);
    assert forall|i: int| 0 <= i < sc.index.len() implies (#[trigger] sc.index[i]).0.len() == 32 by {
        assert(sc.index[i].0 == keys[i].0@);
    }
    lemma_index_bytes_layout(sc.index, kp, vp);
    let head = seq![1u8] + le_bytes(n, 8) + le_bytes(ip, 8) + le_bytes(kp, 8) + bloom;
    crate::bytes::lemma_from_le_bytes(n, 8);
    crate::bytes::lemma_from_le_bytes(ip, 8);
    crate::bytes::lemma_from_le_bytes(kp, 8);
    let ib = index_bytes(sc.index, kp, vp);
    let kd = key_data(keys, log);
    let vd = value_data(sc.order, values, log);
    assert(t =~= head + ib + kd + vd);
    assert(n <= n * 56) by (nonlinear_arith)
        requires
            n >= 0,
    ;
    let vh = keys[j].1.value_hash@;
    let vo = values[vh];
    let pos = sc.positions[vh];
    assert(sc.positions.contains_key(vh));
    assert(sc.index[j].3 == pos);
    assert(j * 56 + 56 <= n * 56) by (nonlinear_arith)
        requires
            j < n,
    ;
    assert(ib.subrange(j * 56, j * 56 + 32) == sc.index[j].0);
    assert(ib.subrange(j * 56 + 48, j * 56 + 56) == le_bytes(vp + pos, 8));
    let entry = ip + j * 56;
    assert(t.subrange(entry + 48, entry + 56) =~= ib.subrange(j * 56 + 48, j * 56 + 56));
    assert(t.subrange((vp + pos) as int, vp + pos + vo.value_size) =~= vd.subrange(pos as int, pos + vo.value_size));
}

/// An index entry whose last eight bytes hold the position of a value's log
/// entry (its hash, its eight-byte length and its bytes) points to those
/// bytes.
proof fn lemma_entry_value_reads(t: Seq<u8>, entry: int, vpos: int, vh: Seq<u8>, vb: Seq<u8>)
    requires
        0 <= entry,
        entry + 56 <= t.len(),
        0 <= vpos < 0x1_0000_0000_0000_0000,
        vb.len() < 0x1_0000_0000_0000_0000,
        vh.len() == 32,
        t.subrange(entry + 48, entry + 56) == le_bytes(vpos as nat, 8),
        vpos + 40 + vb.len() <= t.len(),
        t.subrange(vpos, vpos + 40 + vb.len()) == vh + le_bytes(vb.len(), 8) + vb,
    ensures
        entry_value(t, entry) == Decoded::Value(Some(vb)),
{
    let seg = vh + le_bytes(vb.len(), 8) + vb;
    crate::bytes::lemma_pow256_values();
    assert(from_le(t.subrange(entry + 48, entry + 56)) == vpos) by {
        crate::bytes::lemma_from_le_bytes(vpos as nat, 8);
    }
    assert(from_le(t.subrange(vpos + 32, vpos + 40)) == vb.len()) by {
        crate::bytes::lemma_from_le_bytes(vb.len(), 8);
        assert(t.subrange(vpos + 32, vpos + 40) =~= seg.subrange(32, 40));
        assert(seg.subrange(32, 40) =~= le_bytes(vb.len(), 8));
    }
    assert(t.subrange(vpos + 40, vpos + 40 + vb.len()) =~= vb) by {
        assert(t.subrange(vpos + 40, vpos + 40 + vb.len()) =~= seg.subrange(40, 40 + vb.len() as int));
        assert(seg.subrange(40, 40 + vb.len() as int) =~= vb);
    }
}

/// A read after a flush gives the value put: when every cached key's value
/// is cached and logged, and the log entry of the `j`th key's value holds
/// its hash, its length and the bytes `vb` (as a put logs them), the search
/// of the flushed table for that key's hash gives `vb`. The table's
/// positions must fit in the eight bytes that the table gives them.
pub proof fn lemma_flushed_value_is_read<V>(
    keys: Seq<([u8; 32], KeyObject)>,
    values: Map<Seq<u8>, ValueObject<V>>,
    bloom: Seq<u8>,
    log: Seq<u8>,
    j: int,
    vb: Seq<u8>,
)
    requires
        keys_sorted(keys),
        values_logged(keys, values, log),
        keys_in_log(keys, log),
        0 <= j < keys.len(),
        flush_bytes(keys, values, bloom, log).len() <= u64::MAX,
        values[keys[j].1.value_hash@].value_size == 40 + vb.len(),
        log.subrange(
            values[keys[j].1.value_hash@].value_log_position as int,
            values[keys[j].1.value_hash@].value_log_position + values[keys[j].1.value_hash@].value_size,
        ) == keys[j].1.value_hash@ + le_bytes(vb.len(), 8) + vb,
    ensures
        search_from(flush_bytes(keys, values, bloom, log), (25 + bloom.len()) as int, 0, keys.len() as int, keys[j].0@)
            == Decoded::Value(Some(vb)),
{
    let t = flush_bytes(keys, values, bloom, log);
    let sc = flush_scan(keys, values);
    let vh = keys[j].1.value_hash@;
    let vpos: int = (flush_positions(bloom.len(), keys.len(), sc.keys_size).3 + sc.positions[vh]) as int;
    let entry = 25 + bloom.len() + j * 56;
    lemma_flushed_entry_layout(keys, values, bloom, log, j);
    assert forall|i: int| 0 <= i < keys.len() implies values.contains_key(#[trigger] keys[i].1.value_hash@) by {}
    lemma_flushed_key_is_found(keys, values, bloom, log, j);
    lemma_entry_value_reads(t, entry, vpos, vh, vb);
}

/// A read gives back a write across a flush: after a put of a key with a
/// value whose hash was not cached, with the put's records appended to a
/// log of the store's log length, the search of the table that the flush of
/// the cache lays out from that log, for the key's hash, gives the value's
/// bytes. Every cached key and value must lie in the log (else the flush
/// fails), and the table's positions must fit in eight bytes.
pub proof fn lemma_put_then_flushed_read<K, V>(
    s1: Store<K, V>,
    s2: Store<K, V>,
    kb: Seq<u8>,
    v: V,
    vb: Seq<u8>,
    rec: Seq<u8>,
    prior: Seq<u8>,
    bloom: Seq<u8>,
)
    requires
        s1.wf(),
        crate::store::put::put_relation(&s1, &s2, kb, v, vb, rec),
        !s1.value_map().contains_key(fides_blake_3(vb)),
        prior.len() == s1.log_len,
        values_logged(s2.keys@, s2.value_map(), prior + rec),
        keys_in_log(s2.keys@, prior + rec),
        flush_bytes(s2.keys@, s2.value_map(), bloom, prior + rec).len() <= u64::MAX,
    ensures
        search_from(
            flush_bytes(s2.keys@, s2.value_map(), bloom, prior + rec),
            (25 + bloom.len()) as int,
            0,
            s2.keys@.len() as int,
            fides_blake_3(kb),
        ) == Decoded::Value(Some(vb)),
{
    let kh = fides_blake_3(kb);
    let vh = fides_blake_3(vb);
    let keys = s2.keys@;
    let log = prior + rec;
    lemma_sorted_unique(keys);
    lemma_hash_map(keys);
    assert(s2.key_map().contains_key(kh));
    let j = choose|i: int| 0 <= i < keys.len() && keys[i].0@ == kh;
    assert(hash_map(keys)[keys[j].0@] == keys[j].1);
    let ko = keys[j].1;
    assert(ko.value_hash@ == vh);
    let vo = s2.value_map()[vh];
    assert(vo.value_size == 40 + vb.len());
    assert(vo.value_log_position == s1.log_len + 74 + kb.len());
    assert(kh.len() == 32);
    assert(vh.len() == 32);
    let krec = crate::store::put::key_log_record(kh, vh, kb);
    let vrec = crate::store::put::value_log_record(vh, vb);
    crate::bytes::lemma_from_le_bytes(kb.len(), 8);
    crate::bytes::lemma_from_le_bytes(vb.len(), 8);
    assert(krec.len() == 73 + kb.len());
    assert(rec == krec + vrec);
    let start = vo.value_log_position as int;
    assert(log.subrange(start, start + vo.value_size) =~= vrec.subrange(1, vrec.len() as int));
    assert(vrec.subrange(1, vrec.len() as int) =~= vh + le_bytes(vb.len(), 8) + vb);
    lemma_flushed_value_is_read(keys, s2.value_map(), bloom, log, j, vb);
}

} // verus!
