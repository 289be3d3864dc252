//! Compaction: when a level's tables grow past the level's limit, their
//! indexes are merged into one table of the next level. This module holds
//! the merge (over the tables' bytes), the layout of the merged table, and
//! the bookkeeping of the store's tables; the files are read, written and
//! removed by the caller.
use vstd::prelude::*;
use crate::bytes::{from_le, le_bytes, read_u64, push_le, push_all, copy_range};
use crate::error::NeutronError;
use crate::store::{
    Store, Table, KEY_INDEX_SIZE, TABLE_HEADER_SIZE, read_hash, hash_map, hashes_unique, keys_sorted,
    find_entry, insert_key, lemma_hash_map, lemma_hash_map_insert, lemma_sorted_unique,
};
use crate::store::put::push_hash;
use crate::store::flush::{FlushedTable, index_bytes, flush_positions, lemma_index_bytes_layout, table_entry};
use crate::store::get::{search_from, entry_value, index_hash, index_sorted, lemma_search_finds_entry};
use crate::store::lex_lt;
use crate::store::new::{sort_tables, sort_by_name, insert_by_name, insert_position, names_descending, lemma_sort_by_name_sorted};

verus! {

/// What merging a level's indexes has gathered so far: for each key hash
/// its key's place in the merged key data, its key size and its value's
/// place in the merged value data; the place given to each value hash; where
/// each key and each value entry is read from (table, position, size); and
/// the sizes of the merged key and value data.
#[verifier::ext_equal]
pub struct Merge {
    pub index: Map<Seq<u8>, (nat, nat, nat)>,
    pub value_positions: Map<Seq<u8>, nat>,
    pub key_locations: Seq<(nat, nat, nat)>,
    pub value_locations: Seq<(nat, nat, nat)>,
    pub keys_size: nat,
    pub values_size: nat,
}

/// How a merge ends: with what it gathered, on a read past the end of a
/// table's bytes, or on a size that passes 64 bits.
pub enum MergeEnd {
    Done(Merge),
    Unreadable,
    Overflow,
}

/// A merge that has gathered nothing.
pub open spec fn empty_merge() -> Merge {
    Merge {
        index: Map::empty(),
        value_positions: Map::empty(),
        key_locations: Seq::empty(),
        value_locations: Seq::empty(),
        keys_size: 0,
        values_size: 0,
    }
}

/// The number of 32-byte windows of `f` at positions below `n` whose bytes
/// are not in `seen`.
pub open spec fn unseen(f: Seq<u8>, seen: Set<Seq<u8>>, n: nat) -> nat
    decreases n,
{
    if n == 0 {
        0
    } else {
        unseen(f, seen, (n - 1) as nat) + if seen.contains(f.subrange(n - 1, n as int + 31)) {
            0nat
        } else {
            1nat
        }
    }
}

/// The number of 32-byte windows of `f`.
pub open spec fn windows(f: Seq<u8>) -> nat {
    if f.len() >= 32 {
        (f.len() - 31) as nat
    } else {
        0
    }
}

/// How far position `c` is from the end of `f`.
pub open spec fn distance(f: Seq<u8>, c: nat) -> nat {
    if c <= f.len() {
        (f.len() - c) as nat
    } else {
        0
    }
}

/// Seeing one more hash leaves no more windows unseen, and one fewer when a
/// window at a position below `n` has it and it was not seen.
pub proof fn lemma_unseen_insert(f: Seq<u8>, seen: Set<Seq<u8>>, h: Seq<u8>, n: nat, p: int)
    ensures
        unseen(f, seen.insert(h), n) <= unseen(f, seen, n),
        0 <= p < n && f.subrange(p, p + 32) == h && !seen.contains(h) ==> unseen(f, seen.insert(h), n) < unseen(
            f,
            seen,
            n,
        ),
    decreases n,
{
    if n > 0 {
        lemma_unseen_insert(f, seen, h, (n - 1) as nat, p);
        let w = f.subrange(n - 1, n as int + 31);
        if p == n - 1 && f.subrange(p, p + 32) == h && !seen.contains(h) {
            assert(w == h);
        }
    }
}

/// Merges one table's index into `m`, reading its entries from the index
/// position `c` up to the key data position `kp`. An entry whose key hash is
/// already merged is skipped by its hash alone (the cursor moves on by 32
/// bytes). An entry with a new key hash is merged; when its value hash is
/// already merged, the key takes that value's place and the cursor moves to
/// just after the value hash that was read; otherwise the value entry (hash,
/// size and bytes) is placed after the merged ones and the cursor moves to
/// the next entry.
pub open spec fn merge_table(f: Seq<u8>, t: nat, kp: nat, c: nat, m: Merge) -> MergeEnd
    decreases unseen(f, m.index.dom(), windows(f)), distance(f, c),
{
    if c >= kp {
        MergeEnd::Done(m)
    } else if c + 32 > f.len() {
        MergeEnd::Unreadable
    } else {
        let h = f.subrange(c as int, c as int + 32);
        if m.index.contains_key(h) {
            merge_table(f, t, kp, c + 32, m)
        } else if c + 56 > f.len() {
            MergeEnd::Unreadable
        } else {
            let ci = c as int;
            let key_position = from_le(f.subrange(ci + 32, ci + 40));
            let key_size = from_le(f.subrange(ci + 40, ci + 48));
            let value_position = from_le(f.subrange(ci + 48, ci + 56));
            let vi = value_position as int;
            if value_position + 32 > f.len() {
                MergeEnd::Unreadable
            } else {
                let vh = f.subrange(vi, vi + 32);
                proof {
                    lemma_unseen_insert(f, m.index.dom(), h, windows(f), c as int);
                }
                if m.value_positions.contains_key(vh) {
                    if m.keys_size + key_size > u64::MAX {
                        MergeEnd::Overflow
                    } else {
                        let m2 = Merge {
                            index: m.index.insert(h, (m.keys_size, key_size, m.value_positions[vh])),
                            key_locations: m.key_locations.push((t, key_position, key_size)),
                            keys_size: m.keys_size + key_size,
                            ..m
                        };
                        proof {
                            assert(m2.index.dom() =~= m.index.dom().insert(h));
                        }
                        merge_table(f, t, kp, value_position + 32, m2)
                    }
                } else if value_position + 40 > f.len() {
                    MergeEnd::Unreadable
                } else {
                    let size = 40 + from_le(f.subrange(vi + 32, vi + 40));
                    if size > u64::MAX || m.values_size + size > u64::MAX || m.keys_size + key_size > u64::MAX {
                        MergeEnd::Overflow
                    } else {
                        let m2 = Merge {
                            index: m.index.insert(h, (m.keys_size, key_size, m.values_size)),
                            value_positions: m.value_positions.insert(vh, m.values_size),
                            key_locations: m.key_locations.push((t, key_position, key_size)),
                            value_locations: m.value_locations.push((t, value_position, size)),
                            keys_size: m.keys_size + key_size,
                            values_size: m.values_size + size,
                        };
                        proof {
                            assert(m2.index.dom() =~= m.index.dom().insert(h));
                        }
                        merge_table(f, t, kp, c + 56, m2)
                    }
                }
            }
        }
    }
}

/// Merges the indexes of tables `t` onwards, each read from its index
/// position up to its key data position, in the order given.
pub open spec fn merge_all(files: Seq<Seq<u8>>, positions: Seq<(nat, nat)>, t: nat, m: Merge) -> MergeEnd
    decreases files.len() - t,
{
    if t >= files.len() || t >= positions.len() {
        MergeEnd::Done(m)
    } else {
        match merge_table(files[t as int], t, positions[t as int].1, positions[t as int].0, m) {
            MergeEnd::Done(m2) => merge_all(files, positions, t + 1, m2),
            e => e,
        }
    }
}

/// The merge as gathered in memory: the index ordered by key hash (key
/// hash, then key place, key size and value place), the place of each value
/// hash, where each key and value entry is read from (table, position,
/// size), and the sizes of the merged key and value data.
pub struct MergePlan {
    pub index: Vec<([u8; 32], (u64, u64, u64))>,
    pub value_positions: Vec<([u8; 32], u64)>,
    pub key_locations: Vec<(usize, u64, u64)>,
    pub value_locations: Vec<(usize, u64, u64)>,
    pub keys_size: u64,
    pub values_size: u64,
}

/// Three numbers as mathematical integers.
pub open spec fn triple_view(v: (u64, u64, u64)) -> (nat, nat, nat) {
    (v.0 as nat, v.1 as nat, v.2 as nat)
}

/// A location (table, position, size) as mathematical integers.
pub open spec fn location_view(l: (usize, u64, u64)) -> (nat, nat, nat) {
    (l.0 as nat, l.1 as nat, l.2 as nat)
}

impl View for MergePlan {
    type V = Merge;

    open spec fn view(&self) -> Merge {
        Merge {
            index: hash_map(self.index@).map_values(|v: (u64, u64, u64)| triple_view(v)),
            value_positions: hash_map(self.value_positions@).map_values(|v: u64| v as nat),
            key_locations: self.key_locations@.map_values(|l: (usize, u64, u64)| location_view(l)),
            value_locations: self.value_locations@.map_values(|l: (usize, u64, u64)| location_view(l)),
            keys_size: self.keys_size as nat,
            values_size: self.values_size as nat,
        }
    }
}

impl MergePlan {
    /// The plan's invariant over `n` tables: the index ordered by key hash,
    /// one place per value hash, every location in one of the tables, and
    /// every place inside the merged data.
    pub open spec fn wf(&self, n: nat) -> bool {
        &&& keys_sorted(self.index@)
        &&& hashes_unique(self.value_positions@)
        &&& forall|i: int| 0 <= i < self.key_locations@.len() ==> (#[trigger] self.key_locations@[i]).0 < n
        &&& forall|i: int| 0 <= i < self.value_locations@.len() ==> (#[trigger] self.value_locations@[i]).0 < n
        &&& forall|i: int|
            0 <= i < self.index@.len() ==> (#[trigger] self.index@[i]).1.0 + self.index@[i].1.1 <= self.keys_size
                && self.index@[i].1.2 <= self.values_size
        &&& forall|i: int| 0 <= i < self.value_positions@.len() ==> (#[trigger] self.value_positions@[i]).1 <= self.values_size
    }
}

/// Merges one table's index (the bytes `f` of table `t`, read from `ip` up to
/// `kp`) into the plan.
fn merge_file(f: &Vec<u8>, t: usize, ip: u64, kp: u64, plan: &mut MergePlan, n: usize) -> (r: Result<(), NeutronError>)
    requires
        t < n,
        old(plan).wf(n as nat),
    ensures
        match merge_table(f@, t as nat, kp as nat, ip as nat, old(plan)@) {
            MergeEnd::Done(m) => r is Ok && final(plan)@ == m && final(plan).wf(n as nat),
            MergeEnd::Unreadable => r == Err::<(), NeutronError>(NeutronError::UnexpectedEnd),
            MergeEnd::Overflow => r == Err::<(), NeutronError>(NeutronError::SizeOverflow),
        },
{
    let ghost goal = merge_table(f@, t as nat, kp as nat, ip as nat, plan@);
    let mut c: u64 = ip;
    let len = f.len();
    loop
        invariant
            t < n,
            plan.wf(n as nat),
            len == f@.len(),
            merge_table(f@, t as nat, kp as nat, c as nat, plan@) == goal,
            merge_table(f@, t as nat, kp as nat, ip as nat, old(plan)@) == goal,
        decreases unseen(f@, plan@.index.dom(), windows(f@)), distance(f@, c as nat),
    {
        if c >= kp {
            return Ok(());
        }
        if c > len as u64 || (len as u64) - c < 32 {
            return Err(NeutronError::UnexpectedEnd);
        }
        let cu = c as usize;
        let h = read_hash(f.as_slice(), cu);
        proof {
            lemma_sorted_unique(plan.index@);
            lemma_hash_map(plan.index@);
        }
        match find_entry(&plan.index, &h) {
            Some(_) => {
                assert(plan@.index.contains_key(h@));
                c = c + 32;
            },
            None => {
                assert(!plan@.index.contains_key(h@));
                if (len as u64) - c < 56 {
                    return Err(NeutronError::UnexpectedEnd);
                }
                let key_position = read_u64(f.as_slice(), cu + 32);
                let key_size = read_u64(f.as_slice(), cu + 40);
                let value_position = read_u64(f.as_slice(), cu + 48);
                if value_position > len as u64 || (len as u64) - value_position < 32 {
                    return Err(NeutronError::UnexpectedEnd);
                }
                let vu = value_position as usize;
                let vh = read_hash(f.as_slice(), vu);
                let ghost old_plan = plan@;
                let ghost old_index = plan.index@;
                let ghost old_positions = plan.value_positions@;
                proof {
                    lemma_hash_map(plan.value_positions@);
                    lemma_unseen_insert(f@, plan@.index.dom(), h@, windows(f@), c as int);
                }
                match find_entry(&plan.value_positions, &vh) {
                    Some(k) => {
                        let p = plan.value_positions[k].1;
                        assert(plan@.value_positions.contains_key(vh@));
                        assert(plan@.value_positions[vh@] == p as nat);
                        if key_size > u64::MAX - plan.keys_size {
                            return Err(NeutronError::SizeOverflow);
                        }
                        let ks = plan.keys_size;
                        plan.key_locations.push((t, key_position, key_size));
                        insert_key(&mut plan.index, h, (ks, key_size, p));
                        plan.keys_size = ks + key_size;
                        proof {
                            assert(plan@.index =~= old_plan.index.insert(h@, (ks as nat, key_size as nat, p as nat)));
                            assert(plan@.key_locations =~= old_plan.key_locations.push((t as nat, key_position as nat, key_size as nat)));
                            assert(plan@.value_positions == old_plan.value_positions);
                            assert(plan@.index.dom() =~= old_plan.index.dom().insert(h@));
                            lemma_sorted_unique(plan.index@);
                            lemma_hash_map(plan.index@);
                            assert forall|i: int| 0 <= i < plan.index@.len() implies (#[trigger] plan.index@[i]).1.0
                                + plan.index@[i].1.1 <= plan.keys_size && plan.index@[i].1.2 <= plan.values_size by {
                                let e = plan.index@[i];
                                assert(hash_map(plan.index@).contains_key(plan.index@[i].0@));
                                assert(hash_map(plan.index@)[plan.index@[i].0@] == plan.index@[i].1);
                                if e.0@ == h@ {
                                } else {
                                    lemma_sorted_unique(old_index);
                                    lemma_hash_map(old_index);
                                    assert(hash_map(old_index).contains_key(e.0@));
                                    assert(hash_map(old_index)[e.0@] == e.1);
                                    let o = choose|o: int| 0 <= o < old_index.len() && old_index[o].0@ == e.0@;
                                    assert(old_index[o].1 == e.1);
                                }
                            }
                        }
                        c = value_position + 32;
                    },
                    None => {
                        assert(!plan@.value_positions.contains_key(vh@));
                        if (len as u64) - value_position < 40 {
                            return Err(NeutronError::UnexpectedEnd);
                        }
                        let vs = read_u64(f.as_slice(), vu + 32);
                        if vs > u64::MAX - 40 {
                            return Err(NeutronError::SizeOverflow);
                        }
                        let size = 40 + vs;
                        if size > u64::MAX - plan.values_size || key_size > u64::MAX - plan.keys_size {
                            return Err(NeutronError::SizeOverflow);
                        }
                        let ks = plan.keys_size;
                        let vp = plan.values_size;
                        plan.key_locations.push((t, key_position, key_size));
                        plan.value_locations.push((t, value_position, size));
                        proof {
                            lemma_hash_map_insert(old_positions, old_positions.len() as int, (vh, vp));
                            assert(old_positions.push((vh, vp)) == old_positions.insert(old_positions.len() as int, (vh, vp)));
                        }
                        plan.value_positions.push((vh, vp));
                        insert_key(&mut plan.index, h, (ks, key_size, vp));
                        plan.keys_size = ks + key_size;
                        plan.values_size = vp + size;
                        proof {
                            assert(plan@.index =~= old_plan.index.insert(h@, (ks as nat, key_size as nat, vp as nat)));
                            assert(plan@.value_positions =~= old_plan.value_positions.insert(vh@, vp as nat));
                            assert(plan@.key_locations =~= old_plan.key_locations.push((t as nat, key_position as nat, key_size as nat)));
                            assert(plan@.value_locations =~= old_plan.value_locations.push((t as nat, value_position as nat, size as nat)));
                            assert(plan@.index.dom() =~= old_plan.index.dom().insert(h@));
                            lemma_sorted_unique(plan.index@);
                            lemma_hash_map(plan.index@);
                            assert forall|i: int| 0 <= i < plan.index@.len() implies (#[trigger] plan.index@[i]).1.0
                                + plan.index@[i].1.1 <= plan.keys_size && plan.index@[i].1.2 <= plan.values_size by {
                                let e = plan.index@[i];
                                assert(hash_map(plan.index@).contains_key(plan.index@[i].0@));
                                assert(hash_map(plan.index@)[plan.index@[i].0@] == plan.index@[i].1);
                                if e.0@ == h@ {
                                } else {
                                    lemma_sorted_unique(old_index);
                                    lemma_hash_map(old_index);
                                    assert(hash_map(old_index).contains_key(e.0@));
                                    assert(hash_map(old_index)[e.0@] == e.1);
                                    let o = choose|o: int| 0 <= o < old_index.len() && old_index[o].0@ == e.0@;
                                    assert(old_index[o].1 == e.1);
                                }
                            }
                            assert forall|i: int| 0 <= i < plan.value_positions@.len() implies (#[trigger] plan.value_positions@[i]).1
                                <= plan.values_size by {
                                if i < old_positions.len() {
                                    assert(plan.value_positions@[i] == old_positions[i]);
                                }
                            }
                        }
                        c = c + 56;
                    },
                }
            },
        }
    }
}

/// The index and key data positions of the tables of `level`, in the order
/// of the tables.
pub open spec fn level_positions(tables: Seq<Table>, level: u8) -> Seq<(nat, nat)>
    decreases tables.len(),
{
    if tables.len() == 0 {
        Seq::empty()
    } else {
        let rest = level_positions(tables.drop_last(), level);
        let t = tables.last();
        if t.level == level {
            rest.push((t.index_position as nat, t.keys_position as nat))
        } else {
            rest
        }
    }
}

/// The bytes of each file.
pub open spec fn files_view(files: Seq<Vec<u8>>) -> Seq<Seq<u8>> {
    files.map_values(|f: Vec<u8>| f@)
}

impl<K, V> Store<K, V> {
    /// Merges the indexes of the tables of `level`, given the bytes of each
    /// of them (in the order of the store's tables): the tables are read in
    /// that order, so that of the entries with the same key hash the one of
    /// the newest table is kept. An error when an entry, value hash or value
    /// size lies past the end of a table's bytes, and another when a size of
    /// the merged data passes 64 bits.
    pub fn merge_level(&self, level: u8, files: &Vec<Vec<u8>>) -> (r: Result<MergePlan, NeutronError>)
        requires
            files@.len() == level_positions(self.tables@, level).len(),
        ensures
            match merge_all(files_view(files@), level_positions(self.tables@, level), 0, empty_merge()) {
                MergeEnd::Done(m) => r is Ok && r->Ok_0@ == m && r->Ok_0.wf(files@.len()),
                MergeEnd::Unreadable => r == Err::<MergePlan, NeutronError>(NeutronError::UnexpectedEnd),
                MergeEnd::Overflow => r == Err::<MergePlan, NeutronError>(NeutronError::SizeOverflow),
            },
    {
        let ghost tables = self.tables@;
        let mut positions: Vec<(u64, u64)> = Vec::new();
        let mut i: usize = 0;
        while i < self.tables.len()
            invariant
                i <= tables.len(),
                tables == self.tables@,
                positions@.map_values(|p: (u64, u64)| (p.0 as nat, p.1 as nat)) == level_positions(
                    tables.subrange(0, i as int),
                    level,
                ),
            decreases tables.len() - i,
        {
            let t = &self.tables[i];
            if t.level == level {
                positions.push((t.index_position, t.keys_position));
            }
            proof {
                assert(tables.subrange(0, i + 1).drop_last() =~= tables.subrange(0, i as int));
                assert(positions@.map_values(|p: (u64, u64)| (p.0 as nat, p.1 as nat)) =~= level_positions(
                    tables.subrange(0, i + 1),
                    level,
                ));
            }
            i = i + 1;
        }
        assert(tables.subrange(0, i as int) =~= tables);
        let ghost pv = level_positions(tables, level);
        let ghost fv = files_view(files@);
        let ghost goal = merge_all(fv, pv, 0, empty_merge());
        let mut plan = MergePlan {
            index: Vec::new(),
            value_positions: Vec::new(),
            key_locations: Vec::new(),
            value_locations: Vec::new(),
            keys_size: 0,
            values_size: 0,
        };
        proof {
            assert(plan@ =~= empty_merge());
        }
        let n = files.len();
        let mut t: usize = 0;
        while t < n
            invariant
                n == files@.len() == pv.len() == fv.len(),
                positions@.map_values(|p: (u64, u64)| (p.0 as nat, p.1 as nat)) == pv,
                fv == files_view(files@),
                t <= n,
                plan.wf(n as nat),
                merge_all(fv, pv, t as nat, plan@) == goal,
                goal == merge_all(files_view(files@), level_positions(self.tables@, level), 0, empty_merge()),
            decreases n - t,
        {
            let ghost before = plan@;
            assert(fv[t as int] == files@[t as int]@);
            let (ip, kp) = positions[t];
            assert(pv[t as int] == (ip as nat, kp as nat));
            match merge_file(&files[t], t, ip, kp, &mut plan, n) {
                Ok(()) => {},
                Err(e) => {
                    let ghost step = merge_table(fv[t as int], t as nat, pv[t as int].1, pv[t as int].0, before);
                    assert(step !is Done);
                    assert(merge_all(fv, pv, t as nat, before) == step);
                    return Err(e);
                },
            }
            t = t + 1;
        }
        Ok(plan)
    }
}

/// The bytes at each location (table, position, size), one after another.
pub open spec fn located_bytes(locations: Seq<(nat, nat, nat)>, files: Seq<Seq<u8>>) -> Seq<u8>
    decreases locations.len(),
{
    if locations.len() == 0 {
        Seq::empty()
    } else {
        let l = locations.last();
        located_bytes(locations.drop_last(), files) + files[l.0 as int].subrange(l.1 as int, l.1 as int + l.2)
    }
}

/// Every location lies inside its table's bytes.
pub open spec fn all_located(locations: Seq<(nat, nat, nat)>, files: Seq<Seq<u8>>) -> bool {
    forall|i: int|
        0 <= i < locations.len() ==> (#[trigger] locations[i]).0 < files.len() && locations[i].1 + locations[i].2
            <= files[locations[i].0 as int].len()
}

/// The merged index entries as numbers, in the plan's order.
pub open spec fn merged_index_view(index: Seq<([u8; 32], (u64, u64, u64))>) -> Seq<(Seq<u8>, nat, nat, nat)> {
    index.map_values(|e: ([u8; 32], (u64, u64, u64))| (e.0@, e.1.0 as nat, e.1.1 as nat, e.1.2 as nat))
}

/// The bytes of the table that a compaction writes: the header, the bloom
/// filter, the merged index in key hash order, the merged keys' bytes and
/// the merged value entries.
pub open spec fn compacted_bytes(plan: MergePlan, bloom: Seq<u8>, files: Seq<Seq<u8>>) -> Seq<u8> {
    let count = plan.index@.len();
    let (ip, isz, kp, vp) = flush_positions(bloom.len(), count, plan.keys_size as nat);
    seq![1u8] + le_bytes(count, 8) + le_bytes(ip, 8) + le_bytes(kp, 8) + bloom + index_bytes(
        merged_index_view(plan.index@),
        kp,
        vp,
    ) + located_bytes(plan@.key_locations, files) + located_bytes(plan@.value_locations, files)
}

/// Appends the bytes at each location, or reports the first location that
/// lies past the end of its table's bytes.
fn push_located(out: &mut Vec<u8>, locations: &Vec<(usize, u64, u64)>, files: &Vec<Vec<u8>>) -> (r: bool)
    requires
        forall|i: int| 0 <= i < locations@.len() ==> (#[trigger] locations@[i]).0 < files@.len(),
    ensures
        r == all_located(locations@.map_values(|l: (usize, u64, u64)| location_view(l)), files_view(files@)),
        r ==> final(out)@ == old(out)@ + located_bytes(
            locations@.map_values(|l: (usize, u64, u64)| location_view(l)),
            files_view(files@),
        ),
{
    let ghost lv = locations@.map_values(|l: (usize, u64, u64)| location_view(l));
    let ghost fv = files_view(files@);
    let ghost start = out@;
    let mut i: usize = 0;
    assert(lv.subrange(0, 0) =~= Seq::<(nat, nat, nat)>::empty());
    while i < locations.len()
        invariant
            i <= locations@.len(),
            lv == locations@.map_values(|l: (usize, u64, u64)| location_view(l)),
            fv == files_view(files@),
            forall|k: int| 0 <= k < locations@.len() ==> (#[trigger] locations@[k]).0 < files@.len(),
            all_located(lv.subrange(0, i as int), fv),
            out@ == start + located_bytes(lv.subrange(0, i as int), fv),
        decreases locations@.len() - i,
    {
        let (t, p, n) = locations[i];
        assert(lv[i as int] == (t as nat, p as nat, n as nat));
        let f = &files[t];
        assert(fv[t as int] == f@);
        let len = f.len();
        if p > len as u64 || n > len as u64 - p {
            assert(!all_located(lv, fv)) by {
                assert(lv[i as int] == (t as nat, p as nat, n as nat));
            }
            return false;
        }
        let bytes = copy_range(f.as_slice(), p as usize, (p + n) as usize);
        push_all(out, bytes.as_slice());
        proof {
            assert(lv.subrange(0, i + 1).drop_last() =~= lv.subrange(0, i as int));
            assert(out@ =~= start + located_bytes(lv.subrange(0, i + 1), fv));
            assert forall|k: int| 0 <= k < i + 1 implies (#[trigger] lv.subrange(0, i + 1)[k]).0 < fv.len()
                && lv.subrange(0, i + 1)[k].1 + lv.subrange(0, i + 1)[k].2 <= fv[lv.subrange(0, i + 1)[k].0 as int].len() by {
                if k < i {
                    assert(lv.subrange(0, i + 1)[k] == lv.subrange(0, i as int)[k]);
                }
            }
        }
        i = i + 1;
    }
    assert(lv.subrange(0, i as int) =~= lv);
    true
}

impl MergePlan {
    /// The bytes of the table that compacting writes from this plan, given
    /// the bytes of its bloom filter and of the level's tables: the header,
    /// the bloom filter, the index in key hash order, the merged keys' bytes
    /// and the merged value entries. An error when a key or value lies past
    /// the end of its table's bytes. Requires that the table's positions fit
    /// in 64 bits.
    pub fn table_bytes(&self, bloom_filter: &Vec<u8>, files: &Vec<Vec<u8>>) -> (r: Result<FlushedTable, NeutronError>)
        requires
            self.wf(files@.len()),
            flush_positions(bloom_filter@.len(), self.index@.len(), self.keys_size as nat).3 + self.values_size
                <= u64::MAX,
        ensures
            ({
                let pos = flush_positions(bloom_filter@.len(), self.index@.len(), self.keys_size as nat);
                let fv = files_view(files@);
                let ok = all_located(self@.key_locations, fv) && all_located(self@.value_locations, fv);
                &&& ok ==> {
                    &&& r is Ok
                    &&& r->Ok_0.bytes@ == compacted_bytes(*self, bloom_filter@, fv)
                    &&& r->Ok_0.key_count == self.index@.len()
                    &&& r->Ok_0.index_position == pos.0
                    &&& r->Ok_0.keys_position == pos.2
                }
                &&& !ok ==> r == Err::<FlushedTable, NeutronError>(NeutronError::UnexpectedEnd)
            }),
    {
        let key_count = self.index.len() as u64;
        let index_position: u64 = TABLE_HEADER_SIZE + bloom_filter.len() as u64;
        let keys_position: u64 = index_position + key_count * KEY_INDEX_SIZE;
        let values_position: u64 = keys_position + self.keys_size;
        let mut out: Vec<u8> = Vec::new();
        out.push(1u8);
        push_le(&mut out, key_count as u128, 8);
        push_le(&mut out, index_position as u128, 8);
        push_le(&mut out, keys_position as u128, 8);
        push_all(&mut out, bloom_filter.as_slice());
        let ghost header = out@;
        let ghost iv = merged_index_view(self.index@);
        let mut k: usize = 0;
        assert(iv.subrange(0, 0) =~= Seq::<(Seq<u8>, nat, nat, nat)>::empty());
        while k < self.index.len()
            invariant
                k <= self.index@.len(),
                iv == merged_index_view(self.index@),
                self.wf(files@.len()),
                values_position as nat + self.values_size <= u64::MAX,
                keys_position as nat + self.keys_size == values_position,
                out@ == header + index_bytes(iv.subrange(0, k as int), keys_position as nat, values_position as nat),
            decreases self.index@.len() - k,
        {
            let e = &self.index[k];
            assert(iv[k as int] == (e.0@, e.1.0 as nat, e.1.1 as nat, e.1.2 as nat));
            assert(e.1.0 + e.1.1 <= self.keys_size && e.1.2 <= self.values_size);
            push_hash(&mut out, &e.0);
            push_le(&mut out, (keys_position + e.1.0) as u128, 8);
            push_le(&mut out, e.1.1 as u128, 8);
            push_le(&mut out, (values_position + e.1.2) as u128, 8);
            proof {
                assert(iv.subrange(0, k + 1).drop_last() =~= iv.subrange(0, k as int));
                assert(out@ =~= header + index_bytes(iv.subrange(0, k + 1), keys_position as nat, values_position as nat));
            }
            k = k + 1;
        }
        assert(iv.subrange(0, k as int) =~= iv);
        if !push_located(&mut out, &self.key_locations, files) {
            return Err(NeutronError::UnexpectedEnd);
        }
        if !push_located(&mut out, &self.value_locations, files) {
            return Err(NeutronError::UnexpectedEnd);
        }
        Ok(FlushedTable { bytes: out, key_count, index_position, keys_position })
    }
}

impl<K, V> Store<K, V> {
    /// Puts the table that compacting `level` wrote in the place of the
    /// level's tables: a table of the next level, named `name`, with the
    /// bloom filter `bloom_filter`, the compacted table's key count and
    /// positions, and the size of its bytes; the tables stay ordered by
    /// name, greatest first. Requires that the next level's number fits.
    pub fn add_compacted_table(&mut self, level: u8, compacted: &FlushedTable, bloom_filter: Vec<u8>, name: String)
        requires
            level < 255,
        ensures
            final(self).tables@ == sort_by_name(
                other_levels(old(self).tables@, level).push(
                    table_entry(
                        bloom_filter,
                        compacted.key_count,
                        (level + 1) as u8,
                        name,
                        compacted.bytes@.len(),
                        compacted.index_position,
                        compacted.keys_position,
                    ),
                ),
            ),
            final(self).keys == old(self).keys,
            final(self).values == old(self).values,
            final(self).graves == old(self).graves,
            final(self).cache_size == old(self).cache_size,
            final(self).cache_limit == old(self).cache_limit,
            final(self).log_len == old(self).log_len,
            final(self).directory == old(self).directory,
    {
        let table = Table {
            bloom_filter,
            key_count: compacted.key_count,
            level: level + 1,
            name,
            file_size: compacted.bytes.len() as u64,
            index_position: compacted.index_position,
            keys_position: compacted.keys_position,
        };
        self.replace_level(level, table);
    }
}

/// The sum of the file sizes of the tables of `level`.
pub open spec fn level_size(tables: Seq<Table>, level: u8) -> nat
    decreases tables.len(),
{
    if tables.len() == 0 {
        0
    } else {
        level_size(tables.drop_last(), level) + if tables.last().level == level {
            tables.last().file_size as nat
        } else {
            0nat
        }
    }
}

/// Ten to the power `e`.
pub open spec fn pow10(e: nat) -> nat
    decreases e,
{
    if e == 0 {
        1
    } else {
        10 * pow10((e - 1) as nat)
    }
}

/// The size limit of a level: `10^level` megabytes.
pub open spec fn level_limit(level: nat) -> nat {
    pow10(level) * 1_000_000
}

/// The tables of other levels than `level`, in their order.
pub open spec fn other_levels(tables: Seq<Table>, level: u8) -> Seq<Table>
    decreases tables.len(),
{
    if tables.len() == 0 {
        Seq::empty()
    } else {
        let rest = other_levels(tables.drop_last(), level);
        if tables.last().level != level {
            rest.push(tables.last())
        } else {
            rest
        }
    }
}

proof fn lemma_pow10_bound(e: nat)
    requires
        e <= 13,
    ensures
        pow10(e) <= 10_000_000_000_000,
        pow10(e) > 0,
    decreases e,
{
    if e > 0 {
        lemma_pow10_bound((e - 1) as nat);
        if e == 13 {
            reveal_with_fuel(pow10, 14);
        } else {
            lemma_pow10_below((e - 1) as nat);
        }
    }
}

proof fn lemma_pow10_below(e: nat)
    requires
        e <= 11,
    ensures
        pow10(e) <= 100_000_000_000,
    decreases e,
{
    if e > 0 {
        if e == 11 {
            reveal_with_fuel(pow10, 12);
        } else {
            lemma_pow10_below2((e - 1) as nat);
        }
    }
}

proof fn lemma_pow10_below2(e: nat)
    requires
        e <= 10,
    ensures
        pow10(e) <= 10_000_000_000,
    decreases e,
{
    reveal_with_fuel(pow10, 11);
}

impl<K, V> Store<K, V> {
    /// The levels that the store's tables are in, each once.
    pub fn levels(&self) -> (r: Vec<u8>)
        ensures
            forall|i: int, j: int| 0 <= i < j < r@.len() ==> r@[i] != r@[j],
            forall|l: u8| r@.contains(l) <==> exists|k: int| 0 <= k < self.tables@.len() && (#[trigger] self.tables@[k]).level == l,
    {
        let mut r: Vec<u8> = Vec::new();
        let mut i: usize = 0;
        while i < self.tables.len()
            invariant
                i <= self.tables@.len(),
                forall|a: int, b: int| 0 <= a < b < r@.len() ==> r@[a] != r@[b],
                forall|l: u8| r@.contains(l) <==> exists|k: int| 0 <= k < i && (#[trigger] self.tables@[k]).level == l,
            decreases self.tables@.len() - i,
        {
            let level = self.tables[i].level;
            let mut seen = false;
            let mut j: usize = 0;
            while j < r.len()
                invariant
                    j <= r@.len(),
                    seen <==> exists|a: int| 0 <= a < j && r@[a] == level,
                decreases r@.len() - j,
            {
                if r[j] == level {
                    seen = true;
                }
                j = j + 1;
            }
            let ghost before = r@;
            if !seen {
                r.push(level);
                proof {
                    assert forall|a: int, b: int| 0 <= a < b < r@.len() implies r@[a] != r@[b] by {
                        if b == r@.len() - 1 {
                            assert(r@[a] == before[a]);
                        } else {
                            assert(r@[a] == before[a] && r@[b] == before[b]);
                        }
                    }
                }
            }
            proof {
                assert forall|l: u8| r@.contains(l) <==> exists|k: int| 0 <= k < i + 1 && (#[trigger] self.tables@[k]).level == l by {
                    if r@.contains(l) {
                        let a = choose|a: int| 0 <= a < r@.len() && r@[a] == l;
                        if l == level {
                            assert(self.tables@[i as int].level == l);
                        } else {
                            assert(a < before.len() && before[a] == l);
                            assert(before.contains(l));
                        }
                    }
                    if exists|k: int| 0 <= k < i + 1 && (#[trigger] self.tables@[k]).level == l {
                        let k = choose|k: int| 0 <= k < i + 1 && (#[trigger] self.tables@[k]).level == l;
                        if k < i {
                            assert(before.contains(l));
                            let a = choose|a: int| 0 <= a < before.len() && before[a] == l;
                            assert(r@[a] == l);
                        } else if seen {
                            let a = choose|a: int| 0 <= a < r@.len() && r@[a] == level;
                        } else {
                            assert(r@[r@.len() - 1] == l);
                        }
                    }
                }
            }
            i = i + 1;
        }
        r
    }

    /// Whether the tables of `level` together are larger than the level's
    /// limit, `10^level` megabytes. Requires that the limit and the sum of
    /// the sizes fit in 64 bits.
    pub fn compaction_due(&self, level: u8) -> (r: bool)
        requires
            level <= 13,
            level_size(self.tables@, level) <= u64::MAX,
        ensures
            r == (level_size(self.tables@, level) > level_limit(level as nat)),
    {
        let mut size: u64 = 0;
        let mut i: usize = 0;
        let ghost tables = self.tables@;
        while i < self.tables.len()
            invariant
                i <= tables.len(),
                tables == self.tables@,
                size == level_size(tables.subrange(0, i as int), level),
                level_size(tables, level) <= u64::MAX,
            decreases tables.len() - i,
        {
            proof {
                assert(tables.subrange(0, i + 1).drop_last() =~= tables.subrange(0, i as int));
                lemma_level_size_prefix(tables, level, i + 1);
            }
            if self.tables[i].level == level {
                size = size + self.tables[i].file_size;
            }
            i = i + 1;
        }
        assert(tables.subrange(0, i as int) =~= tables);
        let mut limit: u64 = 1;
        let mut e: u8 = 0;
        while e < level
            invariant
                e <= level <= 13,
                limit == pow10(e as nat),
            decreases level - e,
        {
            proof {
                lemma_pow10_bound(e as nat);
                lemma_pow10_bound((e + 1) as nat);
            }
            limit = limit * 10;
            e = e + 1;
        }
        proof {
            lemma_pow10_bound(level as nat);
        }
        size > limit * 1_000_000
    }

    /// Replaces the tables of `level` by `table`, keeping the tables ordered
    /// by name, greatest first.
    pub fn replace_level(&mut self, level: u8, table: Table)
        ensures
            final(self).tables@ == sort_by_name(other_levels(old(self).tables@, level).push(table)),
            final(self).keys == old(self).keys,
            final(self).values == old(self).values,
            final(self).graves == old(self).graves,
            final(self).cache_size == old(self).cache_size,
            final(self).cache_limit == old(self).cache_limit,
            final(self).log_len == old(self).log_len,
            final(self).directory == old(self).directory,
    {
        let mut tables: Vec<Table> = Vec::new();
        std::mem::swap(&mut tables, &mut self.tables);
        let ghost s = tables@;
        let mut kept: Vec<Table> = Vec::new();
        let mut rest: Vec<Table> = Vec::new();
        while tables.len() > 0
            invariant
                rest@.len() + tables@.len() == s.len(),
                tables@ == s.subrange(0, tables@.len() as int),
                forall|i: int| 0 <= i < rest@.len() ==> #[trigger] rest@[i] == s[s.len() - 1 - i],
            decreases tables@.len(),
        {
            let t = tables.pop().unwrap();
            rest.push(t);
        }
        let mut k: usize = 0;
        let n = rest.len();
        assert(s.subrange(0, 0) =~= Seq::<Table>::empty());
        while rest.len() > 0
            invariant
                rest@.len() + k == n == s.len(),
                forall|i: int| 0 <= i < rest@.len() ==> #[trigger] rest@[i] == s[s.len() - 1 - i],
                kept@ == other_levels(s.subrange(0, k as int), level),
            decreases rest@.len(),
        {
            let t = rest.pop().unwrap();
            proof {
                assert(t == s[k as int]);
                assert(s.subrange(0, k + 1).drop_last() =~= s.subrange(0, k as int));
                assert(s.subrange(0, k + 1).last() == t);
            }
            if t.level != level {
                kept.push(t);
            }
            k = k + 1;
        }
        assert(s.subrange(0, k as int) =~= s);
        kept.push(table);
        self.tables = sort_tables(kept);
    }
}

/// The sizes of a prefix of the tables sum to no more than those of all.
proof fn lemma_level_size_prefix(tables: Seq<Table>, level: u8, j: int)
    requires
        0 <= j <= tables.len(),
    ensures
        level_size(tables.subrange(0, j), level) <= level_size(tables, level),
    decreases tables.len(),
{
    if j == tables.len() {
        assert(tables.subrange(0, j) =~= tables);
    } else {
        let t2 = tables.drop_last();
        assert(t2.subrange(0, j) =~= tables.subrange(0, j));
        lemma_level_size_prefix(t2, level, j);
    }
}

/// Ordering tables by name keeps the same tables.
pub proof fn lemma_sort_by_name_contains(s: Seq<Table>)
    ensures
        sort_by_name(s).len() == s.len(),
        forall|t: Table| #[trigger] sort_by_name(s).contains(t) <==> s.contains(t),
    decreases s.len(),
{
    if s.len() > 0 {
        let rest = s.drop_last();
        lemma_sort_by_name_contains(rest);
        let sorted = sort_by_name(rest);
        let p = insert_position(sorted, s.last(), 0);
        lemma_insert_position_bounds(sorted, s.last(), 0);
        let r = sorted.insert(p, s.last());
        assert(sort_by_name(s) == r);
        assert forall|t: Table| #[trigger] r.contains(t) <==> s.contains(t) by {
            if r.contains(t) {
                let i = choose|i: int| 0 <= i < r.len() && r[i] == t;
                if i < p {
                    assert(sorted[i] == t);
                    assert(sorted.contains(t));
                    let k = choose|k: int| 0 <= k < rest.len() && rest[k] == t;
                    assert(s[k] == t);
                } else if i > p {
                    assert(sorted[i - 1] == t);
                    assert(sorted.contains(t));
                    let k = choose|k: int| 0 <= k < rest.len() && rest[k] == t;
                    assert(s[k] == t);
                } else {
                    assert(s[s.len() - 1] == t);
                }
            }
            if s.contains(t) {
                let k = choose|k: int| 0 <= k < s.len() && s[k] == t;
                if k < s.len() - 1 {
                    assert(rest[k] == t);
                    assert(rest.contains(t));
                    assert(sorted.contains(t));
                    let i = choose|i: int| 0 <= i < sorted.len() && sorted[i] == t;
                    if i < p {
                        assert(r[i] == t);
                    } else {
                        assert(r[i + 1] == t);
                    }
                } else {
                    assert(r[p] == t);
                }
            }
        }
    }
}

proof fn lemma_insert_position_bounds(s: Seq<Table>, t: Table, j: int)
    requires
        0 <= j,
    ensures
        0 <= insert_position(s, t, j) <= s.len(),
    decreases s.len() - j,
{
    if j < s.len() {
        lemma_insert_position_bounds(s, t, j + 1);
    }
}

/// The tables of other levels are the tables not of `level`.
proof fn lemma_other_levels_contains(s: Seq<Table>, level: u8)
    ensures
        forall|t: Table| #[trigger] other_levels(s, level).contains(t) <==> s.contains(t) && t.level != level,
    decreases s.len(),
{
    if s.len() > 0 {
        let rest = s.drop_last();
        lemma_other_levels_contains(rest, level);
        let o = other_levels(s, level);
        let ro = other_levels(rest, level);
        assert(s.last().level != level ==> o == ro.push(s.last()));
        assert(s.last().level == level ==> o == ro);
        assert forall|t: Table| #[trigger] o.contains(t) <==> s.contains(t) && t.level != level by {
            if o.contains(t) {
                let i = choose|i: int| 0 <= i < o.len() && o[i] == t;
                if i < ro.len() {
                    assert(ro[i] == t);
                    assert(ro.contains(t));
                    let k = choose|k: int| 0 <= k < rest.len() && rest[k] == t;
                    assert(s[k] == t);
                } else {
                    assert(s[s.len() - 1] == t);
                }
            }
            if s.contains(t) && t.level != level {
                let k = choose|k: int| 0 <= k < s.len() && s[k] == t;
                if k < s.len() - 1 {
                    assert(rest[k] == t);
                    assert(rest.contains(t));
                    assert(ro.contains(t));
                    let i = choose|i: int| 0 <= i < ro.len() && ro[i] == t;
                    assert(o[i] == t);
                } else {
                    assert(o[o.len() - 1] == t);
                }
            }
        }
    }
}

/// Compacting a level replaces its tables: after `replace_level`, the
/// tables are the new table and the earlier tables of other levels, so no
/// table of the compacted level is left when the new table is of another
/// level.
pub proof fn lemma_replace_level_tables(tables: Seq<Table>, level: u8, table: Table)
    ensures
        forall|t: Table|
            #[trigger] sort_by_name(other_levels(tables, level).push(table)).contains(t) <==> (t == table || (
            tables.contains(t) && t.level != level)),
{
    let o = other_levels(tables, level);
    lemma_other_levels_contains(tables, level);
    lemma_sort_by_name_contains(o.push(table));
    assert forall|t: Table| #[trigger] o.push(table).contains(t) <==> (t == table || o.contains(t)) by {
        if o.push(table).contains(t) {
            let i = choose|i: int| 0 <= i < o.len() + 1 && o.push(table)[i] == t;
            if i < o.len() {
                assert(o[i] == t);
            }
        }
        if t == table {
            assert(o.push(table)[o.len() as int] == t);
        }
        if o.contains(t) {
            let i = choose|i: int| 0 <= i < o.len() && o[i] == t;
            assert(o.push(table)[i] == t);
        }
    }
}


/// A read after a compaction finds the key: the search of the compacted
/// table's index for the key hash of a merged index entry, over the whole
/// range as a table search starts, reaches that entry.
pub proof fn lemma_compacted_key_is_found(plan: MergePlan, bloom: Seq<u8>, files: Seq<Seq<u8>>, j: int)
    requires
        keys_sorted(plan.index@),
        0 <= j < plan.index@.len() <= u64::MAX,
    ensures
        search_from(
            compacted_bytes(plan, bloom, files),
            (25 + bloom.len()) as int,
            0,
            plan.index@.len() as int,
            plan.index@[j].0@,
        ) == entry_value(compacted_bytes(plan, bloom, files), 25 + bloom.len() + j * 56),
{
    let t = compacted_bytes(plan, bloom, files);
    let n = plan.index@.len();
    let ip = 25 + bloom.len();
    let (_, _, kp, vp) = flush_positions(bloom.len(), n, plan.keys_size as nat);
    let iv = merged_index_view(plan.index@);
    assert forall|i: int| 0 <= i < iv.len() implies (#[trigger] iv[i]).0.len() == 32 by {}
    lemma_index_bytes_layout(iv, kp, vp);
    let head = seq![1u8] + le_bytes(n, 8) + le_bytes(ip, 8) + le_bytes(kp, 8) + bloom;
    crate::bytes::lemma_from_le_bytes(n, 8);
    crate::bytes::lemma_from_le_bytes(ip, 8);
    crate::bytes::lemma_from_le_bytes(kp, 8);
    assert(head.len() == ip);
    let ib = index_bytes(iv, kp, vp);
    let rest = located_bytes(plan@.key_locations, files) + located_bytes(plan@.value_locations, files);
    assert(t =~= head + ib + rest);
    assert forall|i: int| 0 <= i < n implies #[trigger] index_hash(t, ip as int, i) == plan.index@[i].0@ by {
        assert(i * 56 + 32 <= n * 56) by (nonlinear_arith)
            requires
                i < n,
        ;
        assert(index_hash(t, ip as int, i) =~= ib.subrange(i * 56, i * 56 + 32));
        assert(iv[i].0 == plan.index@[i].0@);
    }
    assert(index_sorted(t, ip as int, n as int)) by {
        assert forall|a: int, b: int| 0 <= a < b < n implies lex_lt(
            #[trigger] index_hash(t, ip as int, a),
            #[trigger] index_hash(t, ip as int, b),
        ) by {
            assert(index_hash(t, ip as int, a) == plan.index@[a].0@);
            assert(index_hash(t, ip as int, b) == plan.index@[b].0@);
        }
    }
    lemma_search_finds_entry(t, ip as int, n as int, j, plan.index@[j].0@);
}


/// The total size of the locations.
pub open spec fn located_len(locations: Seq<(nat, nat, nat)>) -> nat
    decreases locations.len(),
{
    if locations.len() == 0 {
        0
    } else {
        located_len(locations.drop_last()) + locations.last().2
    }
}

/// The `k`th value location holds a value entry (hash, eight-byte length and
/// bytes, its size counting all three) with the hash `vh`, and the merged
/// value data places it at `place`.
pub open spec fn value_placed(files: Seq<Seq<u8>>, vl: Seq<(nat, nat, nat)>, vh: Seq<u8>, place: nat, k: int) -> bool {
    &&& 0 <= k < vl.len()
    &&& place == located_len(vl.subrange(0, k))
    &&& vl[k].0 < files.len()
    &&& vl[k].1 + 40 <= files[vl[k].0 as int].len()
    &&& vl[k].2 == 40 + from_le(files[vl[k].0 as int].subrange(vl[k].1 + 32 as int, vl[k].1 + 40 as int))
    &&& files[vl[k].0 as int].subrange(vl[k].1 as int, vl[k].1 + 32 as int) == vh
}

/// The bytes at `c` of table `t` are an index entry with the key hash `h`,
/// and the value that it points to has the hash of the value entry that the
/// merged value data places at `place`.
pub open spec fn key_placed(
    files: Seq<Seq<u8>>,
    vl: Seq<(nat, nat, nat)>,
    h: Seq<u8>,
    place: nat,
    t: int,
    c: int,
    k: int,
) -> bool {
    &&& 0 <= t < files.len()
    &&& 0 <= c
    &&& c + 56 <= files[t].len()
    &&& files[t].subrange(c, c + 32) == h
    &&& from_le(files[t].subrange(c + 48, c + 56)) + 32 <= files[t].len()
    &&& value_placed(
        files,
        vl,
        files[t].subrange(
            from_le(files[t].subrange(c + 48, c + 56)) as int,
            from_le(files[t].subrange(c + 48, c + 56)) + 32 as int,
        ),
        place,
        k,
    )
}

/// What a merge keeps true of what it gathered: the sizes are those of the
/// locations, every merged key's value place is that of a value entry whose
/// hash is that of the value its index entry points to, and every placed
/// value hash is that of the value entry at its place.
pub open spec fn merge_inv(m: Merge, files: Seq<Seq<u8>>) -> bool {
    &&& m.values_size == located_len(m.value_locations)
    &&& m.keys_size == located_len(m.key_locations)
    &&& forall|h: Seq<u8>|
        #[trigger] m.index.contains_key(h) ==> exists|t: int, c: int, k: int|
            #[trigger] key_placed(files, m.value_locations, h, m.index[h].2, t, c, k)
    &&& forall|vh: Seq<u8>|
        #[trigger] m.value_positions.contains_key(vh) ==> exists|k: int|
            #[trigger] value_placed(files, m.value_locations, vh, m.value_positions[vh], k)
}

proof fn lemma_value_placed_push(files: Seq<Seq<u8>>, vl: Seq<(nat, nat, nat)>, x: (nat, nat, nat), vh: Seq<u8>, place: nat, k: int)
    requires
        value_placed(files, vl, vh, place, k),
    ensures
        value_placed(files, vl.push(x), vh, place, k),
{
    assert(vl.push(x).subrange(0, k) =~= vl.subrange(0, k));
    assert(vl.push(x)[k] == vl[k]);
}

/// Merging a table's index keeps the merge's invariant.
proof fn lemma_merge_table_inv(files: Seq<Seq<u8>>, t: nat, kp: nat, c: nat, m: Merge)
    requires
        t < files.len(),
        merge_inv(m, files),
    ensures
        merge_table(files[t as int], t, kp, c, m) matches MergeEnd::Done(m2) ==> merge_inv(m2, files),
    decreases unseen(files[t as int], m.index.dom(), windows(files[t as int])), distance(files[t as int], c),
{
    let f = files[t as int];
    if c >= kp {
    } else if c + 32 > f.len() {
    } else {
        let h = f.subrange(c as int, c as int + 32);
        if m.index.contains_key(h) {
            lemma_merge_table_inv(files, t, kp, c + 32, m);
        } else if c + 56 > f.len() {
        } else {
            let ci = c as int;
            let key_position = from_le(f.subrange(ci + 32, ci + 40));
            let key_size = from_le(f.subrange(ci + 40, ci + 48));
            let value_position = from_le(f.subrange(ci + 48, ci + 56));
            let vi = value_position as int;
            if value_position + 32 > f.len() {
            } else {
                let vh = f.subrange(vi, vi + 32);
                lemma_unseen_insert(f, m.index.dom(), h, windows(f), c as int);
                let vl = m.value_locations;
                if m.value_positions.contains_key(vh) {
                    if m.keys_size + key_size > u64::MAX {
                    } else {
                        let m2 = Merge {
                            index: m.index.insert(h, (m.keys_size, key_size, m.value_positions[vh])),
                            key_locations: m.key_locations.push((t, key_position, key_size)),
                            keys_size: m.keys_size + key_size,
                            ..m
                        };
                        assert(m2.index.dom() =~= m.index.dom().insert(h));
                        assert(m2.key_locations.drop_last() =~= m.key_locations);
                        let k = choose|k: int| #[trigger] value_placed(files, vl, vh, m.value_positions[vh], k);
                        assert(key_placed(files, vl, h, m.value_positions[vh], t as int, ci, k));
                        assert forall|h2: Seq<u8>| #[trigger] m2.index.contains_key(h2) implies exists|
                            t2: int,
                            c2: int,
                            k2: int,
                        | #[trigger] key_placed(files, m2.value_locations, h2, m2.index[h2].2, t2, c2, k2) by {
                            if h2 == h {
                                assert(key_placed(files, m2.value_locations, h2, m2.index[h2].2, t as int, ci, k));
                            } else {
                                assert(m.index.contains_key(h2));
                                let (t2, c2, k2) = choose|t2: int, c2: int, k2: int|
                                    #[trigger] key_placed(files, vl, h2, m.index[h2].2, t2, c2, k2);
                                assert(key_placed(files, m2.value_locations, h2, m2.index[h2].2, t2, c2, k2));
                            }
                        }
                        assert forall|vh2: Seq<u8>| #[trigger] m2.value_positions.contains_key(vh2) implies exists|k2: int|
                            #[trigger] value_placed(files, m2.value_locations, vh2, m2.value_positions[vh2], k2) by {
                            let k2 = choose|k2: int| #[trigger] value_placed(files, vl, vh2, m.value_positions[vh2], k2);
                            assert(value_placed(files, m2.value_locations, vh2, m2.value_positions[vh2], k2));
                        }
                        lemma_merge_table_inv(files, t, kp, value_position + 32, m2);
                    }
                } else if value_position + 40 > f.len() {
                } else {
                    let size = 40 + from_le(f.subrange(vi + 32, vi + 40));
                    if size > u64::MAX || m.values_size + size > u64::MAX || m.keys_size + key_size > u64::MAX {
                    } else {
                        let x = (t, value_position, size);
                        let m2 = Merge {
                            index: m.index.insert(h, (m.keys_size, key_size, m.values_size)),
                            value_positions: m.value_positions.insert(vh, m.values_size),
                            key_locations: m.key_locations.push((t, key_position, key_size)),
                            value_locations: vl.push(x),
                            keys_size: m.keys_size + key_size,
                            values_size: m.values_size + size,
                        };
                        assert(m2.index.dom() =~= m.index.dom().insert(h));
                        assert(m2.key_locations.drop_last() =~= m.key_locations);
                        assert(m2.value_locations.drop_last() =~= vl);
                        let k = vl.len() as int;
                        assert(vl.push(x).subrange(0, k) =~= vl);
                        assert(value_placed(files, m2.value_locations, vh, m.values_size, k));
                        assert(key_placed(files, m2.value_locations, h, m.values_size, t as int, ci, k));
                        assert forall|h2: Seq<u8>| #[trigger] m2.index.contains_key(h2) implies exists|
                            t2: int,
                            c2: int,
                            k2: int,
                        | #[trigger] key_placed(files, m2.value_locations, h2, m2.index[h2].2, t2, c2, k2) by {
                            if h2 == h {
                                assert(key_placed(files, m2.value_locations, h2, m2.index[h2].2, t as int, ci, k));
                            } else {
                                assert(m.index.contains_key(h2));
                                let (t2, c2, k2) = choose|t2: int, c2: int, k2: int|
                                    #[trigger] key_placed(files, vl, h2, m.index[h2].2, t2, c2, k2);
                                let p2 = from_le(files[t2].subrange(c2 + 48, c2 + 56));
                                lemma_value_placed_push(files, vl, x, files[t2].subrange(p2 as int, p2 + 32 as int), m.index[h2].2, k2);
                                assert(key_placed(files, m2.value_locations, h2, m2.index[h2].2, t2, c2, k2));
                            }
                        }
                        assert forall|vh2: Seq<u8>| #[trigger] m2.value_positions.contains_key(vh2) implies exists|k2: int|
                            #[trigger] value_placed(files, m2.value_locations, vh2, m2.value_positions[vh2], k2) by {
                            if vh2 == vh {
                                assert(value_placed(files, m2.value_locations, vh2, m2.value_positions[vh2], k));
                            } else {
                                assert(m.value_positions.contains_key(vh2));
                                let k2 = choose|k2: int| #[trigger] value_placed(files, vl, vh2, m.value_positions[vh2], k2);
                                lemma_value_placed_push(files, vl, x, vh2, m.value_positions[vh2], k2);
                                assert(value_placed(files, m2.value_locations, vh2, m2.value_positions[vh2], k2));
                            }
                        }
                        lemma_merge_table_inv(files, t, kp, c + 56, m2);
                    }
                }
            }
        }
    }
}

/// Merging the tables' indexes keeps the merge's invariant.
proof fn lemma_merge_all_inv(files: Seq<Seq<u8>>, positions: Seq<(nat, nat)>, t: nat, m: Merge)
    requires
        merge_inv(m, files),
    ensures
        merge_all(files, positions, t, m) matches MergeEnd::Done(m2) ==> merge_inv(m2, files),
    decreases files.len() - t,
{
    if t < files.len() && t < positions.len() {
        lemma_merge_table_inv(files, t, positions[t as int].1, positions[t as int].0, m);
        match merge_table(files[t as int], t, positions[t as int].1, positions[t as int].0, m) {
            MergeEnd::Done(m2) => {
                lemma_merge_all_inv(files, positions, t + 1, m2);
            },
            _ => {},
        }
    }
}


/// The bytes at the locations, when each lies inside its table, are as long
/// as the locations' total size.
proof fn lemma_located_len(locations: Seq<(nat, nat, nat)>, files: Seq<Seq<u8>>)
    requires
        all_located(locations, files),
    ensures
        located_bytes(locations, files).len() == located_len(locations),
    decreases locations.len(),
{
    if locations.len() > 0 {
        let d = locations.drop_last();
        assert forall|i: int| 0 <= i < d.len() implies (#[trigger] d[i]).0 < files.len() && d[i].1 + d[i].2
            <= files[d[i].0 as int].len() by {
            assert(d[i] == locations[i]);
        }
        lemma_located_len(d, files);
        assert(locations.last() == locations[locations.len() - 1]);
    }
}

/// The bytes of the `k`th location stand, among the bytes at the
/// locations, at the total size of the locations before it.
proof fn lemma_located_at(locations: Seq<(nat, nat, nat)>, files: Seq<Seq<u8>>, k: int)
    requires
        all_located(locations, files),
        0 <= k < locations.len(),
    ensures
        located_len(locations.subrange(0, k)) + locations[k].2 <= located_len(locations),
        located_bytes(locations, files).subrange(
            located_len(locations.subrange(0, k)) as int,
            located_len(locations.subrange(0, k)) + locations[k].2 as int,
        ) == files[locations[k].0 as int].subrange(locations[k].1 as int, locations[k].1 + locations[k].2 as int),
    decreases locations.len(),
{
    let d = locations.drop_last();
    assert forall|i: int| 0 <= i < d.len() implies (#[trigger] d[i]).0 < files.len() && d[i].1 + d[i].2
        <= files[d[i].0 as int].len() by {
        assert(d[i] == locations[i]);
    }
    lemma_located_len(d, files);
    let pre = located_bytes(d, files);
    let all = located_bytes(locations, files);
    let l = locations.last();
    assert(l == locations[locations.len() - 1]);
    if k < d.len() {
        lemma_located_at(d, files, k);
        assert(locations.subrange(0, k) =~= d.subrange(0, k));
        assert(locations[k] == d[k]);
        let o = located_len(d.subrange(0, k)) as int;
        assert(all.subrange(o, o + d[k].2) =~= pre.subrange(o, o + d[k].2));
    } else {
        assert(locations.subrange(0, k) =~= d);
        assert(all.subrange(pre.len() as int, pre.len() + l.2 as int) =~= files[l.0 as int].subrange(
            l.1 as int,
            l.1 + l.2 as int,
        ));
    }
}

/// An index entry whose last eight bytes hold the position of a value entry
/// `e` (hash, eight-byte length, bytes) points to the entry's bytes.
proof fn lemma_entry_reads_value_entry(t: Seq<u8>, entry: int, vpos: int, e: Seq<u8>)
    requires
        0 <= entry,
        entry + 56 <= t.len(),
        0 <= vpos < 0x1_0000_0000_0000_0000,
        t.subrange(entry + 48, entry + 56) == le_bytes(vpos as nat, 8),
        e.len() == 40 + from_le(e.subrange(32, 40)),
        vpos + e.len() <= t.len(),
        t.subrange(vpos, vpos + e.len()) == e,
    ensures
        entry_value(t, entry) == crate::linked_list::Decoded::Value(Some(e.subrange(40, e.len() as int))),
{
    crate::bytes::lemma_pow256_values();
    assert(from_le(t.subrange(entry + 48, entry + 56)) == vpos) by {
        crate::bytes::lemma_from_le_bytes(vpos as nat, 8);
    }
    assert(t.subrange(vpos + 32, vpos + 40) =~= e.subrange(32, 40));
    assert(t.subrange(vpos + 40, vpos + e.len()) =~= e.subrange(40, e.len() as int));
}

/// A read after a compaction gives a merged value: the search of the
/// compacted table for the key hash of a merged index entry gives the bytes
/// of a value entry of the level's tables, and one of those tables has an
/// index entry with that key hash whose value has that value entry's hash.
/// The table's positions must fit in eight bytes, and every merged key and
/// value must lie inside its table (else the compaction fails).
pub proof fn lemma_compacted_value_is_read(
    plan: MergePlan,
    bloom: Seq<u8>,
    files: Seq<Seq<u8>>,
    positions: Seq<(nat, nat)>,
    j: int,
)
    requires
        merge_all(files, positions, 0, empty_merge()) == MergeEnd::Done(plan@),
        keys_sorted(plan.index@),
        all_located(plan@.key_locations, files),
        all_located(plan@.value_locations, files),
        0 <= j < plan.index@.len(),
        compacted_bytes(plan, bloom, files).len() <= u64::MAX,
    ensures
        exists|t: int, c: int, k: int|
            #[trigger] key_placed(files, plan@.value_locations, plan.index@[j].0@, plan.index@[j].1.2 as nat, t, c, k)
                && search_from(
                compacted_bytes(plan, bloom, files),
                (25 + bloom.len()) as int,
                0,
                plan.index@.len() as int,
                plan.index@[j].0@,
            ) == crate::linked_list::Decoded::Value(
                Some(
                    files[plan@.value_locations[k].0 as int].subrange(
                        plan@.value_locations[k].1 + 40 as int,
                        plan@.value_locations[k].1 + plan@.value_locations[k].2 as int,
                    ),
                ),
            ),
{
    let m = plan@;
    let vl = m.value_locations;
    let tb = compacted_bytes(plan, bloom, files);
    let n = plan.index@.len();
    let ip = 25 + bloom.len();
    let (_, _, kp, vp) = flush_positions(bloom.len(), n, plan.keys_size as nat);
    let h = plan.index@[j].0@;
    let place = plan.index@[j].1.2 as nat;
    assert(merge_inv(empty_merge(), files));
    lemma_merge_all_inv(files, positions, 0, empty_merge());
    lemma_sorted_unique(plan.index@);
    lemma_hash_map(plan.index@);
    assert(hash_map(plan.index@).contains_key(h));
    assert(m.index.contains_key(h));
    assert(m.index[h] == triple_view(plan.index@[j].1));
    let (t, c, k) = choose|t: int, c: int, k: int| #[trigger] key_placed(files, vl, h, place, t, c, k);
    assert(key_placed(files, vl, h, place, t, c, k));
    let iv = merged_index_view(plan.index@);
    assert forall|i: int| 0 <= i < iv.len() implies (#[trigger] iv[i]).0.len() == 32 by {}
    lemma_index_bytes_layout(iv, kp, vp);
    lemma_located_len(m.key_locations, files);
    lemma_located_len(vl, files);
    lemma_located_at(vl, files, k);
    let head = seq![1u8] + le_bytes(n, 8) + le_bytes(ip, 8) + le_bytes(kp, 8) + bloom;
    crate::bytes::lemma_from_le_bytes(n, 8);
    crate::bytes::lemma_from_le_bytes(ip, 8);
    crate::bytes::lemma_from_le_bytes(kp, 8);
    let ib = index_bytes(iv, kp, vp);
    let kd = located_bytes(m.key_locations, files);
    let vd = located_bytes(vl, files);
    assert(tb =~= head + ib + kd + vd);
    assert(n <= n * 56) by (nonlinear_arith)
        requires
            n >= 0,
    ;
    lemma_compacted_key_is_found(plan, bloom, files, j);
    assert(j * 56 + 56 <= n * 56) by (nonlinear_arith)
        requires
            j < n,
    ;
    assert(ib.subrange(j * 56, j * 56 + 32) == iv[j].0);
    assert(iv[j].3 == place);
    let entry = ip + j * 56;
    assert(tb.subrange(entry + 48, entry + 56) =~= ib.subrange(j * 56 + 48, j * 56 + 56));
    let l = vl[k];
    let e = files[l.0 as int].subrange(l.1 as int, l.1 + l.2 as int);
    let vpos: int = (vp + place) as int;
    assert(vd.subrange(place as int, place + l.2 as int) == e);
    assert(tb.subrange(vpos, vpos + l.2 as int) =~= vd.subrange(place as int, place + l.2 as int));
    assert(e.subrange(32, 40) =~= files[l.0 as int].subrange(l.1 + 32 as int, l.1 + 40 as int));
    lemma_entry_reads_value_entry(tb, entry, vpos, e);
    assert(e.subrange(40, e.len() as int) =~= files[l.0 as int].subrange(l.1 + 40 as int, l.1 + l.2 as int));
}


/// What a compaction of a level leaves: the tables stay ordered by name,
/// greatest first; the level has no table left; and the tables are the
/// other levels' tables and the new one (at the next level).
pub proof fn lemma_compaction_outcome(tables: Seq<Table>, level: u8, table: Table)
    requires
        table.level == level + 1,
    ensures
        names_descending(sort_by_name(other_levels(tables, level).push(table))),
        forall|t: Table| #[trigger] sort_by_name(other_levels(tables, level).push(table)).contains(t) ==> t.level != level,
        forall|t: Table|
            #[trigger] sort_by_name(other_levels(tables, level).push(table)).contains(t) <==> (t == table || (
            tables.contains(t) && t.level != level)),
{
    lemma_replace_level_tables(tables, level, table);
    lemma_sort_by_name_sorted(other_levels(tables, level).push(table));
}


/// The limits of the levels grow tenfold per level, from one million bytes
/// at level 0: ten million bytes at level 1, a hundred million at level 2.
pub proof fn lemma_level_limits()
    ensures
        level_limit(0) == 1_000_000,
        level_limit(1) == 10_000_000,
        level_limit(2) == 100_000_000,
        forall|l: nat| #[trigger] level_limit(l + 1) == 10 * level_limit(l),
{
    assert(pow10(0) == 1);
    assert(pow10(1) == 10);
    assert(pow10(2) == 100);
    assert forall|l: nat| #[trigger] level_limit(l + 1) == 10 * level_limit(l) by {
        assert(pow10(l + 1) == 10 * pow10(l));
        assert((10 * pow10(l)) * 1_000_000 == 10 * (pow10(l) * 1_000_000)) by (nonlinear_arith);
    }
}


/// The size of a level adds up over the tables: the tables of two lists
/// together have the sum of their sizes, no tables have size zero, and one
/// table counts its file size exactly when it is of the level.
pub proof fn lemma_level_size_adds(a: Seq<Table>, b: Seq<Table>, level: u8)
    ensures
        level_size(a + b, level) == level_size(a, level) + level_size(b, level),
        level_size(Seq::<Table>::empty(), level) == 0,
        forall|t: Table| #[trigger] level_size(seq![t], level) == if t.level == level {
            t.file_size as nat
        } else {
            0nat
        },
    decreases b.len(),
{
    if b.len() > 0 {
        lemma_level_size_adds(a, b.drop_last(), level);
        assert((a + b).drop_last() =~= a + b.drop_last());
        assert((a + b).last() == b.last());
    } else {
        assert(a + b =~= a);
    }
    assert forall|t: Table| #[trigger] level_size(seq![t], level) == if t.level == level {
        t.file_size as nat
    } else {
        0nat
    } by {
        assert(seq![t].drop_last() =~= Seq::<Table>::empty());
        assert(seq![t].last() == t);
        assert(level_size(seq![t].drop_last(), level) == 0);
    }
}

} // verus!
