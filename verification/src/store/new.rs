//! Opening a store: its graves, its tables' headers and order, and the
//! replay of its log into the cache.
use vstd::prelude::*;
use vstd::utf8::encode_utf8;
use crate::bytes::{from_le, read_le, copy_range, lemma_from_le_bound, lemma_pow256_values, pow256, le_bytes, lemma_from_le_bytes};
use crate::store::put::{key_log_record, value_log_record, put_relation};
use crate::store::delete::{grave_log_record, delete_relation};
use crate::error::NeutronError;
use crate::store::{
    Store, Table, KeyObject, ValueObject, HashOrder, compare_bytes, lex_lt, graves_set, graves_unique,
    find_grave, find_entry, insert_key, read_hash, hash_map, hashes_unique, keys_sorted, lemma_hash_map,
    lemma_hash_map_insert, lemma_hash_map_update, TABLE_HEADER_SIZE,
};
use crate::types::try_from_bytes::TryFromBytes;
use crate::store::get::Cached;
use crate::store::{lemma_lex_total, lemma_lex_transitive, lemma_lex_asymmetric};
use std::marker::PhantomData;

verus! {

/// The bytes of a table's name.
pub open spec fn name_bytes(t: Table) -> Seq<u8> {
    encode_utf8(t.name@)
}

/// The place where a table goes among tables ordered by name, newest
/// (greatest) first: after every table whose name is not below its name.
pub open spec fn insert_position(s: Seq<Table>, t: Table, j: int) -> int
    decreases s.len() - j,
{
    if j < 0 || j >= s.len() {
        s.len() as int
    } else if lex_lt(name_bytes(s[j]), name_bytes(t)) {
        j
    } else {
        insert_position(s, t, j + 1)
    }
}

/// The tables with `t` put at its place by name.
pub open spec fn insert_by_name(s: Seq<Table>, t: Table) -> Seq<Table> {
    s.insert(insert_position(s, t, 0), t)
}

/// The tables ordered by name, greatest first, tables with equal names in
/// their given order (a stable sort).
pub open spec fn sort_by_name(s: Seq<Table>) -> Seq<Table>
    decreases s.len(),
{
    if s.len() == 0 {
        Seq::empty()
    } else {
        insert_by_name(sort_by_name(s.drop_last()), s.last())
    }
}

/// The tables are ordered by name, greatest first.
pub open spec fn names_descending(s: Seq<Table>) -> bool {
    forall|i: int, j: int| 0 <= i < j < s.len() ==> !lex_lt(name_bytes(#[trigger] s[i]), name_bytes(#[trigger] s[j]))
}

proof fn lemma_insert_position(s: Seq<Table>, t: Table, j: int)
    requires
        0 <= j <= s.len(),
    ensures
        j <= insert_position(s, t, j) <= s.len(),
        forall|k: int| j <= k < insert_position(s, t, j) ==> !lex_lt(name_bytes(#[trigger] s[k]), name_bytes(t)),
        insert_position(s, t, j) < s.len() ==> lex_lt(name_bytes(s[insert_position(s, t, j)]), name_bytes(t)),
    decreases s.len() - j,
{
    if j < s.len() && !lex_lt(name_bytes(s[j]), name_bytes(t)) {
        lemma_insert_position(s, t, j + 1);
    }
}

proof fn lemma_insert_by_name_sorted(s: Seq<Table>, t: Table)
    requires
        names_descending(s),
    ensures
        names_descending(insert_by_name(s, t)),
{
    let p = insert_position(s, t, 0);
    lemma_insert_position(s, t, 0);
    let r = insert_by_name(s, t);
    assert(r == s.insert(p, t));
    assert forall|i: int, j: int| 0 <= i < j < r.len() implies !lex_lt(
        name_bytes(#[trigger] r[i]),
        name_bytes(#[trigger] r[j]),
    ) by {
        if i < p && j < p {
            assert(r[i] == s[i] && r[j] == s[j]);
        } else if i < p && j == p {
            assert(r[i] == s[i]);
        } else if i < p {
            assert(r[i] == s[i] && r[j] == s[j - 1]);
        } else if i == p {
            let u = s[j - 1];
            assert(r[j] == u);
            let sp = s[p];
            assert(lex_lt(name_bytes(sp), name_bytes(t)));
            if j - 1 > p {
                assert(!lex_lt(name_bytes(sp), name_bytes(u)));
            }
            lemma_lex_total(name_bytes(u), name_bytes(sp));
            if lex_lt(name_bytes(u), name_bytes(sp)) {
                lemma_lex_transitive(name_bytes(u), name_bytes(sp), name_bytes(t));
            }
            lemma_lex_asymmetric(name_bytes(u), name_bytes(t));
        } else {
            assert(r[i] == s[i - 1] && r[j] == s[j - 1]);
        }
    }
}

/// Ordering tables by name gives them in order, greatest name first.
pub proof fn lemma_sort_by_name_sorted(s: Seq<Table>)
    ensures
        names_descending(sort_by_name(s)),
    decreases s.len(),
{
    if s.len() > 0 {
        lemma_sort_by_name_sorted(s.drop_last());
        lemma_insert_by_name_sorted(sort_by_name(s.drop_last()), s.last());
    }
}

/// Puts a table at its place among tables ordered by name.
pub fn insert_table(tables: &mut Vec<Table>, t: Table)
    ensures
        final(tables)@ == insert_by_name(old(tables)@, t),
{
    let ghost s = old(tables)@;
    let mut j: usize = 0;
    while j < tables.len()
        invariant
            j <= tables@.len(),
            tables@ == s,
            insert_position(s, t, 0) == insert_position(s, t, j as int),
        ensures
            j <= tables@.len(),
            tables@ == s,
            insert_position(s, t, 0) == j,
        decreases tables@.len() - j,
    {
        match compare_bytes(tables[j].name.as_str().as_bytes(), t.name.as_str().as_bytes()) {
            HashOrder::Less => {
                break;
            },
            _ => {},
        }
        j = j + 1;
    }
    tables.insert(j, t);
}

/// Orders tables by name, greatest first, keeping tables with equal names in
/// their given order.
pub fn sort_tables(tables: Vec<Table>) -> (r: Vec<Table>)
    ensures
        r@ == sort_by_name(tables@),
{
    let mut input = tables;
    let ghost s = input@;
    let mut r: Vec<Table> = Vec::new();
    let mut rest: Vec<Table> = Vec::new();
    // take the tables off the end, then put them back in their given order
    while input.len() > 0
        invariant
            rest@.len() + input@.len() == s.len(),
            input@ == s.subrange(0, input@.len() as int),
            forall|i: int| 0 <= i < rest@.len() ==> #[trigger] rest@[i] == s[s.len() - 1 - i],
        decreases input@.len(),
    {
        let t = input.pop().unwrap();
        rest.push(t);
    }
    let mut k: usize = 0;
    let n = rest.len();
    assert(s.subrange(0, 0) =~= Seq::<Table>::empty());
    while rest.len() > 0
        invariant
            rest@.len() + k == n == s.len(),
            forall|i: int| 0 <= i < rest@.len() ==> #[trigger] rest@[i] == s[s.len() - 1 - i],
            r@ == sort_by_name(s.subrange(0, k as int)),
        decreases rest@.len(),
    {
        let t = rest.pop().unwrap();
        proof {
            assert(t == s[k as int]);
            assert(s.subrange(0, k + 1).drop_last() =~= s.subrange(0, k as int));
            assert(s.subrange(0, k + 1).last() == t);
        }
        insert_table(&mut r, t);
        k = k + 1;
    }
    assert(s.subrange(0, k as int) =~= s);
    r
}

/// The hashes of a graves file: its whole 32-byte chunks.
pub open spec fn grave_chunks(bytes: Seq<u8>) -> Set<Seq<u8>> {
    Set::new(|h: Seq<u8>| exists|i: int| 0 <= i && (i + 1) * 32 <= bytes.len() && h == #[trigger] bytes.subrange(i * 32, i * 32 + 32))
}

/// Reads the hashes of a graves file: one per whole 32-byte chunk, a
/// shorter tail ignored, each hash once.
pub fn parse_graves(bytes: &Vec<u8>) -> (r: Vec<[u8; 32]>)
    ensures
        graves_unique(r@),
        graves_set(r@) == grave_chunks(bytes@),
{
    let mut r: Vec<[u8; 32]> = Vec::new();
    let mut i: usize = 0;
    let len = bytes.len();
    while 32 <= len - i
        invariant
            len == bytes@.len(),
            i % 32 == 0,
            i <= len,
            graves_unique(r@),
            graves_set(r@) == Set::new(|h: Seq<u8>| exists|c: int| 0 <= c && (c + 1) * 32 <= i && h == #[trigger] bytes@.subrange(c * 32, c * 32 + 32)),
        decreases len - i,
    {
        let mut h: [u8; 32] = [0u8; 32];
        let mut k: usize = 0;
        while k < 32
            invariant
                k <= 32,
                i + 32 <= len == bytes@.len(),
                h@.len() == 32,
                h@.subrange(0, k as int) == bytes@.subrange(i as int, i + k),
            decreases 32 - k,
        {
            h[k] = bytes[i + k];
            proof {
                assert(h@.subrange(0, k + 1) =~= bytes@.subrange(i as int, i + k + 1));
            }
            k = k + 1;
        }
        assert(h@ =~= bytes@.subrange(i as int, i + 32));
        let ghost g = r@;
        let ghost old_set = graves_set(g);
        match find_grave(&r, &h) {
            Some(_) => {},
            None => {
                r.push(h);
                proof {
                    let t = r@;
                    assert(graves_unique(t)) by {
                        assert forall|a: int, b: int| 0 <= a < b < t.len() implies (#[trigger] t[a]@) != (
                        #[trigger] t[b]@) by {
                            if b == g.len() {
                                assert(t[a] == g[a]);
                            } else {
                                assert(t[a] == g[a] && t[b] == g[b]);
                            }
                        }
                    }
                    assert forall|x: Seq<u8>| #[trigger] graves_set(t).contains(x) <==> old_set.insert(h@).contains(x) by {
                        if graves_set(t).contains(x) {
                            let c = choose|c: int| 0 <= c < t.len() && (#[trigger] t[c])@ == x;
                            if c < g.len() {
                                assert(t[c] == g[c]);
                            }
                        }
                        if old_set.contains(x) {
                            let c = choose|c: int| 0 <= c < g.len() && (#[trigger] g[c])@ == x;
                            assert(t[c] == g[c]);
                        }
                        if x == h@ {
                            assert(t[g.len() as int] == h);
                        }
                    }
                    assert(graves_set(t) =~= old_set.insert(h@));
                }
            },
        }
        proof {
            let c0 = (i / 32) as int;
            assert(c0 * 32 == i);
            assert forall|x: Seq<u8>| #[trigger] graves_set(r@).contains(x) <==> (exists|c: int| 0 <= c && (c + 1) * 32 <= i + 32 && x == #[trigger] bytes@.subrange(c * 32, c * 32 + 32)) by {
                if exists|c: int| 0 <= c && (c + 1) * 32 <= i + 32 && x == #[trigger] bytes@.subrange(c * 32, c * 32 + 32) {
                    let c = choose|c: int| 0 <= c && (c + 1) * 32 <= i + 32 && x == #[trigger] bytes@.subrange(c * 32, c * 32 + 32);
                    if c < c0 {
                        assert(old_set.contains(x));
                    } else {
                        assert(c == c0);
                    }
                }
                if old_set.contains(x) {
                    let c = choose|c: int| 0 <= c && (c + 1) * 32 <= i && x == #[trigger] bytes@.subrange(c * 32, c * 32 + 32);
                    assert((c + 1) * 32 <= i + 32);
                }
                if x == h@ {
                    assert(x == bytes@.subrange(c0 * 32, c0 * 32 + 32));
                }
            }
            assert(graves_set(r@) =~= Set::new(|x: Seq<u8>| exists|c: int| 0 <= c && (c + 1) * 32 <= i + 32 && x == #[trigger] bytes@.subrange(c * 32, c * 32 + 32)));
        }
        i = i + 32;
    }
    proof {
        assert forall|x: Seq<u8>| #[trigger] graves_set(r@).contains(x) <==> grave_chunks(bytes@).contains(x) by {
            if grave_chunks(bytes@).contains(x) {
                let c = choose|c: int| 0 <= c && (c + 1) * 32 <= bytes@.len() && x == #[trigger] bytes@.subrange(c * 32, c * 32 + 32);
                assert((c + 1) * 32 <= i) by (nonlinear_arith)
                    requires
                        (c + 1) * 32 <= len,
                        i + 32 > len,
                        i % 32 == 0,
                        c >= 0,
                        i >= 0,
                ;
            }
        }
        assert(graves_set(r@) =~= grave_chunks(bytes@));
    }
    r
}

/// The decimal value of ASCII digits.
pub open spec fn decimal_value(d: Seq<u8>) -> nat
    decreases d.len(),
{
    if d.len() == 0 {
        0
    } else {
        decimal_value(d.drop_last()) * 10 + (d.last() - 48) as nat
    }
}

/// Every byte is an ASCII digit.
pub open spec fn all_digits(d: Seq<u8>) -> bool {
    forall|i: int| 0 <= i < d.len() ==> 48 <= #[trigger] d[i] <= 57
}

/// The level number that a level directory's name stands for: an optional
/// `+` and decimal digits for a number up to 255, as `u8::from_str_radix`
/// reads them in base 10.
pub open spec fn level_of_name(b: Seq<u8>) -> Option<u8> {
    let d = if b.len() > 0 && b[0] == 43 {
        b.drop_first()
    } else {
        b
    };
    if d.len() > 0 && all_digits(d) && decimal_value(d) <= 255 {
        Some(decimal_value(d) as u8)
    } else {
        None
    }
}

proof fn lemma_decimal_grows(d: Seq<u8>, i: int)
    requires
        0 <= i <= d.len(),
        all_digits(d),
    ensures
        decimal_value(d.subrange(0, i)) <= decimal_value(d),
    decreases d.len() - i,
{
    if i < d.len() {
        lemma_decimal_grows(d, i + 1);
        assert(d.subrange(0, i + 1).drop_last() =~= d.subrange(0, i));
        assert(48 <= d[i] <= 57);
    } else {
        assert(d.subrange(0, i) =~= d);
    }
}

/// Reads a level directory's name as a level number.
pub fn parse_level_name(name: &str) -> (r: Option<u8>)
    ensures
        r == level_of_name(encode_utf8(name@)),
{
    let b = name.as_bytes();
    let start: usize = if b.len() > 0 && b[0] == 43 {
        1
    } else {
        0
    };
    let ghost d = if b@.len() > 0 && b@[0] == 43 {
        b@.drop_first()
    } else {
        b@
    };
    assert(d =~= b@.subrange(start as int, b@.len() as int));
    if start >= b.len() {
        return None;
    }
    let mut acc: u32 = 0;
    let mut i: usize = start;
    let mut too_big = false;
    while i < b.len()
        invariant
            start <= i <= b@.len(),
            b@ == encode_utf8(name@),
            d == (if b@.len() > 0 && b@[0] == 43 {
                b@.drop_first()
            } else {
                b@
            }),
            d.len() > 0,
            d == b@.subrange(start as int, b@.len() as int),
            all_digits(b@.subrange(start as int, i as int)),
            !too_big ==> acc as nat == decimal_value(b@.subrange(start as int, i as int)) && acc <= 255,
            too_big ==> decimal_value(b@.subrange(start as int, i as int)) > 255,
        decreases b@.len() - i,
    {
        let c = b[i];
        if c < 48 || c > 57 {
            assert(!all_digits(d)) by {
                assert(d[i - start] == c);
            }
            assert(b@ == encode_utf8(name@));
            assert(level_of_name(b@) is None);
            return None;
        }
        proof {
            let p = b@.subrange(start as int, i + 1);
            assert(p.drop_last() =~= b@.subrange(start as int, i as int));
            assert(all_digits(p)) by {
                assert forall|k: int| 0 <= k < p.len() implies 48 <= #[trigger] p[k] <= 57 by {
                    if k < p.len() - 1 {
                        assert(p[k] == b@.subrange(start as int, i as int)[k]);
                    }
                }
            }
        }
        if !too_big {
            acc = acc * 10 + (c - 48) as u32;
            if acc > 255 {
                too_big = true;
            }
        }
        i = i + 1;
    }
    assert(b@.subrange(start as int, i as int) =~= d);
    if too_big {
        None
    } else {
        Some(acc as u8)
    }
}

/// The fields of a table's header: key count, index position and key data
/// position.
pub struct TableHeader {
    pub key_count: u64,
    pub index_position: u64,
    pub keys_position: u64,
}

/// Reads a table's header from the table's first bytes: after the version
/// byte, the key count, the index position and the key data position, as
/// eight little-endian bytes each; an error when there are fewer than 25
/// bytes.
pub fn parse_table_header(bytes: &[u8]) -> (r: Result<TableHeader, NeutronError>)
    ensures
        bytes@.len() < 25 ==> r == Err::<TableHeader, NeutronError>(NeutronError::UnexpectedEnd),
        bytes@.len() >= 25 ==> r is Ok && r->Ok_0.key_count as nat == from_le(bytes@.subrange(1, 9))
            && r->Ok_0.index_position as nat == from_le(bytes@.subrange(9, 17))
            && r->Ok_0.keys_position as nat == from_le(bytes@.subrange(17, 25)),
{
    if bytes.len() < 25 {
        return Err(NeutronError::UnexpectedEnd);
    }
    proof {
        lemma_pow256_values();
        lemma_from_le_bound(bytes@.subrange(1, 9));
        lemma_from_le_bound(bytes@.subrange(9, 17));
        lemma_from_le_bound(bytes@.subrange(17, 25));
    }
    let key_count = read_le(bytes, 1, 8) as u64;
    let index_position = read_le(bytes, 9, 8) as u64;
    let keys_position = read_le(bytes, 17, 8) as u64;
    Ok(TableHeader { key_count, index_position, keys_position })
}

impl TableHeader {
    /// The size of the table's bloom filter, between the header and the
    /// index. Requires an index position past the header (the subtraction
    /// would underflow).
    pub fn bloom_filter_size(&self) -> (r: u64)
        requires
            self.index_position >= TABLE_HEADER_SIZE,
        ensures
            r == self.index_position - TABLE_HEADER_SIZE,
    {
        self.index_position - TABLE_HEADER_SIZE
    }
}

/// A record of the log.
pub enum LogRecord {
    /// A put key: its hash, its value's hash, its size and the position of
    /// its bytes.
    Key { key_hash: Seq<u8>, value_hash: Seq<u8>, key_size: nat, key_position: nat },
    /// A new value: its hash, its bytes and the position of its entry.
    Value { value_hash: Seq<u8>, value: Seq<u8>, position: nat },
    /// A deleted key's hash.
    Grave { key_hash: Seq<u8> },
}

/// How reading the log ends: at a position (the end of the bytes, past it
/// when the last key's bytes are cut short, or at a record of unknown type),
/// or with an error: for a record cut short, or for a key size above
/// `i64::MAX` (which cannot be skipped by a seek).
pub enum LogEnd {
    Done(int),
    Error(NeutronError),
}

/// The records of the log from `pos` on, and how reading ends.
pub open spec fn parse_log(b: Seq<u8>, pos: int) -> (Seq<LogRecord>, LogEnd)
    decreases b.len() - pos,
{
    if pos < 0 || pos >= b.len() {
        (Seq::empty(), LogEnd::Done(pos))
    } else {
        let t = b[pos];
        if t == 1 {
            if pos + 73 > b.len() {
                (Seq::empty(), LogEnd::Error(NeutronError::UnexpectedEnd))
            } else {
                let ks = from_le(b.subrange(pos + 65, pos + 73));
                if ks > i64::MAX {
                    (Seq::empty(), LogEnd::Error(NeutronError::InvalidByteSize))
                } else {
                    let rec = LogRecord::Key {
                        key_hash: b.subrange(pos + 1, pos + 33),
                        value_hash: b.subrange(pos + 33, pos + 65),
                        key_size: ks as usize as nat,
                        key_position: (pos + 73) as nat,
                    };
                    let next = pos + 73 + ks;
                    let rest = if next < b.len() {
                        parse_log(b, next)
                    } else {
                        (Seq::empty(), LogEnd::Done(next))
                    };
                    (seq![rec] + rest.0, rest.1)
                }
            }
        } else if t == 2 {
            if pos + 41 > b.len() {
                (Seq::empty(), LogEnd::Error(NeutronError::UnexpectedEnd))
            } else {
                let vs = from_le(b.subrange(pos + 33, pos + 41)) as usize as int;
                if pos + 41 + vs > b.len() {
                    (Seq::empty(), LogEnd::Error(NeutronError::UnexpectedEnd))
                } else {
                    let rec = LogRecord::Value {
                        value_hash: b.subrange(pos + 1, pos + 33),
                        value: b.subrange(pos + 41, pos + 41 + vs),
                        position: (pos + 1) as nat,
                    };
                    let next = pos + 41 + vs;
                    let rest = if next < b.len() {
                        parse_log(b, next)
                    } else {
                        (Seq::empty(), LogEnd::Done(next))
                    };
                    (seq![rec] + rest.0, rest.1)
                }
            }
        } else if t == 3 {
            if pos + 33 > b.len() {
                (Seq::empty(), LogEnd::Error(NeutronError::UnexpectedEnd))
            } else {
                let rec = LogRecord::Grave { key_hash: b.subrange(pos + 1, pos + 33) };
                let next = pos + 33;
                let rest = if next < b.len() {
                    parse_log(b, next)
                } else {
                    (Seq::empty(), LogEnd::Done(next))
                };
                (seq![rec] + rest.0, rest.1)
            }
        } else {
            (Seq::empty(), LogEnd::Done(pos))
        }
    }
}

/// The keys that the records put, the last record of a key winning: its
/// value's hash, its size and its position.
pub open spec fn replay_keys(recs: Seq<LogRecord>) -> Map<Seq<u8>, (Seq<u8>, nat, nat)>
    decreases recs.len(),
{
    if recs.len() == 0 {
        Map::empty()
    } else {
        let m = replay_keys(recs.drop_last());
        match recs.last() {
            LogRecord::Key { key_hash, value_hash, key_size, key_position } => m.insert(
                key_hash,
                (value_hash, key_size, key_position),
            ),
            _ => m,
        }
    }
}

/// The values that the records hold, the last record of a hash winning:
/// its bytes and its position.
pub open spec fn replay_values(recs: Seq<LogRecord>) -> Map<Seq<u8>, (Seq<u8>, nat)>
    decreases recs.len(),
{
    if recs.len() == 0 {
        Map::empty()
    } else {
        let m = replay_values(recs.drop_last());
        match recs.last() {
            LogRecord::Value { value_hash, value, position } => m.insert(value_hash, (value, position)),
            _ => m,
        }
    }
}

/// The graves after the records, from the graves `graves`: a grave record
/// adds its hash, a key record takes its key's hash away.
pub open spec fn replay_graves(graves: Set<Seq<u8>>, recs: Seq<LogRecord>) -> Set<Seq<u8>>
    decreases recs.len(),
{
    if recs.len() == 0 {
        graves
    } else {
        let g = replay_graves(graves, recs.drop_last());
        match recs.last() {
            LogRecord::Grave { key_hash } => g.insert(key_hash),
            LogRecord::Key { key_hash, .. } => g.remove(key_hash),
            _ => g,
        }
    }
}

/// The number of value records.
pub open spec fn value_count(recs: Seq<LogRecord>) -> nat
    decreases recs.len(),
{
    if recs.len() == 0 {
        0
    } else {
        value_count(recs.drop_last()) + if recs.last() is Value {
            1nat
        } else {
            0nat
        }
    }
}

/// Every value record's bytes read back as a value.
pub open spec fn values_decode<V: TryFromBytes>(recs: Seq<LogRecord>) -> bool {
    forall|i: int|
        0 <= i < recs.len() && (#[trigger] recs[i]) is Value ==> exists|v: V|
            V::try_from_bytes_ensures(recs[i]->value, Ok(v))
}

/// The cache that replaying the records gives, as the store holds it.
pub open spec fn replayed<K, V: TryFromBytes>(s: &Store<K, V>, recs: Seq<LogRecord>, graves: Set<Seq<u8>>) -> bool {
    &&& replayed_contents(s, recs, graves)
    &&& s.cache_size == value_count(recs) * vstd::layout::size_of::<V>()
}

/// The keys, values and graves that replaying the records gives, as the
/// store holds them.
pub open spec fn replayed_contents<K, V: TryFromBytes>(s: &Store<K, V>, recs: Seq<LogRecord>, graves: Set<Seq<u8>>) -> bool {
    let rk = replay_keys(recs);
    let rv = replay_values(recs);
    &&& s.wf()
    &&& s.key_map().dom() == rk.dom()
    &&& forall|kh: Seq<u8>|
        #[trigger] rk.contains_key(kh) ==> s.key_map()[kh].value_hash@ == rk[kh].0
            && s.key_map()[kh].key_size == rk[kh].1 && s.key_map()[kh].key_log_position == rk[kh].2
    &&& s.value_map().dom() == rv.dom()
    &&& forall|vh: Seq<u8>|
        #[trigger] rv.contains_key(vh) ==> s.value_map()[vh].value_size == 40 + rv[vh].0.len()
            && s.value_map()[vh].value_log_position == rv[vh].1 && V::try_from_bytes_ensures(
            rv[vh].0,
            Ok(s.value_map()[vh].value),
        )
    &&& s.grave_set() == replay_graves(graves, recs)
}

proof fn lemma_value_count_append(a: Seq<LogRecord>, b: Seq<LogRecord>)
    ensures
        value_count(a + b) == value_count(a) + value_count(b),
    decreases b.len(),
{
    if b.len() == 0 {
        assert(a + b =~= a);
    } else {
        lemma_value_count_append(a, b.drop_last());
        assert((a + b).drop_last() =~= a + b.drop_last());
        assert((a + b).last() == b.last());
    }
}

proof fn lemma_size_bound(n: nat, m: nat, s: nat)
    requires
        n <= m,
    ensures
        n * s <= m * s,
        (n + 1) * s == n * s + s,
{
    assert(n * s <= m * s) by (nonlinear_arith)
        requires
            n <= m,
    ;
    assert((n + 1) * s == n * s + s) by (nonlinear_arith);
}

impl<K, V: TryFromBytes> Store<K, V> {
    /// Replays a key record.
    fn replay_key(&mut self, key_hash: [u8; 32], key_object: KeyObject, Ghost(done): Ghost<Seq<LogRecord>>, Ghost(g0): Ghost<Set<Seq<u8>>>)
        requires
            replayed(old(self), done, g0),
        ensures
            replayed(final(self), done.push(LogRecord::Key {
                key_hash: key_hash@,
                value_hash: key_object.value_hash@,
                key_size: key_object.key_size as nat,
                key_position: key_object.key_log_position as nat,
            }), g0),
            final(self).tables == old(self).tables,
            final(self).directory == old(self).directory,
            final(self).cache_limit == old(self).cache_limit,
            final(self).log_len == old(self).log_len,
    {
        let ghost rec = LogRecord::Key {
            key_hash: key_hash@,
            value_hash: key_object.value_hash@,
            key_size: key_object.key_size as nat,
            key_position: key_object.key_log_position as nat,
        };
        insert_key(&mut self.keys, key_hash, key_object);
        self.remove_grave(&key_hash);
        proof {
            let d2 = done.push(rec);
            assert(d2.drop_last() =~= done);
            assert(self.key_map().dom() =~= replay_keys(d2).dom());
            assert(replay_graves(g0, d2) =~= replay_graves(g0, done).remove(key_hash@));
        }
    }

    /// Replays a value record whose bytes read back as `value`.
    fn replay_value(
        &mut self,
        value_hash: [u8; 32],
        value_object: ValueObject<V>,
        Ghost(bytes): Ghost<Seq<u8>>,
        Ghost(done): Ghost<Seq<LogRecord>>,
        Ghost(g0): Ghost<Set<Seq<u8>>>,
    )
        requires
            replayed(old(self), done, g0),
            V::try_from_bytes_ensures(bytes, Ok(value_object.value)),
            value_object.value_size == 40 + bytes.len(),
            (value_count(done) + 1) * vstd::layout::size_of::<V>() <= u64::MAX,
        ensures
            replayed(final(self), done.push(LogRecord::Value {
                value_hash: value_hash@,
                value: bytes,
                position: value_object.value_log_position as nat,
            }), g0),
            final(self).tables == old(self).tables,
            final(self).directory == old(self).directory,
            final(self).cache_limit == old(self).cache_limit,
            final(self).log_len == old(self).log_len,
    {
        let ghost rec = LogRecord::Value {
            value_hash: value_hash@,
            value: bytes,
            position: value_object.value_log_position as nat,
        };
        let ghost old_values = self.values@;
        proof {
            lemma_size_bound(value_count(done), value_count(done) + 1, vstd::layout::size_of::<V>());
        }
        self.cache_size = self.cache_size + std::mem::size_of::<V>() as u64;
        match find_entry(&self.values, &value_hash) {
            Some(i) => {
                proof {
                    lemma_hash_map_update(old_values, i as int, (value_hash, value_object));
                }
                self.values.set(i, (value_hash, value_object));
            },
            None => {
                proof {
                    lemma_hash_map_insert(old_values, old_values.len() as int, (value_hash, value_object));
                    assert(old_values.push((value_hash, value_object)) == old_values.insert(
                        old_values.len() as int,
                        (value_hash, value_object),
                    ));
                }
                self.values.push((value_hash, value_object));
            },
        }
        proof {
            let d2 = done.push(rec);
            assert(d2.drop_last() =~= done);
            assert(self.value_map().dom() =~= replay_values(d2).dom());
        }
    }

    /// Replays a grave record.
    fn replay_grave(&mut self, key_hash: [u8; 32], Ghost(done): Ghost<Seq<LogRecord>>, Ghost(g0): Ghost<Set<Seq<u8>>>)
        requires
            replayed(old(self), done, g0),
        ensures
            replayed(final(self), done.push(LogRecord::Grave { key_hash: key_hash@ }), g0),
            final(self).tables == old(self).tables,
            final(self).directory == old(self).directory,
            final(self).cache_limit == old(self).cache_limit,
            final(self).log_len == old(self).log_len,
    {
        let ghost rec = LogRecord::Grave { key_hash: key_hash@ };
        let ghost old_graves = self.graves@;
        let ghost gs = self.grave_set();
        match find_grave(&self.graves, &key_hash) {
            Some(i) => {
                proof {
                    assert(old_graves[i as int]@ == key_hash@);
                    assert(gs.insert(key_hash@) =~= gs);
                }
            },
            None => {
                self.graves.push(key_hash);
                proof {
                    let tg = self.graves@;
                    assert(tg == old_graves.push(key_hash));
                    assert(graves_unique(tg)) by {
                        assert forall|a: int, b: int| 0 <= a < b < tg.len() implies (#[trigger] tg[a]@) != (
                        #[trigger] tg[b]@) by {
                            if b == old_graves.len() {
                                assert(tg[a] == old_graves[a]);
                            } else {
                                assert(tg[a] == old_graves[a] && tg[b] == old_graves[b]);
                            }
                        }
                    }
                    assert forall|x: Seq<u8>| #[trigger] graves_set(tg).contains(x) <==> gs.insert(key_hash@).contains(x) by {
                        if graves_set(tg).contains(x) {
                            let c = choose|c: int| 0 <= c < tg.len() && (#[trigger] tg[c])@ == x;
                            if c < old_graves.len() {
                                assert(tg[c] == old_graves[c]);
                            }
                        }
                        if gs.contains(x) {
                            let c = choose|c: int| 0 <= c < old_graves.len() && (#[trigger] old_graves[c])@ == x;
                            assert(tg[c] == old_graves[c]);
                        }
                        if x == key_hash@ {
                            assert(tg[old_graves.len() as int] == key_hash);
                        }
                    }
                    assert(graves_set(tg) =~= gs.insert(key_hash@));
                }
            },
        }
        proof {
            let d2 = done.push(rec);
            assert(d2.drop_last() =~= done);
            assert(replay_graves(g0, d2) =~= replay_graves(g0, done).insert(key_hash@));
        }
    }
}

proof fn lemma_values_decode_push<V: TryFromBytes>(done: Seq<LogRecord>, rec: LogRecord)
    requires
        values_decode::<V>(done),
        rec is Value ==> exists|v: V| V::try_from_bytes_ensures(rec->value, Ok(v)),
    ensures
        values_decode::<V>(done.push(rec)),
{
    let d2 = done.push(rec);
    assert forall|i: int| 0 <= i < d2.len() && (#[trigger] d2[i]) is Value implies exists|v: V|
        V::try_from_bytes_ensures(d2[i]->value, Ok(v)) by {
        if i < done.len() {
            assert(d2[i] == done[i]);
        }
    }
}

impl<K, V: TryFromBytes> Store<K, V> {
    /// Opens a store from its directory's name, its graves, its tables (put
    /// in order by name, greatest first) and the bytes of its log: replays the log records into the cache (keys,
    /// new values, graves) until the log ends or a record of unknown type.
    /// A record cut short, a key size above `i64::MAX`, or a value that does
    /// not read back, is an error. Requires that the cache's size fits.
    pub fn new(directory: &str, graves: Vec<[u8; 32]>, tables: Vec<Table>, log: &Vec<u8>) -> (r: Result<
        Self,
        NeutronError,
    >)
        requires
            graves_unique(graves@),
            value_count(parse_log(log@, 0).0) * vstd::layout::size_of::<V>() <= u64::MAX,
        ensures
            match r {
                Ok(s) => {
                    &&& parse_log(log@, 0).1 is Done
                    &&& values_decode::<V>(parse_log(log@, 0).0)
                    &&& replayed(&s, parse_log(log@, 0).0, graves_set(graves@))
                    &&& s.tables@ == sort_by_name(tables@)
                    &&& s.directory@ == directory@
                    &&& s.cache_limit == 1_000_000
                    &&& s.log_len == log@.len()
                },
                Err(e) => {
                    ||| (parse_log(log@, 0).1 == LogEnd::Error(e) && values_decode::<V>(parse_log(log@, 0).0))
                    ||| exists|i: int|
                        0 <= i < parse_log(log@, 0).0.len() && (#[trigger] parse_log(log@, 0).0[i]) is Value
                            && V::try_from_bytes_ensures(parse_log(log@, 0).0[i]->value, Err(e))
                },
            },
    {
        let ghost full = parse_log(log@, 0).0;
        let ghost g0 = graves_set(graves@);
        let len = log.len();
        let ghost given = tables@;
        let tables = sort_tables(tables);
        let mut store: Store<K, V> = Store {
            directory: directory.to_owned(),
            graves,
            tables,
            values: Vec::new(),
            cache_size: 0,
            cache_limit: 1_000_000,
            keys: Vec::new(),
            log_len: len as u64,
            phantom: PhantomData,
        };
        let mut pos: usize = 0;
        let mut stop = false;
        let ghost mut done: Seq<LogRecord> = Seq::empty();
        proof {
            assert(store.graves@ == graves@);
            assert(value_count(done) == 0);
            assert(0 * vstd::layout::size_of::<V>() == 0);
            assert(store.key_map() =~= Map::empty());
            assert(store.value_map() =~= Map::empty());
            assert(replay_keys(done) =~= Map::empty());
            assert(replay_values(done) =~= Map::empty());
            assert(replay_graves(g0, done) =~= g0);
            assert(done + full =~= full);
            crate::bytes::lemma_pow256_values();
        }
        while pos < len && !stop
            invariant
                len == log@.len(),
                full == parse_log(log@, 0).0,
                value_count(full) * vstd::layout::size_of::<V>() <= u64::MAX,
                !stop ==> done + parse_log(log@, pos as int).0 == full && parse_log(log@, pos as int).1
                    == parse_log(log@, 0).1,
                stop ==> done == full && parse_log(log@, 0).1 is Done,
                values_decode::<V>(done),
                replayed(&store, done, g0),
                store.tables@ == sort_by_name(given),
                store.directory@ == directory@,
                store.cache_limit == 1_000_000,
                store.log_len == len,
                pow256(8) == 0x1_0000_0000_0000_0000,
            decreases len - pos, if stop { 0int } else { 1int },
        {
            let ghost pl = parse_log(log@, pos as int);
            let t = log[pos];
            if t == 1 {
                if len - pos < 73 {
                    return Err(NeutronError::UnexpectedEnd);
                }
                let key_hash = read_hash(log.as_slice(), pos + 1);
                let value_hash = read_hash(log.as_slice(), pos + 33);
                proof {
                    lemma_from_le_bound(log@.subrange(pos + 65, pos + 73));
                }
                let key_size = read_le(log.as_slice(), pos + 65, 8) as u64;
                if key_size > 0x7fff_ffff_ffff_ffffu64 {
                    return Err(NeutronError::InvalidByteSize);
                }
                let key_object = KeyObject {
                    value_hash,
                    key_size: key_size as usize,
                    key_log_position: (pos + 73) as u64,
                };
                let ghost rec = LogRecord::Key {
                    key_hash: key_hash@,
                    value_hash: value_hash@,
                    key_size: key_size as usize as nat,
                    key_position: (pos + 73) as nat,
                };
                assert(pl.0[0] == rec);
                store.replay_key(key_hash, key_object, Ghost(done), Ghost(g0));
                proof {
                    lemma_values_decode_push::<V>(done, rec);
                    done = done.push(rec);
                }
                let next: u128 = pos as u128 + 73 + key_size as u128;
                if next >= len as u128 {
                    stop = true;
                    proof {
                        assert(pl.0 =~= seq![rec]);
                        assert(done =~= full);
                    }
                } else {
                    proof {
                        assert(done + parse_log(log@, next as int).0 =~= full);
                    }
                    pos = next as usize;
                }
            } else if t == 2 {
                if len - pos < 41 {
                    return Err(NeutronError::UnexpectedEnd);
                }
                let value_hash = read_hash(log.as_slice(), pos + 1);
                proof {
                    lemma_from_le_bound(log@.subrange(pos + 33, pos + 41));
                }
                let value_size = read_le(log.as_slice(), pos + 33, 8) as usize;
                if value_size > len - pos - 41 {
                    return Err(NeutronError::UnexpectedEnd);
                }
                let value_bytes = copy_range(log.as_slice(), pos + 41, pos + 41 + value_size);
                let ghost bytes = value_bytes@;
                let ghost rec = LogRecord::Value { value_hash: value_hash@, value: bytes, position: (pos + 1) as nat };
                proof {
                    assert(pl.0[0] == rec);
                    assert(full[done.len() as int] == rec);
                    let d2 = done.push(rec);
                    lemma_value_count_append(d2, pl.0.drop_first());
                    assert(d2 + pl.0.drop_first() =~= full);
                    assert(d2.drop_last() =~= done);
                    lemma_size_bound(value_count(d2), value_count(full), vstd::layout::size_of::<V>());
                }
                let value = match V::try_from_bytes(value_bytes) {
                    Ok(v) => v,
                    Err(e) => {
                        return Err(e);
                    },
                };
                let value_object = ValueObject {
                    value,
                    value_size: 32 + 8 + value_size,
                    value_log_position: (pos + 1) as u64,
                };
                store.replay_value(value_hash, value_object, Ghost(bytes), Ghost(done), Ghost(g0));
                proof {
                    lemma_values_decode_push::<V>(done, rec);
                    done = done.push(rec);
                }
                let next: usize = pos + 41 + value_size;
                if next >= len {
                    stop = true;
                    proof {
                        assert(pl.0 =~= seq![rec]);
                        assert(done =~= full);
                    }
                } else {
                    proof {
                        assert(done + parse_log(log@, next as int).0 =~= full);
                    }
                    pos = next;
                }
            } else if t == 3 {
                if len - pos < 33 {
                    return Err(NeutronError::UnexpectedEnd);
                }
                let key_hash = read_hash(log.as_slice(), pos + 1);
                let ghost rec = LogRecord::Grave { key_hash: key_hash@ };
                assert(pl.0[0] == rec);
                store.replay_grave(key_hash, Ghost(done), Ghost(g0));
                proof {
                    lemma_values_decode_push::<V>(done, rec);
                    done = done.push(rec);
                }
                let next: usize = pos + 33;
                if next >= len {
                    stop = true;
                    proof {
                        assert(pl.0 =~= seq![rec]);
                        assert(done =~= full);
                    }
                } else {
                    proof {
                        assert(done + parse_log(log@, next as int).0 =~= full);
                    }
                    pos = next;
                }
            } else {
                stop = true;
                proof {
                    assert(pl.0 =~= Seq::<LogRecord>::empty());
                    assert(done + pl.0 =~= done);
                }
            }
        }
        proof {
            if !stop {
                assert(parse_log(log@, pos as int).0 =~= Seq::<LogRecord>::empty());
                assert(done + Seq::<LogRecord>::empty() =~= done);
            }
        }
        Ok(store)
    }
}

/// Reading a log that ends exactly at its last record, followed by more
/// bytes, gives its records followed by those of the bytes after it.
proof fn lemma_parse_log_append(b: Seq<u8>, c: Seq<u8>, pos: int)
    requires
        0 <= pos <= b.len(),
        parse_log(b, pos).1 == LogEnd::Done(b.len() as int),
    ensures
        parse_log(b + c, pos) == (
            parse_log(b, pos).0 + parse_log(b + c, b.len() as int).0,
            parse_log(b + c, b.len() as int).1,
        ),
    decreases b.len() - pos,
{
    let bc = b + c;
    if pos == b.len() {
        assert(parse_log(b, pos).0 =~= Seq::<LogRecord>::empty());
        assert(Seq::<LogRecord>::empty() + parse_log(bc, b.len() as int).0 =~= parse_log(bc, b.len() as int).0);
    } else {
        let t = b[pos];
        assert(bc[pos] == t);
        if t == 1 {
            assert(pos + 73 <= b.len());
            assert(bc.subrange(pos + 1, pos + 33) =~= b.subrange(pos + 1, pos + 33));
            assert(bc.subrange(pos + 33, pos + 65) =~= b.subrange(pos + 33, pos + 65));
            assert(bc.subrange(pos + 65, pos + 73) =~= b.subrange(pos + 65, pos + 73));
            let ks = from_le(b.subrange(pos + 65, pos + 73));
            let next = pos + 73 + ks;
            if next < b.len() {
                lemma_parse_log_append(b, c, next);
            }
        } else if t == 2 {
            assert(pos + 41 <= b.len());
            assert(bc.subrange(pos + 1, pos + 33) =~= b.subrange(pos + 1, pos + 33));
            assert(bc.subrange(pos + 33, pos + 41) =~= b.subrange(pos + 33, pos + 41));
            let vs = from_le(b.subrange(pos + 33, pos + 41)) as usize as int;
            assert(pos + 41 + vs <= b.len());
            assert(bc.subrange(pos + 41, pos + 41 + vs) =~= b.subrange(pos + 41, pos + 41 + vs));
            let next = pos + 41 + vs;
            if next < b.len() {
                lemma_parse_log_append(b, c, next);
            }
        } else if t == 3 {
            assert(pos + 33 <= b.len());
            assert(bc.subrange(pos + 1, pos + 33) =~= b.subrange(pos + 1, pos + 33));
            let next = pos + 33;
            if next < b.len() {
                lemma_parse_log_append(b, c, next);
            }
        }
        let pb = parse_log(b, pos);
        let pbc = parse_log(bc, pos);
        let tail = parse_log(bc, b.len() as int);
        assert(pbc.0 =~= pb.0 + tail.0);
    }
}

/// Reading the records that a put logs, at the position where they start.
proof fn lemma_parse_put_records(b: Seq<u8>, kh: Seq<u8>, vh: Seq<u8>, kb: Seq<u8>, vb: Seq<u8>, new_value: bool)
    requires
        kh.len() == 32,
        vh.len() == 32,
        kb.len() <= i64::MAX,
        vb.len() <= usize::MAX,
    ensures
        ({
            let recs = b + key_log_record(kh, vh, kb) + if new_value {
                value_log_record(vh, vb)
            } else {
                Seq::empty()
            };
            let key_rec = LogRecord::Key {
                key_hash: kh,
                value_hash: vh,
                key_size: kb.len() as usize as nat,
                key_position: (b.len() + 73) as nat,
            };
            let value_rec = LogRecord::Value { value_hash: vh, value: vb, position: (b.len() + 74 + kb.len()) as nat };
            parse_log(recs, b.len() as int) == (
                seq![key_rec] + if new_value {
                    seq![value_rec]
                } else {
                    Seq::<LogRecord>::empty()
                },
                LogEnd::Done(recs.len() as int),
            )
        }),
{
    let kr = key_log_record(kh, vh, kb);
    let vr = if new_value {
        value_log_record(vh, vb)
    } else {
        Seq::<u8>::empty()
    };
    let all = b + kr + vr;
    let p = b.len() as int;
    lemma_pow256_values();
    lemma_from_le_bytes(kb.len(), 8);
    vstd::arithmetic::div_mod::lemma_small_mod(kb.len(), pow256(8));
    assert(all[p] == 1u8);
    assert(all.subrange(p + 1, p + 33) =~= kh);
    assert(all.subrange(p + 33, p + 65) =~= vh);
    assert(all.subrange(p + 65, p + 73) =~= le_bytes(kb.len(), 8));
    let next = p + 73 + kb.len();
    if new_value {
        lemma_from_le_bytes(vb.len(), 8);
        vstd::arithmetic::div_mod::lemma_small_mod(vb.len(), pow256(8));
        assert(all[next] == 2u8);
        assert(all.subrange(next + 1, next + 33) =~= vh);
        assert(all.subrange(next + 33, next + 41) =~= le_bytes(vb.len(), 8));
        assert(all.subrange(next + 41, next + 41 + vb.len()) =~= vb);
        assert(next + 41 + vb.len() == all.len());
        let p2 = parse_log(all, next);
        assert(p2.0 =~= seq![LogRecord::Value { value_hash: vh, value: vb, position: (p + 74 + kb.len()) as nat }]);
    } else {
        assert(next == all.len());
    }
}

/// A log that is replayed stays replayed as a put appends its records: the
/// log read back after the put gives the records before it and the put's,
/// and the cache's keys, values and graves after the whole put (its grave
/// removed, as a put ends) are what replaying them gives (the value read
/// back from its bytes being the value put). So a store opened again from
/// its log reads what it read before.
pub proof fn lemma_put_is_logged<K, V: TryFromBytes>(
    s: Store<K, V>,
    s2: Store<K, V>,
    s3: Store<K, V>,
    b: Seq<u8>,
    g0: Set<Seq<u8>>,
    kb: Seq<u8>,
    v: V,
    vb: Seq<u8>,
    log: Seq<u8>,
)
    requires
        parse_log(b, 0).1 == LogEnd::Done(b.len() as int),
        replayed_contents(&s, parse_log(b, 0).0, g0),
        s.log_len == b.len(),
        put_relation(&s, &s2, kb, v, vb, log),
        kb.len() <= i64::MAX,
        kb.len() <= usize::MAX,
        vb.len() <= usize::MAX,
        crate::hashes::fides_blake_3(kb).len() == 32,
        crate::hashes::fides_blake_3(vb).len() == 32,
        V::try_from_bytes_ensures(vb, Ok(v)),
        s3.wf(),
        s3.grave_set() == s2.grave_set().remove(crate::hashes::fides_blake_3(kb)),
        s3.keys == s2.keys,
        s3.values == s2.values,
    ensures
        parse_log(b + log, 0).1 == LogEnd::Done((b + log).len() as int),
        replayed_contents(&s3, parse_log(b + log, 0).0, g0),
{
    let kh = crate::hashes::fides_blake_3(kb);
    let vh = crate::hashes::fides_blake_3(vb);
    let new_value = !s.value_map().contains_key(vh);
    let recs = parse_log(b, 0).0;
    lemma_parse_log_append(b, log, 0);
    lemma_parse_put_records(b, kh, vh, kb, vb, new_value);
    assert(b + log =~= b + key_log_record(kh, vh, kb) + if new_value {
        value_log_record(vh, vb)
    } else {
        Seq::empty()
    });
    let key_rec = LogRecord::Key {
        key_hash: kh,
        value_hash: vh,
        key_size: kb.len() as usize as nat,
        key_position: (b.len() + 73) as nat,
    };
    let value_rec = LogRecord::Value { value_hash: vh, value: vb, position: (b.len() + 74 + kb.len()) as nat };
    let r1 = recs.push(key_rec);
    assert(r1.drop_last() =~= recs);
    if new_value {
        let r2 = r1.push(value_rec);
        assert(r2.drop_last() =~= r1);
        assert(parse_log(b + log, 0).0 =~= r2);
        assert(r2.last() == value_rec);
        assert(r1.last() == key_rec);
        assert(replay_keys(r2) == replay_keys(r1));
        assert(replay_keys(r1) == replay_keys(recs).insert(kh, (vh, kb.len() as usize as nat, (b.len() + 73) as nat)));
        assert(replay_values(r1) == replay_values(recs));
        assert(replay_values(r2) == replay_values(r1).insert(vh, (vb, (b.len() + 74 + kb.len()) as nat)));
        assert(replay_graves(g0, r1) == replay_graves(g0, recs).remove(kh));
        assert(replay_graves(g0, r2) == replay_graves(g0, r1));
        assert(s3.key_map().dom() =~= replay_keys(r2).dom());
        assert(s3.value_map().dom() =~= replay_values(r2).dom());
    } else {
        assert(parse_log(b + log, 0).0 =~= r1);
        assert(replay_graves(g0, r1) == replay_graves(g0, recs).remove(kh));
        assert(s3.key_map().dom() =~= replay_keys(r1).dom());
    }
}

/// A log that is replayed stays replayed as a delete appends its record.
pub proof fn lemma_delete_is_logged<K, V: TryFromBytes>(
    s: Store<K, V>,
    s2: Store<K, V>,
    b: Seq<u8>,
    g0: Set<Seq<u8>>,
    kb: Seq<u8>,
    log: Option<Seq<u8>>,
)
    requires
        parse_log(b, 0).1 == LogEnd::Done(b.len() as int),
        replayed_contents(&s, parse_log(b, 0).0, g0),
        delete_relation(&s, &s2, kb, log),
        crate::hashes::fides_blake_3(kb).len() == 32,
    ensures
        ({
            let b2 = match log {
                Some(l) => b + l,
                None => b,
            };
            &&& parse_log(b2, 0).1 == LogEnd::Done(b2.len() as int)
            &&& replayed_contents(&s2, parse_log(b2, 0).0, g0)
        }),
{
    let kh = crate::hashes::fides_blake_3(kb);
    let recs = parse_log(b, 0).0;
    match log {
        Some(l) => {
            lemma_parse_log_append(b, l, 0);
            let all = b + l;
            assert(all[b.len() as int] == 3u8);
            assert(all.subrange(b.len() as int + 1, b.len() as int + 33) =~= kh);
            let rec = LogRecord::Grave { key_hash: kh };
            let r1 = recs.push(rec);
            assert(r1.drop_last() =~= recs);
            assert(parse_log(all, b.len() as int).0 =~= seq![rec]);
            assert(parse_log(all, 0).0 =~= r1);
            assert(replay_graves(g0, r1) =~= replay_graves(g0, recs).insert(kh));
        },
        None => {},
    }
}


/// A reopened store reads as the store did: two stores that hold what
/// replaying the same log records onto the same graves gives (the store that
/// the puts and deletes kept, and the store opened again from its log) give
/// for every key the same answer, and where both give a value, both values
/// read back from the same logged bytes.
pub proof fn lemma_reopened_store_reads_alike<K, V: TryFromBytes>(
    s: Store<K, V>,
    t: Store<K, V>,
    recs: Seq<LogRecord>,
    g0: Set<Seq<u8>>,
    kh: Seq<u8>,
)
    requires
        replayed_contents(&s, recs, g0),
        replayed_contents(&t, recs, g0),
    ensures
        s.cached_lookup(kh) is Missing <==> t.cached_lookup(kh) is Missing,
        s.cached_lookup(kh) is NotCached <==> t.cached_lookup(kh) is NotCached,
        s.cached_lookup(kh) is Value ==> t.cached_lookup(kh) is Value && exists|b: Seq<u8>|
            #[trigger] V::try_from_bytes_ensures(b, Ok(s.cached_lookup(kh)->Value_0))
                && V::try_from_bytes_ensures(b, Ok(t.cached_lookup(kh)->Value_0)),
{
    let rk = replay_keys(recs);
    let rv = replay_values(recs);
    assert(s.grave_set() == t.grave_set());
    if !s.grave_set().contains(kh) && s.key_map().contains_key(kh) {
        assert(rk.contains_key(kh));
        let vh = s.key_map()[kh].value_hash@;
        assert(t.key_map()[kh].value_hash@ == vh);
        if s.value_map().contains_key(vh) {
            assert(rv.contains_key(vh));
            assert(t.value_map().contains_key(vh));
            let b = rv[vh].0;
            let v1 = s.value_map()[vh].value;
            let v2 = t.value_map()[vh].value;
            assert(t.key_map().contains_key(kh));
            assert(s.cached_lookup(kh) == Cached::Value(v1));
            assert(t.cached_lookup(kh) == Cached::Value(v2));
            assert(V::try_from_bytes_ensures(b, Ok(v1)) && V::try_from_bytes_ensures(b, Ok(v2)));
            assert(s.cached_lookup(kh)->Value_0 == v1 && t.cached_lookup(kh)->Value_0 == v2);
            assert(V::try_from_bytes_ensures(b, Ok(s.cached_lookup(kh)->Value_0)) && V::try_from_bytes_ensures(
                b,
                Ok(t.cached_lookup(kh)->Value_0),
            ));
        } else {
            assert(!rv.contains_key(vh));
            assert(t.key_map().contains_key(kh));
            assert(!t.value_map().contains_key(vh));
        }
    } else if !s.grave_set().contains(kh) {
        assert(!rk.contains_key(kh));
        assert(!t.key_map().contains_key(kh));
    }
}

} // verus!
