//! The store: keys and values cached in memory and logged, deletions kept
//! as graves, and tables on disk in levels. This module holds the store's
//! state and the decisions of its operations; reading and writing files is
//! done by the caller with the bytes and positions that these functions
//! give.
use vstd::prelude::*;
use std::marker::PhantomData;

pub mod cache_limit;
pub mod compaction;
pub mod delete;
pub mod flush;
pub mod get;
pub mod map;
pub mod new;
pub mod put;

verus! {

/// The size of a table's header: version, key count, index position and key
/// data position.
pub const TABLE_HEADER_SIZE: u64 = 25;

/// The size of an index entry: the key hash, and the key position, key size
/// and value position as eight bytes each.
pub const KEY_INDEX_SIZE: u64 = 56;

/// Where a logged key is: the hash of its value, its size, and the position
/// of its bytes in the log.
#[derive(Debug, Clone, Copy)]
pub struct KeyObject {
    pub value_hash: [u8; 32],
    pub key_size: usize,
    pub key_log_position: u64,
}

/// A logged value: the value, the size of its log entry after the type
/// byte (hash, length and bytes), and the position of that entry.
#[derive(Debug)]
pub struct ValueObject<V> {
    pub value: V,
    pub value_size: usize,
    pub value_log_position: u64,
}

/// A table on disk: its bloom filter (in the byte form that the table
/// holds), number of keys, level, name, file size, and the positions of its
/// index and of its key data.
#[derive(Debug)]
pub struct Table {
    pub bloom_filter: Vec<u8>,
    pub key_count: u64,
    pub level: u8,
    pub name: String,
    pub file_size: u64,
    pub index_position: u64,
    pub keys_position: u64,
}

/// The state of a store: its directory, its graves (hashes of deleted
/// keys), its tables (newest name first), the cached keys (ordered by hash)
/// and values (one per value hash), the cache's size and limit, and the
/// length of its log.
#[verifier::reject_recursive_types(K)]
#[verifier::reject_recursive_types(V)]
pub struct Store<K, V> {
    pub directory: String,
    pub graves: Vec<[u8; 32]>,
    pub tables: Vec<Table>,
    pub values: Vec<([u8; 32], ValueObject<V>)>,
    pub cache_size: u64,
    pub cache_limit: u64,
    pub keys: Vec<([u8; 32], KeyObject)>,
    pub log_len: u64,
    pub phantom: PhantomData<K>,
}

/// The order of two hashes.
#[derive(Debug, Clone, Copy, PartialEq, Eq, Structural)]
pub enum HashOrder {
    Less,
    Equal,
    Greater,
}

/// `a` comes before `b` in lexicographic byte order.
pub open spec fn lex_lt(a: Seq<u8>, b: Seq<u8>) -> bool
    decreases a.len(),
{
    if a.len() == 0 || b.len() == 0 {
        a.len() == 0 && b.len() > 0
    } else if a[0] != b[0] {
        a[0] < b[0]
    } else {
        lex_lt(a.drop_first(), b.drop_first())
    }
}

pub proof fn lemma_lex_irreflexive(a: Seq<u8>)
    ensures
        !lex_lt(a, a),
    decreases a.len(),
{
    if a.len() > 0 {
        lemma_lex_irreflexive(a.drop_first());
    }
}

pub proof fn lemma_lex_transitive(a: Seq<u8>, b: Seq<u8>, c: Seq<u8>)
    requires
        lex_lt(a, b),
        lex_lt(b, c),
    ensures
        lex_lt(a, c),
    decreases a.len(),
{
    if a.len() > 0 && b.len() > 0 && c.len() > 0 {
        if a[0] == b[0] && b[0] == c[0] {
            lemma_lex_transitive(a.drop_first(), b.drop_first(), c.drop_first());
        }
    }
}

pub proof fn lemma_lex_total(a: Seq<u8>, b: Seq<u8>)
    ensures
        a == b || lex_lt(a, b) || lex_lt(b, a),
    decreases a.len(),
{
    if a.len() > 0 && b.len() > 0 {
        if a[0] == b[0] {
            lemma_lex_total(a.drop_first(), b.drop_first());
            if a.drop_first() == b.drop_first() {
                assert(a =~= seq![a[0]] + a.drop_first());
                assert(b =~= seq![b[0]] + b.drop_first());
            }
        }
    } else if a.len() == 0 && b.len() == 0 {
        assert(a =~= b);
    }
}

pub proof fn lemma_lex_asymmetric(a: Seq<u8>, b: Seq<u8>)
    requires
        lex_lt(a, b),
    ensures
        !lex_lt(b, a),
    decreases a.len(),
{
    if a.len() > 0 && b.len() > 0 && a[0] == b[0] {
        lemma_lex_asymmetric(a.drop_first(), b.drop_first());
    }
}

proof fn lemma_lex_at_difference(a: Seq<u8>, b: Seq<u8>, i: int)
    requires
        a.len() == b.len(),
        0 <= i < a.len(),
        a.subrange(0, i) == b.subrange(0, i),
        a[i] != b[i],
    ensures
        lex_lt(a, b) == (a[i] < b[i]),
    decreases i,
{
    if i > 0 {
        assert(a[0] == a.subrange(0, i)[0]);
        assert(b[0] == b.subrange(0, i)[0]);
        assert(a.drop_first().subrange(0, i - 1) =~= a.subrange(0, i).drop_first());
        assert(b.drop_first().subrange(0, i - 1) =~= b.subrange(0, i).drop_first());
        lemma_lex_at_difference(a.drop_first(), b.drop_first(), i - 1);
    }
}

/// Compares two hashes byte by byte.
pub fn compare_hashes(a: &[u8; 32], b: &[u8; 32]) -> (r: HashOrder)
    ensures
        (r == HashOrder::Less) == lex_lt(a@, b@),
        (r == HashOrder::Equal) == (a@ == b@),
        (r == HashOrder::Greater) == lex_lt(b@, a@),
{
    let mut i: usize = 0;
    while i < 32
        invariant
            i <= 32,
            a@.len() == 32,
            b@.len() == 32,
            a@.subrange(0, i as int) == b@.subrange(0, i as int),
        decreases 32 - i,
    {
        if a[i] != b[i] {
            proof {
                lemma_lex_at_difference(a@, b@, i as int);
                lemma_lex_at_difference(b@, a@, i as int);
            }
            if a[i] < b[i] {
                return HashOrder::Less;
            } else {
                return HashOrder::Greater;
            }
        }
        assert(a@.subrange(0, i + 1) =~= a@.subrange(0, i as int).push(a@[i as int]));
        assert(b@.subrange(0, i + 1) =~= b@.subrange(0, i as int).push(b@[i as int]));
        i = i + 1;
    }
    assert(a@ =~= a@.subrange(0, 32));
    assert(b@ =~= b@.subrange(0, 32));
    proof {
        lemma_lex_irreflexive(a@);
    }
    HashOrder::Equal
}

proof fn lemma_lex_common_prefix(a: Seq<u8>, b: Seq<u8>, n: int)
    requires
        n == if a.len() < b.len() { a.len() as int } else { b.len() as int },
        a.subrange(0, n) == b.subrange(0, n),
    ensures
        lex_lt(a, b) == (a.len() < b.len()),
    decreases n,
{
    if n > 0 {
        assert(a[0] == a.subrange(0, n)[0]);
        assert(b[0] == b.subrange(0, n)[0]);
        assert(a.drop_first().subrange(0, n - 1) =~= a.subrange(0, n).drop_first());
        assert(b.drop_first().subrange(0, n - 1) =~= b.subrange(0, n).drop_first());
        lemma_lex_common_prefix(a.drop_first(), b.drop_first(), n - 1);
    }
}

proof fn lemma_lex_first_difference(a: Seq<u8>, b: Seq<u8>, i: int)
    requires
        0 <= i < a.len(),
        i < b.len(),
        a.subrange(0, i) == b.subrange(0, i),
        a[i] != b[i],
    ensures
        lex_lt(a, b) == (a[i] < b[i]),
    decreases i,
{
    if i > 0 {
        assert(a[0] == a.subrange(0, i)[0]);
        assert(b[0] == b.subrange(0, i)[0]);
        assert(a.drop_first().subrange(0, i - 1) =~= a.subrange(0, i).drop_first());
        assert(b.drop_first().subrange(0, i - 1) =~= b.subrange(0, i).drop_first());
        lemma_lex_first_difference(a.drop_first(), b.drop_first(), i - 1);
    }
}

/// Compares two byte strings in lexicographic order (a proper prefix comes
/// first).
pub fn compare_bytes(a: &[u8], b: &[u8]) -> (r: HashOrder)
    ensures
        (r == HashOrder::Less) == lex_lt(a@, b@),
        (r == HashOrder::Equal) == (a@ == b@),
        (r == HashOrder::Greater) == lex_lt(b@, a@),
{
    let n: usize = if a.len() < b.len() {
        a.len()
    } else {
        b.len()
    };
    let mut i: usize = 0;
    while i < n
        invariant
            i <= n,
            n == if a@.len() < b@.len() { a@.len() } else { b@.len() },
            a@.subrange(0, i as int) == b@.subrange(0, i as int),
        decreases n - i,
    {
        if a[i] != b[i] {
            proof {
                lemma_lex_first_difference(a@, b@, i as int);
                lemma_lex_first_difference(b@, a@, i as int);
            }
            if a[i] < b[i] {
                return HashOrder::Less;
            } else {
                return HashOrder::Greater;
            }
        }
        assert(a@.subrange(0, i + 1) =~= a@.subrange(0, i as int).push(a@[i as int]));
        assert(b@.subrange(0, i + 1) =~= b@.subrange(0, i as int).push(b@[i as int]));
        i = i + 1;
    }
    proof {
        lemma_lex_common_prefix(a@, b@, n as int);
        lemma_lex_common_prefix(b@, a@, n as int);
    }
    if a.len() < b.len() {
        HashOrder::Less
    } else if a.len() > b.len() {
        HashOrder::Greater
    } else {
        assert(a@ =~= a@.subrange(0, n as int));
        assert(b@ =~= b@.subrange(0, n as int));
        HashOrder::Equal
    }
}

/// The 32 bytes at `start` as a hash.
pub fn read_hash(bytes: &[u8], start: usize) -> (r: [u8; 32])
    requires
        start + 32 <= bytes@.len(),
    ensures
        r@ == bytes@.subrange(start as int, start + 32),
{
    let mut h: [u8; 32] = [0u8; 32];
    let mut k: usize = 0;
    while k < 32
        invariant
            k <= 32,
            start + 32 <= bytes@.len(),
            h@.len() == 32,
            h@.subrange(0, k as int) == bytes@.subrange(start as int, start + k),
        decreases 32 - k,
    {
        let len = bytes.len();
        assert(start + k < len);
        h[k] = bytes[start + k];
        proof {
            assert(h@.subrange(0, k + 1) =~= bytes@.subrange(start as int, start + k + 1));
        }
        k = k + 1;
    }
    assert(h@ =~= bytes@.subrange(start as int, start + 32));
    h
}

/// Cached keys in strictly increasing hash order.
pub open spec fn keys_sorted<T>(keys: Seq<([u8; 32], T)>) -> bool {
    forall|i: int, j: int| 0 <= i < j < keys.len() ==> lex_lt(#[trigger] keys[i].0@, #[trigger] keys[j].0@)
}

/// Entries keyed by hash, as a map; a later entry wins over an earlier one
/// with the same hash.
pub open spec fn hash_map<T>(s: Seq<([u8; 32], T)>) -> Map<Seq<u8>, T>
    decreases s.len(),
{
    if s.len() == 0 {
        Map::empty()
    } else {
        hash_map(s.drop_last()).insert(s.last().0@, s.last().1)
    }
}

/// No two entries have the same hash.
pub open spec fn hashes_unique<T>(s: Seq<([u8; 32], T)>) -> bool {
    forall|i: int, j: int| 0 <= i < j < s.len() ==> (#[trigger] s[i].0@) != (#[trigger] s[j].0@)
}

/// With hashes unique, the map holds exactly the entries.
pub proof fn lemma_hash_map<T>(s: Seq<([u8; 32], T)>)
    requires
        hashes_unique(s),
    ensures
        forall|i: int|
            0 <= i < s.len() ==> #[trigger] hash_map(s).contains_key(s[i].0@) && hash_map(s)[s[i].0@]
                == s[i].1,
        forall|h: Seq<u8>|
            #[trigger] hash_map(s).contains_key(h) ==> exists|i: int| 0 <= i < s.len() && s[i].0@ == h,
    decreases s.len(),
{
    if s.len() > 0 {
        let t = s.drop_last();
        assert(hashes_unique(t)) by {
            assert forall|i: int, j: int| 0 <= i < j < t.len() implies (#[trigger] t[i].0@) != (
            #[trigger] t[j].0@) by {
                assert(t[i] == s[i] && t[j] == s[j]);
            }
        }
        lemma_hash_map(t);
        assert(hash_map(s) == hash_map(t).insert(s.last().0@, s.last().1));
        assert forall|i: int| 0 <= i < s.len() implies #[trigger] hash_map(s).contains_key(s[i].0@)
            && hash_map(s)[s[i].0@] == s[i].1 by {
            if i < s.len() - 1 {
                assert(t[i] == s[i]);
                assert(s[i].0@ != s[s.len() - 1].0@);
                assert(hash_map(t).contains_key(t[i].0@));
            } else {
                assert(s[i] == s.last());
            }
        }
        assert forall|h: Seq<u8>| #[trigger] hash_map(s).contains_key(h) implies exists|i: int|
            0 <= i < s.len() && s[i].0@ == h by {
            if h != s.last().0@ {
                assert(hash_map(t).contains_key(h));
                let i = choose|i: int| 0 <= i < t.len() && t[i].0@ == h;
                assert(s[i] == t[i]);
            } else {
                assert(s[s.len() - 1].0@ == h);
            }
        }
    }
}

/// Replacing the entry of a hash updates the map at that hash.
pub proof fn lemma_hash_map_update<T>(s: Seq<([u8; 32], T)>, j: int, e: ([u8; 32], T))
    requires
        hashes_unique(s),
        0 <= j < s.len(),
        s[j].0@ == e.0@,
    ensures
        hashes_unique(s.update(j, e)),
        hash_map(s.update(j, e)) == hash_map(s).insert(e.0@, e.1),
{
    let t = s.update(j, e);
    assert(hashes_unique(t)) by {
        assert forall|a: int, b: int| 0 <= a < b < t.len() implies (#[trigger] t[a].0@) != (
        #[trigger] t[b].0@) by {
            assert(s[a].0@ != s[b].0@);
        }
    }
    lemma_hash_map(s);
    lemma_hash_map(t);
    let m = hash_map(s).insert(e.0@, e.1);
    assert forall|g: Seq<u8>| #[trigger] hash_map(t).contains_key(g) <==> m.contains_key(g) by {
        if hash_map(t).contains_key(g) {
            let i = choose|i: int| 0 <= i < t.len() && t[i].0@ == g;
            if i != j {
                assert(hash_map(s).contains_key(s[i].0@));
            }
        }
        if m.contains_key(g) && g != e.0@ {
            let i = choose|i: int| 0 <= i < s.len() && s[i].0@ == g;
            assert(t[i] == s[i]);
            assert(hash_map(t).contains_key(t[i].0@));
        }
        if g == e.0@ {
            assert(hash_map(t).contains_key(t[j].0@));
        }
    }
    assert forall|g: Seq<u8>| #[trigger] hash_map(t).contains_key(g) implies hash_map(t)[g] == m[g] by {
        let i = choose|i: int| 0 <= i < t.len() && t[i].0@ == g;
        assert(hash_map(t)[t[i].0@] == t[i].1);
        if i != j {
            assert(hash_map(s)[s[i].0@] == s[i].1);
        }
    }
    assert(hash_map(t) =~= m);
}

/// Adding the entry of a new hash inserts it into the map.
pub proof fn lemma_hash_map_insert<T>(s: Seq<([u8; 32], T)>, j: int, e: ([u8; 32], T))
    requires
        hashes_unique(s),
        0 <= j <= s.len(),
        forall|i: int| 0 <= i < s.len() ==> (#[trigger] s[i]).0@ != e.0@,
    ensures
        hashes_unique(s.insert(j, e)),
        hash_map(s.insert(j, e)) == hash_map(s).insert(e.0@, e.1),
{
    let t = s.insert(j, e);
    assert(hashes_unique(t)) by {
        assert forall|a: int, b: int| 0 <= a < b < t.len() implies (#[trigger] t[a].0@) != (
        #[trigger] t[b].0@) by {
            if a < j && b < j {
                assert(s[a].0@ != s[b].0@);
            } else if a < j && b > j {
                assert(s[a].0@ != s[b - 1].0@);
            } else if a > j {
                assert(s[a - 1].0@ != s[b - 1].0@);
            } else if a == j {
                assert(t[b] == s[b - 1]);
            }
        }
    }
    lemma_hash_map(s);
    lemma_hash_map(t);
    let m = hash_map(s).insert(e.0@, e.1);
    assert forall|g: Seq<u8>| #[trigger] hash_map(t).contains_key(g) <==> m.contains_key(g) by {
        if hash_map(t).contains_key(g) {
            let i = choose|i: int| 0 <= i < t.len() && t[i].0@ == g;
            if i < j {
                assert(hash_map(s).contains_key(s[i].0@));
            } else if i > j {
                assert(t[i] == s[i - 1]);
                assert(hash_map(s).contains_key(s[i - 1].0@));
            }
        }
        if m.contains_key(g) && g != e.0@ {
            let i = choose|i: int| 0 <= i < s.len() && s[i].0@ == g;
            if i < j {
                assert(t[i] == s[i]);
                assert(hash_map(t).contains_key(t[i].0@));
            } else {
                assert(t[i + 1] == s[i]);
                assert(hash_map(t).contains_key(t[i + 1].0@));
            }
        }
        if g == e.0@ {
            assert(t[j] == e);
            assert(hash_map(t).contains_key(t[j].0@));
        }
    }
    assert forall|g: Seq<u8>| #[trigger] hash_map(t).contains_key(g) implies hash_map(t)[g] == m[g] by {
        let i = choose|i: int| 0 <= i < t.len() && t[i].0@ == g;
        assert(hash_map(t)[t[i].0@] == t[i].1);
        if i < j {
            assert(hash_map(s)[s[i].0@] == s[i].1);
        } else if i > j {
            assert(t[i] == s[i - 1]);
            assert(hash_map(s)[s[i - 1].0@] == s[i - 1].1);
        }
    }
    assert(hash_map(t) =~= m);
}

/// Keys in increasing hash order have unique hashes.
pub proof fn lemma_sorted_unique<T>(keys: Seq<([u8; 32], T)>)
    requires
        keys_sorted(keys),
    ensures
        hashes_unique(keys),
{
    assert forall|i: int, j: int| 0 <= i < j < keys.len() implies (#[trigger] keys[i].0@) != (
    #[trigger] keys[j].0@) by {
        if keys[i].0@ == keys[j].0@ {
            lemma_lex_irreflexive(keys[i].0@);
        }
    }
}

/// The graves as a set of hashes.
pub open spec fn graves_set(graves: Seq<[u8; 32]>) -> Set<Seq<u8>> {
    Set::new(|x: Seq<u8>| exists|i: int| 0 <= i < graves.len() && (#[trigger] graves[i])@ == x)
}

/// No hash is a grave twice.
pub open spec fn graves_unique(graves: Seq<[u8; 32]>) -> bool {
    forall|i: int, j: int| 0 <= i < j < graves.len() ==> (#[trigger] graves[i]@) != (#[trigger] graves[j]@)
}

/// The place of hash `h` among keys ordered by hash: the first entry not
/// below it, and whether that entry has the hash.
pub fn find_key<T>(keys: &Vec<([u8; 32], T)>, h: &[u8; 32]) -> (r: (usize, bool))
    requires
        keys_sorted(keys@),
    ensures
        r.0 <= keys@.len(),
        forall|i: int| 0 <= i < r.0 ==> lex_lt(#[trigger] keys@[i].0@, h@),
        r.0 < keys@.len() ==> !lex_lt(keys@[r.0 as int].0@, h@),
        r.1 == (r.0 < keys@.len() && keys@[r.0 as int].0@ == h@),
{
    let mut j: usize = 0;
    while j < keys.len()
        invariant
            j <= keys@.len(),
            forall|i: int| 0 <= i < j ==> lex_lt(#[trigger] keys@[i].0@, h@),
        ensures
            j <= keys@.len(),
            forall|i: int| 0 <= i < j ==> lex_lt(#[trigger] keys@[i].0@, h@),
            j < keys@.len() ==> !lex_lt(keys@[j as int].0@, h@),
        decreases keys@.len() - j,
    {
        match compare_hashes(&keys[j].0, h) {
            HashOrder::Less => {},
            _ => {
                break;
            },
        }
        j = j + 1;
    }
    if j < keys.len() {
        match compare_hashes(&keys[j].0, h) {
            HashOrder::Equal => (j, true),
            _ => (j, false),
        }
    } else {
        (j, false)
    }
}

/// Sets the key object of hash `h`, keeping the keys ordered by hash.
pub fn insert_key<T>(keys: &mut Vec<([u8; 32], T)>, h: [u8; 32], ko: T)
    requires
        keys_sorted(old(keys)@),
    ensures
        keys_sorted(final(keys)@),
        hash_map(final(keys)@) == hash_map(old(keys)@).insert(h@, ko),
{
    let ghost s = keys@;
    proof {
        lemma_sorted_unique(s);
    }
    let (j, found) = find_key(keys, &h);
    if found {
        keys.set(j, (h, ko));
        proof {
            lemma_hash_map_update(s, j as int, (h, ko));
            assert(keys@ == s.update(j as int, (h, ko)));
        }
    } else {
        proof {
            assert forall|i: int| 0 <= i < s.len() implies (#[trigger] s[i]).0@ != h@ by {
                if i >= j {
                    lemma_lex_total(s[j as int].0@, h@);
                    if i > j {
                        lemma_lex_asymmetric(s[j as int].0@, s[i].0@);
                        lemma_lex_total(s[i].0@, h@);
                        if s[i].0@ == h@ {
                            lemma_lex_asymmetric(h@, s[j as int].0@);
                        }
                    }
                } else {
                    lemma_lex_irreflexive(h@);
                }
            }
            lemma_hash_map_insert(s, j as int, (h, ko));
        }
        keys.insert(j, (h, ko));
        proof {
            let t = keys@;
            assert(t == s.insert(j as int, (h, ko)));
            if j < s.len() {
                lemma_lex_total(s[j as int].0@, h@);
            }
            assert forall|a: int, b: int| 0 <= a < b < t.len() implies lex_lt(#[trigger] t[a].0@, #[trigger] t[b].0@) by {
                if a < j && b < j {
                } else if a < j && b == j {
                } else if a < j && b > j {
                    assert(t[b] == s[b - 1]);
                } else if a == j {
                    assert(t[b] == s[b - 1]);
                    if b - 1 > j {
                        lemma_lex_transitive(h@, s[j as int].0@, s[b - 1].0@);
                    }
                } else {
                    assert(t[a] == s[a - 1]);
                    assert(t[b] == s[b - 1]);
                }
            }
        }
    }
}

/// The place of hash `h` among entries with unique hashes.
pub fn find_entry<T>(s: &Vec<([u8; 32], T)>, h: &[u8; 32]) -> (r: Option<usize>)
    ensures
        r is Some ==> r->0 < s@.len() && s@[r->0 as int].0@ == h@,
        r is None ==> forall|i: int| 0 <= i < s@.len() ==> (#[trigger] s@[i]).0@ != h@,
{
    let mut j: usize = 0;
    while j < s.len()
        invariant
            j <= s@.len(),
            forall|i: int| 0 <= i < j ==> (#[trigger] s@[i]).0@ != h@,
        decreases s@.len() - j,
    {
        match compare_hashes(&s[j].0, h) {
            HashOrder::Equal => {
                return Some(j);
            },
            _ => {},
        }
        j = j + 1;
    }
    None
}

/// The place of hash `h` among the graves.
pub fn find_grave(graves: &Vec<[u8; 32]>, h: &[u8; 32]) -> (r: Option<usize>)
    ensures
        r is Some ==> r->0 < graves@.len() && graves@[r->0 as int]@ == h@,
        r is None ==> forall|i: int| 0 <= i < graves@.len() ==> (#[trigger] graves@[i])@ != h@,
{
    let mut j: usize = 0;
    while j < graves.len()
        invariant
            j <= graves@.len(),
            forall|i: int| 0 <= i < j ==> (#[trigger] graves@[i])@ != h@,
        decreases graves@.len() - j,
    {
        match compare_hashes(&graves[j], h) {
            HashOrder::Equal => {
                return Some(j);
            },
            _ => {},
        }
        j = j + 1;
    }
    None
}

impl<K, V> Store<K, V> {
    /// The store's invariant: keys ordered by hash, one value per hash, one
    /// grave per hash.
    pub open spec fn wf(&self) -> bool {
        &&& keys_sorted(self.keys@)
        &&& hashes_unique(self.values@)
        &&& graves_unique(self.graves@)
    }

    /// The cached keys.
    pub open spec fn key_map(&self) -> Map<Seq<u8>, KeyObject> {
        hash_map(self.keys@)
    }

    /// The cached values.
    pub open spec fn value_map(&self) -> Map<Seq<u8>, ValueObject<V>> {
        hash_map(self.values@)
    }

    /// The hashes of deleted keys.
    pub open spec fn grave_set(&self) -> Set<Seq<u8>> {
        graves_set(self.graves@)
    }
}

} // verus!
