//! Lists of key-value entries seen as maps: the value of a key is the last
//! one given for it, and with no key twice the map holds exactly the
//! entries.
use vstd::prelude::*;
use crate::store::{HashOrder, lex_lt, compare_bytes, lemma_lex_irreflexive, lemma_lex_transitive, lemma_lex_total};

verus! {

/// No two entries have the same key.
pub open spec fn keys_unique<K, V>(s: Seq<(K, V)>) -> bool {
    forall|i: int, j: int| 0 <= i < j < s.len() ==> (#[trigger] s[i].0) != (#[trigger] s[j].0)
}

/// The value of each key: the last one given.
pub open spec fn entry_map<K, V>(s: Seq<(K, V)>) -> Map<K, V>
    decreases s.len(),
{
    if s.len() == 0 {
        Map::empty()
    } else {
        entry_map(s.drop_last()).insert(s.last().0, s.last().1)
    }
}

/// With keys unique, the map holds exactly the entries.
pub proof fn lemma_entry_map<K, V>(s: Seq<(K, V)>)
    requires
        keys_unique(s),
    ensures
        forall|i: int| 0 <= i < s.len() ==> #[trigger] entry_map(s).contains_key(s[i].0) && entry_map(s)[s[i].0] == s[i].1,
        forall|k: K| #[trigger] entry_map(s).contains_key(k) ==> exists|i: int| 0 <= i < s.len() && s[i].0 == k,
    decreases s.len(),
{
    if s.len() > 0 {
        let t = s.drop_last();
        assert(keys_unique(t)) by {
            assert forall|i: int, j: int| 0 <= i < j < t.len() implies (#[trigger] t[i].0) != (#[trigger] t[j].0) by {
                assert(t[i] == s[i] && t[j] == s[j]);
            }
        }
        lemma_entry_map(t);
        assert forall|i: int| 0 <= i < s.len() implies #[trigger] entry_map(s).contains_key(s[i].0)
            && entry_map(s)[s[i].0] == s[i].1 by {
            if i < s.len() - 1 {
                assert(t[i] == s[i]);
                assert(s[i].0 != s[s.len() - 1].0);
                assert(entry_map(t).contains_key(t[i].0));
            }
        }
        assert forall|k: K| #[trigger] entry_map(s).contains_key(k) implies exists|i: int|
            0 <= i < s.len() && s[i].0 == k by {
            if k != s.last().0 {
                assert(entry_map(t).contains_key(k));
                let i = choose|i: int| 0 <= i < t.len() && t[i].0 == k;
                assert(s[i] == t[i]);
            } else {
                assert(s[s.len() - 1].0 == k);
            }
        }
    }
}

/// Replacing the entry of a key updates the map at that key.
pub proof fn lemma_entry_map_update<K, V>(s: Seq<(K, V)>, j: int, e: (K, V))
    requires
        keys_unique(s),
        0 <= j < s.len(),
        s[j].0 == e.0,
    ensures
        keys_unique(s.update(j, e)),
        entry_map(s.update(j, e)) == entry_map(s).insert(e.0, e.1),
{
    let t = s.update(j, e);
    assert(keys_unique(t)) by {
        assert forall|a: int, b: int| 0 <= a < b < t.len() implies (#[trigger] t[a].0) != (#[trigger] t[b].0) by {
            assert(s[a].0 != s[b].0);
        }
    }
    lemma_entry_map(s);
    lemma_entry_map(t);
    let m = entry_map(s).insert(e.0, e.1);
    assert forall|g: K| #[trigger] entry_map(t).contains_key(g) <==> m.contains_key(g) by {
        if entry_map(t).contains_key(g) {
            let i = choose|i: int| 0 <= i < t.len() && t[i].0 == g;
            if i != j {
                assert(entry_map(s).contains_key(s[i].0));
            }
        }
        if m.contains_key(g) && g != e.0 {
            let i = choose|i: int| 0 <= i < s.len() && s[i].0 == g;
            assert(t[i] == s[i]);
            assert(entry_map(t).contains_key(t[i].0));
        }
        if g == e.0 {
            assert(entry_map(t).contains_key(t[j].0));
        }
    }
    assert forall|g: K| #[trigger] entry_map(t).contains_key(g) implies entry_map(t)[g] == m[g] by {
        let i = choose|i: int| 0 <= i < t.len() && t[i].0 == g;
        assert(entry_map(t)[t[i].0] == t[i].1);
        if i != j {
            assert(entry_map(s)[s[i].0] == s[i].1);
        }
    }
    assert(entry_map(t) =~= m);
}

/// Adding the entry of a new key inserts it into the map.
pub proof fn lemma_entry_map_insert<K, V>(s: Seq<(K, V)>, j: int, e: (K, V))
    requires
        keys_unique(s),
        0 <= j <= s.len(),
        forall|i: int| 0 <= i < s.len() ==> (#[trigger] s[i]).0 != e.0,
    ensures
        keys_unique(s.insert(j, e)),
        entry_map(s.insert(j, e)) == entry_map(s).insert(e.0, e.1),
{
    let t = s.insert(j, e);
    assert(keys_unique(t)) by {
        assert forall|a: int, b: int| 0 <= a < b < t.len() implies (#[trigger] t[a].0) != (#[trigger] t[b].0) by {
            if a < j && b < j {
                assert(s[a].0 != s[b].0);
            } else if a < j && b > j {
                assert(s[a].0 != s[b - 1].0);
            } else if a > j {
                assert(s[a - 1].0 != s[b - 1].0);
            } else if a == j {
                assert(t[b] == s[b - 1]);
            }
        }
    }
    lemma_entry_map(s);
    lemma_entry_map(t);
    let m = entry_map(s).insert(e.0, e.1);
    assert forall|g: K| #[trigger] entry_map(t).contains_key(g) <==> m.contains_key(g) by {
        if entry_map(t).contains_key(g) {
            let i = choose|i: int| 0 <= i < t.len() && t[i].0 == g;
            if i < j {
                assert(entry_map(s).contains_key(s[i].0));
            } else if i > j {
                assert(t[i] == s[i - 1]);
                assert(entry_map(s).contains_key(s[i - 1].0));
            }
        }
        if m.contains_key(g) && g != e.0 {
            let i = choose|i: int| 0 <= i < s.len() && s[i].0 == g;
            if i < j {
                assert(t[i] == s[i]);
                assert(entry_map(t).contains_key(t[i].0));
            } else {
                assert(t[i + 1] == s[i]);
                assert(entry_map(t).contains_key(t[i + 1].0));
            }
        }
        if g == e.0 {
            assert(t[j] == e);
            assert(entry_map(t).contains_key(t[j].0));
        }
    }
    assert forall|g: K| #[trigger] entry_map(t).contains_key(g) implies entry_map(t)[g] == m[g] by {
        let i = choose|i: int| 0 <= i < t.len() && t[i].0 == g;
        assert(entry_map(t)[t[i].0] == t[i].1);
        if i < j {
            assert(entry_map(s)[s[i].0] == s[i].1);
        } else if i > j {
            assert(t[i] == s[i - 1]);
            assert(entry_map(s)[s[i - 1].0] == s[i - 1].1);
        }
    }
    assert(entry_map(t) =~= m);
}

/// Byte-string entries as mathematical sequences.
pub open spec fn byte_pairs(v: Seq<(Vec<u8>, Vec<u8>)>) -> Seq<(Seq<u8>, Seq<u8>)> {
    v.map_values(|e: (Vec<u8>, Vec<u8>)| (e.0@, e.1@))
}

/// Entries in strictly increasing lexicographic order of their keys.
pub open spec fn bytes_sorted(s: Seq<(Seq<u8>, Seq<u8>)>) -> bool {
    forall|i: int, j: int| 0 <= i < j < s.len() ==> lex_lt(#[trigger] s[i].0, #[trigger] s[j].0)
}

proof fn lemma_bytes_sorted_unique(s: Seq<(Seq<u8>, Seq<u8>)>)
    requires
        bytes_sorted(s),
    ensures
        keys_unique(s),
{
    assert forall|i: int, j: int| 0 <= i < j < s.len() implies (#[trigger] s[i].0) != (#[trigger] s[j].0) by {
        if s[i].0 == s[j].0 {
            lemma_lex_irreflexive(s[i].0);
        }
    }
}

/// Sets the value of `key` among byte-string entries in key order, keeping
/// the order.
pub fn upsert_bytes(entries: &mut Vec<(Vec<u8>, Vec<u8>)>, key: Vec<u8>, value: Vec<u8>)
    requires
        bytes_sorted(byte_pairs(old(entries)@)),
    ensures
        bytes_sorted(byte_pairs(final(entries)@)),
        entry_map(byte_pairs(final(entries)@)) == entry_map(byte_pairs(old(entries)@)).insert(key@, value@),
{
    let ghost s = byte_pairs(entries@);
    let ghost kb = key@;
    let mut j: usize = 0;
    while j < entries.len()
        invariant
            j <= entries@.len(),
            s == byte_pairs(entries@),
            kb == key@,
            forall|i: int| 0 <= i < j ==> lex_lt(#[trigger] s[i].0, kb),
        ensures
            j <= entries@.len(),
            s == byte_pairs(entries@),
            forall|i: int| 0 <= i < j ==> lex_lt(#[trigger] s[i].0, kb),
            j < entries@.len() ==> !lex_lt(s[j as int].0, kb),
        decreases entries@.len() - j,
    {
        assert(s[j as int].0 == entries@[j as int].0@);
        match compare_bytes(entries[j].0.as_slice(), key.as_slice()) {
            HashOrder::Less => {},
            _ => {
                break;
            },
        }
        j = j + 1;
    }
    proof {
        lemma_bytes_sorted_unique(s);
    }
    let ghost e = (key@, value@);
    let found = if j < entries.len() {
        assert(s[j as int].0 == entries@[j as int].0@);
        match compare_bytes(entries[j].0.as_slice(), key.as_slice()) {
            HashOrder::Equal => true,
            _ => false,
        }
    } else {
        false
    };
    if found {
        proof {
            lemma_entry_map_update(s, j as int, e);
        }
        entries.set(j, (key, value));
        proof {
            let t = byte_pairs(entries@);
            assert(t =~= s.update(j as int, e));
            assert forall|a: int, b: int| 0 <= a < b < t.len() implies lex_lt(#[trigger] t[a].0, #[trigger] t[b].0) by {
                assert(t[a].0 == s[a].0 && t[b].0 == s[b].0);
            }
        }
    } else {
        proof {
            if j < s.len() {
                lemma_lex_total(s[j as int].0, kb);
            }
            assert forall|i: int| 0 <= i < s.len() implies (#[trigger] s[i]).0 != kb by {
                if i > j {
                    lemma_lex_transitive(kb, s[j as int].0, s[i].0);
                }
                if s[i].0 == kb {
                    lemma_lex_irreflexive(kb);
                }
            }
            lemma_entry_map_insert(s, j as int, e);
            let t = s.insert(j as int, e);
            assert forall|a: int, b: int| 0 <= a < b < t.len() implies lex_lt(#[trigger] t[a].0, #[trigger] t[b].0) by {
                if a < j && b < j {
                } else if a < j && b == j {
                } else if a < j && b > j {
                    assert(t[b] == s[b - 1]);
                } else if a == j {
                    assert(t[b] == s[b - 1]);
                    if b - 1 > j {
                        lemma_lex_transitive(kb, s[j as int].0, s[b - 1].0);
                    }
                } else {
                    assert(t[a] == s[a - 1]);
                    assert(t[b] == s[b - 1]);
                }
            }
        }
        entries.insert(j, (key, value));
        proof {
            assert(byte_pairs(entries@) =~= s.insert(j as int, e));
        }
    }
}

} // verus!
