//! A 256-bit bloom filter over string keys, stored as 32 bytes, whose five
//! positions come from the first byte of five digests of the key.
use vstd::prelude::*;
use vstd::utf8::encode_utf8;
use crate::hashes::{blake3_digest, sha256_digest, sha512_digest, sha3_256_digest, sha3_512_digest, blake3_hash, sha256, sha512, sha3_256, sha3_512};

verus! {

/// The mask of bit `bit` (counted from the most significant bit) in a byte.
pub open spec fn bit_mask(bit: u8) -> u8 {
    if bit == 0 {
        0b1000_0000u8
    } else if bit == 1 {
        0b0100_0000u8
    } else if bit == 2 {
        0b0010_0000u8
    } else if bit == 3 {
        0b0001_0000u8
    } else if bit == 4 {
        0b0000_1000u8
    } else if bit == 5 {
        0b0000_0100u8
    } else if bit == 6 {
        0b0000_0010u8
    } else {
        0b0000_0001u8
    }
}

/// The filter with the bit of position `hash` set.
pub open spec fn spec_toggle(filter: Seq<u8>, hash: u8) -> Seq<u8> {
    let i = (hash / 8) as int;
    filter.update(i, filter[i] | bit_mask(hash % 8))
}

/// Whether the bit of position `hash` is set in the filter.
pub open spec fn spec_is_toggled(filter: Seq<u8>, hash: u8) -> bool {
    let i = (hash / 8) as int;
    filter[i] & bit_mask(hash % 8) != 0
}

fn mask_of(bit_index: u8) -> (m: u8)
    ensures
        m == bit_mask(bit_index),
{
    match bit_index {
        0 => 0b1000_0000,
        1 => 0b0100_0000,
        2 => 0b0010_0000,
        3 => 0b0001_0000,
        4 => 0b0000_1000,
        5 => 0b0000_0100,
        6 => 0b0000_0010,
        _ => 0b0000_0001,
    }
}

proof fn lemma_mask_bits(b: u8, bit: u8)
    ensures
        (b | bit_mask(bit)) & bit_mask(bit) != 0,
        (b | bit_mask(bit) == b) == (b & bit_mask(bit) != 0),
{
    let m = bit_mask(bit);
    assert(m == 128 || m == 64 || m == 32 || m == 16 || m == 8 || m == 4 || m == 2 || m == 1);
    assert((m == 128 || m == 64 || m == 32 || m == 16 || m == 8 || m == 4 || m == 2 || m == 1) ==> (
    b | m) & m != 0 && ((b | m == b) == (b & m != 0))) by (bit_vector);
}

proof fn lemma_or_keeps_set(b: u8, m: u8, m2: u8)
    requires
        b & m2 != 0,
    ensures
        (b | m) & m2 != 0,
{
    assert(b & m2 != 0 ==> (b | m) & m2 != 0) by (bit_vector);
}

/// Sets the bit of position `hash` in the filter.
fn toggle(filter: Vec<u8>, hash: &u8) -> (result: Vec<u8>)
    requires
        (*hash / 8) < filter@.len(),
    ensures
        result@ == spec_toggle(filter@, *hash),
{
    let byte_index: u8 = *hash / 8;
    let bit_index: u8 = *hash % 8;
    let mut byte = filter[byte_index as usize];
    byte = byte | mask_of(bit_index);
    let mut result = filter;
    result.set(byte_index as usize, byte);
    result
}

/// Whether the bit of position `hash` is set in the filter.
fn is_toggled(filter: &Vec<u8>, hash: &u8) -> (r: bool)
    requires
        (*hash / 8) < filter@.len(),
    ensures
        r == spec_is_toggled(filter@, *hash),
{
    let byte_index: u8 = *hash / 8;
    let bit_index: u8 = *hash % 8;
    let byte = filter[byte_index as usize];
    let new_byte = byte | mask_of(bit_index);
    proof {
        lemma_mask_bits(byte, bit_index);
    }
    byte == new_byte
}


/// The five filter positions of a key: the first byte of its BLAKE3,
/// SHA-256, SHA-512, SHA3-256 and SHA3-512 digests, in that order.
pub open spec fn key_positions(key: Seq<char>) -> Seq<u8> {
    let b = encode_utf8(key);
    seq![
        blake3_digest(b)[0],
        sha256_digest(b)[0],
        sha512_digest(b)[0],
        sha3_256_digest(b)[0],
        sha3_512_digest(b)[0],
    ]
}

/// Every position falls inside a filter of `len` bytes.
pub open spec fn positions_fit(len: nat, positions: Seq<u8>) -> bool {
    forall|i: int| 0 <= i < positions.len() ==> (#[trigger] positions[i] / 8) < len
}

/// The filter with the bits of all the positions set, one after another.
pub open spec fn toggle_all(filter: Seq<u8>, positions: Seq<u8>) -> Seq<u8>
    decreases positions.len(),
{
    if positions.len() == 0 {
        filter
    } else {
        toggle_all(spec_toggle(filter, positions[0]), positions.drop_first())
    }
}

/// All the positions have their bit set in the filter.
pub open spec fn all_toggled(filter: Seq<u8>, positions: Seq<u8>) -> bool {
    forall|i: int| 0 <= i < positions.len() ==> #[trigger] spec_is_toggled(filter, positions[i])
}

/// A lookup that checks the positions in order and stops at the first unset
/// bit reads only bytes inside the filter.
pub open spec fn lookup_in_bounds(filter: Seq<u8>, positions: Seq<u8>) -> bool {
    forall|i: int|
        0 <= i < positions.len() && (forall|j: int| 0 <= j < i ==> #[trigger] spec_is_toggled(filter, positions[j]))
            ==> (#[trigger] positions[i] / 8) < filter.len()
}

/// The first byte of the BLAKE3 digest of the key.
fn h1(key: &str) -> (r: u8)
    ensures
        r == blake3_digest(encode_utf8(key@))[0],
{
    let hash = blake3_hash(key.as_bytes());
    hash[0]
}

/// The first byte of the SHA-256 digest of the key.
fn h2(key: &str) -> (r: u8)
    ensures
        r == sha256_digest(encode_utf8(key@))[0],
{
    let hash = sha256(key.as_bytes());
    hash[0]
}

/// The first byte of the SHA-512 digest of the key.
fn h3(key: &str) -> (r: u8)
    ensures
        r == sha512_digest(encode_utf8(key@))[0],
{
    let hash = sha512(key.as_bytes());
    hash[0]
}

/// The first byte of the SHA3-256 digest of the key.
fn h4(key: &str) -> (r: u8)
    ensures
        r == sha3_256_digest(encode_utf8(key@))[0],
{
    let hash = sha3_256(key.as_bytes());
    hash[0]
}

/// The first byte of the SHA3-512 digest of the key.
fn h5(key: &str) -> (r: u8)
    ensures
        r == sha3_512_digest(encode_utf8(key@))[0],
{
    let hash = sha3_512(key.as_bytes());
    hash[0]
}

/// The five filter positions of the key.
fn positions_of(key: &str) -> (r: Vec<u8>)
    ensures
        r@ == key_positions(key@),
{
    let r = vec![h1(key), h2(key), h3(key), h4(key), h5(key)];
    assert(r@ =~= key_positions(key@));
    r
}

proof fn lemma_toggle_all_step(filter: Seq<u8>, positions: Seq<u8>, k: int)
    requires
        0 <= k < positions.len(),
    ensures
        toggle_all(filter, positions.subrange(0, k + 1)) == spec_toggle(
            toggle_all(filter, positions.subrange(0, k)),
            positions[k],
        ),
    decreases k,
{
    if k > 0 {
        let f1 = spec_toggle(filter, positions[0]);
        let rest = positions.drop_first();
        lemma_toggle_all_step(f1, rest, k - 1);
        assert(positions.subrange(0, k + 1).drop_first() =~= rest.subrange(0, k));
        assert(positions.subrange(0, k).drop_first() =~= rest.subrange(0, k - 1));
        assert(positions.subrange(0, k + 1)[0] == positions[0]);
        assert(positions.subrange(0, k)[0] == positions[0]);
        assert(rest[k - 1] == positions[k]);
        assert(toggle_all(filter, positions.subrange(0, k + 1)) == toggle_all(f1, rest.subrange(0, k)));
        assert(toggle_all(filter, positions.subrange(0, k)) == toggle_all(f1, rest.subrange(0, k - 1)));
    } else {
        assert(positions.subrange(0, 1).drop_first() =~= Seq::<u8>::empty());
        assert(positions.subrange(0, 0) =~= Seq::<u8>::empty());
        assert(positions.subrange(0, 1)[0] == positions[0]);
        let f1 = spec_toggle(filter, positions[0]);
        assert(toggle_all(f1, Seq::<u8>::empty()) == f1);
        assert(toggle_all(filter, positions.subrange(0, 1)) == toggle_all(f1, positions.subrange(0, 1).drop_first()));
    }
}

/// Adds the key to the filter: sets the bit of each of its five positions.
pub fn insert(filter: Vec<u8>, key: &str) -> (result: Vec<u8>)
    requires
        positions_fit(filter@.len(), key_positions(key@)),
    ensures
        result@ == toggle_all(filter@, key_positions(key@)),
{
    let hash_results = positions_of(key);
    let mut result = filter;
    let mut i: usize = 0;
    while i < hash_results.len()
        invariant
            0 <= i <= hash_results@.len(),
            hash_results@ == key_positions(key@),
            result@.len() == filter@.len(),
            positions_fit(filter@.len(), hash_results@),
            result@ == toggle_all(filter@, hash_results@.subrange(0, i as int)),
        decreases hash_results@.len() - i,
    {
        proof {
            lemma_toggle_all_step(filter@, hash_results@, i as int);
        }
        let h = hash_results[i];
        assert(h / 8 < filter@.len());
        result = toggle(result, &h);
        i = i + 1;
    }
    assert(hash_results@.subrange(0, i as int) =~= hash_results@);
    result
}

/// Whether every one of the key's five positions is set in the filter.
pub fn lookup(filter: &Vec<u8>, key: &str) -> (r: bool)
    requires
        lookup_in_bounds(filter@, key_positions(key@)),
    ensures
        r == all_toggled(filter@, key_positions(key@)),
{
    let hash_results = positions_of(key);
    let mut i: usize = 0;
    while i < hash_results.len()
        invariant
            0 <= i <= hash_results@.len(),
            hash_results@ == key_positions(key@),
            lookup_in_bounds(filter@, hash_results@),
            forall|j: int| 0 <= j < i ==> #[trigger] spec_is_toggled(filter@, hash_results@[j]),
        decreases hash_results@.len() - i,
    {
        let h = hash_results[i];
        assert(h / 8 < filter@.len());
        if !is_toggled(filter, &h) {
            return false;
        }
        i = i + 1;
    }
    true
}

/// Adds the key when all five of its positions fall inside the filter, and
/// gives `None` otherwise (where `insert` would index past the filter).
pub fn try_insert(filter: Vec<u8>, key: &str) -> (r: Option<Vec<u8>>)
    ensures
        positions_fit(filter@.len(), key_positions(key@)) <==> r is Some,
        r is Some ==> r->0@ == toggle_all(filter@, key_positions(key@)),
{
    let positions = positions_of(key);
    let mut i: usize = 0;
    while i < positions.len()
        invariant
            0 <= i <= positions@.len(),
            positions@ == key_positions(key@),
            forall|j: int| 0 <= j < i ==> (#[trigger] positions@[j] / 8) < filter@.len(),
        decreases positions@.len() - i,
    {
        if (positions[i] / 8) as usize >= filter.len() {
            return None;
        }
        i = i + 1;
    }
    Some(insert(filter, key))
}

/// Looks the key up when the lookup reads only bytes inside the filter, and
/// gives `None` otherwise (where `lookup` would index past the filter).
pub fn try_lookup(filter: &Vec<u8>, key: &str) -> (r: Option<bool>)
    ensures
        lookup_in_bounds(filter@, key_positions(key@)) <==> r is Some,
        r is Some ==> r->0 == all_toggled(filter@, key_positions(key@)),
{
    let positions = positions_of(key);
    let mut i: usize = 0;
    while i < positions.len()
        invariant
            0 <= i <= positions@.len(),
            positions@ == key_positions(key@),
            forall|j: int| 0 <= j < i ==> #[trigger] spec_is_toggled(filter@, positions@[j]),
            forall|j: int| 0 <= j < i ==> (#[trigger] positions@[j] / 8) < filter@.len(),
        decreases positions@.len() - i,
    {
        let h = positions[i];
        if (h / 8) as usize >= filter.len() {
            return None;
        }
        if !is_toggled(filter, &h) {
            return Some(false);
        }
        i = i + 1;
    }
    Some(true)
}

/// Setting bits keeps the filter's length and every bit that was set.
proof fn lemma_toggle_all_keeps(filter: Seq<u8>, positions: Seq<u8>, p: u8)
    requires
        positions_fit(filter.len(), positions),
        p / 8 < filter.len(),
    ensures
        toggle_all(filter, positions).len() == filter.len(),
        spec_is_toggled(filter, p) ==> spec_is_toggled(toggle_all(filter, positions), p),
    decreases positions.len(),
{
    if positions.len() > 0 {
        let q = positions[0];
        let f1 = spec_toggle(filter, q);
        assert(q / 8 < filter.len());
        assert(positions_fit(f1.len(), positions.drop_first())) by {
            assert forall|i: int| 0 <= i < positions.drop_first().len() implies (
            #[trigger] positions.drop_first()[i] / 8) < f1.len() by {
                assert(positions.drop_first()[i] == positions[i + 1]);
            }
        }
        if spec_is_toggled(filter, p) {
            if q / 8 == p / 8 {
                lemma_or_keeps_set(filter[(p / 8) as int], bit_mask(q % 8), bit_mask(p % 8));
            }
        }
        lemma_toggle_all_keeps(f1, positions.drop_first(), p);
    }
}

/// After setting the bits of all positions, each of them is set.
proof fn lemma_toggle_all_sets(filter: Seq<u8>, positions: Seq<u8>)
    requires
        positions_fit(filter.len(), positions),
    ensures
        all_toggled(toggle_all(filter, positions), positions),
    decreases positions.len(),
{
    if positions.len() > 0 {
        let q = positions[0];
        let f1 = spec_toggle(filter, q);
        let rest = positions.drop_first();
        assert(q / 8 < filter.len());
        assert(positions_fit(f1.len(), rest)) by {
            assert forall|i: int| 0 <= i < rest.len() implies (#[trigger] rest[i] / 8) < f1.len() by {
                assert(rest[i] == positions[i + 1]);
            }
        }
        lemma_toggle_all_sets(f1, rest);
        lemma_mask_bits(filter[(q / 8) as int], q % 8);
        lemma_toggle_all_keeps(f1, rest, q);
        assert forall|i: int| 0 <= i < positions.len() implies #[trigger] spec_is_toggled(
            toggle_all(filter, positions),
            positions[i],
        ) by {
            if i > 0 {
                assert(positions[i] == rest[i - 1]);
            }
        }
    }
}

/// A key that was inserted is found: a lookup of it in the filter that the
/// insertion gave back is true.
pub proof fn lemma_inserted_key_is_found(filter: Seq<u8>, key: Seq<char>)
    requires
        positions_fit(filter.len(), key_positions(key)),
    ensures
        all_toggled(toggle_all(filter, key_positions(key)), key_positions(key)),
        toggle_all(filter, key_positions(key)).len() == filter.len(),
{
    lemma_toggle_all_sets(filter, key_positions(key));
    if key_positions(key).len() > 0 {
        lemma_toggle_all_keeps(filter, key_positions(key), key_positions(key)[0]);
    }
}

/// Inserting a key keeps every key that was found still found.
pub proof fn lemma_insert_keeps_found(filter: Seq<u8>, key: Seq<char>, other: Seq<char>)
    requires
        positions_fit(filter.len(), key_positions(key)),
        positions_fit(filter.len(), key_positions(other)),
        all_toggled(filter, key_positions(other)),
    ensures
        all_toggled(toggle_all(filter, key_positions(key)), key_positions(other)),
{
    let ps = key_positions(other);
    assert forall|i: int| 0 <= i < ps.len() implies #[trigger] spec_is_toggled(
        toggle_all(filter, key_positions(key)),
        ps[i],
    ) by {
        lemma_toggle_all_keeps(filter, key_positions(key), ps[i]);
    }
}


/// The bits that setting the positions adds to the byte `i` of a filter.
pub open spec fn added_bits(positions: Seq<u8>, i: int) -> u8
    decreases positions.len(),
{
    if positions.len() == 0 {
        0u8
    } else {
        let m: u8 = if (positions[0] / 8) as int == i {
            bit_mask(positions[0] % 8)
        } else {
            0u8
        };
        m | added_bits(positions.drop_first(), i)
    }
}

proof fn lemma_or_assoc(a: u8, b: u8, c: u8)
    ensures
        (a | b) | c == a | (b | c),
        a | 0u8 == a,
        (a | b) | b == a | b,
        (a | b) & a == a,
{
    assert((a | b) | c == a | (b | c)) by (bit_vector);
    assert(a | 0u8 == a) by (bit_vector);
    assert((a | b) | b == a | b) by (bit_vector);
    assert((a | b) & a == a) by (bit_vector);
}

/// Setting the bits of the positions ORs each byte with the bits added to
/// it.
proof fn lemma_toggle_all_bytes(filter: Seq<u8>, positions: Seq<u8>)
    requires
        positions_fit(filter.len(), positions),
    ensures
        toggle_all(filter, positions).len() == filter.len(),
        forall|i: int| 0 <= i < filter.len() ==> #[trigger] toggle_all(filter, positions)[i] == filter[i] | added_bits(positions, i),
    decreases positions.len(),
{
    if positions.len() == 0 {
        assert forall|i: int| 0 <= i < filter.len() implies #[trigger] toggle_all(filter, positions)[i] == filter[i]
            | added_bits(positions, i) by {
            lemma_or_assoc(filter[i], 0u8, 0u8);
        }
    } else {
        let q = positions[0];
        let f1 = spec_toggle(filter, q);
        let rest = positions.drop_first();
        assert(q / 8 < filter.len());
        assert(positions_fit(f1.len(), rest)) by {
            assert forall|i: int| 0 <= i < rest.len() implies (#[trigger] rest[i] / 8) < f1.len() by {
                assert(rest[i] == positions[i + 1]);
            }
        }
        lemma_toggle_all_bytes(f1, rest);
        assert forall|i: int| 0 <= i < filter.len() implies #[trigger] toggle_all(filter, positions)[i] == filter[i]
            | added_bits(positions, i) by {
            let m: u8 = if (q / 8) as int == i {
                bit_mask(q % 8)
            } else {
                0u8
            };
            assert(toggle_all(f1, rest)[i] == f1[i] | added_bits(rest, i));
            if (q / 8) as int == i {
                assert(f1[i] == filter[i] | m);
            } else {
                assert(f1[i] == filter[i]);
                lemma_or_assoc(filter[i], 0u8, 0u8);
                assert(f1[i] == filter[i] | m);
            }
            lemma_or_assoc(filter[i], m, added_bits(rest, i));
        }
    }
}

/// No position of a byte-sized hash reaches past byte 31.
proof fn lemma_added_bits_past_32(positions: Seq<u8>, i: int)
    requires
        i >= 32,
    ensures
        added_bits(positions, i) == 0u8,
    decreases positions.len(),
{
    if positions.len() > 0 {
        lemma_added_bits_past_32(positions.drop_first(), i);
        lemma_or_assoc(0u8, 0u8, 0u8);
    }
}

/// Inserting a key only sets bits: every byte keeps the bits it had, and the
/// bytes past the first 32 (which no position reaches) stay as they were.
pub proof fn lemma_insert_only_sets_bits(filter: Seq<u8>, key: Seq<char>)
    requires
        positions_fit(filter.len(), key_positions(key)),
    ensures
        toggle_all(filter, key_positions(key)).len() == filter.len(),
        forall|i: int|
            0 <= i < filter.len() ==> #[trigger] toggle_all(filter, key_positions(key))[i] & filter[i] == filter[i],
        forall|i: int| 32 <= i < filter.len() ==> #[trigger] toggle_all(filter, key_positions(key))[i] == filter[i],
{
    let ps = key_positions(key);
    lemma_toggle_all_bytes(filter, ps);
    assert forall|i: int| 0 <= i < filter.len() implies #[trigger] toggle_all(filter, ps)[i] & filter[i]
        == filter[i] by {
        lemma_or_assoc(filter[i], added_bits(ps, i), 0u8);
    }
    assert forall|i: int| 32 <= i < filter.len() implies #[trigger] toggle_all(filter, ps)[i] == filter[i] by {
        lemma_added_bits_past_32(ps, i);
        lemma_or_assoc(filter[i], 0u8, 0u8);
    }
}

/// Inserting a key twice gives the filter that inserting it once gives.
pub proof fn lemma_insert_twice(filter: Seq<u8>, key: Seq<char>)
    requires
        positions_fit(filter.len(), key_positions(key)),
    ensures
        toggle_all(toggle_all(filter, key_positions(key)), key_positions(key)) == toggle_all(filter, key_positions(key)),
{
    let ps = key_positions(key);
    let once = toggle_all(filter, ps);
    lemma_toggle_all_bytes(filter, ps);
    lemma_toggle_all_bytes(once, ps);
    assert forall|i: int| 0 <= i < once.len() implies #[trigger] toggle_all(once, ps)[i] == once[i] by {
        lemma_or_assoc(filter[i], added_bits(ps, i), 0u8);
    }
    assert(toggle_all(once, ps) =~= once);
}

/// Setting the bit of a position makes it read as set and leaves every
/// other byte as it was; a position reads as set exactly when its bit in its
/// byte (counted from the most significant bit) is one.
pub proof fn lemma_toggle_then_is_toggled(filter: Seq<u8>, hash: u8)
    requires
        hash / 8 < filter.len(),
    ensures
        spec_is_toggled(spec_toggle(filter, hash), hash),
        spec_toggle(filter, hash).len() == filter.len(),
        forall|j: int| 0 <= j < filter.len() && j != (hash / 8) as int ==> #[trigger] spec_toggle(filter, hash)[j] == filter[j],
        spec_is_toggled(filter, hash) == (filter[(hash / 8) as int] & bit_mask(hash % 8) != 0),
        bit_mask(hash % 8) == 0x80u8 >> (hash % 8),
{
    lemma_mask_bits(filter[(hash / 8) as int], hash % 8);
    let b = hash % 8;
    assert(b < 8 ==> bit_mask(b) == 0x80u8 >> b) by (bit_vector);
}

} // verus!
