//! A bloom filter of bits over string keys, made with ten bits for each item
//! it is meant for. A key's positions come from its fides hash: the five
//! 4-byte little-endian words at offsets 0, 4, 8, 12 and 16 when a key is
//! inserted, and the five words at offsets 4 to 8 when a key is searched.
use vstd::prelude::*;
use vstd::utf8::encode_utf8;
use crate::bytes::{from_le, pow256, lemma_pow256_values};
use crate::hashes::{fides_blake_3, fides_hash};

verus! {

/// A bit of the filter.
#[derive(Debug, Clone, Copy, PartialEq, Eq, Structural)]
pub enum Bit {
    One,
    Zero,
}

/// A bloom filter: its bits.
#[derive(Debug, Clone)]
pub struct Bloom {
    pub bits: Vec<Bit>,
}

/// The hash of a key: the fides hash of its UTF-8 bytes.
pub open spec fn key_hash(key: Seq<char>) -> Seq<u8> {
    fides_blake_3(encode_utf8(key))
}

/// The position among `len` bits that the 4-byte little-endian word of the
/// hash at `start` gives.
pub open spec fn bit_position(hash: Seq<u8>, start: int, len: nat) -> int {
    (from_le(hash.subrange(start, start + 4)) % len) as int
}

/// The positions that inserting a key sets: the words at offsets 0, 4, 8, 12
/// and 16.
pub open spec fn insert_positions(hash: Seq<u8>, len: nat) -> Seq<int> {
    Seq::new(5, |x: int| bit_position(hash, x * 4, len))
}

/// The positions that searching a key reads: the words at offsets 4, 5, 6, 7
/// and 8.
pub open spec fn search_positions(hash: Seq<u8>, len: nat) -> Seq<int> {
    Seq::new(5, |x: int| bit_position(hash, x + 4, len))
}

/// The bits with each of the positions set to one.
pub open spec fn set_ones(bits: Seq<Bit>, positions: Seq<int>) -> Seq<Bit>
    decreases positions.len(),
{
    if positions.len() == 0 {
        bits
    } else {
        set_ones(bits, positions.drop_last()).update(positions.last(), Bit::One)
    }
}

/// The 4-byte little-endian word of the hash at `start`.
fn hash_word(h: &[u8; 32], start: usize) -> (r: u32)
    requires
        start + 4 <= 32,
    ensures
        r as nat == from_le(h@.subrange(start as int, start + 4)),
{
    let ghost s = h@.subrange(start as int, start + 4);
    proof {
        reveal_with_fuel(pow256, 4);
        lemma_pow256_values();
        assert(pow256(3) == 0x100_0000);
        let s3 = s.drop_last();
        let s2 = s3.drop_last();
        let s1 = s2.drop_last();
        assert(s1.drop_last() =~= Seq::<u8>::empty());
        assert(from_le(s1.drop_last()) == 0);
        assert(s1.len() == 1 && s1.last() == s[0] && pow256(0) == 1);
        assert(from_le(s1) == s[0] as nat);
        assert(s2.last() == s[1] && s3.last() == s[2] && s.last() == s[3]);
        assert(from_le(s2) == s[0] + s[1] * 0x100);
        assert(from_le(s3) == s[0] + s[1] * 0x100 + s[2] * 0x1_0000);
        assert(from_le(s) == s[0] + s[1] * 0x100 + s[2] * 0x1_0000 + s[3] * 0x100_0000);
    }
    (h[start] as u32) + (h[start + 1] as u32) * 0x100 + (h[start + 2] as u32) * 0x1_0000 + (h[start + 3] as u32)
        * 0x100_0000
}

impl Bloom {
    /// A filter of ten zero bits for each of `items` items.
    pub fn new(items: usize) -> (r: Bloom)
        requires
            items * 10 <= usize::MAX,
        ensures
            r.bits@ == Seq::new((items * 10) as nat, |i: int| Bit::Zero),
    {
        let n = items * 10;
        let mut bits: Vec<Bit> = Vec::new();
        let mut i: usize = 0;
        while i < n
            invariant
                i <= n,
                bits@ == Seq::new(i as nat, |k: int| Bit::Zero),
            decreases n - i,
        {
            bits.push(Bit::Zero);
            i = i + 1;
            assert(bits@ =~= Seq::new(i as nat, |k: int| Bit::Zero));
        }
        Bloom { bits }
    }

    /// The filter with the insert positions of the key's hash set to one.
    /// Requires a filter of at least one bit.
    pub fn insert(self, key: &str) -> (r: Bloom)
        requires
            self.bits@.len() > 0,
        ensures
            r.bits@ == set_ones(self.bits@, insert_positions(key_hash(key@), self.bits@.len())),
            r.bits@.len() == self.bits@.len(),
    {
        let mut bloom = self;
        let ghost bits0 = bloom.bits@;
        let hash = fides_hash(key.as_bytes());
        let ghost positions = insert_positions(key_hash(key@), bits0.len());
        let f = bloom.bits.len();
        let mut x: usize = 0;
        assert(positions.subrange(0, 0) =~= Seq::<int>::empty());
        while x < 5
            invariant
                x <= 5,
                f == bits0.len() > 0,
                hash@ == key_hash(key@),
                positions == insert_positions(key_hash(key@), bits0.len()),
                bloom.bits@ == set_ones(bits0, positions.subrange(0, x as int)),
                bloom.bits@.len() == f,
            decreases 5 - x,
        {
            let word = hash_word(&hash, x * 4);
            let i = (word as usize) % f;
            assert(i == positions[x as int]);
            bloom.bits.set(i, Bit::One);
            proof {
                assert(positions.subrange(0, x + 1).drop_last() =~= positions.subrange(0, x as int));
            }
            x = x + 1;
        }
        assert(positions.subrange(0, 5) =~= positions);
        bloom
    }

    /// Whether one of the search positions of the key's hash holds a zero
    /// bit. Requires a filter of at least one bit.
    pub fn search(&self, key: &str) -> (r: bool)
        requires
            self.bits@.len() > 0,
        ensures
            r == exists|x: int|
                0 <= x < 5 && self.bits@[#[trigger] search_positions(key_hash(key@), self.bits@.len())[x]]
                    == Bit::Zero,
    {
        let hash = fides_hash(key.as_bytes());
        let ghost positions = search_positions(key_hash(key@), self.bits@.len());
        let f = self.bits.len();
        let mut x: usize = 0;
        while x < 5
            invariant
                x <= 5,
                f == self.bits@.len() > 0,
                hash@ == key_hash(key@),
                positions == search_positions(key_hash(key@), self.bits@.len()),
                forall|y: int| 0 <= y < x ==> self.bits@[#[trigger] positions[y]] != Bit::Zero,
            decreases 5 - x,
        {
            let word = hash_word(&hash, x + 4);
            let i = (word as usize) % f;
            assert(i == positions[x as int]);
            match self.bits[i] {
                Bit::Zero => {
                    return true;
                },
                Bit::One => {},
            }
            x = x + 1;
        }
        false
    }
}

} // verus!
