//! Little-endian integers inside byte strings, byte copies, and UTF-8
//! decoding of byte strings into `String`s.
use vstd::prelude::*;
use vstd::utf8::{valid_utf8, decode_utf8};

verus! {

/// 256 to the power `w`.
pub open spec fn pow256(w: nat) -> nat
    decreases w,
{
    if w == 0 {
        1
    } else {
        256 * pow256((w - 1) as nat)
    }
}

/// The `w` little-endian bytes of `n` (its value modulo `256^w`).
pub open spec fn le_bytes(n: nat, w: nat) -> Seq<u8> {
    Seq::new(w, |i: int| ((n / pow256(i as nat)) % 256) as u8)
}

/// The number that the little-endian bytes `s` stand for.
pub open spec fn from_le(s: Seq<u8>) -> nat
    decreases s.len(),
{
    if s.len() == 0 {
        0
    } else {
        from_le(s.drop_last()) + (s.last() as nat) * pow256((s.len() - 1) as nat)
    }
}

pub proof fn lemma_pow256_pos(w: nat)
    ensures
        pow256(w) > 0,
    decreases w,
{
    if w > 0 {
        lemma_pow256_pos((w - 1) as nat);
    }
}

pub proof fn lemma_pow256_values()
    ensures
        pow256(1) == 0x100,
        pow256(2) == 0x1_0000,
        pow256(4) == 0x1_0000_0000,
        pow256(8) == 0x1_0000_0000_0000_0000,
        pow256(16) == 0x1_0000_0000_0000_0000_0000_0000_0000_0000,
{
    reveal_with_fuel(pow256, 17);
}

pub proof fn lemma_pow256_monotone(a: nat, b: nat)
    requires
        a <= b,
    ensures
        pow256(a) <= pow256(b),
    decreases b,
{
    if a < b {
        lemma_pow256_monotone(a, (b - 1) as nat);
        lemma_pow256_pos((b - 1) as nat);
    }
}

/// Reading back the little-endian bytes of `n` gives `n` modulo `256^w`.
pub proof fn lemma_from_le_bytes(n: nat, w: nat)
    ensures
        le_bytes(n, w).len() == w,
        from_le(le_bytes(n, w)) == n % pow256(w),
    decreases w,
{
    lemma_pow256_pos(w);
    if w == 0 {
        assert(n % 1 == 0) by (nonlinear_arith);
    } else {
        let p = pow256((w - 1) as nat);
        lemma_pow256_pos((w - 1) as nat);
        lemma_from_le_bytes(n, (w - 1) as nat);
        let lb = le_bytes(n, w);
        assert(lb.drop_last() =~= le_bytes(n, (w - 1) as nat));
        let d = (n / p) % 256;
        assert(lb.last() as nat == d);
        assert(from_le(lb) == n % p + d * p);
        vstd::arithmetic::div_mod::lemma_mod_breakdown(n as int, p as int, 256);
        assert(n % pow256(w) == n % p + d * p) by (nonlinear_arith)
            requires
                pow256(w) == 256 * p,
                n % (p * 256) == p * d + n % p,
        ;
    }
}

/// The number read from bytes is below `256^len`.
pub proof fn lemma_from_le_bound(s: Seq<u8>)
    ensures
        from_le(s) < pow256(s.len()),
    decreases s.len(),
{
    if s.len() > 0 {
        let p = pow256((s.len() - 1) as nat);
        lemma_from_le_bound(s.drop_last());
        assert(from_le(s.drop_last()) + s.last() * p < 256 * p) by (nonlinear_arith)
            requires
                from_le(s.drop_last()) < p,
                s.last() < 256,
        ;
    }
}

/// Writing back the number read from bytes gives the same bytes.
pub proof fn lemma_le_bytes_of_from_le(s: Seq<u8>)
    ensures
        le_bytes(from_le(s), s.len()) == s,
{
    lemma_from_le_bound(s);
    lemma_from_le_injective_helper(s);
}

proof fn lemma_from_le_injective_helper(s: Seq<u8>)
    ensures
        le_bytes(from_le(s), s.len()) =~= s,
    decreases s.len(),
{
    if s.len() > 0 {
        let k = (s.len() - 1) as nat;
        let p = pow256(k) as int;
        let t = s.drop_last();
        let ft = from_le(t) as int;
        let l = s.last() as int;
        lemma_from_le_injective_helper(t);
        lemma_from_le_bound(t);
        lemma_pow256_pos(k);
        let n = from_le(s);
        assert(n as int == ft + l * p);
        assert forall|i: int| 0 <= i < s.len() implies #[trigger] le_bytes(n, s.len())[i] == s[i] by {
            lemma_pow256_pos(i as nat);
            if i < k {
                lemma_pow256_split(i as nat, k);
                let q = pow256(i as nat) as int;
                let r = pow256((k - i) as nat) as int;
                let r1 = pow256((k - i - 1) as nat) as int;
                lemma_pow256_pos((k - i) as nat);
                assert(r == 256 * r1);
                assert(n as int == ft + (l * r) * q) by (nonlinear_arith)
                    requires
                        n as int == ft + l * p,
                        p == q * r,
                ;
                vstd::arithmetic::div_mod::lemma_fundamental_div_mod(ft, q);
                assert(n as int == (ft / q + l * r) * q + ft % q) by (nonlinear_arith)
                    requires
                        ft == q * (ft / q) + ft % q,
                        n as int == ft + (l * r) * q,
                ;
                vstd::arithmetic::div_mod::lemma_mod_bound(ft, q);
                vstd::arithmetic::div_mod::lemma_fundamental_div_mod_converse_div(
                    n as int,
                    q,
                    ft / q + l * r,
                    ft % q,
                );
                assert(l * r == (l * r1) * 256) by (nonlinear_arith)
                    requires
                        r == 256 * r1,
                ;
                vstd::arithmetic::div_mod::lemma_mod_multiples_vanish(l * r1, ft / q, 256);
                assert((n as int / q) % 256 == (ft / q) % 256);
                assert(le_bytes(from_le(t), t.len())[i] == t[i]);
            } else {
                assert(i == k);
                vstd::arithmetic::div_mod::lemma_fundamental_div_mod_converse_div(
                    n as int,
                    p,
                    l,
                    ft,
                );
                assert(n as int / p == l);
            }
        }
    }
}

proof fn lemma_pow256_split(a: nat, b: nat)
    requires
        a <= b,
    ensures
        pow256(b) == pow256(a) * pow256((b - a) as nat),
    decreases b,
{
    if a < b {
        lemma_pow256_split(a, (b - 1) as nat);
        assert(pow256((b - a) as nat) == 256 * pow256((b - 1 - a) as nat));
        assert(pow256(b) == 256 * (pow256(a) * pow256((b - 1 - a) as nat)));
        assert(256 * (pow256(a) * pow256((b - 1 - a) as nat)) == pow256(a) * (256 * pow256(
            (b - 1 - a) as nat,
        ))) by (nonlinear_arith);
    } else {
        assert(pow256(0) == 1);
        assert(pow256(a) * 1 == pow256(a));
    }
}

/// Appends the `w` little-endian bytes of `n`.
pub fn push_le(out: &mut Vec<u8>, n: u128, w: usize)
    requires
        w <= 16,
    ensures
        final(out)@ == old(out)@ + le_bytes(n as nat, w as nat),
{
    let ghost start = old(out)@;
    let mut x: u128 = n;
    let mut i: usize = 0;
    assert(pow256(0) == 1);
    assert(n as nat / 1 == n as nat);
    assert(out@ =~= start + le_bytes(n as nat, 0));
    while i < w
        invariant
            i <= w <= 16,
            x as nat == n as nat / pow256(i as nat),
            out@ == start + le_bytes(n as nat, i as nat),
        decreases w - i,
    {
        proof {
            lemma_pow256_pos(i as nat);
            vstd::arithmetic::div_mod::lemma_div_denominator(n as int, pow256(i as nat) as int, 256);
            assert(pow256(i as nat) * 256 == pow256((i + 1) as nat)) by (nonlinear_arith)
                requires
                    pow256((i + 1) as nat) == 256 * pow256(i as nat),
            ;
        }
        out.push((x % 256) as u8);
        x = x / 256;
        i = i + 1;
        assert(out@ =~= start + le_bytes(n as nat, i as nat));
    }
}

/// Reads the `w` little-endian bytes at `start` as a number.
#[verifier::spinoff_prover]
#[verifier::rlimit(40)]
pub fn read_le(bytes: &[u8], start: usize, w: usize) -> (r: u128)
    requires
        w <= 16,
        start + w <= bytes@.len(),
    ensures
        r as nat == from_le(bytes@.subrange(start as int, start + w)),
{
    let mut acc: u128 = 0;
    let mut m: u128 = 1;
    let mut i: usize = 0;
    proof {
        lemma_pow256_values();
    }
    while i < w
        invariant
            i <= w <= 16,
            start + w <= bytes@.len(),
            i < 16 ==> m as nat == pow256(i as nat),
            acc as nat == from_le(bytes@.subrange(start as int, start + i)),
            acc < pow256(i as nat),
            pow256(16) == 0x1_0000_0000_0000_0000_0000_0000_0000_0000,
        decreases w - i,
    {
        let len = bytes.len();
        assert(start + i < len);
        let b = bytes[start + i];
        proof {
            let s = bytes@.subrange(start as int, start + i + 1);
            assert(s.drop_last() =~= bytes@.subrange(start as int, start + i));
            assert(s.last() == b);
            lemma_pow256_monotone((i + 1) as nat, 16);
            assert(acc + b * m < pow256((i + 1) as nat)) by (nonlinear_arith)
                requires
                    acc < m,
                    b < 256,
                    pow256((i + 1) as nat) == 256 * m,
            ;
            assert(pow256((i + 1) as nat) == 256 * pow256(i as nat));
        }
        acc = acc + (b as u128) * m;
        proof {
            if i + 1 < 16 {
                lemma_pow256_monotone((i + 1) as nat, 15);
                reveal_with_fuel(pow256, 16);
                assert(pow256(15) < 0x1_0000_0000_0000_0000_0000_0000_0000_0000);
            }
        }
        if i + 1 < 16 {
            m = m * 256;
        } else {
            m = 0;
        }
        i = i + 1;
    }
    acc
}

/// Reads the 8 little-endian bytes at `start` as a `u64`.
pub fn read_u64(bytes: &[u8], start: usize) -> (r: u64)
    requires
        start + 8 <= bytes@.len(),
    ensures
        r as nat == from_le(bytes@.subrange(start as int, start + 8)),
{
    let v = read_le(bytes, start, 8);
    proof {
        lemma_from_le_bound(bytes@.subrange(start as int, start + 8));
        lemma_pow256_values();
    }
    v as u64
}

/// The number that the big-endian bytes `s` stand for.
pub open spec fn from_be(s: Seq<u8>) -> nat
    decreases s.len(),
{
    if s.len() == 0 {
        0
    } else {
        from_be(s.drop_last()) * 256 + (s.last() as nat)
    }
}

/// The number read from big-endian bytes is below `256^len`.
pub proof fn lemma_from_be_bound(s: Seq<u8>)
    ensures
        from_be(s) < pow256(s.len()),
    decreases s.len(),
{
    if s.len() > 0 {
        lemma_from_be_bound(s.drop_last());
        let p = pow256((s.len() - 1) as nat);
        assert(from_be(s.drop_last()) * 256 + (s.last() as nat) < 256 * p) by (nonlinear_arith)
            requires
                from_be(s.drop_last()) < p,
                s.last() < 256,
        ;
    }
}

/// Reads the eight big-endian bytes at `start` as a number.
pub fn read_be8(bytes: &[u8], start: usize) -> (r: u64)
    requires
        start + 8 <= bytes@.len(),
    ensures
        r as nat == from_be(bytes@.subrange(start as int, start + 8)),
{
    let mut acc: u64 = 0;
    let mut i: usize = 0;
    proof {
        lemma_pow256_values();
    }
    while i < 8
        invariant
            i <= 8,
            start + 8 <= bytes@.len(),
            acc as nat == from_be(bytes@.subrange(start as int, start + i)),
            pow256(8) == 0x1_0000_0000_0000_0000,
        decreases 8 - i,
    {
        let len = bytes.len();
        assert(start + i < len);
        let b = bytes[start + i];
        proof {
            let s = bytes@.subrange(start as int, start + i + 1);
            assert(s.drop_last() =~= bytes@.subrange(start as int, start + i));
            lemma_from_be_bound(s);
            lemma_pow256_monotone((i + 1) as nat, 8);
        }
        acc = acc * 256 + b as u64;
        i = i + 1;
    }
    acc
}

/// Appends the bytes of `s`.
pub fn push_all(out: &mut Vec<u8>, s: &[u8])
    ensures
        final(out)@ == old(out)@ + s@,
{
    let ghost start = old(out)@;
    let mut i: usize = 0;
    while i < s.len()
        invariant
            i <= s@.len(),
            out@ == start + s@.subrange(0, i as int),
        decreases s@.len() - i,
    {
        out.push(s[i]);
        i = i + 1;
        assert(out@ =~= start + s@.subrange(0, i as int));
    }
    assert(s@.subrange(0, i as int) =~= s@);
}

/// A copy of the bytes from `start` up to `end`.
pub fn copy_range(bytes: &[u8], start: usize, end: usize) -> (r: Vec<u8>)
    requires
        start <= end <= bytes@.len(),
    ensures
        r@ == bytes@.subrange(start as int, end as int),
{
    let mut r: Vec<u8> = Vec::new();
    let mut i: usize = start;
    while i < end
        invariant
            start <= i <= end <= bytes@.len(),
            r@ == bytes@.subrange(start as int, i as int),
        decreases end - i,
    {
        r.push(bytes[i]);
        i = i + 1;
        assert(r@ =~= bytes@.subrange(start as int, i as int));
    }
    r
}

/// Calls `String::from_utf8`. Claimed, as its documentation states: it
/// succeeds exactly when the bytes are valid UTF-8, and the string then holds
/// the characters that the bytes encode.
#[verifier::external_body]
pub(crate) fn string_from_utf8(bytes: Vec<u8>) -> (r: Option<String>)
    ensures
        r is Some <==> valid_utf8(bytes@),
        r is Some ==> r->0@ == decode_utf8(bytes@),
{
    match String::from_utf8(bytes) {
        Ok(s) => Some(s),
        Err(_) => None,
    }
}

} // verus!
