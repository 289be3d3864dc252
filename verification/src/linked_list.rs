//! The linked-list format: a sequence of records, each a one-byte key
//! length, the key, a one-byte width of the value's length, the value's
//! length in that many little-endian bytes, and the value.
use vstd::prelude::*;
use vstd::utf8::{encode_utf8, decode_utf8, valid_utf8};
use crate::bytes::{le_bytes, from_le, lemma_from_le_bytes, lemma_pow256_values, pow256};
use crate::error::NeutronError;

pub mod deserialize;
pub mod serialize;

verus! {

/// The text of a list of string pairs.
pub open spec fn pairs_view(v: Seq<(String, String)>) -> Seq<(Seq<char>, Seq<char>)> {
    v.map_values(|p: (String, String)| (p.0@, p.1@))
}

/// The number of bytes used to write a length: 1, 2, 4 or 8.
pub open spec fn length_width(len: nat) -> nat {
    if len < 256 {
        1
    } else if len < 65536 {
        2
    } else if len < 0x1_0000_0000 {
        4
    } else {
        8
    }
}

/// The bytes of one record. The key's length is written in one byte, so a
/// key of 256 bytes or more has its length written modulo 256.
pub open spec fn spec_object(key: Seq<char>, value: Seq<char>) -> Seq<u8> {
    let kb = encode_utf8(key);
    let vb = encode_utf8(value);
    let w = length_width(vb.len());
    seq![(kb.len() % 256) as u8] + kb + seq![w as u8] + le_bytes(vb.len(), w) + vb
}

/// The bytes of a list: its records one after another.
pub open spec fn spec_list(objects: Seq<(Seq<char>, Seq<char>)>) -> Seq<u8>
    decreases objects.len(),
{
    if objects.len() == 0 {
        Seq::empty()
    } else {
        spec_list(objects.drop_last()) + spec_object(objects.last().0, objects.last().1)
    }
}

/// What decoding gives: a value, an error, or a panic of the decoder on
/// bytes that it indexes past or text that it unwraps.
pub enum Decoded<T> {
    Value(T),
    Invalid(NeutronError),
    Panics,
}

/// A decoded list with `acc` in front of it.
pub open spec fn prepend<T>(acc: Seq<T>, d: Decoded<Seq<T>>) -> Decoded<Seq<T>> {
    match d {
        Decoded::Value(rest) => Decoded::Value(acc + rest),
        Decoded::Invalid(e) => Decoded::Invalid(e),
        Decoded::Panics => Decoded::Panics,
    }
}

/// What decoding the first record of `b` gives: the key and value, and
/// the number of bytes that the record takes.
pub open spec fn parse_head(b: Seq<u8>) -> Decoded<((Seq<char>, Seq<char>), int)> {
    let kl = b[0] as int;
    if 1 + kl > b.len() {
        Decoded::Panics
    } else if !valid_utf8(b.subrange(1, 1 + kl)) {
        Decoded::Panics
    } else if 1 + kl >= b.len() {
        Decoded::Panics
    } else {
        let vls = b[1 + kl] as int;
        let i = 2 + kl;
        if vls != 1 && vls != 2 && vls != 4 && vls != 8 {
            Decoded::Invalid(NeutronError::ValueLengthSizeUnknown)
        } else if i + vls > b.len() {
            Decoded::Panics
        } else {
            let vlen = from_le(b.subrange(i, i + vls)) as usize as int;
            let j = i + vls;
            if j + vlen > b.len() {
                Decoded::Panics
            } else if !valid_utf8(b.subrange(j, j + vlen)) {
                Decoded::Invalid(NeutronError::InvalidUtf8)
            } else {
                Decoded::Value(
                    ((decode_utf8(b.subrange(1, 1 + kl)), decode_utf8(b.subrange(j, j + vlen))), j
                        + vlen),
                )
            }
        }
    }
}

/// What decoding a list gives, record by record from the front.
pub open spec fn parse_list(b: Seq<u8>) -> Decoded<Seq<(Seq<char>, Seq<char>)>>
    decreases b.len(),
{
    if b.len() == 0 {
        Decoded::Value(Seq::empty())
    } else {
        match parse_head(b) {
            Decoded::Value((head, n)) => if 0 < n <= b.len() {
                prepend(seq![head], parse_list(b.subrange(n, b.len() as int)))
            } else {
                Decoded::Panics
            },
            Decoded::Invalid(e) => Decoded::Invalid(e),
            Decoded::Panics => Decoded::Panics,
        }
    }
}

/// What decoding a single record gives. The key is read from the bytes
/// after the length byte up to (not including) the byte at the key length,
/// and the value from a fixed offset after the key to the end of the bytes.
pub open spec fn parse_object(b: Seq<u8>) -> Decoded<(Seq<char>, Seq<char>)> {
    if b.len() == 0 {
        Decoded::Panics
    } else {
        let kl = b[0] as int;
        if kl < 1 || kl > b.len() {
            Decoded::Panics
        } else if !valid_utf8(b.subrange(1, kl)) {
            Decoded::Panics
        } else if 1 + kl >= b.len() {
            Decoded::Panics
        } else {
            let vls = b[1 + kl] as int;
            if vls != 1 && vls != 2 && vls != 4 && vls != 8 {
                Decoded::Invalid(NeutronError::ValueLengthSizeUnknown)
            } else {
                let start = 2 + kl + vls;
                if start > b.len() {
                    Decoded::Panics
                } else if !valid_utf8(b.subrange(start, b.len() as int)) {
                    Decoded::Invalid(NeutronError::InvalidUtf8)
                } else {
                    Decoded::Value(
                        (decode_utf8(b.subrange(1, kl)), decode_utf8(b.subrange(start, b.len() as int))),
                    )
                }
            }
        }
    }
}

/// The bytes of a list are its first record followed by the bytes of the rest.
pub proof fn lemma_spec_list_front(objects: Seq<(Seq<char>, Seq<char>)>)
    requires
        objects.len() > 0,
    ensures
        spec_list(objects) == spec_object(objects[0].0, objects[0].1) + spec_list(objects.drop_first()),
    decreases objects.len(),
{
    if objects.len() > 1 {
        let o = objects.drop_last();
        lemma_spec_list_front(o);
        assert(o.drop_first() =~= objects.drop_first().drop_last());
        assert(objects.drop_first().last() == objects.last());
        assert(spec_list(objects.drop_first()) == spec_list(o.drop_first()) + spec_object(
            objects.last().0,
            objects.last().1,
        ));
        assert(spec_list(objects) =~= spec_object(objects[0].0, objects[0].1) + spec_list(
            objects.drop_first(),
        ));
    } else {
        assert(objects.drop_last() =~= Seq::<(Seq<char>, Seq<char>)>::empty());
        assert(objects.drop_first() =~= Seq::<(Seq<char>, Seq<char>)>::empty());
        assert(spec_list(objects) =~= spec_object(objects[0].0, objects[0].1) + spec_list(
            objects.drop_first(),
        ));
    }
}

/// A value's length is below 256 to the power of the width it is written in.
pub proof fn lemma_length_fits_width(len: nat)
    requires
        len < 0x1_0000_0000_0000_0000,
    ensures
        len < pow256(length_width(len)),
{
    lemma_pow256_values();
}

/// Decoding the first record of a record followed by anything gives back the
/// key and the value, when the key takes fewer than 256 bytes.
pub proof fn lemma_parse_head_object(key: Seq<char>, value: Seq<char>, rest: Seq<u8>)
    requires
        encode_utf8(key).len() < 256,
        encode_utf8(value).len() <= usize::MAX,
    ensures
        parse_head(spec_object(key, value) + rest) == Decoded::Value(
            ((key, value), spec_object(key, value).len() as int),
        ),
{
    broadcast use vstd::utf8::group_utf8_lib;

    let kb = encode_utf8(key);
    let vb = encode_utf8(value);
    let w = length_width(vb.len());
    let o = spec_object(key, value);
    let b = o + rest;
    let kl = kb.len() as int;
    lemma_from_le_bytes(vb.len(), w);
    lemma_length_fits_width(vb.len());
    assert(b[0] == kl as u8);
    assert(b.subrange(1, 1 + kl) =~= kb);
    assert(b[1 + kl] == w as u8);
    let i = 2 + kl;
    assert(b.subrange(i, i + w) =~= le_bytes(vb.len(), w));
    vstd::arithmetic::div_mod::lemma_small_mod(vb.len(), pow256(w));
    let j = i + w;
    assert(b.subrange(j, j + vb.len()) =~= vb);
}

/// Reading back the bytes of a list gives the list, when every key takes
/// fewer than 256 bytes (a longer key's length does not fit its length
/// byte).
pub proof fn lemma_list_roundtrip(objects: Seq<(Seq<char>, Seq<char>)>)
    requires
        forall|i: int| 0 <= i < objects.len() ==> encode_utf8(#[trigger] objects[i].0).len() < 256,
        forall|i: int| 0 <= i < objects.len() ==> encode_utf8(#[trigger] objects[i].1).len() <= usize::MAX,
    ensures
        parse_list(spec_list(objects)) == Decoded::Value(objects),
    decreases objects.len(),
{
    if objects.len() == 0 {
        assert(spec_list(objects) =~= Seq::<u8>::empty());
        assert(objects =~= Seq::<(Seq<char>, Seq<char>)>::empty());
    } else {
        let rest = objects.drop_first();
        lemma_spec_list_front(objects);
        let o = spec_object(objects[0].0, objects[0].1);
        let b = spec_list(objects);
        assert(encode_utf8(objects[0].0).len() < 256);
        assert(encode_utf8(objects[0].1).len() <= usize::MAX);
        lemma_parse_head_object(objects[0].0, objects[0].1, spec_list(rest));
        assert forall|i: int| 0 <= i < rest.len() implies encode_utf8(#[trigger] rest[i].0).len() < 256 by {
            assert(rest[i] == objects[i + 1]);
        }
        assert forall|i: int| 0 <= i < rest.len() implies encode_utf8(#[trigger] rest[i].1).len() <= usize::MAX by {
            assert(rest[i] == objects[i + 1]);
        }
        lemma_list_roundtrip(rest);
        assert(b.subrange(o.len() as int, b.len() as int) =~= spec_list(rest));
        assert(seq![objects[0]] + rest =~= objects);
    }
}


/// Writing a list writes its parts one after another: the bytes of two
/// lists joined are the bytes of the first followed by those of the second;
/// the empty list has no bytes, and a list of one pair has that pair's
/// record.
pub proof fn lemma_spec_list_concat(a: Seq<(Seq<char>, Seq<char>)>, b: Seq<(Seq<char>, Seq<char>)>)
    ensures
        spec_list(a + b) == spec_list(a) + spec_list(b),
        spec_list(Seq::<(Seq<char>, Seq<char>)>::empty()) == Seq::<u8>::empty(),
        forall|k: Seq<char>, v: Seq<char>| #[trigger] spec_list(seq![(k, v)]) == spec_object(k, v),
    decreases b.len(),
{
    if b.len() == 0 {
        assert(a + b =~= a);
        assert(spec_list(a) + spec_list(b) =~= spec_list(a));
    } else {
        let b2 = b.drop_last();
        lemma_spec_list_concat(a, b2);
        assert((a + b).drop_last() =~= a + b2);
        assert((a + b).last() == b.last());
        assert(spec_list(a + b) =~= spec_list(a) + spec_list(b));
    }
    assert forall|k: Seq<char>, v: Seq<char>| #[trigger] spec_list(seq![(k, v)]) == spec_object(k, v) by {
        let one = seq![(k, v)];
        assert(one.drop_last() =~= Seq::<(Seq<char>, Seq<char>)>::empty());
        assert(one.last() == (k, v));
        assert(spec_list(one.drop_last()) =~= Seq::<u8>::empty());
        assert(spec_list(one) =~= Seq::<u8>::empty() + spec_object(k, v));
    }
}

} // verus!
