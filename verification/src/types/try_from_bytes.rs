//! Reading keys and values back from bytes: integers from exactly their
//! width of little-endian bytes, text from valid UTF-8.
use vstd::prelude::*;
use vstd::utf8::{valid_utf8, decode_utf8, encode_utf8};
use crate::bytes::{from_le, read_le, string_from_utf8, lemma_from_le_bytes, lemma_from_le_bound, lemma_pow256_values, pow256};
use crate::error::NeutronError;
use crate::types::into_bytes::IntoBytes;

verus! {

/// A type whose values can be read back from bytes.
pub trait TryFromBytes: Sized {
    /// What reading `bytes` may give: `r` is an allowed result.
    spec fn try_from_bytes_ensures(bytes: Seq<u8>, r: Result<Self, NeutronError>) -> bool;

    /// Reads a value from the bytes.
    fn try_from_bytes(value: Vec<u8>) -> (r: Result<Self, NeutronError>)
        ensures
            Self::try_from_bytes_ensures(value@, r),
    ;
}

/// The text of valid UTF-8 bytes; an error for other bytes.
impl TryFromBytes for String {
    open spec fn try_from_bytes_ensures(bytes: Seq<u8>, r: Result<Self, NeutronError>) -> bool {
        &&& (r is Ok <==> valid_utf8(bytes))
        &&& (r is Ok ==> r->Ok_0@ == decode_utf8(bytes))
        &&& (r is Err ==> r == Err::<String, NeutronError>(NeutronError::InvalidUtf8))
    }

    fn try_from_bytes(value: Vec<u8>) -> (r: Result<Self, NeutronError>) {
        match string_from_utf8(value) {
            Some(s) => Ok(s),
            None => Err(NeutronError::InvalidUtf8),
        }
    }
}

/// The integer whose little-endian bytes these are, when there are
/// exactly 1 of them; an error otherwise.
impl TryFromBytes for u8 {
    open spec fn try_from_bytes_ensures(bytes: Seq<u8>, r: Result<Self, NeutronError>) -> bool {
        r == if bytes.len() == 1 {
            Ok::<u8, NeutronError>(from_le(bytes) as u8)
        } else {
            Err(NeutronError::InvalidByteSize)
        }
    }

    fn try_from_bytes(value: Vec<u8>) -> (r: Result<Self, NeutronError>) {
        if value.len() != 1 {
            return Err(NeutronError::InvalidByteSize);
        }
        proof {
            assert(value@.subrange(0, 1) =~= value@);
        }
        Ok(read_le(value.as_slice(), 0, 1) as u8)
    }
}

/// The integer whose little-endian bytes these are, when there are
/// exactly 2 of them; an error otherwise.
impl TryFromBytes for u16 {
    open spec fn try_from_bytes_ensures(bytes: Seq<u8>, r: Result<Self, NeutronError>) -> bool {
        r == if bytes.len() == 2 {
            Ok::<u16, NeutronError>(from_le(bytes) as u16)
        } else {
            Err(NeutronError::InvalidByteSize)
        }
    }

    fn try_from_bytes(value: Vec<u8>) -> (r: Result<Self, NeutronError>) {
        if value.len() != 2 {
            return Err(NeutronError::InvalidByteSize);
        }
        proof {
            assert(value@.subrange(0, 2) =~= value@);
        }
        Ok(read_le(value.as_slice(), 0, 2) as u16)
    }
}

/// The integer whose little-endian bytes these are, when there are
/// exactly 4 of them; an error otherwise.
impl TryFromBytes for u32 {
    open spec fn try_from_bytes_ensures(bytes: Seq<u8>, r: Result<Self, NeutronError>) -> bool {
        r == if bytes.len() == 4 {
            Ok::<u32, NeutronError>(from_le(bytes) as u32)
        } else {
            Err(NeutronError::InvalidByteSize)
        }
    }

    fn try_from_bytes(value: Vec<u8>) -> (r: Result<Self, NeutronError>) {
        if value.len() != 4 {
            return Err(NeutronError::InvalidByteSize);
        }
        proof {
            assert(value@.subrange(0, 4) =~= value@);
        }
        Ok(read_le(value.as_slice(), 0, 4) as u32)
    }
}

/// The integer whose little-endian bytes these are, when there are
/// exactly 8 of them; an error otherwise.
impl TryFromBytes for u64 {
    open spec fn try_from_bytes_ensures(bytes: Seq<u8>, r: Result<Self, NeutronError>) -> bool {
        r == if bytes.len() == 8 {
            Ok::<u64, NeutronError>(from_le(bytes) as u64)
        } else {
            Err(NeutronError::InvalidByteSize)
        }
    }

    fn try_from_bytes(value: Vec<u8>) -> (r: Result<Self, NeutronError>) {
        if value.len() != 8 {
            return Err(NeutronError::InvalidByteSize);
        }
        proof {
            assert(value@.subrange(0, 8) =~= value@);
        }
        Ok(read_le(value.as_slice(), 0, 8) as u64)
    }
}

/// The integer whose little-endian bytes these are, when there are
/// exactly 16 of them; an error otherwise.
impl TryFromBytes for u128 {
    open spec fn try_from_bytes_ensures(bytes: Seq<u8>, r: Result<Self, NeutronError>) -> bool {
        r == if bytes.len() == 16 {
            Ok::<u128, NeutronError>(from_le(bytes) as u128)
        } else {
            Err(NeutronError::InvalidByteSize)
        }
    }

    fn try_from_bytes(value: Vec<u8>) -> (r: Result<Self, NeutronError>) {
        if value.len() != 16 {
            return Err(NeutronError::InvalidByteSize);
        }
        proof {
            assert(value@.subrange(0, 16) =~= value@);
        }
        Ok(read_le(value.as_slice(), 0, 16) as u128)
    }
}

/// The integer whose little-endian bytes these are, when there are
/// exactly 1 of them; an error otherwise.
impl TryFromBytes for i8 {
    open spec fn try_from_bytes_ensures(bytes: Seq<u8>, r: Result<Self, NeutronError>) -> bool {
        r == if bytes.len() == 1 {
            Ok::<i8, NeutronError>((from_le(bytes) as u8) as i8)
        } else {
            Err(NeutronError::InvalidByteSize)
        }
    }

    fn try_from_bytes(value: Vec<u8>) -> (r: Result<Self, NeutronError>) {
        if value.len() != 1 {
            return Err(NeutronError::InvalidByteSize);
        }
        proof {
            assert(value@.subrange(0, 1) =~= value@);
        }
        Ok((read_le(value.as_slice(), 0, 1) as u8) as i8)
    }
}

/// The integer whose little-endian bytes these are, when there are
/// exactly 2 of them; an error otherwise.
impl TryFromBytes for i16 {
    open spec fn try_from_bytes_ensures(bytes: Seq<u8>, r: Result<Self, NeutronError>) -> bool {
        r == if bytes.len() == 2 {
            Ok::<i16, NeutronError>((from_le(bytes) as u16) as i16)
        } else {
            Err(NeutronError::InvalidByteSize)
        }
    }

    fn try_from_bytes(value: Vec<u8>) -> (r: Result<Self, NeutronError>) {
        if value.len() != 2 {
            return Err(NeutronError::InvalidByteSize);
        }
        proof {
            assert(value@.subrange(0, 2) =~= value@);
        }
        Ok((read_le(value.as_slice(), 0, 2) as u16) as i16)
    }
}

/// The integer whose little-endian bytes these are, when there are
/// exactly 4 of them; an error otherwise.
impl TryFromBytes for i32 {
    open spec fn try_from_bytes_ensures(bytes: Seq<u8>, r: Result<Self, NeutronError>) -> bool {
        r == if bytes.len() == 4 {
            Ok::<i32, NeutronError>((from_le(bytes) as u32) as i32)
        } else {
            Err(NeutronError::InvalidByteSize)
        }
    }

    fn try_from_bytes(value: Vec<u8>) -> (r: Result<Self, NeutronError>) {
        if value.len() != 4 {
            return Err(NeutronError::InvalidByteSize);
        }
        proof {
            assert(value@.subrange(0, 4) =~= value@);
        }
        Ok((read_le(value.as_slice(), 0, 4) as u32) as i32)
    }
}

/// The integer whose little-endian bytes these are, when there are
/// exactly 8 of them; an error otherwise.
impl TryFromBytes for i64 {
    open spec fn try_from_bytes_ensures(bytes: Seq<u8>, r: Result<Self, NeutronError>) -> bool {
        r == if bytes.len() == 8 {
            Ok::<i64, NeutronError>((from_le(bytes) as u64) as i64)
        } else {
            Err(NeutronError::InvalidByteSize)
        }
    }

    fn try_from_bytes(value: Vec<u8>) -> (r: Result<Self, NeutronError>) {
        if value.len() != 8 {
            return Err(NeutronError::InvalidByteSize);
        }
        proof {
            assert(value@.subrange(0, 8) =~= value@);
        }
        Ok((read_le(value.as_slice(), 0, 8) as u64) as i64)
    }
}

/// The integer whose little-endian bytes these are, when there are
/// exactly 16 of them; an error otherwise.
impl TryFromBytes for i128 {
    open spec fn try_from_bytes_ensures(bytes: Seq<u8>, r: Result<Self, NeutronError>) -> bool {
        r == if bytes.len() == 16 {
            Ok::<i128, NeutronError>((from_le(bytes) as u128) as i128)
        } else {
            Err(NeutronError::InvalidByteSize)
        }
    }

    fn try_from_bytes(value: Vec<u8>) -> (r: Result<Self, NeutronError>) {
        if value.len() != 16 {
            return Err(NeutronError::InvalidByteSize);
        }
        proof {
            assert(value@.subrange(0, 16) =~= value@);
        }
        Ok((read_le(value.as_slice(), 0, 16) as u128) as i128)
    }
}

/// Text read back from its bytes is the same text.
pub proof fn lemma_string_roundtrip(s: String, r: Result<String, NeutronError>)
    requires
        <String as TryFromBytes>::try_from_bytes_ensures(s.spec_into_bytes(), r),
    ensures
        r is Ok,
        r->Ok_0@ == s@,
{
    vstd::utf8::encode_utf8_valid_utf8(s@);
    vstd::utf8::encode_utf8_decode_utf8(s@);
}

/// A `u8` read back from its bytes is the same number.
pub proof fn lemma_u8_roundtrip(x: u8)
    ensures
        <u8 as TryFromBytes>::try_from_bytes_ensures(x.spec_into_bytes(), Ok(x)),
{
    lemma_from_le_bytes(x as nat, 1);
    lemma_pow256_values();
    vstd::arithmetic::div_mod::lemma_small_mod(x as nat, pow256(1));
}

/// A `u16` read back from its bytes is the same number.
pub proof fn lemma_u16_roundtrip(x: u16)
    ensures
        <u16 as TryFromBytes>::try_from_bytes_ensures(x.spec_into_bytes(), Ok(x)),
{
    lemma_from_le_bytes(x as nat, 2);
    lemma_pow256_values();
    vstd::arithmetic::div_mod::lemma_small_mod(x as nat, pow256(2));
}

/// A `u32` read back from its bytes is the same number.
pub proof fn lemma_u32_roundtrip(x: u32)
    ensures
        <u32 as TryFromBytes>::try_from_bytes_ensures(x.spec_into_bytes(), Ok(x)),
{
    lemma_from_le_bytes(x as nat, 4);
    lemma_pow256_values();
    vstd::arithmetic::div_mod::lemma_small_mod(x as nat, pow256(4));
}

/// A `u64` read back from its bytes is the same number.
pub proof fn lemma_u64_roundtrip(x: u64)
    ensures
        <u64 as TryFromBytes>::try_from_bytes_ensures(x.spec_into_bytes(), Ok(x)),
{
    lemma_from_le_bytes(x as nat, 8);
    lemma_pow256_values();
    vstd::arithmetic::div_mod::lemma_small_mod(x as nat, pow256(8));
}

/// A `u128` read back from its bytes is the same number.
pub proof fn lemma_u128_roundtrip(x: u128)
    ensures
        <u128 as TryFromBytes>::try_from_bytes_ensures(x.spec_into_bytes(), Ok(x)),
{
    lemma_from_le_bytes(x as nat, 16);
    lemma_pow256_values();
    vstd::arithmetic::div_mod::lemma_small_mod(x as nat, pow256(16));
}

/// A `i8` read back from its bytes is the same number.
pub proof fn lemma_i8_roundtrip(x: i8)
    ensures
        <i8 as TryFromBytes>::try_from_bytes_ensures(x.spec_into_bytes(), Ok(x)),
{
    let y = x as u8;
    lemma_from_le_bytes(y as nat, 1);
    lemma_pow256_values();
    vstd::arithmetic::div_mod::lemma_small_mod(y as nat, pow256(1));
    assert((x as u8) as i8 == x) by (bit_vector);
}

/// A `i16` read back from its bytes is the same number.
pub proof fn lemma_i16_roundtrip(x: i16)
    ensures
        <i16 as TryFromBytes>::try_from_bytes_ensures(x.spec_into_bytes(), Ok(x)),
{
    let y = x as u16;
    lemma_from_le_bytes(y as nat, 2);
    lemma_pow256_values();
    vstd::arithmetic::div_mod::lemma_small_mod(y as nat, pow256(2));
    assert((x as u16) as i16 == x) by (bit_vector);
}

/// A `i32` read back from its bytes is the same number.
pub proof fn lemma_i32_roundtrip(x: i32)
    ensures
        <i32 as TryFromBytes>::try_from_bytes_ensures(x.spec_into_bytes(), Ok(x)),
{
    let y = x as u32;
    lemma_from_le_bytes(y as nat, 4);
    lemma_pow256_values();
    vstd::arithmetic::div_mod::lemma_small_mod(y as nat, pow256(4));
    assert((x as u32) as i32 == x) by (bit_vector);
}

/// A `i64` read back from its bytes is the same number.
pub proof fn lemma_i64_roundtrip(x: i64)
    ensures
        <i64 as TryFromBytes>::try_from_bytes_ensures(x.spec_into_bytes(), Ok(x)),
{
    let y = x as u64;
    lemma_from_le_bytes(y as nat, 8);
    lemma_pow256_values();
    vstd::arithmetic::div_mod::lemma_small_mod(y as nat, pow256(8));
    assert((x as u64) as i64 == x) by (bit_vector);
}

/// A `i128` read back from its bytes is the same number.
pub proof fn lemma_i128_roundtrip(x: i128)
    ensures
        <i128 as TryFromBytes>::try_from_bytes_ensures(x.spec_into_bytes(), Ok(x)),
{
    let y = x as u128;
    lemma_from_le_bytes(y as nat, 16);
    lemma_pow256_values();
    vstd::arithmetic::div_mod::lemma_small_mod(y as nat, pow256(16));
    assert((x as u128) as i128 == x) by (bit_vector);
}

} // verus!
