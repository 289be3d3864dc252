//! Turning keys and values into bytes: integers as their little-endian
//! bytes, text as its UTF-8 bytes, byte strings as themselves.
use vstd::prelude::*;
use vstd::utf8::encode_utf8;
use crate::bytes::{le_bytes, push_le, push_all};

verus! {

/// A type whose values have a byte form.
pub trait IntoBytes {
    /// The byte form of the value.
    spec fn spec_into_bytes(&self) -> Seq<u8>;

    /// The byte form of the value.
    fn into_bytes(&self) -> (r: Vec<u8>)
        ensures
            r@ == self.spec_into_bytes(),
    ;
}

/// The 1 little-endian bytes of the integer.
impl IntoBytes for u8 {
    open spec fn spec_into_bytes(&self) -> Seq<u8> {
        le_bytes(*self as nat, 1)
    }

    fn into_bytes(&self) -> (r: Vec<u8>) {
        let mut r: Vec<u8> = Vec::new();
        push_le(&mut r, *self as u128, 1);
        r
    }
}

/// The 1 little-endian bytes of the integer.
impl IntoBytes for &u8 {
    open spec fn spec_into_bytes(&self) -> Seq<u8> {
        le_bytes(**self as nat, 1)
    }

    fn into_bytes(&self) -> (r: Vec<u8>) {
        let mut r: Vec<u8> = Vec::new();
        push_le(&mut r, **self as u128, 1);
        r
    }
}

/// The 2 little-endian bytes of the integer.
impl IntoBytes for u16 {
    open spec fn spec_into_bytes(&self) -> Seq<u8> {
        le_bytes(*self as nat, 2)
    }

    fn into_bytes(&self) -> (r: Vec<u8>) {
        let mut r: Vec<u8> = Vec::new();
        push_le(&mut r, *self as u128, 2);
        r
    }
}

/// The 2 little-endian bytes of the integer.
impl IntoBytes for &u16 {
    open spec fn spec_into_bytes(&self) -> Seq<u8> {
        le_bytes(**self as nat, 2)
    }

    fn into_bytes(&self) -> (r: Vec<u8>) {
        let mut r: Vec<u8> = Vec::new();
        push_le(&mut r, **self as u128, 2);
        r
    }
}

/// The 4 little-endian bytes of the integer.
impl IntoBytes for u32 {
    open spec fn spec_into_bytes(&self) -> Seq<u8> {
        le_bytes(*self as nat, 4)
    }

    fn into_bytes(&self) -> (r: Vec<u8>) {
        let mut r: Vec<u8> = Vec::new();
        push_le(&mut r, *self as u128, 4);
        r
    }
}

/// The 4 little-endian bytes of the integer.
impl IntoBytes for &u32 {
    open spec fn spec_into_bytes(&self) -> Seq<u8> {
        le_bytes(**self as nat, 4)
    }

    fn into_bytes(&self) -> (r: Vec<u8>) {
        let mut r: Vec<u8> = Vec::new();
        push_le(&mut r, **self as u128, 4);
        r
    }
}

/// The 8 little-endian bytes of the integer.
impl IntoBytes for u64 {
    open spec fn spec_into_bytes(&self) -> Seq<u8> {
        le_bytes(*self as nat, 8)
    }

    fn into_bytes(&self) -> (r: Vec<u8>) {
        let mut r: Vec<u8> = Vec::new();
        push_le(&mut r, *self as u128, 8);
        r
    }
}

/// The 8 little-endian bytes of the integer.
impl IntoBytes for &u64 {
    open spec fn spec_into_bytes(&self) -> Seq<u8> {
        le_bytes(**self as nat, 8)
    }

    fn into_bytes(&self) -> (r: Vec<u8>) {
        let mut r: Vec<u8> = Vec::new();
        push_le(&mut r, **self as u128, 8);
        r
    }
}

/// The 16 little-endian bytes of the integer.
impl IntoBytes for u128 {
    open spec fn spec_into_bytes(&self) -> Seq<u8> {
        le_bytes(*self as nat, 16)
    }

    fn into_bytes(&self) -> (r: Vec<u8>) {
        let mut r: Vec<u8> = Vec::new();
        push_le(&mut r, *self as u128, 16);
        r
    }
}

/// The 16 little-endian bytes of the integer.
impl IntoBytes for &u128 {
    open spec fn spec_into_bytes(&self) -> Seq<u8> {
        le_bytes(**self as nat, 16)
    }

    fn into_bytes(&self) -> (r: Vec<u8>) {
        let mut r: Vec<u8> = Vec::new();
        push_le(&mut r, **self as u128, 16);
        r
    }
}

/// The 1 little-endian bytes of the integer (two's complement).
impl IntoBytes for i8 {
    open spec fn spec_into_bytes(&self) -> Seq<u8> {
        le_bytes((*self as u8) as nat, 1)
    }

    fn into_bytes(&self) -> (r: Vec<u8>) {
        let mut r: Vec<u8> = Vec::new();
        push_le(&mut r, (*self as u8) as u128, 1);
        r
    }
}

/// The 1 little-endian bytes of the integer (two's complement).
impl IntoBytes for &i8 {
    open spec fn spec_into_bytes(&self) -> Seq<u8> {
        le_bytes((**self as u8) as nat, 1)
    }

    fn into_bytes(&self) -> (r: Vec<u8>) {
        let mut r: Vec<u8> = Vec::new();
        push_le(&mut r, (**self as u8) as u128, 1);
        r
    }
}

/// The 2 little-endian bytes of the integer (two's complement).
impl IntoBytes for i16 {
    open spec fn spec_into_bytes(&self) -> Seq<u8> {
        le_bytes((*self as u16) as nat, 2)
    }

    fn into_bytes(&self) -> (r: Vec<u8>) {
        let mut r: Vec<u8> = Vec::new();
        push_le(&mut r, (*self as u16) as u128, 2);
        r
    }
}

/// The 2 little-endian bytes of the integer (two's complement).
impl IntoBytes for &i16 {
    open spec fn spec_into_bytes(&self) -> Seq<u8> {
        le_bytes((**self as u16) as nat, 2)
    }

    fn into_bytes(&self) -> (r: Vec<u8>) {
        let mut r: Vec<u8> = Vec::new();
        push_le(&mut r, (**self as u16) as u128, 2);
        r
    }
}

/// The 4 little-endian bytes of the integer (two's complement).
impl IntoBytes for i32 {
    open spec fn spec_into_bytes(&self) -> Seq<u8> {
        le_bytes((*self as u32) as nat, 4)
    }

    fn into_bytes(&self) -> (r: Vec<u8>) {
        let mut r: Vec<u8> = Vec::new();
        push_le(&mut r, (*self as u32) as u128, 4);
        r
    }
}

/// The 4 little-endian bytes of the integer (two's complement).
impl IntoBytes for &i32 {
    open spec fn spec_into_bytes(&self) -> Seq<u8> {
        le_bytes((**self as u32) as nat, 4)
    }

    fn into_bytes(&self) -> (r: Vec<u8>) {
        let mut r: Vec<u8> = Vec::new();
        push_le(&mut r, (**self as u32) as u128, 4);
        r
    }
}

/// The 8 little-endian bytes of the integer (two's complement).
impl IntoBytes for i64 {
    open spec fn spec_into_bytes(&self) -> Seq<u8> {
        le_bytes((*self as u64) as nat, 8)
    }

    fn into_bytes(&self) -> (r: Vec<u8>) {
        let mut r: Vec<u8> = Vec::new();
        push_le(&mut r, (*self as u64) as u128, 8);
        r
    }
}

/// The 8 little-endian bytes of the integer (two's complement).
impl IntoBytes for &i64 {
    open spec fn spec_into_bytes(&self) -> Seq<u8> {
        le_bytes((**self as u64) as nat, 8)
    }

    fn into_bytes(&self) -> (r: Vec<u8>) {
        let mut r: Vec<u8> = Vec::new();
        push_le(&mut r, (**self as u64) as u128, 8);
        r
    }
}

/// The 16 little-endian bytes of the integer (two's complement).
impl IntoBytes for i128 {
    open spec fn spec_into_bytes(&self) -> Seq<u8> {
        le_bytes((*self as u128) as nat, 16)
    }

    fn into_bytes(&self) -> (r: Vec<u8>) {
        let mut r: Vec<u8> = Vec::new();
        push_le(&mut r, (*self as u128) as u128, 16);
        r
    }
}

/// The 16 little-endian bytes of the integer (two's complement).
impl IntoBytes for &i128 {
    open spec fn spec_into_bytes(&self) -> Seq<u8> {
        le_bytes((**self as u128) as nat, 16)
    }

    fn into_bytes(&self) -> (r: Vec<u8>) {
        let mut r: Vec<u8> = Vec::new();
        push_le(&mut r, (**self as u128) as u128, 16);
        r
    }
}

/// The UTF-8 bytes of the text.
impl IntoBytes for String {
    open spec fn spec_into_bytes(&self) -> Seq<u8> {
        encode_utf8(self@)
    }

    fn into_bytes(&self) -> (r: Vec<u8>) {
        let mut r: Vec<u8> = Vec::new();
        push_all(&mut r, self.as_str().as_bytes());
        r
    }
}

/// The UTF-8 bytes of the text.
impl IntoBytes for &String {
    open spec fn spec_into_bytes(&self) -> Seq<u8> {
        encode_utf8((*self)@)
    }

    fn into_bytes(&self) -> (r: Vec<u8>) {
        let mut r: Vec<u8> = Vec::new();
        push_all(&mut r, (*self).as_str().as_bytes());
        r
    }
}

/// The UTF-8 bytes of the text.
impl IntoBytes for str {
    open spec fn spec_into_bytes(&self) -> Seq<u8> {
        encode_utf8(self@)
    }

    fn into_bytes(&self) -> (r: Vec<u8>) {
        let mut r: Vec<u8> = Vec::new();
        push_all(&mut r, self.as_bytes());
        r
    }
}

/// The UTF-8 bytes of the text.
impl IntoBytes for &str {
    open spec fn spec_into_bytes(&self) -> Seq<u8> {
        encode_utf8((*self)@)
    }

    fn into_bytes(&self) -> (r: Vec<u8>) {
        let mut r: Vec<u8> = Vec::new();
        push_all(&mut r, (*self).as_bytes());
        r
    }
}

/// The bytes themselves.
impl IntoBytes for [u8] {
    open spec fn spec_into_bytes(&self) -> Seq<u8> {
        self@
    }

    fn into_bytes(&self) -> (r: Vec<u8>) {
        let mut r: Vec<u8> = Vec::new();
        push_all(&mut r, self);
        r
    }
}

/// The bytes themselves.
impl IntoBytes for &[u8] {
    open spec fn spec_into_bytes(&self) -> Seq<u8> {
        (*self)@
    }

    fn into_bytes(&self) -> (r: Vec<u8>) {
        let mut r: Vec<u8> = Vec::new();
        push_all(&mut r, *self);
        r
    }
}

} // verus!
