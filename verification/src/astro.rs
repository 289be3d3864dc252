//! The astro format of `astro_format`: a list of byte strings, each written
//! as a width byte (0, 1, 2, 4 or 8), its length in that many little-endian
//! bytes, and its bytes. The encoding and decoding are the crate's; their
//! contracts state the format as the crate's source writes and reads it.
use vstd::prelude::*;
use crate::bytes::{le_bytes, from_le};
use crate::error::NeutronError;
use crate::linked_list::{Decoded, prepend};

verus! {

/// The width byte and length written before an item of `n` bytes.
pub open spec fn astro_prefix(n: nat) -> Seq<u8> {
    if n > 4294967295 {
        seq![8u8] + le_bytes(n, 8)
    } else if n > 65535 {
        seq![4u8] + le_bytes(n, 4)
    } else if n > 255 {
        seq![2u8] + le_bytes(n, 2)
    } else if n > 0 {
        seq![1u8, n as u8]
    } else {
        seq![0u8]
    }
}

/// The encoding of a list of byte strings.
pub open spec fn astro_encoding(items: Seq<Seq<u8>>) -> Seq<u8>
    decreases items.len(),
{
    if items.len() == 0 {
        Seq::empty()
    } else {
        astro_encoding(items.drop_last()) + astro_prefix(items.last().len()) + items.last()
    }
}

/// What decoding the items of `b` from `offset` on gives.
pub open spec fn astro_decode_from(b: Seq<u8>, offset: int) -> Decoded<Seq<Seq<u8>>>
    decreases b.len() - offset,
{
    if offset < 0 || offset >= b.len() {
        Decoded::Value(Seq::empty())
    } else {
        let lt = b[offset] as int;
        if lt != 0 && lt != 1 && lt != 2 && lt != 4 && lt != 8 {
            Decoded::Invalid(NeutronError::InvalidEncoding)
        } else if offset + 1 + lt > b.len() {
            Decoded::Panics
        } else {
            let item_len = from_le(b.subrange(offset + 1, offset + 1 + lt)) as usize as int;
            let start = offset + 1 + lt;
            if start + item_len > usize::MAX {
                Decoded::Panics
            } else if start + item_len > b.len() {
                Decoded::Invalid(NeutronError::InvalidEncoding)
            } else {
                prepend(seq![b.subrange(start, start + item_len)], astro_decode_from(b, start + item_len))
            }
        }
    }
}

/// Calls `astro_format::encode` on a list of byte strings. Claimed, as the
/// crate's source shows: the result is always `Ok`, holding each item's
/// width byte, length and bytes in turn.
#[verifier::external_body]
pub(crate) fn astro_encode(items: &Vec<Vec<u8>>) -> (r: Vec<u8>)
    ensures
        r@ == astro_encoding(items@.map_values(|v: Vec<u8>| v@)),
{
    match astro_format::encode(items.iter()) {
        Ok(v) => v,
        Err(_) => Vec::new(),
    }
}

/// Calls `astro_format::decode` for byte-string items. Claimed, as the
/// crate's source shows: where it does not panic (it indexes the length bytes
/// without a bounds check), it gives the items, or an error for an unknown
/// width byte or an item longer than what is left.
#[verifier::external_body]
pub(crate) fn astro_decode(buffer: &[u8]) -> (r: Option<Vec<Vec<u8>>>)
    requires
        !(astro_decode_from(buffer@, 0) is Panics),
    ensures
        match astro_decode_from(buffer@, 0) {
            Decoded::Value(items) => r is Some && r->0@.map_values(|v: Vec<u8>| v@) == items,
            Decoded::Invalid(_) => r is None,
            Decoded::Panics => false,
        },
{
    match astro_format::decode::<Vec<u8>>(buffer) {
        Ok(items) => Some(items),
        Err(_) => None,
    }
}

} // verus!
