//! Reading records and lists in the linked-list format.
use vstd::prelude::*;
use vstd::utf8::decode_utf8;
use crate::bytes::{read_le, copy_range, string_from_utf8};
use crate::error::NeutronError;
use crate::linked_list::{Decoded, parse_head, parse_list, parse_object, pairs_view, prepend};

verus! {

/// The decoded result, seen as what `Decoded` describes.
pub open spec fn result_matches<T, V>(r: Result<T, NeutronError>, d: Decoded<V>, view: spec_fn(T) -> V) -> bool {
    match d {
        Decoded::Value(v) => r is Ok && view(r->Ok_0) == v,
        Decoded::Invalid(e) => r == Err::<T, NeutronError>(e),
        Decoded::Panics => false,
    }
}

/// Decodes one record. Requires that the decoder does not index past the
/// bytes nor meet a key that is not UTF-8.
pub fn object(bytes: &Vec<u8>) -> (r: Result<(String, String), NeutronError>)
    requires
        !(parse_object(bytes@) is Panics),
    ensures
        result_matches(r, parse_object(bytes@), |p: (String, String)| (p.0@, p.1@)),
{
    let key_length: usize = bytes[0] as usize;
    let key_bytes = copy_range(bytes.as_slice(), 1, key_length);
    let key_string = string_from_utf8(key_bytes).unwrap();
    let vls: u8 = bytes[1 + key_length];
    let start: usize = match vls {
        1 => 3 + key_length,
        2 => 4 + key_length,
        4 => 6 + key_length,
        8 => 10 + key_length,
        _ => {
            return Err(NeutronError::ValueLengthSizeUnknown);
        },
    };
    let value_bytes = copy_range(bytes.as_slice(), start, bytes.len());
    match string_from_utf8(value_bytes) {
        Some(vs) => Ok((key_string, vs)),
        None => Err(NeutronError::InvalidUtf8),
    }
}

/// Decodes the record that starts at `i`, giving its key, its value and
/// the position after it.
fn read_record(bytes: &Vec<u8>, i: usize) -> (r: Result<(String, String, usize), NeutronError>)
    requires
        i < bytes@.len(),
        !(parse_head(bytes@.subrange(i as int, bytes@.len() as int)) is Panics),
    ensures
        match parse_head(bytes@.subrange(i as int, bytes@.len() as int)) {
            Decoded::Value((h, n)) => r is Ok && (r->Ok_0.0@, r->Ok_0.1@) == h && r->Ok_0.2 == i + n,
            Decoded::Invalid(e) => r == Err::<(String, String, usize), NeutronError>(e),
            Decoded::Panics => false,
        },
{
    let len = bytes.len();
    let ghost s = bytes@.subrange(i as int, len as int);
    let key_length: usize = bytes[i] as usize;
    assert(s[0] == bytes@[i as int]);
    if key_length > len - i - 1 {
        assert(false);
    }
    let key_bytes = copy_range(bytes.as_slice(), i + 1, i + 1 + key_length);
    assert(key_bytes@ =~= s.subrange(1, 1 + key_length));
    let key_opt = string_from_utf8(key_bytes);
    if key_opt.is_none() {
        assert(false);
    }
    let key_string = key_opt.unwrap();
    if i + 1 + key_length >= len {
        assert(false);
    }
    let value_length_size: u8 = bytes[i + 1 + key_length];
    assert(s[1 + key_length] == value_length_size);
    let p = i + 2 + key_length;
    if value_length_size != 1 && value_length_size != 2 && value_length_size != 4 && value_length_size
        != 8 {
        return Err(NeutronError::ValueLengthSizeUnknown);
    }
    let w = value_length_size as usize;
    if w > len - p {
        assert(false);
    }
    let value_length_u64 = read_le(bytes.as_slice(), p, w);
    assert(bytes@.subrange(p as int, p + w) =~= s.subrange(p - i, p - i + w));
    let value_length: usize = value_length_u64 as usize;
    let j = p + w;
    if value_length > len - j {
        assert(false);
    }
    let value_bytes = copy_range(bytes.as_slice(), j, j + value_length);
    assert(value_bytes@ =~= s.subrange(j - i, j - i + value_length));
    match string_from_utf8(value_bytes) {
        Some(value_string) => Ok((key_string, value_string, j + value_length)),
        None => Err(NeutronError::InvalidUtf8),
    }
}

/// Decodes a whole list, record by record. Requires that the decoder does
/// not index past the bytes nor meet a key that is not UTF-8.
pub fn list(bytes: &Vec<u8>) -> (r: Result<Vec<(String, String)>, NeutronError>)
    requires
        !(parse_list(bytes@) is Panics),
    ensures
        result_matches(r, parse_list(bytes@), |v: Vec<(String, String)>| pairs_view(v@)),
{
    let mut list: Vec<(String, String)> = Vec::new();
    let mut i: usize = 0;
    let len = bytes.len();
    assert(bytes@.subrange(0, len as int) =~= bytes@);
    assert(prepend(Seq::empty(), parse_list(bytes@)) =~= parse_list(bytes@)) by {
        match parse_list(bytes@) {
            Decoded::Value(v) => {
                assert(Seq::<(Seq<char>, Seq<char>)>::empty() + v =~= v);
            },
            _ => {},
        }
    }
    while i < len
        invariant
            i <= len == bytes@.len(),
            !(parse_list(bytes@) is Panics),
            prepend(pairs_view(list@), parse_list(bytes@.subrange(i as int, len as int)))
                == parse_list(bytes@),
        decreases len - i,
    {
        let ghost s = bytes@.subrange(i as int, len as int);
        let ghost acc = pairs_view(list@);
        match read_record(bytes, i) {
            Ok((key_string, value_string, next)) => {
                let ghost head = (key_string@, value_string@);
                list.push((key_string, value_string));
                proof {
                    let rest = bytes@.subrange(next as int, len as int);
                    assert(s.subrange(next - i, s.len() as int) =~= rest);
                    assert(pairs_view(list@) =~= acc + seq![head]);
                    match parse_list(rest) {
                        Decoded::Value(v) => {
                            assert(acc + (seq![head] + v) =~= (acc + seq![head]) + v);
                        },
                        _ => {},
                    }
                }
                i = next;
            },
            Err(e) => {
                return Err(e);
            },
        }
    }
    proof {
        assert(bytes@.subrange(i as int, len as int) =~= Seq::<u8>::empty());
        assert(pairs_view(list@) + Seq::<(Seq<char>, Seq<char>)>::empty() =~= pairs_view(list@));
    }
    Ok(list)
}


/// Whether decoding the record that starts at `i` panics, and otherwise the
/// position after it (`None` where the record is refused).
fn scan_record(bytes: &Vec<u8>, i: usize) -> (r: (bool, Option<usize>))
    requires
        i < bytes@.len(),
    ensures
        r.0 <==> parse_head(bytes@.subrange(i as int, bytes@.len() as int)) is Panics,
        !r.0 ==> match parse_head(bytes@.subrange(i as int, bytes@.len() as int)) {
            Decoded::Value((_, n)) => r.1 == Some((i + n) as usize) && 0 < n,
            _ => r.1 is None,
        },
{
    let len = bytes.len();
    let ghost s = bytes@.subrange(i as int, len as int);
    let key_length: usize = bytes[i] as usize;
    assert(s[0] == bytes@[i as int]);
    if key_length > len - i - 1 {
        return (true, None);
    }
    let key_bytes = copy_range(bytes.as_slice(), i + 1, i + 1 + key_length);
    assert(key_bytes@ =~= s.subrange(1, 1 + key_length));
    if string_from_utf8(key_bytes).is_none() {
        return (true, None);
    }
    if i + 1 + key_length >= len {
        return (true, None);
    }
    let value_length_size: u8 = bytes[i + 1 + key_length];
    assert(s[1 + key_length] == value_length_size);
    let p = i + 2 + key_length;
    if value_length_size != 1 && value_length_size != 2 && value_length_size != 4 && value_length_size
        != 8 {
        return (false, None);
    }
    let w = value_length_size as usize;
    if w > len - p {
        return (true, None);
    }
    let value_length_u64 = read_le(bytes.as_slice(), p, w);
    assert(bytes@.subrange(p as int, p + w) =~= s.subrange(p - i, p - i + w));
    let value_length: usize = value_length_u64 as usize;
    let j = p + w;
    if value_length > len - j {
        return (true, None);
    }
    let value_bytes = copy_range(bytes.as_slice(), j, j + value_length);
    assert(value_bytes@ =~= s.subrange(j - i, j - i + value_length));
    if string_from_utf8(value_bytes).is_none() {
        return (false, None);
    }
    (false, Some(j + value_length))
}

/// Whether decoding a list panics (indexes past the bytes or meets a key
/// that is not UTF-8).
pub fn list_panics(bytes: &Vec<u8>) -> (r: bool)
    ensures
        r == parse_list(bytes@) is Panics,
{
    let mut i: usize = 0;
    let len = bytes.len();
    assert(bytes@.subrange(0, len as int) =~= bytes@);
    while i < len
        invariant
            i <= len == bytes@.len(),
            parse_list(bytes@) is Panics <==> parse_list(bytes@.subrange(i as int, len as int)) is Panics,
        decreases len - i,
    {
        let ghost s = bytes@.subrange(i as int, len as int);
        let (panics, next) = scan_record(bytes, i);
        if panics {
            return true;
        }
        match next {
            Some(n) => {
                proof {
                    assert(s.subrange(n - i, s.len() as int) =~= bytes@.subrange(n as int, len as int));
                }
                i = n;
            },
            None => {
                return false;
            },
        }
    }
    assert(bytes@.subrange(i as int, len as int) =~= Seq::<u8>::empty());
    false
}

} // verus!
