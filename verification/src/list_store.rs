//! A store kept in linked-list files: its cache of pairs, its graves (the
//! keys of a list) and its tables (a list of names, each with a
//! stellar-notation list holding the table's level and bloom filter).
use vstd::prelude::*;
use vstd::utf8::{encode_utf8, decode_utf8, valid_utf8, is_char_boundary};
use crate::bytes::from_le;
use crate::error::NeutronError;
use crate::linked_list::{Decoded, pairs_view, prepend, parse_list};
use crate::linked_list::deserialize::{list as decode_list, list_panics};
use crate::bytes::{read_le, copy_range, string_from_utf8};
use crate::text_store::is_hex_digit_exec;
use crate::text_store::{pair_ok, hex_bytes};

verus! {

/// Text (by its bytes) whose two-byte groups after a two-byte prefix can be
/// sliced out: fewer than two bytes, or an even number whose group bounds
/// all fall on character boundaries.
pub open spec fn slices_ok(b: Seq<u8>) -> bool {
    b.len() < 2 || (b.len() % 2 == 0 && valid_utf8(b) && forall|k: int|
        0 <= k < (b.len() - 2) / 2 ==> #[trigger] is_char_boundary(b, 2 * k + 2) && is_char_boundary(b, 2 * k + 4))
}

/// Every two-byte group after the prefix reads as a byte in base 16.
pub open spec fn pairs_ok(b: Seq<u8>) -> bool {
    forall|k: int| 0 <= k < (b.len() - 2) / 2 ==> #[trigger] pair_ok(b[2 * k + 2], b[2 * k + 3])
}

/// What decoding the items of a stellar-notation list from byte `i` on
/// gives: each item a width byte (1, 2, 4 or 8), its length in that many
/// little-endian bytes and its UTF-8 bytes; a byte of another value is
/// skipped.
pub open spec fn stellar_items(b: Seq<u8>, i: int) -> Decoded<Seq<Seq<char>>>
    decreases b.len() - i,
{
    if i < 0 || i >= b.len() {
        Decoded::Value(Seq::empty())
    } else {
        let w = b[i] as int;
        let j = i + 1;
        if w == 1 || w == 2 || w == 4 || w == 8 {
            if j + w > b.len() {
                Decoded::Panics
            } else {
                let n = from_le(b.subrange(j, j + w)) as usize as int;
                let s = j + w;
                if s + n > b.len() {
                    Decoded::Panics
                } else if !valid_utf8(b.subrange(s, s + n)) {
                    Decoded::Invalid(NeutronError::InvalidUtf8)
                } else {
                    prepend(seq![decode_utf8(b.subrange(s, s + n))], stellar_items(b, s + n))
                }
            }
        } else {
            stellar_items(b, j)
        }
    }
}

/// Calls `stellar_notation::decode::as_bytes`. Claimed, as its source shows:
/// where the two-character groups after the prefix can be sliced out, the
/// result is the bytes they read as in base 16, or an error when one does
/// not read.
#[verifier::external_body]
fn stellar_as_bytes(val: &str) -> (r: Option<Vec<u8>>)
    requires
        slices_ok(encode_utf8(val@)),
    ensures
        r is Some <==> pairs_ok(encode_utf8(val@)),
        r is Some ==> r->0@ == hex_bytes(encode_utf8(val@)),
{
    match stellar_notation::decode::as_bytes(val) {
        Ok(v) => Some(v),
        Err(_) => None,
    }
}

/// Calls `stellar_notation::decode::as_u8`. Claimed, as its source shows:
/// where the groups can be sliced out and, when they read, read as exactly
/// one byte, the result is that byte, or an error when a group does not read.
#[verifier::external_body]
fn stellar_as_u8(val: &str) -> (r: Option<u8>)
    requires
        slices_ok(encode_utf8(val@)),
        pairs_ok(encode_utf8(val@)) ==> hex_bytes(encode_utf8(val@)).len() == 1,
    ensures
        r is Some <==> pairs_ok(encode_utf8(val@)),
        r is Some ==> r->0 == hex_bytes(encode_utf8(val@))[0],
{
    match stellar_notation::decode::as_u8(val) {
        Ok(v) => Some(v),
        Err(_) => None,
    }
}

/// The groups read as bytes, and those bytes as a stellar-notation list.
pub open spec fn list_reads(b: Seq<u8>) -> bool {
    pairs_ok(b) && stellar_items(hex_bytes(b), 0) is Value
}

/// The texts of strings.
pub open spec fn strings_view(v: Seq<String>) -> Seq<Seq<char>> {
    v.map_values(|s: String| s@)
}

/// Calls `stellar_notation::decode::as_list`. Claimed, as its source shows:
/// where the groups can be sliced out and, when they read, the list's items
/// can be read without indexing past the bytes, the result is the items, or
/// an error when a group does not read or an item is not UTF-8.
#[verifier::external_body]
fn stellar_as_list(val: &str) -> (r: Option<Vec<String>>)
    requires
        slices_ok(encode_utf8(val@)),
        pairs_ok(encode_utf8(val@)) ==> !(stellar_items(hex_bytes(encode_utf8(val@)), 0) is Panics),
    ensures
        r is Some <==> list_reads(encode_utf8(val@)),
        r is Some ==> stellar_items(hex_bytes(encode_utf8(val@)), 0) == Decoded::Value(strings_view(r->0@)),
{
    match stellar_notation::decode::as_list(val) {
        Ok(v) => Some(v),
        Err(_) => None,
    }
}

/// The items of a table record's value, where they read.
pub open spec fn record_items(v: Seq<char>) -> Seq<Seq<char>> {
    match stellar_items(hex_bytes(encode_utf8(v)), 0) {
        Decoded::Value(items) => items,
        _ => Seq::empty(),
    }
}

/// A table record's value reads: as a stellar-notation list of at least two
/// items, the first reading as one byte (the level) and the second as bytes
/// (the bloom filter).
pub open spec fn record_ok(v: Seq<char>) -> bool {
    let b = encode_utf8(v);
    let items = record_items(v);
    &&& slices_ok(b)
    &&& pairs_ok(b)
    &&& stellar_items(hex_bytes(b), 0) is Value
    &&& items.len() >= 2
    &&& slices_ok(encode_utf8(items[0]))
    &&& pairs_ok(encode_utf8(items[0]))
    &&& hex_bytes(encode_utf8(items[0])).len() == 1
    &&& slices_ok(encode_utf8(items[1]))
    &&& pairs_ok(encode_utf8(items[1]))
}

/// The table that a record describes: its name, level and bloom filter.
pub open spec fn record_table(r: (Seq<char>, Seq<char>)) -> (Seq<char>, u8, Seq<u8>) {
    let items = record_items(r.1);
    (r.0, hex_bytes(encode_utf8(items[0]))[0], hex_bytes(encode_utf8(items[1])))
}

/// A file that is present, as bytes.
pub open spec fn file_view(f: Option<&Vec<u8>>) -> Option<Seq<u8>> {
    match f {
        Some(v) => Some(v@),
        None => None,
    }
}

/// A present file that the linked-list decoder reads without panicking.
pub open spec fn file_ok(f: Option<Seq<u8>>) -> bool {
    match f {
        Some(b) => !(parse_list(b) is Panics),
        None => true,
    }
}

/// The records of a file: those the decoder gives, none for a missing file.
pub open spec fn file_records(f: Option<Seq<u8>>) -> Decoded<Seq<(Seq<char>, Seq<char>)>> {
    match f {
        Some(b) => parse_list(b),
        None => Decoded::Value(Seq::empty()),
    }
}

/// A table of a list store.
pub struct ListTable {
    pub name: String,
    pub level: u8,
    pub bloom_filter: Vec<u8>,
}

/// A store kept in linked-list files: its name, the bytes of its cache
/// file, its cache, its graves and its tables.
pub struct ListStore {
    pub name: String,
    pub cache_buffer: Vec<u8>,
    pub cache: Vec<(String, String)>,
    pub graves: Vec<String>,
    pub lists: Vec<ListTable>,
}

/// The tables as names, levels and bloom filters.
pub open spec fn tables_view(t: Seq<ListTable>) -> Seq<(Seq<char>, u8, Seq<u8>)> {
    t.map_values(|x: ListTable| (x.name@, x.level, x.bloom_filter@))
}

/// Reads a present file's records; none for a missing file.
fn read_records(f: Option<&Vec<u8>>) -> (r: Result<Vec<(String, String)>, NeutronError>)
    requires
        file_ok(file_view(f)),
    ensures
        match file_records(file_view(f)) {
            Decoded::Value(v) => r is Ok && pairs_view(r->Ok_0@) == v,
            Decoded::Invalid(e) => r == Err::<Vec<(String, String)>, NeutronError>(e),
            Decoded::Panics => false,
        },
{
    match f {
        Some(bytes) => decode_list(bytes),
        None => {
            let v: Vec<(String, String)> = Vec::new();
            assert(pairs_view(v@) =~= Seq::<(Seq<char>, Seq<char>)>::empty());
            Ok(v)
        },
    }
}

/// Reads a table record.
fn read_table(name: &String, value: &String) -> (r: ListTable)
    requires
        record_ok(value@),
    ensures
        (r.name@, r.level, r.bloom_filter@) == record_table((name@, value@)),
{
    let items = stellar_as_list(value.as_str()).unwrap();
    let ghost iv = strings_view(items@);
    assert(iv == record_items(value@));
    assert(iv[0] == items@[0]@ && iv[1] == items@[1]@);
    let level = stellar_as_u8(items[0].as_str()).unwrap();
    let bloom_filter = stellar_as_bytes(items[1].as_str()).unwrap();
    ListTable { name: name.clone(), level, bloom_filter }
}

/// What opening the store called `name` from these files gives: the error
/// of the first file whose records do not decode, or else the store with
/// the cache's records, the graves' keys, a table for each lists record, and
/// the bytes of the cache file.
pub open spec fn opened(
    name: &str,
    cache: Option<Seq<u8>>,
    graves: Option<Seq<u8>>,
    lists: Option<Seq<u8>>,
    r: Result<ListStore, NeutronError>,
) -> bool {
    match (file_records(cache), file_records(graves), file_records(lists)) {
            (Decoded::Invalid(e), _, _) => r == Err::<ListStore, NeutronError>(e),
            (Decoded::Value(_), Decoded::Invalid(e), _) => r == Err::<ListStore, NeutronError>(e),
            (Decoded::Value(_), Decoded::Value(_), Decoded::Invalid(e)) => r == Err::<ListStore, NeutronError>(e),
            (Decoded::Value(c), Decoded::Value(g), Decoded::Value(l)) => {
                &&& r is Ok
                &&& r->Ok_0.name@ == name@
                &&& pairs_view(r->Ok_0.cache@) == c
                &&& r->Ok_0.graves@.map_values(|s: String| s@) == g.map_values(|p: (Seq<char>, Seq<char>)| p.0)
                &&& tables_view(r->Ok_0.lists@) == l.map_values(|p: (Seq<char>, Seq<char>)| record_table(p))
                &&& r->Ok_0.cache_buffer@ == match cache {
                    Some(b) => b,
                    None => Seq::<u8>::empty(),
                }
            },
            _ => false,
        }
}

/// Opens the store called `name`, given the bytes of its cache, graves and
/// lists files (`None` for a file that is not there): the cache's records,
/// the keys of the graves' records, and a table for each lists record, its
/// level and bloom filter read from items 0 and 1 of the stellar-notation
/// list in the record's value. An error where a file's records do not
/// decode. Requires that the decoder does not panic on any file present and
/// that each table record's value reads (where reading it panics).
pub fn open_list_store(name: &str, cache: Option<&Vec<u8>>, graves: Option<&Vec<u8>>, lists: Option<&Vec<u8>>) -> (r:
    Result<ListStore, NeutronError>)
    requires
        files_open(file_view(cache), file_view(graves), file_view(lists)),
    ensures
        opened(name, file_view(cache), file_view(graves), file_view(lists), r),
{
    let cache_records = match read_records(cache) {
        Ok(c) => c,
        Err(e) => {
            return Err(e);
        },
    };
    let grave_records = match read_records(graves) {
        Ok(g) => g,
        Err(e) => {
            return Err(e);
        },
    };
    let table_records = match read_records(lists) {
        Ok(l) => l,
        Err(e) => {
            return Err(e);
        },
    };
    let ghost gv = pairs_view(grave_records@);
    let mut grave_keys: Vec<String> = Vec::new();
    let mut i: usize = 0;
    while i < grave_records.len()
        invariant
            i <= grave_records@.len(),
            gv == pairs_view(grave_records@),
            grave_keys@.map_values(|s: String| s@) == gv.subrange(0, i as int).map_values(
                |p: (Seq<char>, Seq<char>)| p.0,
            ),
        decreases grave_records@.len() - i,
    {
        let ghost before = grave_keys@.map_values(|s: String| s@);
        assert(gv[i as int] == (grave_records@[i as int].0@, grave_records@[i as int].1@));
        let k = grave_records[i].0.clone();
        assert(k@ == gv[i as int].0);
        grave_keys.push(k);
        assert(grave_keys@.map_values(|s: String| s@) =~= before.push(gv[i as int].0));
        assert(gv.subrange(0, i + 1).map_values(|p: (Seq<char>, Seq<char>)| p.0) =~= gv.subrange(0, i as int).map_values(
            |p: (Seq<char>, Seq<char>)| p.0,
        ).push(gv[i as int].0));
        assert(grave_keys@.map_values(|s: String| s@) =~= gv.subrange(0, i + 1).map_values(
            |p: (Seq<char>, Seq<char>)| p.0,
        ));
        i = i + 1;
    }
    assert(gv.subrange(0, i as int) =~= gv);
    let ghost lv = pairs_view(table_records@);
    let mut tables: Vec<ListTable> = Vec::new();
    let mut j: usize = 0;
    while j < table_records.len()
        invariant
            j <= table_records@.len(),
            lv == pairs_view(table_records@),
            file_records(file_view(lists)) == Decoded::Value(lv),
            forall|k: int| 0 <= k < lv.len() ==> record_ok(#[trigger] lv[k].1),
            tables_view(tables@) == lv.subrange(0, j as int).map_values(|p: (Seq<char>, Seq<char>)| record_table(p)),
        decreases table_records@.len() - j,
    {
        assert(lv[j as int] == (table_records@[j as int].0@, table_records@[j as int].1@));
        assert(record_ok(lv[j as int].1));
        let t = read_table(&table_records[j].0, &table_records[j].1);
        let ghost before = tables_view(tables@);
        tables.push(t);
        assert(tables_view(tables@) =~= before.push(record_table(lv[j as int])));
        assert(lv.subrange(0, j + 1).map_values(|p: (Seq<char>, Seq<char>)| record_table(p)) =~= lv.subrange(
            0,
            j as int,
        ).map_values(|p: (Seq<char>, Seq<char>)| record_table(p)).push(record_table(lv[j as int])));
        assert(tables_view(tables@) =~= lv.subrange(0, j + 1).map_values(
            |p: (Seq<char>, Seq<char>)| record_table(p),
        ));
        j = j + 1;
    }
    assert(lv.subrange(0, j as int) =~= lv);
    let cache_buffer = match cache {
        Some(b) => crate::bytes::copy_range(b.as_slice(), 0, b.len()),
        None => Vec::new(),
    };
    proof {
        match cache {
            Some(b) => {
                assert(b@.subrange(0, b@.len() as int) =~= b@);
            },
            None => {},
        }
    }
    Ok(ListStore { name: name.to_owned(), cache_buffer, cache: cache_records, graves: grave_keys, lists: tables })
}


/// Whether the two-character groups of the text after its prefix can be
/// sliced out.
fn check_slices(val: &str) -> (r: bool)
    ensures
        r == slices_ok(encode_utf8(val@)),
{
    let b = val.as_bytes();
    let n = b.len();
    proof {
        vstd::utf8::encode_utf8_valid_utf8(val@);
    }
    if n < 2 {
        return true;
    }
    if n % 2 != 0 {
        return false;
    }
    let mut k: usize = 0;
    while k < (n - 2) / 2
        invariant
            n == b@.len(),
            b@ == encode_utf8(val@),
            valid_utf8(b@),
            n >= 2,
            n % 2 == 0,
            k <= (n - 2) / 2,
            forall|j: int|
                0 <= j < k ==> #[trigger] is_char_boundary(b@, 2 * j + 2) && is_char_boundary(b@, 2 * j + 4),
        decreases (n - 2) / 2 - k,
    {
        if !(val.is_char_boundary(2 * k + 2) && val.is_char_boundary(2 * k + 4)) {
            assert(!(is_char_boundary(b@, 2 * k + 2) && is_char_boundary(b@, 2 * k + 4)));
            return false;
        }
        k = k + 1;
    }
    let ghost bs = encode_utf8(val@);
    assert(((n - 2) / 2) as int == (bs.len() - 2) / 2);
    assert(k == (n - 2) / 2);
    assert forall|j: int| 0 <= j < (bs.len() - 2) / 2 implies #[trigger] is_char_boundary(bs, 2 * j + 2)
        && is_char_boundary(bs, 2 * j + 4) by {
        assert(0 <= j < k);
        assert(is_char_boundary(b@, 2 * j + 2) && is_char_boundary(b@, 2 * j + 4));
    }
    assert(bs.len() % 2 == 0);
    assert(valid_utf8(bs));
    assert(bs.len() < 2 || (bs.len() % 2 == 0 && valid_utf8(bs) && forall|j: int|
        0 <= j < (bs.len() - 2) / 2 ==> #[trigger] is_char_boundary(bs, 2 * j + 2) && is_char_boundary(bs, 2 * j + 4)));
    assert(slices_ok(bs));
    true
}

/// Whether every two-character group of the text after its prefix reads as
/// a byte in base 16.
fn check_pairs(val: &str) -> (r: bool)
    ensures
        r == pairs_ok(encode_utf8(val@)),
{
    let b = val.as_bytes();
    let n = b.len();
    if n < 2 {
        return true;
    }
    let mut k: usize = 0;
    while k < (n - 2) / 2
        invariant
            n == b@.len(),
            b@ == encode_utf8(val@),
            n >= 2,
            k <= (n - 2) / 2,
            forall|j: int| 0 <= j < k ==> #[trigger] pair_ok(b@[2 * j + 2], b@[2 * j + 3]),
        decreases (n - 2) / 2 - k,
    {
        let b1 = b[2 * k + 2];
        let b2 = b[2 * k + 3];
        if !((is_hex_digit_exec(b1) || b1 == 43) && is_hex_digit_exec(b2)) {
            assert(!pair_ok(b@[2 * k + 2], b@[2 * k + 3]));
            return false;
        }
        k = k + 1;
    }
    let ghost bs = encode_utf8(val@);
    assert(((n - 2) / 2) as int == (bs.len() - 2) / 2);
    assert forall|j: int| 0 <= j < (bs.len() - 2) / 2 implies #[trigger] pair_ok(bs[2 * j + 2], bs[2 * j + 3]) by {}
    true
}

/// Whether reading the items of a stellar-notation list panics.
fn items_panic(b: &Vec<u8>) -> (r: bool)
    ensures
        r == stellar_items(b@, 0) is Panics,
{
    let len = b.len();
    let mut i: usize = 0;
    while i < len
        invariant
            i <= len == b@.len(),
            stellar_items(b@, 0) is Panics <==> stellar_items(b@, i as int) is Panics,
        decreases len - i,
    {
        let w = b[i] as usize;
        let j = i + 1;
        if w == 1 || w == 2 || w == 4 || w == 8 {
            if w > len - j {
                return true;
            }
            let n = read_le(b.as_slice(), j, w) as usize;
            let s = j + w;
            if n > len - s {
                return true;
            }
            if string_from_utf8(copy_range(b.as_slice(), s, s + n)).is_none() {
                return false;
            }
            i = s + n;
        } else {
            i = j;
        }
    }
    false
}

/// Whether a table record's value reads (see `record_ok`).
fn check_record(value: &String) -> (r: bool)
    ensures
        r == record_ok(value@),
{
    let v = value.as_str();
    if !check_slices(v) || !check_pairs(v) {
        return false;
    }
    let bytes = stellar_as_bytes(v).unwrap();
    if items_panic(&bytes) {
        return false;
    }
    let items = match stellar_as_list(v) {
        Some(items) => items,
        None => {
            return false;
        },
    };
    let ghost iv = strings_view(items@);
    assert(iv == record_items(value@));
    if items.len() < 2 {
        return false;
    }
    assert(iv[0] == items@[0]@ && iv[1] == items@[1]@);
    let first = items[0].as_str();
    if !check_slices(first) || !check_pairs(first) {
        return false;
    }
    if stellar_as_bytes(first).unwrap().len() != 1 {
        return false;
    }
    let second = items[1].as_str();
    check_slices(second) && check_pairs(second)
}

/// The files can be opened: the decoder does not panic on any file present,
/// and each table record's value reads.
pub open spec fn files_open(cache: Option<Seq<u8>>, graves: Option<Seq<u8>>, lists: Option<Seq<u8>>) -> bool {
    &&& file_ok(cache)
    &&& file_ok(graves)
    &&& file_ok(lists)
    &&& file_records(lists) matches Decoded::Value(recs) ==> forall|i: int|
        0 <= i < recs.len() ==> record_ok(#[trigger] recs[i].1)
}

/// Whether the files present decode without panicking.
fn check_file(f: Option<&Vec<u8>>) -> (r: bool)
    ensures
        r == file_ok(file_view(f)),
{
    match f {
        Some(b) => !list_panics(b),
        None => true,
    }
}

/// Opens the store called `name` as `open_list_store` does, where the files
/// can be opened; gives `None` where opening them would panic.
pub fn try_open_list_store(
    name: &str,
    cache: Option<&Vec<u8>>,
    graves: Option<&Vec<u8>>,
    lists: Option<&Vec<u8>>,
) -> (r: Option<Result<ListStore, NeutronError>>)
    ensures
        r is Some <==> files_open(file_view(cache), file_view(graves), file_view(lists)),
        r is Some ==> opened(name, file_view(cache), file_view(graves), file_view(lists), r->0),
{
    if !check_file(cache) || !check_file(graves) || !check_file(lists) {
        return None;
    }
    if let Some(l) = lists {
        if let Ok(recs) = decode_list(l) {
            let ghost rv = pairs_view(recs@);
            assert(file_records(file_view(lists)) == Decoded::Value(rv));
            let mut i: usize = 0;
            while i < recs.len()
                invariant
                    i <= recs@.len(),
                    rv == pairs_view(recs@),
                    file_records(file_view(lists)) == Decoded::Value(rv),
                    forall|k: int| 0 <= k < i ==> record_ok(#[trigger] rv[k].1),
                decreases recs@.len() - i,
            {
                assert(rv[i as int].1 == recs@[i as int].1@);
                if !check_record(&recs[i].1) {
                    assert(!record_ok(rv[i as int].1));
                    assert(rv.len() == recs@.len());
                    proof {
                        if files_open(file_view(cache), file_view(graves), file_view(lists)) {
                            match file_records(file_view(lists)) {
                                Decoded::Value(recs2) => {
                                    assert(recs2 == rv);
                                    assert(record_ok(recs2[i as int].1));
                                },
                                _ => {},
                            }
                        }
                    }
                    return None;
                }
                i = i + 1;
            }
        }
    }
    Some(open_list_store(name, cache, graves, lists))
}

} // verus!
