//! A store kept in text files of astro-notation lines: a graves file (one
//! hex-encoded key per line), a meta file (a table's name, level and bloom
//! filter per line) and a log (put and delete records per line). Opening
//! the store reads the graves and tables and replays the log into the cache.
use vstd::prelude::*;
use vstd::utf8::{encode_utf8, decode_utf8, valid_utf8, is_char_boundary};
use crate::bytes::{string_from_utf8, push_all, from_be};
use crate::error::NeutronError;
use crate::linked_list::pairs_view;
use crate::entries::{entry_map, keys_unique, lemma_entry_map_update, lemma_entry_map_insert};
use crate::bloom_filter::{insert as filter_insert, key_positions, toggle_all, all_toggled, lemma_inserted_key_is_found, lemma_insert_keeps_found};
use crate::store::{HashOrder, lex_lt, compare_bytes, lemma_lex_irreflexive, lemma_lex_transitive, lemma_lex_total};

verus! {

/// An ASCII hexadecimal digit.
pub open spec fn is_hex_digit(b: u8) -> bool {
    (48 <= b <= 57) || (65 <= b <= 70) || (97 <= b <= 102)
}

/// The value of a hexadecimal digit.
pub open spec fn hex_value(b: u8) -> nat {
    if 48 <= b <= 57 {
        (b - 48) as nat
    } else if 65 <= b <= 70 {
        (b - 55) as nat
    } else {
        (b - 87) as nat
    }
}

/// A two-character group that reads as a byte in base 16: two digits, or a
/// plus sign and one digit.
pub open spec fn pair_ok(b1: u8, b2: u8) -> bool {
    (is_hex_digit(b1) || b1 == 43) && is_hex_digit(b2)
}

/// The byte that a two-character group reads as.
pub open spec fn pair_value(b1: u8, b2: u8) -> u8 {
    if b1 == 43 {
        hex_value(b2) as u8
    } else {
        (16 * hex_value(b1) + hex_value(b2)) as u8
    }
}

/// Text (by its bytes) that reads as hexadecimal bytes: shorter than two
/// bytes, or a two-byte prefix followed by whole groups that read as bytes.
pub open spec fn hex_ok(s: Seq<u8>) -> bool {
    s.len() < 2 || (s.len() % 2 == 0 && forall|k: int|
        0 <= k < (s.len() - 2) / 2 ==> #[trigger] pair_ok(s[2 * k + 2], s[2 * k + 3]))
}

/// The bytes that hexadecimal text reads as, after its two-byte prefix.
pub open spec fn hex_bytes(s: Seq<u8>) -> Seq<u8> {
    if s.len() < 2 {
        Seq::empty()
    } else {
        Seq::new(((s.len() - 2) / 2) as nat, |k: int| pair_value(s[2 * k + 2], s[2 * k + 3]))
    }
}

/// Calls `astro_notation::decode::as_bytes`. Claimed, as its source shows:
/// on text whose groups after the two-character prefix read as base-16
/// bytes, the result is those bytes.
#[verifier::external_body]
fn astro_as_bytes(input: &str) -> (r: Vec<u8>)
    requires
        hex_ok(encode_utf8(input@)),
    ensures
        r@ == hex_bytes(encode_utf8(input@)),
{
    astro_notation::decode::as_bytes(input)
}

/// Calls `astro_notation::decode::as_u8`. Claimed, as its source shows: on
/// text that reads as exactly one base-16 byte, the result is that byte.
#[verifier::external_body]
fn astro_as_u8(input: &str) -> (r: u8)
    requires
        hex_ok(encode_utf8(input@)),
        hex_bytes(encode_utf8(input@)).len() == 1,
    ensures
        r == hex_bytes(encode_utf8(input@))[0],
{
    astro_notation::decode::as_u8(input)
}

/// Calls `astro_notation::decode::as_u64`. Claimed, as its source shows: on
/// text that reads as exactly eight base-16 bytes, the result is the number
/// those bytes stand for in big-endian order.
#[verifier::external_body]
fn astro_as_u64(input: &str) -> (r: u64)
    requires
        hex_ok(encode_utf8(input@)),
        hex_bytes(encode_utf8(input@)).len() == 8,
    ensures
        r as nat == from_be(hex_bytes(encode_utf8(input@))),
{
    astro_notation::decode::as_u64(input)
}

/// Calls `astro_notation::decode::as_str`. Claimed, as its source shows: on
/// text that reads as base-16 bytes forming valid UTF-8, the result is the
/// text those bytes encode.
#[verifier::external_body]
fn astro_as_str(input: &str) -> (r: String)
    requires
        hex_ok(encode_utf8(input@)),
        valid_utf8(hex_bytes(encode_utf8(input@))),
    ensures
        r@ == decode_utf8(hex_bytes(encode_utf8(input@))),
{
    astro_notation::decode::as_str(input)
}

pub(crate) fn is_hex_digit_exec(b: u8) -> (r: bool)
    ensures
        r == is_hex_digit(b),
{
    (48 <= b && b <= 57) || (65 <= b && b <= 70) || (97 <= b && b <= 102)
}

/// Whether text reads as hexadecimal bytes.
fn check_hex(input: &str) -> (r: bool)
    ensures
        r == hex_ok(encode_utf8(input@)),
{
    let b = input.as_bytes();
    let n = b.len();
    if n < 2 {
        return true;
    }
    if n % 2 != 0 {
        return false;
    }
    let mut k: usize = 0;
    while k < (n - 2) / 2
        invariant
            n == b@.len() == encode_utf8(input@).len(),
            b@ == encode_utf8(input@),
            n >= 2,
            n % 2 == 0,
            k <= (n - 2) / 2,
            forall|j: int| 0 <= j < k ==> #[trigger] pair_ok(b@[2 * j + 2], b@[2 * j + 3]),
        decreases (n - 2) / 2 - k,
    {
        let b1 = b[2 * k + 2];
        let b2 = b[2 * k + 3];
        if !((is_hex_digit_exec(b1) || b1 == 43) && is_hex_digit_exec(b2)) {
            assert(!pair_ok(b@[2 * k + 2], b@[2 * k + 3]));
            return false;
        }
        k = k + 1;
    }
    true
}

/// The pieces of a line between its spaces.
pub open spec fn split_spaces(b: Seq<u8>) -> Seq<Seq<u8>>
    decreases b.len(),
{
    match first_space(b, 0) {
        Some(i) => {
            proof {
                lemma_first_space(b, 0);
            }
            seq![b.subrange(0, i)] + split_spaces(b.subrange(i + 1, b.len() as int))
        },
        None => seq![b],
    }
}

/// The position of the first space at or after `j`.
pub open spec fn first_space(b: Seq<u8>, j: int) -> Option<int>
    decreases b.len() - j,
{
    if j < 0 || j >= b.len() {
        None
    } else if b[j] == 32 {
        Some(j)
    } else {
        first_space(b, j + 1)
    }
}

pub proof fn lemma_first_space(b: Seq<u8>, j: int)
    requires
        0 <= j,
    ensures
        first_space(b, j) matches Some(i) ==> j <= i < b.len() && b[i] == 32 && forall|k: int| j <= k < i ==> b[k] != 32,
        first_space(b, j) is None ==> forall|k: int| j <= k < b.len() ==> b[k] != 32,
    decreases b.len() - j,
{
    if j < b.len() && b[j] != 32 {
        lemma_first_space(b, j + 1);
    }
}

/// Splits a line at its spaces.
fn split_line<'a>(line: &'a str) -> (r: Vec<&'a str>)
    ensures
        r@.map_values(|s: &str| encode_utf8(s@)) == split_spaces(encode_utf8(line@)),
{
    let mut rest: &'a str = line;
    let mut out: Vec<&'a str> = Vec::new();
    let ghost whole = encode_utf8(line@);
    loop
        invariant
            whole == encode_utf8(line@),
            out@.map_values(|s: &str| encode_utf8(s@)) + split_spaces(encode_utf8(rest@)) == split_spaces(whole),
        decreases encode_utf8(rest@).len(),
    {
        let b = rest.as_bytes();
        let n = b.len();
        let ghost rb = encode_utf8(rest@);
        let mut i: usize = 0;
        while i < n
            invariant
                n == b@.len(),
                b@ == rb,
                i <= n,
                forall|k: int| 0 <= k < i ==> b@[k] != 32,
            ensures
                i <= n,
                forall|k: int| 0 <= k < i ==> b@[k] != 32,
                i < n ==> b@[i as int] == 32,
            decreases n - i,
        {
            if b[i] == 32 {
                break;
            }
            i = i + 1;
        }
        proof {
            lemma_first_space(rb, 0);
            vstd::utf8::encode_utf8_valid_utf8(rest@);
        }
        if i == n {
            assert(first_space(rb, 0) is None) by {
                if first_space(rb, 0) is Some {
                    let j = first_space(rb, 0)->0;
                    assert(rb[j] == 32);
                }
            }
            let ghost before = out@.map_values(|s: &str| encode_utf8(s@));
            out.push(rest);
            assert(out@.map_values(|s: &str| encode_utf8(s@)) =~= before.push(rb));
            assert(before + split_spaces(rb) =~= before.push(rb));
            return out;
        }
        assert(first_space(rb, 0) == Some(i as int)) by {
            if first_space(rb, 0) != Some(i as int) {
                match first_space(rb, 0) {
                    Some(j) => {
                        if j < i {
                        } else {
                            assert(rb[i as int] == 32);
                        }
                    },
                    None => {
                        assert(rb[i as int] == 32);
                    },
                }
            }
        }
        proof {
            vstd::utf8::is_char_boundary_iff_is_leading_byte(rb, i as int);
        }
        let (piece, tail) = rest.split_at(i);
        proof {
            vstd::utf8::encode_utf8_valid_utf8(tail@);
            let tb = encode_utf8(tail@);
            assert(tb[0] == 32);
            if tb.len() > 1 {
                lemma_ascii_boundary(tb);
            } else {
                vstd::utf8::is_char_boundary_start_end_of_seq(tb);
            }
        }
        let (_, after) = tail.split_at(1);
        let ghost before = out@.map_values(|s: &str| encode_utf8(s@));
        out.push(piece);
        proof {
            assert(out@.map_values(|s: &str| encode_utf8(s@)) =~= before.push(rb.subrange(0, i as int)));
            assert(encode_utf8(after@) =~= rb.subrange(i + 1, rb.len() as int));
            assert(before.push(rb.subrange(0, i as int)) + split_spaces(encode_utf8(after@)) =~= before + split_spaces(rb));
        }
        rest = after;
    }
}

/// After an ASCII byte at the start of valid UTF-8, the next position is a
/// character boundary.
proof fn lemma_ascii_boundary(b: Seq<u8>)
    requires
        valid_utf8(b),
        b.len() > 1,
        b[0] < 128,
    ensures
        is_char_boundary(b, 1),
{
    reveal_with_fuel(is_char_boundary, 2);
}

/// A field that reads as text: hexadecimal bytes that are valid UTF-8.
pub open spec fn str_field_ok(b: Seq<u8>) -> bool {
    hex_ok(b) && valid_utf8(hex_bytes(b))
}

/// The text that a field reads as.
pub open spec fn str_field(b: Seq<u8>) -> Seq<char> {
    decode_utf8(hex_bytes(b))
}

/// A field that reads as one byte.
pub open spec fn u8_field_ok(b: Seq<u8>) -> bool {
    hex_ok(b) && hex_bytes(b).len() == 1
}

/// The keys of the graves file, one per line; `None` where a line does not
/// read as text.
pub open spec fn read_graves(lines: Seq<Seq<u8>>) -> Option<Seq<Seq<char>>>
    decreases lines.len(),
{
    if lines.len() == 0 {
        Some(Seq::empty())
    } else {
        match read_graves(lines.drop_last()) {
            Some(g) => if str_field_ok(lines.last()) {
                Some(g.push(str_field(lines.last())))
            } else {
                None
            },
            None => None,
        }
    }
}

/// A line of the meta file: a table's name, level and bloom filter; `None`
/// where the line has fewer fields or a field does not read.
pub open spec fn meta_line(b: Seq<u8>) -> Option<(Seq<char>, u8, Seq<u8>)> {
    let f = split_spaces(b);
    if f.len() >= 3 && str_field_ok(f[0]) && u8_field_ok(f[1]) && hex_ok(f[2]) {
        Some((str_field(f[0]), hex_bytes(f[1])[0], hex_bytes(f[2])))
    } else {
        None
    }
}

/// The tables of the meta file, one per line.
pub open spec fn read_meta(lines: Seq<Seq<u8>>) -> Option<Seq<(Seq<char>, u8, Seq<u8>)>>
    decreases lines.len(),
{
    if lines.len() == 0 {
        Some(Seq::empty())
    } else {
        match (read_meta(lines.drop_last()), meta_line(lines.last())) {
            (Some(m), Some(t)) => Some(m.push(t)),
            _ => None,
        }
    }
}

/// A record of the log.
pub enum TextRecord {
    /// Type 1: a key and its value.
    Put(Seq<char>, Seq<char>),
    /// Type 2: a deleted key.
    Grave(Seq<char>),
    /// Any other type.
    Skip,
}

/// A line of the log; `None` where its type, or a field that its type
/// reads, does not read.
pub open spec fn log_line(b: Seq<u8>) -> Option<TextRecord> {
    let f = split_spaces(b);
    if !u8_field_ok(f[0]) {
        None
    } else if hex_bytes(f[0])[0] == 1 {
        if f.len() >= 3 && str_field_ok(f[1]) && str_field_ok(f[2]) {
            Some(TextRecord::Put(str_field(f[1]), str_field(f[2])))
        } else {
            None
        }
    } else if hex_bytes(f[0])[0] == 2 {
        if f.len() >= 2 && str_field_ok(f[1]) {
            Some(TextRecord::Grave(str_field(f[1])))
        } else {
            None
        }
    } else {
        Some(TextRecord::Skip)
    }
}

/// The graves without `k`.
pub open spec fn remove_key(graves: Seq<Seq<char>>, k: Seq<char>) -> Seq<Seq<char>>
    decreases graves.len(),
{
    if graves.len() == 0 {
        graves
    } else if graves.last() == k {
        remove_key(graves.drop_last(), k)
    } else {
        remove_key(graves.drop_last(), k).push(graves.last())
    }
}

/// Replays log lines onto a cache and graves: a put appends to the cache
/// and removes the key from the graves, a grave is appended.
pub open spec fn replay_text(
    lines: Seq<Seq<u8>>,
    cache: Seq<(Seq<char>, Seq<char>)>,
    graves: Seq<Seq<char>>,
) -> Option<(Seq<(Seq<char>, Seq<char>)>, Seq<Seq<char>>)>
    decreases lines.len(),
{
    if lines.len() == 0 {
        Some((cache, graves))
    } else {
        match replay_text(lines.drop_last(), cache, graves) {
            Some((c, g)) => match log_line(lines.last()) {
                Some(TextRecord::Put(k, v)) => Some((c.push((k, v)), remove_key(g, k))),
                Some(TextRecord::Grave(k)) => Some((c, g.push(k))),
                Some(TextRecord::Skip) => Some((c, g)),
                None => None,
            },
            None => None,
        }
    }
}

/// The bytes of each line.
pub open spec fn lines_view(lines: Seq<String>) -> Seq<Seq<u8>> {
    lines.map_values(|s: String| encode_utf8(s@))
}

/// A table of the text store.
pub struct Table {
    pub name: String,
    pub level: u8,
    pub bloom_filter: Vec<u8>,
}

/// A text store: its directory, its cache of pairs in the order they were
/// put, its graves and its tables.
pub struct Store {
    pub directory: String,
    pub cache: Vec<(String, String)>,
    pub graves: Vec<String>,
    pub meta: Vec<Table>,
}

/// The tables as names, levels and bloom filters.
pub open spec fn meta_view(meta: Seq<Table>) -> Seq<(Seq<char>, u8, Seq<u8>)> {
    meta.map_values(|t: Table| (t.name@, t.level, t.bloom_filter@))
}

/// The graves as texts.
pub open spec fn graves_view(graves: Seq<String>) -> Seq<Seq<char>> {
    graves.map_values(|g: String| g@)
}

/// Reads a field as text: `None` where it does not read as hexadecimal
/// UTF-8 (where decoding it as text panics).
fn text_field(f: &str) -> (r: Option<String>)
    ensures
        r is Some <==> str_field_ok(encode_utf8(f@)),
        r is Some ==> r->0@ == str_field(encode_utf8(f@)),
{
    if !check_hex(f) {
        return None;
    }
    let bytes = astro_as_bytes(f);
    match string_from_utf8(bytes) {
        Some(_) => Some(astro_as_str(f)),
        None => None,
    }
}

/// Reads a field as text through its bytes: `None` where they are not
/// hexadecimal UTF-8.
fn bytes_text_field(f: &str) -> (r: Option<String>)
    ensures
        r is Some <==> str_field_ok(encode_utf8(f@)),
        r is Some ==> r->0@ == str_field(encode_utf8(f@)),
{
    if !check_hex(f) {
        return None;
    }
    string_from_utf8(astro_as_bytes(f))
}

/// Reads a field as one byte: `None` where it does not.
fn byte_field(f: &str) -> (r: Option<u8>)
    ensures
        r is Some <==> u8_field_ok(encode_utf8(f@)),
        r is Some ==> r->0 == hex_bytes(encode_utf8(f@))[0],
{
    let ghost b = encode_utf8(f@);
    let ok = check_hex(f);
    let n = f.as_bytes().len();
    assert(n == b.len());
    assert(b.len() >= 2 ==> hex_bytes(b).len() == (b.len() - 2) / 2);
    if !ok || n != 4 {
        return None;
    }
    Some(astro_as_u8(f))
}

/// The bytes of a store's directory: `./neutrondb/` and the store's name.
pub open spec fn directory_bytes(name: Seq<char>) -> Seq<u8> {
    encode_utf8("./neutrondb/"@) + encode_utf8(name)
}

/// A log line as read.
enum LineRecord {
    Put(String, String),
    Grave(String),
    Skip,
}

/// Reads a line of the meta file.
fn parse_meta_line(line: &str) -> (r: Option<Table>)
    ensures
        r is Some <==> meta_line(encode_utf8(line@)) is Some,
        r is Some ==> (r->0.name@, r->0.level, r->0.bloom_filter@) == meta_line(encode_utf8(line@))->0,
{
    let f = split_line(line);
    let ghost fv = f@.map_values(|x: &str| encode_utf8(x@));
    if f.len() < 3 {
        return None;
    }
    assert(fv[0] == encode_utf8(f@[0]@) && fv[1] == encode_utf8(f@[1]@) && fv[2] == encode_utf8(f@[2]@));
    let name = match text_field(f[0]) {
        Some(n) => n,
        None => {
            return None;
        },
    };
    let level = match byte_field(f[1]) {
        Some(l) => l,
        None => {
            return None;
        },
    };
    if !check_hex(f[2]) {
        return None;
    }
    let bloom_filter = astro_as_bytes(f[2]);
    Some(Table { name, level, bloom_filter })
}

/// Reads a line of the log.
fn parse_log_line(line: &str) -> (r: Option<LineRecord>)
    ensures
        r is Some <==> log_line(encode_utf8(line@)) is Some,
        r matches Some(LineRecord::Put(k, v)) ==> log_line(encode_utf8(line@)) == Some(TextRecord::Put(k@, v@)),
        r matches Some(LineRecord::Grave(k)) ==> log_line(encode_utf8(line@)) == Some(TextRecord::Grave(k@)),
        r matches Some(LineRecord::Skip) ==> log_line(encode_utf8(line@)) == Some(TextRecord::Skip),
{
    let f = split_line(line);
    let ghost fv = f@.map_values(|x: &str| encode_utf8(x@));
    assert(fv.len() >= 1);
    assert(fv[0] == encode_utf8(f@[0]@));
    let t = match byte_field(f[0]) {
        Some(t) => t,
        None => {
            return None;
        },
    };
    if t == 1 {
        if f.len() < 3 {
            return None;
        }
        assert(fv[1] == encode_utf8(f@[1]@) && fv[2] == encode_utf8(f@[2]@));
        let key = match bytes_text_field(f[1]) {
            Some(k) => k,
            None => {
                return None;
            },
        };
        let value = match bytes_text_field(f[2]) {
            Some(v) => v,
            None => {
                return None;
            },
        };
        Some(LineRecord::Put(key, value))
    } else if t == 2 {
        if f.len() < 2 {
            return None;
        }
        assert(fv[1] == encode_utf8(f@[1]@));
        match text_field(f[1]) {
            Some(k) => Some(LineRecord::Grave(k)),
            None => None,
        }
    } else {
        Some(LineRecord::Skip)
    }
}

/// Removes every grave equal to `key`.
fn remove_graves(graves: Vec<String>, key: &String) -> (r: Vec<String>)
    ensures
        graves_view(r@) == remove_key(graves_view(graves@), key@),
{
    let mut r: Vec<String> = Vec::new();
    let mut i: usize = 0;
    let ghost gv = graves_view(graves@);
    assert(gv.subrange(0, 0) =~= Seq::<Seq<char>>::empty());
    while i < graves.len()
        invariant
            i <= graves@.len(),
            gv == graves_view(graves@),
            graves_view(r@) == remove_key(gv.subrange(0, i as int), key@),
        decreases graves@.len() - i,
    {
        let ghost before = graves_view(r@);
        assert(gv.subrange(0, i + 1).drop_last() =~= gv.subrange(0, i as int));
        assert(gv.subrange(0, i + 1).last() == graves@[i as int]@);
        if !(graves[i] == *key) {
            r.push(graves[i].clone());
            assert(graves_view(r@) =~= before.push(graves@[i as int]@));
        }
        i = i + 1;
    }
    assert(gv.subrange(0, i as int) =~= gv);
    r
}

impl Store {
    /// Opens the text store called `name`, given the lines of its graves
    /// file, meta file and log (each empty where the file is missing): the
    /// graves, then the tables, then the log replayed. `None` where a line
    /// does not read (where opening panics).
    pub fn connect(name: &str, graves_lines: &Vec<String>, meta_lines: &Vec<String>, log_lines: &Vec<String>) -> (r: Option<Store>)
        ensures
            match (read_graves(lines_view(graves_lines@)), read_meta(lines_view(meta_lines@))) {
                (Some(g), Some(m)) => match replay_text(lines_view(log_lines@), Seq::empty(), g) {
                    Some((c, g2)) => {
                        &&& r is Some
                        &&& encode_utf8(r->0.directory@) == directory_bytes(name@)
                        &&& pairs_view(r->0.cache@) == c
                        &&& graves_view(r->0.graves@) == g2
                        &&& meta_view(r->0.meta@) == m
                    },
                    None => r is None,
                },
                _ => r is None,
            },
    {
        let prefix = "./neutrondb/";
        let mut d: Vec<u8> = Vec::new();
        push_all(&mut d, prefix.as_bytes());
        push_all(&mut d, name.as_bytes());
        proof {
            vstd::utf8::encode_utf8_valid_utf8(prefix@);
            vstd::utf8::encode_utf8_valid_utf8(name@);
            vstd::utf8::valid_utf8_concat(encode_utf8(prefix@), encode_utf8(name@));
            assert(d@ =~= directory_bytes(name@));
        }
        let directory = string_from_utf8(d).unwrap();
        proof {
            vstd::utf8::decode_utf8_encode_utf8(directory_bytes(name@));
        }
        // the graves file
        let ghost gl = lines_view(graves_lines@);
        let mut graves: Vec<String> = Vec::new();
        let mut i: usize = 0;
        assert(gl.subrange(0, 0) =~= Seq::<Seq<u8>>::empty());
        while i < graves_lines.len()
            invariant
                i <= graves_lines@.len(),
                gl == lines_view(graves_lines@),
                encode_utf8(directory@) == directory_bytes(name@),
                read_graves(gl.subrange(0, i as int)) == Some(graves_view(graves@)),
            decreases graves_lines@.len() - i,
        {
            assert(gl.subrange(0, i + 1).drop_last() =~= gl.subrange(0, i as int));
            assert(gl.subrange(0, i + 1).last() == encode_utf8(graves_lines@[i as int]@));
            match text_field(graves_lines[i].as_str()) {
                Some(g) => {
                    let ghost before = graves_view(graves@);
                    graves.push(g);
                    assert(graves_view(graves@) =~= before.push(g@));
                },
                None => {
                    assert(read_graves(gl) is None) by {
                        lemma_read_graves_stops(gl, i + 1);
                    }
                    return None;
                },
            }
            i = i + 1;
        }
        assert(gl.subrange(0, i as int) =~= gl);
        // the meta file
        let ghost ml = lines_view(meta_lines@);
        let mut meta: Vec<Table> = Vec::new();
        let mut j: usize = 0;
        assert(ml.subrange(0, 0) =~= Seq::<Seq<u8>>::empty());
        while j < meta_lines.len()
            invariant
                j <= meta_lines@.len(),
                ml == lines_view(meta_lines@),
                gl == lines_view(graves_lines@),
                encode_utf8(directory@) == directory_bytes(name@),
                read_graves(gl) == Some(graves_view(graves@)),
                read_meta(ml.subrange(0, j as int)) == Some(meta_view(meta@)),
            decreases meta_lines@.len() - j,
        {
            assert(ml.subrange(0, j + 1).drop_last() =~= ml.subrange(0, j as int));
            assert(ml.subrange(0, j + 1).last() == encode_utf8(meta_lines@[j as int]@));
            match parse_meta_line(meta_lines[j].as_str()) {
                Some(t) => {
                    let ghost before = meta_view(meta@);
                    meta.push(t);
                    assert(meta_view(meta@) =~= before.push(meta_line(ml[j as int])->0));
                },
                None => {
                    assert(read_meta(ml) is None) by {
                        lemma_read_meta_stops(ml, j + 1);
                    }
                    return None;
                },
            }
            j = j + 1;
        }
        assert(ml.subrange(0, j as int) =~= ml);
        // the log
        let ghost ll = lines_view(log_lines@);
        let ghost g0 = graves_view(graves@);
        let mut cache: Vec<(String, String)> = Vec::new();
        let mut k: usize = 0;
        assert(ll.subrange(0, 0) =~= Seq::<Seq<u8>>::empty());
        assert(pairs_view(cache@) =~= Seq::<(Seq<char>, Seq<char>)>::empty());
        while k < log_lines.len()
            invariant
                k <= log_lines@.len(),
                ll == lines_view(log_lines@),
                gl == lines_view(graves_lines@),
                ml == lines_view(meta_lines@),
                encode_utf8(directory@) == directory_bytes(name@),
                read_graves(gl) == Some(g0),
                read_meta(ml) == Some(meta_view(meta@)),
                replay_text(ll.subrange(0, k as int), Seq::empty(), g0) == Some((pairs_view(cache@), graves_view(graves@))),
            decreases log_lines@.len() - k,
        {
            assert(ll.subrange(0, k + 1).drop_last() =~= ll.subrange(0, k as int));
            assert(ll.subrange(0, k + 1).last() == encode_utf8(log_lines@[k as int]@));
            match parse_log_line(log_lines[k].as_str()) {
                Some(LineRecord::Put(key, value)) => {
                    let ghost before = pairs_view(cache@);
                    let mut g: Vec<String> = Vec::new();
                    std::mem::swap(&mut g, &mut graves);
                    graves = remove_graves(g, &key);
                    cache.push((key, value));
                    assert(pairs_view(cache@) =~= before.push((key@, value@)));
                },
                Some(LineRecord::Grave(key)) => {
                    let ghost before = graves_view(graves@);
                    graves.push(key);
                    assert(graves_view(graves@) =~= before.push(key@));
                },
                Some(LineRecord::Skip) => {},
                None => {
                    assert(replay_text(ll, Seq::empty(), g0) is None) by {
                        lemma_replay_text_stops(ll, g0, k + 1);
                    }
                    return None;
                },
            }
            k = k + 1;
        }
        assert(ll.subrange(0, k as int) =~= ll);
        Some(Store { directory, cache, graves, meta })
    }
}

/// Once a prefix of the graves lines does not read, neither do all of them.
proof fn lemma_read_graves_stops(lines: Seq<Seq<u8>>, n: int)
    requires
        0 <= n <= lines.len(),
        read_graves(lines.subrange(0, n)) is None,
    ensures
        read_graves(lines) is None,
    decreases lines.len() - n,
{
    if n < lines.len() {
        assert(lines.subrange(0, n + 1).drop_last() =~= lines.subrange(0, n));
        lemma_read_graves_stops(lines, n + 1);
    } else {
        assert(lines.subrange(0, n) =~= lines);
    }
}

/// Once a prefix of the meta lines does not read, neither do all of them.
proof fn lemma_read_meta_stops(lines: Seq<Seq<u8>>, n: int)
    requires
        0 <= n <= lines.len(),
        read_meta(lines.subrange(0, n)) is None,
    ensures
        read_meta(lines) is None,
    decreases lines.len() - n,
{
    if n < lines.len() {
        assert(lines.subrange(0, n + 1).drop_last() =~= lines.subrange(0, n));
        lemma_read_meta_stops(lines, n + 1);
    } else {
        assert(lines.subrange(0, n) =~= lines);
    }
}

/// Once a prefix of the log does not replay, neither does all of it.
proof fn lemma_replay_text_stops(lines: Seq<Seq<u8>>, graves: Seq<Seq<char>>, n: int)
    requires
        0 <= n <= lines.len(),
        replay_text(lines.subrange(0, n), Seq::empty(), graves) is None,
    ensures
        replay_text(lines, Seq::empty(), graves) is None,
    decreases lines.len() - n,
{
    if n < lines.len() {
        assert(lines.subrange(0, n + 1).drop_last() =~= lines.subrange(0, n));
        lemma_replay_text_stops(lines, graves, n + 1);
    } else {
        assert(lines.subrange(0, n) =~= lines);
    }
}

/// Key order: the keys' UTF-8 bytes in lexicographic order.
pub open spec fn key_lt(a: Seq<char>, b: Seq<char>) -> bool {
    lex_lt(encode_utf8(a), encode_utf8(b))
}

/// Entries in strictly increasing key order.
pub open spec fn pairs_sorted(s: Seq<(Seq<char>, Seq<char>)>) -> bool {
    forall|i: int, j: int| 0 <= i < j < s.len() ==> key_lt(#[trigger] s[i].0, #[trigger] s[j].0)
}

/// The entries of several lists, one list after another.
pub open spec fn concat_entries(lists: Seq<Seq<(Seq<char>, Seq<char>)>>) -> Seq<(Seq<char>, Seq<char>)>
    decreases lists.len(),
{
    if lists.len() == 0 {
        Seq::empty()
    } else {
        concat_entries(lists.drop_last()) + lists.last()
    }
}

/// Entries in strictly increasing key order have unique keys.
proof fn lemma_sorted_keys_unique(s: Seq<(Seq<char>, Seq<char>)>)
    requires
        pairs_sorted(s),
    ensures
        keys_unique(s),
{
    assert forall|i: int, j: int| 0 <= i < j < s.len() implies (#[trigger] s[i].0) != (#[trigger] s[j].0) by {
        if s[i].0 == s[j].0 {
            lemma_lex_irreflexive(encode_utf8(s[i].0));
            assert(key_lt(s[i].0, s[j].0));
        }
    }
}

/// Putting a new key at its place keeps the entries in key order.
proof fn lemma_sorted_insert(s: Seq<(Seq<char>, Seq<char>)>, j: int, e: (Seq<char>, Seq<char>))
    requires
        pairs_sorted(s),
        0 <= j <= s.len(),
        forall|i: int| 0 <= i < j ==> key_lt(#[trigger] s[i].0, e.0),
        j < s.len() ==> key_lt(e.0, s[j].0),
    ensures
        pairs_sorted(s.insert(j, e)),
{
    let t = s.insert(j, e);
    assert forall|a: int, b: int| 0 <= a < b < t.len() implies key_lt(#[trigger] t[a].0, #[trigger] t[b].0) by {
        if a < j && b < j {
        } else if a < j && b == j {
        } else if a < j && b > j {
            assert(t[b] == s[b - 1]);
        } else if a == j {
            assert(t[b] == s[b - 1]);
            if b - 1 > j {
                lemma_lex_transitive(encode_utf8(e.0), encode_utf8(s[j].0), encode_utf8(s[b - 1].0));
            }
        } else {
            assert(t[a] == s[a - 1]);
            assert(t[b] == s[b - 1]);
        }
    }
}

/// Sets the value of `key` among entries in key order, keeping the order.
fn upsert(entries: &mut Vec<(String, String)>, key: String, value: String)
    requires
        pairs_sorted(pairs_view(old(entries)@)),
    ensures
        pairs_sorted(pairs_view(final(entries)@)),
        entry_map(pairs_view(final(entries)@)) == entry_map(pairs_view(old(entries)@)).insert(key@, value@),
{
    let ghost s = pairs_view(entries@);
    let ghost kb = encode_utf8(key@);
    let mut j: usize = 0;
    while j < entries.len()
        invariant
            j <= entries@.len(),
            s == pairs_view(entries@),
            kb == encode_utf8(key@),
            forall|i: int| 0 <= i < j ==> key_lt(#[trigger] s[i].0, key@),
        ensures
            j <= entries@.len(),
            s == pairs_view(entries@),
            forall|i: int| 0 <= i < j ==> key_lt(#[trigger] s[i].0, key@),
            j < entries@.len() ==> !key_lt(s[j as int].0, key@),
        decreases entries@.len() - j,
    {
        assert(s[j as int].0 == entries@[j as int].0@);
        match compare_bytes(entries[j].0.as_str().as_bytes(), key.as_str().as_bytes()) {
            HashOrder::Less => {},
            _ => {
                break;
            },
        }
        j = j + 1;
    }
    proof {
        lemma_sorted_keys_unique(s);
    }
    let ghost e = (key@, value@);
    let found = if j < entries.len() {
        assert(s[j as int].0 == entries@[j as int].0@);
        match compare_bytes(entries[j].0.as_str().as_bytes(), key.as_str().as_bytes()) {
            HashOrder::Equal => true,
            _ => false,
        }
    } else {
        false
    };
    if found {
        proof {
            vstd::utf8::encode_utf8_decode_utf8(s[j as int].0);
            vstd::utf8::encode_utf8_decode_utf8(key@);
            assert(s[j as int].0 == key@);
            lemma_entry_map_update(s, j as int, e);
        }
        entries.set(j, (key, value));
        proof {
            let t = pairs_view(entries@);
            assert(t =~= s.update(j as int, e));
            assert forall|a: int, b: int| 0 <= a < b < t.len() implies key_lt(#[trigger] t[a].0, #[trigger] t[b].0) by {
                assert(t[a].0 == s[a].0 && t[b].0 == s[b].0);
            }
        }
    } else {
        proof {
            if j < s.len() {
                vstd::utf8::encode_utf8_decode_utf8(s[j as int].0);
                vstd::utf8::encode_utf8_decode_utf8(key@);
                lemma_lex_total(encode_utf8(s[j as int].0), kb);
                assert(key_lt(key@, s[j as int].0));
            }
            assert forall|i: int| 0 <= i < s.len() implies (#[trigger] s[i]).0 != key@ by {
                if i >= j {
                    if i > j {
                        lemma_lex_transitive(kb, encode_utf8(s[j as int].0), encode_utf8(s[i].0));
                    }
                    if s[i].0 == key@ {
                        lemma_lex_irreflexive(kb);
                    }
                } else {
                    if s[i].0 == key@ {
                        lemma_lex_irreflexive(kb);
                    }
                }
            }
            lemma_entry_map_insert(s, j as int, e);
            lemma_sorted_insert(s, j as int, e);
        }
        entries.insert(j, (key, value));
        proof {
            assert(pairs_view(entries@) =~= s.insert(j as int, e));
        }
    }
}

/// The entries of several lists and then those of `last`, merged into one
/// entry per key, the last one given, in key order.
pub fn merge_latest(tables: &Vec<Vec<(String, String)>>, last: &Vec<(String, String)>) -> (r: Vec<(String, String)>)
    ensures
        pairs_sorted(pairs_view(r@)),
        entry_map(pairs_view(r@)) == entry_map(
            concat_entries(tables@.map_values(|t: Vec<(String, String)>| pairs_view(t@))) + pairs_view(last@),
        ),
{
    let ghost lists = tables@.map_values(|t: Vec<(String, String)>| pairs_view(t@));
    let mut r: Vec<(String, String)> = Vec::new();
    let mut t: usize = 0;
    assert(lists.subrange(0, 0) =~= Seq::<Seq<(Seq<char>, Seq<char>)>>::empty());
    assert(pairs_view(r@) =~= Seq::<(Seq<char>, Seq<char>)>::empty());
    while t < tables.len()
        invariant
            t <= tables@.len(),
            lists == tables@.map_values(|t: Vec<(String, String)>| pairs_view(t@)),
            pairs_sorted(pairs_view(r@)),
            entry_map(pairs_view(r@)) == entry_map(concat_entries(lists.subrange(0, t as int))),
        decreases tables@.len() - t,
    {
        let ghost before = concat_entries(lists.subrange(0, t as int));
        let mut i: usize = 0;
        let ghost list = pairs_view(tables@[t as int]@);
        assert(lists[t as int] == list);
        while i < tables[t].len()
            invariant
                i <= list.len(),
                t < tables@.len(),
                list == pairs_view(tables@[t as int]@),
                pairs_sorted(pairs_view(r@)),
                entry_map(pairs_view(r@)) == entry_map(before + list.subrange(0, i as int)),
            decreases list.len() - i,
        {
            let k = tables[t][i].0.clone();
            let v = tables[t][i].1.clone();
            assert(k@ == list[i as int].0 && v@ == list[i as int].1);
            upsert(&mut r, k, v);
            assert((before + list.subrange(0, i + 1)).drop_last() =~= before + list.subrange(0, i as int));
            i = i + 1;
        }
        assert(list.subrange(0, i as int) =~= list);
        assert(lists.subrange(0, t + 1).drop_last() =~= lists.subrange(0, t as int));
        t = t + 1;
    }
    assert(lists.subrange(0, t as int) =~= lists);
    let ghost all = concat_entries(lists);
    let ghost cache = pairs_view(last@);
    let mut c: usize = 0;
    assert(all + cache.subrange(0, 0) =~= all);
    while c < last.len()
        invariant
            c <= cache.len(),
            cache == pairs_view(last@),
            pairs_sorted(pairs_view(r@)),
            entry_map(pairs_view(r@)) == entry_map(all + cache.subrange(0, c as int)),
        decreases cache.len() - c,
    {
        let k = last[c].0.clone();
        let v = last[c].1.clone();
        assert(k@ == cache[c as int].0 && v@ == cache[c as int].1);
        upsert(&mut r, k, v);
        assert((all + cache.subrange(0, c + 1)).drop_last() =~= all + cache.subrange(0, c as int));
        c = c + 1;
    }
    assert(cache.subrange(0, c as int) =~= cache);
    r
}

impl Store {
    /// Every entry of the store, given the entries read from each of its
    /// tables (in the order of the tables): the tables' entries, then the
    /// cache's, merged into one entry per key, the last one given, in key
    /// order.
    pub fn latest_entries(&self, tables: &Vec<Vec<(String, String)>>) -> (r: Vec<(String, String)>)
        ensures
            pairs_sorted(pairs_view(r@)),
            entry_map(pairs_view(r@)) == entry_map(
                concat_entries(tables@.map_values(|t: Vec<(String, String)>| pairs_view(t@))) + pairs_view(self.cache@),
            ),
    {
        merge_latest(tables, &self.cache)
    }
}

/// Whether some entry has the key `k`.
pub open spec fn has_key(entries: Seq<(Seq<char>, Seq<char>)>, k: Seq<char>) -> bool {
    exists|i: int| 0 <= i < entries.len() && entries[i].0 == k
}

/// The entries whose key is not a grave.
pub open spec fn without_graves(entries: Seq<(Seq<char>, Seq<char>)>, graves: Seq<Seq<char>>) -> Seq<(Seq<char>, Seq<char>)>
    decreases entries.len(),
{
    if entries.len() == 0 {
        entries
    } else if graves.contains(entries.last().0) {
        without_graves(entries.drop_last(), graves)
    } else {
        without_graves(entries.drop_last(), graves).push(entries.last())
    }
}

/// The graves that no entry has as its key.
pub open spec fn unmatched_graves(graves: Seq<Seq<char>>, entries: Seq<(Seq<char>, Seq<char>)>) -> Seq<Seq<char>>
    decreases graves.len(),
{
    if graves.len() == 0 {
        graves
    } else if has_key(entries, graves.last()) {
        unmatched_graves(graves.drop_last(), entries)
    } else {
        unmatched_graves(graves.drop_last(), entries).push(graves.last())
    }
}

/// Purges the graves from a level's entries when compacting them: every
/// entry whose key is a grave is dropped, and every grave that some entry
/// had as its key is forgotten; the rest keep their order.
pub fn purge_graves(entries: Vec<(String, String)>, graves: Vec<String>) -> (r: (Vec<(String, String)>, Vec<String>))
    ensures
        pairs_view(r.0@) == without_graves(pairs_view(entries@), graves_view(graves@)),
        graves_view(r.1@) == unmatched_graves(graves_view(graves@), pairs_view(entries@)),
{
    let ghost ev = pairs_view(entries@);
    let ghost gv = graves_view(graves@);
    let mut kept: Vec<(String, String)> = Vec::new();
    let mut i: usize = 0;
    assert(ev.subrange(0, 0) =~= Seq::<(Seq<char>, Seq<char>)>::empty());
    while i < entries.len()
        invariant
            i <= entries@.len(),
            ev == pairs_view(entries@),
            gv == graves_view(graves@),
            pairs_view(kept@) == without_graves(ev.subrange(0, i as int), gv),
        decreases entries@.len() - i,
    {
        let mut is_grave = false;
        let mut j: usize = 0;
        while j < graves.len()
            invariant
                j <= graves@.len(),
                i < entries@.len(),
                gv == graves_view(graves@),
                is_grave <==> exists|m: int| 0 <= m < j && gv[m] == entries@[i as int].0@,
            decreases graves@.len() - j,
        {
            if graves[j] == entries[i].0 {
                is_grave = true;
            }
            assert(gv[j as int] == graves@[j as int]@);
            assert(is_grave <==> exists|m: int| 0 <= m < j + 1 && gv[m] == entries@[i as int].0@) by {
                if gv[j as int] == entries@[i as int].0@ {
                    assert(0 <= j < j + 1 && gv[j as int] == entries@[i as int].0@);
                }
            }
            j = j + 1;
        }
        let ghost before = pairs_view(kept@);
        assert(ev.subrange(0, i + 1).drop_last() =~= ev.subrange(0, i as int));
        assert(ev.subrange(0, i + 1).last() == ev[i as int]);
        assert(ev[i as int].0 == entries@[i as int].0@);
        assert(is_grave == gv.contains(ev[i as int].0)) by {
            if gv.contains(ev[i as int].0) {
                let m = choose|m: int| 0 <= m < gv.len() && gv[m] == ev[i as int].0;
            }
        }
        if !is_grave {
            kept.push((entries[i].0.clone(), entries[i].1.clone()));
            assert(pairs_view(kept@) =~= before.push(ev[i as int]));
        }
        i = i + 1;
    }
    assert(ev.subrange(0, i as int) =~= ev);
    let mut left: Vec<String> = Vec::new();
    let mut k: usize = 0;
    assert(gv.subrange(0, 0) =~= Seq::<Seq<char>>::empty());
    while k < graves.len()
        invariant
            k <= graves@.len(),
            ev == pairs_view(entries@),
            gv == graves_view(graves@),
            pairs_view(kept@) == without_graves(ev, gv),
            graves_view(left@) == unmatched_graves(gv.subrange(0, k as int), ev),
        decreases graves@.len() - k,
    {
        let mut found = false;
        let mut j: usize = 0;
        while j < entries.len()
            invariant
                j <= entries@.len(),
                k < graves@.len(),
                ev == pairs_view(entries@),
                found <==> exists|m: int| 0 <= m < j && ev[m].0 == graves@[k as int]@,
            decreases entries@.len() - j,
        {
            if entries[j].0 == graves[k] {
                found = true;
            }
            assert(ev[j as int].0 == entries@[j as int].0@);
            assert(found <==> exists|m: int| 0 <= m < j + 1 && ev[m].0 == graves@[k as int]@) by {
                if ev[j as int].0 == graves@[k as int]@ {
                    assert(0 <= j < j + 1 && ev[j as int].0 == graves@[k as int]@);
                }
            }
            j = j + 1;
        }
        let ghost before = graves_view(left@);
        assert(found == has_key(ev, gv[k as int]));
        assert(gv.subrange(0, k + 1).drop_last() =~= gv.subrange(0, k as int));
        assert(gv.subrange(0, k + 1).last() == gv[k as int]);
        assert(gv[k as int] == graves@[k as int]@);
        if !found {
            left.push(graves[k].clone());
            assert(graves_view(left@) =~= before.push(gv[k as int]));
        }
        k = k + 1;
    }
    assert(gv.subrange(0, k as int) =~= gv);
    (kept, left)
}

/// The bloom filter (32 bytes) of the keys, each inserted in turn.
pub open spec fn keys_filter(filter: Seq<u8>, entries: Seq<(Seq<char>, Seq<char>)>) -> Seq<u8>
    decreases entries.len(),
{
    if entries.len() == 0 {
        filter
    } else {
        toggle_all(keys_filter(filter, entries.drop_last()), key_positions(entries.last().0))
    }
}

/// The bloom filter of a table's entries: 32 zero bytes with each key
/// inserted.
pub fn table_filter(entries: &Vec<(String, String)>) -> (r: Vec<u8>)
    ensures
        r@ == keys_filter(Seq::new(32, |i: int| 0u8), pairs_view(entries@)),
        r@.len() == 32,
{
    let ghost ev = pairs_view(entries@);
    let mut filter: Vec<u8> = Vec::new();
    let mut z: usize = 0;
    while z < 32
        invariant
            z <= 32,
            filter@ == Seq::new(z as nat, |i: int| 0u8),
        decreases 32 - z,
    {
        filter.push(0u8);
        z = z + 1;
        assert(filter@ =~= Seq::new(z as nat, |i: int| 0u8));
    }
    let mut i: usize = 0;
    assert(ev.subrange(0, 0) =~= Seq::<(Seq<char>, Seq<char>)>::empty());
    while i < entries.len()
        invariant
            i <= entries@.len(),
            ev == pairs_view(entries@),
            filter@.len() == 32,
            filter@ == keys_filter(Seq::new(32, |i: int| 0u8), ev.subrange(0, i as int)),
        decreases entries@.len() - i,
    {
        assert(ev.subrange(0, i + 1).drop_last() =~= ev.subrange(0, i as int));
        assert(ev[i as int].0 == entries@[i as int].0@);
        proof {
            lemma_toggle_all_len(filter@, key_positions(entries@[i as int].0@));
        }
        filter = filter_insert(filter, entries[i].0.as_str());
        i = i + 1;
    }
    assert(ev.subrange(0, i as int) =~= ev);
    filter
}

/// Setting bits keeps a filter's length, and with 32 bytes every position
/// fits.
proof fn lemma_toggle_all_len(filter: Seq<u8>, positions: Seq<u8>)
    requires
        filter.len() == 32,
    ensures
        toggle_all(filter, positions).len() == 32,
        crate::bloom_filter::positions_fit(32, positions),
    decreases positions.len(),
{
    assert forall|i: int| 0 <= i < positions.len() implies (#[trigger] positions[i] / 8) < 32 by {
        assert(positions[i] < 256);
    }
    if positions.len() > 0 {
        lemma_toggle_all_len(crate::bloom_filter::spec_toggle(filter, positions[0]), positions.drop_first());
    }
}

/// Every key of a table is found in the table's filter.
pub proof fn lemma_table_filter_finds_keys(entries: Seq<(Seq<char>, Seq<char>)>, i: int)
    requires
        0 <= i < entries.len(),
    ensures
        all_toggled(keys_filter(Seq::new(32, |j: int| 0u8), entries), key_positions(entries[i].0)),
    decreases entries.len(),
{
    let zero = Seq::new(32, |j: int| 0u8);
    let rest = entries.drop_last();
    lemma_keys_filter_len(zero, rest);
    let f = keys_filter(zero, rest);
    lemma_toggle_all_len(f, key_positions(entries.last().0));
    if i == entries.len() - 1 {
        lemma_inserted_key_is_found(f, entries.last().0);
    } else {
        lemma_table_filter_finds_keys(rest, i);
        assert(rest[i] == entries[i]);
        lemma_toggle_all_len(f, key_positions(entries[i].0));
        lemma_insert_keeps_found(f, entries.last().0, entries[i].0);
    }
}

/// Inserting keys keeps a filter of 32 bytes at 32 bytes.
proof fn lemma_keys_filter_len(filter: Seq<u8>, entries: Seq<(Seq<char>, Seq<char>)>)
    requires
        filter.len() == 32,
    ensures
        keys_filter(filter, entries).len() == 32,
    decreases entries.len(),
{
    if entries.len() > 0 {
        lemma_keys_filter_len(filter, entries.drop_last());
        lemma_toggle_all_len(keys_filter(filter, entries.drop_last()), key_positions(entries.last().0));
    }
}

/// A line of a store's lists file: a table's name, level, size and bloom
/// filter; `None` where the line has fewer fields or a field does not read.
pub open spec fn list_line(b: Seq<u8>) -> Option<(Seq<char>, u8, nat, Seq<u8>)> {
    let f = split_spaces(b);
    if f.len() >= 4 && str_field_ok(f[0]) && u8_field_ok(f[1]) && hex_ok(f[2]) && hex_bytes(f[2]).len() == 8
        && hex_ok(f[3]) {
        Some((str_field(f[0]), hex_bytes(f[1])[0], from_be(hex_bytes(f[2])), hex_bytes(f[3])))
    } else {
        None
    }
}

/// The tables of a store's lists file, one per line.
pub open spec fn read_lists(lines: Seq<Seq<u8>>) -> Option<Seq<(Seq<char>, u8, nat, Seq<u8>)>>
    decreases lines.len(),
{
    if lines.len() == 0 {
        Some(Seq::empty())
    } else {
        match (read_lists(lines.drop_last()), list_line(lines.last())) {
            (Some(m), Some(t)) => Some(m.push(t)),
            _ => None,
        }
    }
}

/// How replaying a log with the cache's size counted ends: with the cache,
/// its size and the graves; with an error for a key or value that is not
/// UTF-8; or where a line does not read or the size passes 64 bits.
pub enum SizedReplay {
    Done(Seq<(Seq<char>, Seq<char>)>, nat, Seq<Seq<char>>),
    Failed(NeutronError),
    Panics,
}

/// One log line replayed onto the cache, its size and the graves. A put
/// adds the sizes of its key and value bytes to the cache's size; a key or
/// value that is not UTF-8 is an error once its bytes are counted.
pub open spec fn sized_step(
    b: Seq<u8>,
    c: Seq<(Seq<char>, Seq<char>)>,
    size: nat,
    g: Seq<Seq<char>>,
) -> SizedReplay {
    let f = split_spaces(b);
    if !u8_field_ok(f[0]) {
        SizedReplay::Panics
    } else if hex_bytes(f[0])[0] == 1 {
        if f.len() < 2 || !hex_ok(f[1]) {
            SizedReplay::Panics
        } else {
            let kb = hex_bytes(f[1]);
            let s1 = size + kb.len();
            if s1 > u64::MAX {
                SizedReplay::Panics
            } else if !valid_utf8(kb) {
                SizedReplay::Failed(NeutronError::InvalidUtf8)
            } else if f.len() < 3 || !hex_ok(f[2]) {
                SizedReplay::Panics
            } else {
                let vb = hex_bytes(f[2]);
                let s2 = s1 + vb.len();
                if s2 > u64::MAX {
                    SizedReplay::Panics
                } else if !valid_utf8(vb) {
                    SizedReplay::Failed(NeutronError::InvalidUtf8)
                } else {
                    SizedReplay::Done(c.push((decode_utf8(kb), decode_utf8(vb))), s2, remove_key(g, decode_utf8(kb)))
                }
            }
        }
    } else if hex_bytes(f[0])[0] == 2 {
        if f.len() < 2 || !str_field_ok(f[1]) {
            SizedReplay::Panics
        } else {
            SizedReplay::Done(c, size, g.push(str_field(f[1])))
        }
    } else {
        SizedReplay::Done(c, size, g)
    }
}

/// Replays log lines onto an empty cache and the graves, counting the
/// cache's size.
pub open spec fn replay_sized(lines: Seq<Seq<u8>>, graves: Seq<Seq<char>>) -> SizedReplay
    decreases lines.len(),
{
    if lines.len() == 0 {
        SizedReplay::Done(Seq::empty(), 0, graves)
    } else {
        match replay_sized(lines.drop_last(), graves) {
            SizedReplay::Done(c, size, g) => sized_step(lines.last(), c, size, g),
            other => other,
        }
    }
}

/// A table of a log store: its name, level, size and bloom filter.
pub struct Metadata {
    pub name: String,
    pub level: u8,
    pub size: u64,
    pub bloom_filter: Vec<u8>,
}

/// A store kept as a log of text lines: its name, cache (pairs in the order
/// they were put) and the cache's size, graves, and tables.
pub struct LogStore {
    pub name: String,
    pub cache: Vec<(String, String)>,
    pub cache_size: u64,
    pub graves: Vec<String>,
    pub lists: Vec<Metadata>,
}

/// The tables as names, levels, sizes and bloom filters.
pub open spec fn lists_view(lists: Seq<Metadata>) -> Seq<(Seq<char>, u8, nat, Seq<u8>)> {
    lists.map_values(|m: Metadata| (m.name@, m.level, m.size as nat, m.bloom_filter@))
}

/// What opening a log store gives: `None` where it panics, an error for a
/// key or value that is not UTF-8, or the store's cache, cache size, graves
/// and tables.
pub open spec fn open_log_store(
    graves_lines: Seq<Seq<u8>>,
    log_lines: Seq<Seq<u8>>,
    lists_lines: Seq<Seq<u8>>,
) -> Option<Result<(Seq<(Seq<char>, Seq<char>)>, nat, Seq<Seq<char>>, Seq<(Seq<char>, u8, nat, Seq<u8>)>), NeutronError>> {
    match read_graves(graves_lines) {
        None => None,
        Some(g) => match replay_sized(log_lines, g) {
            SizedReplay::Panics => None,
            SizedReplay::Failed(e) => Some(Err(e)),
            SizedReplay::Done(c, size, g2) => match read_lists(lists_lines) {
                None => None,
                Some(m) => Some(Ok((c, size, g2, m))),
            },
        },
    }
}

/// A log line as read with the cache's size.
enum SizedLine {
    Put(String, String, u64),
    Grave(String),
    Skip,
    Failed(NeutronError),
    Panics,
}

/// Reads a line of the lists file.
fn parse_list_line(line: &str) -> (r: Option<Metadata>)
    ensures
        r is Some <==> list_line(encode_utf8(line@)) is Some,
        r is Some ==> (r->0.name@, r->0.level, r->0.size as nat, r->0.bloom_filter@) == list_line(
            encode_utf8(line@),
        )->0,
{
    let f = split_line(line);
    let ghost fv = f@.map_values(|x: &str| encode_utf8(x@));
    if f.len() < 4 {
        return None;
    }
    assert(fv[0] == encode_utf8(f@[0]@) && fv[1] == encode_utf8(f@[1]@) && fv[2] == encode_utf8(f@[2]@) && fv[3]
        == encode_utf8(f@[3]@));
    let name = match text_field(f[0]) {
        Some(n) => n,
        None => {
            return None;
        },
    };
    let level = match byte_field(f[1]) {
        Some(l) => l,
        None => {
            return None;
        },
    };
    let ghost b2 = encode_utf8(f@[2]@);
    let ok2 = check_hex(f[2]);
    let n2 = f[2].as_bytes().len();
    assert(b2.len() >= 2 ==> hex_bytes(b2).len() == (b2.len() - 2) / 2);
    if !ok2 || n2 != 18 {
        return None;
    }
    let size = astro_as_u64(f[2]);
    if !check_hex(f[3]) {
        return None;
    }
    let bloom_filter = astro_as_bytes(f[3]);
    Some(Metadata { name, level, size, bloom_filter })
}

/// Reads a log line, counting the sizes of a put's key and value onto
/// `size`.
fn parse_sized_line(line: &str, size: u64) -> (r: SizedLine)
    ensures
        ({
            let b = encode_utf8(line@);
            let f = split_spaces(b);
            &&& r is Panics <==> sized_step(b, Seq::empty(), size as nat, Seq::empty()) is Panics
            &&& r matches SizedLine::Failed(e) ==> sized_step(b, Seq::empty(), size as nat, Seq::empty())
                == SizedReplay::Failed(e)
            &&& r matches SizedLine::Put(k, v, s) ==> u8_field_ok(f[0]) && hex_bytes(f[0])[0] == 1 && f.len() >= 3
                && hex_ok(f[1]) && hex_ok(f[2]) && valid_utf8(hex_bytes(f[1])) && valid_utf8(hex_bytes(f[2]))
                && k@ == decode_utf8(hex_bytes(f[1])) && v@ == decode_utf8(hex_bytes(f[2])) && s == size
                + hex_bytes(f[1]).len() + hex_bytes(f[2]).len()
            &&& r matches SizedLine::Grave(k) ==> u8_field_ok(f[0]) && hex_bytes(f[0])[0] == 2 && f.len() >= 2
                && str_field_ok(f[1]) && k@ == str_field(f[1])
            &&& r is Skip ==> u8_field_ok(f[0]) && hex_bytes(f[0])[0] != 1 && hex_bytes(f[0])[0] != 2
        }),
{
    let f = split_line(line);
    let ghost fv = f@.map_values(|x: &str| encode_utf8(x@));
    assert(fv.len() >= 1);
    assert(fv[0] == encode_utf8(f@[0]@));
    let t = match byte_field(f[0]) {
        Some(t) => t,
        None => {
            return SizedLine::Panics;
        },
    };
    if t == 1 {
        if f.len() < 2 || !check_hex(f[1]) {
            assert(f.len() >= 2 ==> fv[1] == encode_utf8(f@[1]@));
            return SizedLine::Panics;
        }
        assert(fv[1] == encode_utf8(f@[1]@));
        let key_bytes = astro_as_bytes(f[1]);
        if key_bytes.len() as u64 > u64::MAX - size {
            return SizedLine::Panics;
        }
        let s1 = size + key_bytes.len() as u64;
        let key = match string_from_utf8(key_bytes) {
            Some(k) => k,
            None => {
                return SizedLine::Failed(NeutronError::InvalidUtf8);
            },
        };
        if f.len() < 3 || !check_hex(f[2]) {
            assert(f.len() >= 3 ==> fv[2] == encode_utf8(f@[2]@));
            return SizedLine::Panics;
        }
        assert(fv[2] == encode_utf8(f@[2]@));
        let value_bytes = astro_as_bytes(f[2]);
        if value_bytes.len() as u64 > u64::MAX - s1 {
            return SizedLine::Panics;
        }
        let s2 = s1 + value_bytes.len() as u64;
        match string_from_utf8(value_bytes) {
            Some(v) => SizedLine::Put(key, v, s2),
            None => SizedLine::Failed(NeutronError::InvalidUtf8),
        }
    } else if t == 2 {
        if f.len() < 2 {
            return SizedLine::Panics;
        }
        assert(fv[1] == encode_utf8(f@[1]@));
        match text_field(f[1]) {
            Some(k) => SizedLine::Grave(k),
            None => SizedLine::Panics,
        }
    } else {
        SizedLine::Skip
    }
}

/// The step of a replay depends on the cache and graves only where a line
/// is applied.
proof fn lemma_sized_step_shape(b: Seq<u8>, c: Seq<(Seq<char>, Seq<char>)>, size: nat, g: Seq<Seq<char>>)
    ensures
        sized_step(b, c, size, g) is Panics <==> sized_step(b, Seq::empty(), size, Seq::empty()) is Panics,
        sized_step(b, Seq::empty(), size, Seq::empty()) matches SizedReplay::Failed(e) ==> sized_step(b, c, size, g)
            == SizedReplay::Failed(e),
{
}

/// Opens the store called `name` that is kept as a log of text lines, given
/// the lines of its graves file, its log and its lists file (each empty
/// where the file is missing): the graves, then the log replayed onto an
/// empty cache with the cache's size counted, then the tables. `None` where
/// a line does not read or the size passes 64 bits (where opening panics);
/// an error for a key or value that is not UTF-8.
pub fn run(name: &str, graves_lines: &Vec<String>, log_lines: &Vec<String>, lists_lines: &Vec<String>) -> (r: Option<
    Result<LogStore, NeutronError>,
>)
    ensures
        match open_log_store(lines_view(graves_lines@), lines_view(log_lines@), lines_view(lists_lines@)) {
            None => r is None,
            Some(Err(e)) => r == Some(Err::<LogStore, NeutronError>(e)),
            Some(Ok((c, size, g, m))) => {
                &&& r matches Some(Ok(s))
                &&& s.name@ == name@
                &&& pairs_view(s.cache@) == c
                &&& s.cache_size == size
                &&& graves_view(s.graves@) == g
                &&& lists_view(s.lists@) == m
            },
        },
{
    let ghost gl = lines_view(graves_lines@);
    let mut graves: Vec<String> = Vec::new();
    let mut i: usize = 0;
    assert(gl.subrange(0, 0) =~= Seq::<Seq<u8>>::empty());
    while i < graves_lines.len()
        invariant
            i <= graves_lines@.len(),
            gl == lines_view(graves_lines@),
            read_graves(gl.subrange(0, i as int)) == Some(graves_view(graves@)),
        decreases graves_lines@.len() - i,
    {
        assert(gl.subrange(0, i + 1).drop_last() =~= gl.subrange(0, i as int));
        assert(gl.subrange(0, i + 1).last() == encode_utf8(graves_lines@[i as int]@));
        match text_field(graves_lines[i].as_str()) {
            Some(g) => {
                let ghost before = graves_view(graves@);
                graves.push(g);
                assert(graves_view(graves@) =~= before.push(g@));
            },
            None => {
                assert(read_graves(gl) is None) by {
                    lemma_read_graves_stops(gl, i + 1);
                }
                return None;
            },
        }
        i = i + 1;
    }
    assert(gl.subrange(0, i as int) =~= gl);
    let ghost g0 = graves_view(graves@);
    let ghost ll = lines_view(log_lines@);
    let mut cache: Vec<(String, String)> = Vec::new();
    let mut cache_size: u64 = 0;
    let mut k: usize = 0;
    assert(ll.subrange(0, 0) =~= Seq::<Seq<u8>>::empty());
    assert(pairs_view(cache@) =~= Seq::<(Seq<char>, Seq<char>)>::empty());
    while k < log_lines.len()
        invariant
            k <= log_lines@.len(),
            ll == lines_view(log_lines@),
            gl == lines_view(graves_lines@),
            read_graves(gl) == Some(g0),
            replay_sized(ll.subrange(0, k as int), g0) == SizedReplay::Done(
                pairs_view(cache@),
                cache_size as nat,
                graves_view(graves@),
            ),
        decreases log_lines@.len() - k,
    {
        let ghost prefix = ll.subrange(0, k + 1);
        assert(prefix.drop_last() =~= ll.subrange(0, k as int));
        assert(prefix.last() == encode_utf8(log_lines@[k as int]@));
        let ghost b = encode_utf8(log_lines@[k as int]@);
        proof {
            lemma_sized_step_shape(b, pairs_view(cache@), cache_size as nat, graves_view(graves@));
        }
        match parse_sized_line(log_lines[k].as_str(), cache_size) {
            SizedLine::Put(key, value, s) => {
                let ghost before = pairs_view(cache@);
                let mut g: Vec<String> = Vec::new();
                std::mem::swap(&mut g, &mut graves);
                graves = remove_graves(g, &key);
                cache.push((key, value));
                cache_size = s;
                assert(pairs_view(cache@) =~= before.push((key@, value@)));
            },
            SizedLine::Grave(key) => {
                let ghost before = graves_view(graves@);
                graves.push(key);
                assert(graves_view(graves@) =~= before.push(key@));
            },
            SizedLine::Skip => {},
            SizedLine::Failed(e) => {
                assert(replay_sized(ll, g0) == SizedReplay::Failed(e)) by {
                    lemma_replay_sized_stops(ll, g0, k + 1);
                }
                return Some(Err(e));
            },
            SizedLine::Panics => {
                assert(replay_sized(ll, g0) is Panics) by {
                    lemma_replay_sized_stops(ll, g0, k + 1);
                }
                return None;
            },
        }
        k = k + 1;
    }
    assert(ll.subrange(0, k as int) =~= ll);
    let ghost ml = lines_view(lists_lines@);
    let mut lists: Vec<Metadata> = Vec::new();
    let mut j: usize = 0;
    assert(ml.subrange(0, 0) =~= Seq::<Seq<u8>>::empty());
    while j < lists_lines.len()
        invariant
            j <= lists_lines@.len(),
            ml == lines_view(lists_lines@),
            gl == lines_view(graves_lines@),
            ll == lines_view(log_lines@),
            read_graves(gl) == Some(g0),
            replay_sized(ll, g0) == SizedReplay::Done(pairs_view(cache@), cache_size as nat, graves_view(graves@)),
            read_lists(ml.subrange(0, j as int)) == Some(lists_view(lists@)),
        decreases lists_lines@.len() - j,
    {
        assert(ml.subrange(0, j + 1).drop_last() =~= ml.subrange(0, j as int));
        assert(ml.subrange(0, j + 1).last() == encode_utf8(lists_lines@[j as int]@));
        match parse_list_line(lists_lines[j].as_str()) {
            Some(t) => {
                let ghost before = lists_view(lists@);
                lists.push(t);
                assert(lists_view(lists@) =~= before.push(list_line(ml[j as int])->0));
            },
            None => {
                assert(read_lists(ml) is None) by {
                    lemma_read_lists_stops(ml, j + 1);
                }
                return None;
            },
        }
        j = j + 1;
    }
    assert(ml.subrange(0, j as int) =~= ml);
    let n = name.to_owned();
    Some(Ok(LogStore { name: n, cache, cache_size, graves, lists }))
}

/// Once a prefix of the log ends in an error or a panic, so does all of it.
proof fn lemma_replay_sized_stops(lines: Seq<Seq<u8>>, graves: Seq<Seq<char>>, n: int)
    requires
        0 <= n <= lines.len(),
        !(replay_sized(lines.subrange(0, n), graves) is Done),
    ensures
        replay_sized(lines, graves) == replay_sized(lines.subrange(0, n), graves),
    decreases lines.len() - n,
{
    if n < lines.len() {
        assert(lines.subrange(0, n + 1).drop_last() =~= lines.subrange(0, n));
        lemma_replay_sized_stops(lines, graves, n + 1);
    } else {
        assert(lines.subrange(0, n) =~= lines);
    }
}

/// Once a prefix of the lists lines does not read, neither do all of them.
proof fn lemma_read_lists_stops(lines: Seq<Seq<u8>>, n: int)
    requires
        0 <= n <= lines.len(),
        read_lists(lines.subrange(0, n)) is None,
    ensures
        read_lists(lines) is None,
    decreases lines.len() - n,
{
    if n < lines.len() {
        assert(lines.subrange(0, n + 1).drop_last() =~= lines.subrange(0, n));
        lemma_read_lists_stops(lines, n + 1);
    } else {
        assert(lines.subrange(0, n) =~= lines);
    }
}


/// Removing a key from the graves keeps every other grave, in order, and
/// leaves none equal to the key: a put of a key that was deleted makes it
/// present again, whatever other graves there are and wherever its grave
/// stands among them.
pub proof fn lemma_remove_key_keeps_others(graves: Seq<Seq<char>>, k: Seq<char>)
    ensures
        remove_key(graves, k) == graves.filter(|x: Seq<char>| x != k),
        !remove_key(graves, k).contains(k),
        forall|x: Seq<char>| x != k ==> (remove_key(graves, k).contains(x) <==> graves.contains(x)),
    decreases graves.len(),
{
    reveal(Seq::filter);
    let r = remove_key(graves, k);
    if graves.len() > 0 {
        let d = graves.drop_last();
        lemma_remove_key_keeps_others(d, k);
        let rd = remove_key(d, k);
        assert(graves.filter(|x: Seq<char>| x != k) == if graves.last() != k {
            d.filter(|x: Seq<char>| x != k).push(graves.last())
        } else {
            d.filter(|x: Seq<char>| x != k)
        });
        assert forall|x: Seq<char>| x != k implies (r.contains(x) <==> graves.contains(x)) by {
            if graves.contains(x) {
                let i = choose|i: int| 0 <= i < graves.len() && graves[i] == x;
                if i < d.len() {
                    assert(d[i] == x);
                    assert(rd.contains(x));
                    let j = choose|j: int| 0 <= j < rd.len() && rd[j] == x;
                    if graves.last() != k {
                        assert(r[j] == x);
                    }
                } else {
                    assert(graves.last() == x);
                    assert(r.last() == x);
                }
            }
            if r.contains(x) {
                let j = choose|j: int| 0 <= j < r.len() && r[j] == x;
                if graves.last() != k && j == rd.len() {
                    assert(graves[graves.len() - 1] == x);
                } else {
                    assert(rd[j] == x);
                    assert(d.contains(x));
                    let i = choose|i: int| 0 <= i < d.len() && d[i] == x;
                    assert(graves[i] == x);
                }
            }
        }
        if r.contains(k) {
            let j = choose|j: int| 0 <= j < r.len() && r[j] == k;
            if graves.last() != k && j == rd.len() {
            } else {
                assert(rd[j] == k);
            }
        }
    }
}

/// The purge keeps exactly the entries whose key is no grave, in their
/// order, so no deleted key comes back; and it keeps exactly the graves that
/// no entry has as its key, in their order.
pub proof fn lemma_purge_keeps_live_entries(entries: Seq<(Seq<char>, Seq<char>)>, graves: Seq<Seq<char>>)
    ensures
        without_graves(entries, graves) == entries.filter(|e: (Seq<char>, Seq<char>)| !graves.contains(e.0)),
        forall|i: int|
            0 <= i < without_graves(entries, graves).len() ==> !graves.contains(
                #[trigger] without_graves(entries, graves)[i].0,
            ),
        unmatched_graves(graves, entries) == graves.filter(
            |g: Seq<char>| !(exists|i: int| 0 <= i < entries.len() && #[trigger] entries[i].0 == g),
        ),
    decreases entries.len() + graves.len(),
{
    reveal(Seq::filter);
    let p = |e: (Seq<char>, Seq<char>)| !graves.contains(e.0);
    if entries.len() > 0 {
        lemma_purge_keeps_live_entries(entries.drop_last(), graves);
        lemma_filter_pred_holds(entries, p);
    } else {
        lemma_filter_pred_holds(entries, p);
    }
    lemma_unmatched_filter(graves, entries);
}

proof fn lemma_filter_pred_holds(s: Seq<(Seq<char>, Seq<char>)>, p: spec_fn((Seq<char>, Seq<char>)) -> bool)
    ensures
        forall|i: int| 0 <= i < s.filter(p).len() ==> p(#[trigger] s.filter(p)[i]),
{
    s.filter_lemma(p);
}

proof fn lemma_unmatched_filter(graves: Seq<Seq<char>>, entries: Seq<(Seq<char>, Seq<char>)>)
    ensures
        unmatched_graves(graves, entries) == graves.filter(
            |g: Seq<char>| !(exists|i: int| 0 <= i < entries.len() && #[trigger] entries[i].0 == g),
        ),
    decreases graves.len(),
{
    reveal(Seq::filter);
    if graves.len() > 0 {
        lemma_unmatched_filter(graves.drop_last(), entries);
        let g = graves.last();
        assert(has_key(entries, g) == (exists|i: int| 0 <= i < entries.len() && #[trigger] entries[i].0 == g));
    }
}


/// Replaying a put line after other lines appends the pair to the cache and
/// leaves the key in no grave, keeping every other grave: a key put after
/// its delete reads as present, whichever other keys are deleted.
pub proof fn lemma_replayed_put_is_no_grave(
    lines: Seq<Seq<u8>>,
    cache: Seq<(Seq<char>, Seq<char>)>,
    graves: Seq<Seq<char>>,
    k: Seq<char>,
    v: Seq<char>,
)
    requires
        lines.len() > 0,
        log_line(lines.last()) == Some(TextRecord::Put(k, v)),
        replay_text(lines.drop_last(), cache, graves) is Some,
    ensures
        ({
            let (c1, g1) = replay_text(lines.drop_last(), cache, graves)->0;
            let (c2, g2) = replay_text(lines, cache, graves)->0;
            &&& replay_text(lines, cache, graves) is Some
            &&& c2 == c1.push((k, v))
            &&& !g2.contains(k)
            &&& forall|x: Seq<char>| x != k ==> (g2.contains(x) <==> g1.contains(x))
        }),
{
    let (c1, g1) = replay_text(lines.drop_last(), cache, graves)->0;
    lemma_remove_key_keeps_others(g1, k);
}

} // verus!
