//! Finding one key's value in the bytes of an indexed list.
use vstd::prelude::*;
use vstd::utf8::{decode_utf8, valid_utf8};
use crate::bytes::{from_le, read_le, copy_range, string_from_utf8};
use crate::error::NeutronError;
use crate::linked_list::Decoded;
use crate::list::{
    read_prefixed, marker_width, values_region, index_size, index_region, short_entries, spec_indexed_list,
    len_prefix, lemma_index_region_len, lemma_prefix_sizes, lemma_key_at, lemma_value_at,
};
use crate::bytes::{le_bytes, lemma_from_le_bytes, lemma_pow256_values, pow256};
use vstd::utf8::encode_utf8;
use crate::list::deserialize::read_prefixed_at;

verus! {

/// The keys of the index from position `i` on, each with the position of
/// its value; `None` where the decoder indexes past the index or meets a key
/// that is not UTF-8.
pub open spec fn parse_index_keys(index: Seq<u8>, i: int) -> Option<Seq<(Seq<char>, nat)>>
    decreases index.len() - i,
{
    if i < 0 || i >= index.len() {
        Some(Seq::empty())
    } else {
        match read_prefixed(index, i) {
            None => None,
            Some((kl, ks)) => if ks + kl + 8 > index.len() || !valid_utf8(index.subrange(ks, ks + kl)) {
                None
            } else {
                let head = (decode_utf8(index.subrange(ks, ks + kl)), from_le(index.subrange(ks + kl, ks + kl + 8)));
                match parse_index_keys(index, ks + kl + 8) {
                    None => None,
                    Some(rest) => Some(seq![head] + rest),
                }
            },
        }
    }
}

/// The value position of the first entry whose key is `key`.
pub open spec fn first_match(entries: Seq<(Seq<char>, nat)>, key: Seq<char>) -> Option<nat>
    decreases entries.len(),
{
    if entries.len() == 0 {
        None
    } else if entries[0].0 == key {
        Some(entries[0].1)
    } else {
        first_match(entries.drop_first(), key)
    }
}

/// What reading the value stored at `vi` in the file gives.
pub open spec fn read_value_at(f: Seq<u8>, vi: nat) -> Decoded<Option<Seq<char>>> {
    if vi >= f.len() {
        Decoded::Invalid(NeutronError::UnexpectedEnd)
    } else {
        let w = marker_width(f[vi as int]);
        if vi + 1 + w > f.len() {
            Decoded::Invalid(NeutronError::UnexpectedEnd)
        } else {
            let vl = from_le(f.subrange(vi + 1 as int, vi + 1 + w)) as usize as int;
            let s = vi + 1 + w;
            if s + vl > f.len() {
                Decoded::Invalid(NeutronError::UnexpectedEnd)
            } else if !valid_utf8(f.subrange(s, s + vl)) {
                Decoded::Panics
            } else {
                Decoded::Value(Some(decode_utf8(f.subrange(s, s + vl))))
            }
        }
    }
}

/// What looking `key` up in the bytes `f` of an indexed-list file gives.
pub open spec fn search_key(f: Seq<u8>, key: Seq<char>) -> Decoded<Option<Seq<char>>> {
    if f.len() < 9 {
        Decoded::Invalid(NeutronError::UnexpectedEnd)
    } else if f[0] != 1 {
        Decoded::Invalid(NeutronError::UnsupportedVersion)
    } else {
        let il = from_le(f.subrange(1, 9)) as usize as int;
        if 9 + il > f.len() {
            Decoded::Invalid(NeutronError::UnexpectedEnd)
        } else {
            match parse_index_keys(f.subrange(9, 9 + il), 0) {
                None => Decoded::Panics,
                Some(entries) => match first_match(entries, key) {
                    None => Decoded::Value(None),
                    Some(vi) => read_value_at(f, vi),
                },
            }
        }
    }
}

/// The entries with `acc` in front, where they decode.
pub open spec fn prepend_keys(acc: Seq<(Seq<char>, nat)>, o: Option<Seq<(Seq<char>, nat)>>) -> Option<
    Seq<(Seq<char>, nat)>,
> {
    match o {
        None => None,
        Some(rest) => Some(acc + rest),
    }
}

fn read_index(index: &Vec<u8>) -> (r: Vec<(String, u64)>)
    requires
        parse_index_keys(index@, 0) is Some,
    ensures
        parse_index_keys(index@, 0) == Some(r@.map_values(|e: (String, u64)| (e.0@, e.1 as nat))),
{
    let mut r: Vec<(String, u64)> = Vec::new();
    let mut i: usize = 0;
    let ilen = index.len();
    assert(prepend_keys(Seq::empty(), parse_index_keys(index@, 0)) =~= parse_index_keys(index@, 0)) by {
        match parse_index_keys(index@, 0) {
            Some(v) => {
                assert(Seq::<(Seq<char>, nat)>::empty() + v =~= v);
            },
            None => {},
        }
    }
    while i < ilen
        invariant
            i <= ilen == index@.len(),
            parse_index_keys(index@, 0) is Some,
            prepend_keys(r@.map_values(|e: (String, u64)| (e.0@, e.1 as nat)), parse_index_keys(index@, i as int))
                == parse_index_keys(index@, 0),
        decreases ilen - i,
    {
        let ghost acc = r@.map_values(|e: (String, u64)| (e.0@, e.1 as nat));
        let (key_length, ks) = read_prefixed_at(index.as_slice(), i);
        assert(ks + key_length + 8 <= index@.len());
        let key_bytes = copy_range(index.as_slice(), ks, ks + key_length);
        let key = string_from_utf8(key_bytes).unwrap();
        let vp = ks + key_length;
        proof {
            crate::bytes::lemma_from_le_bound(index@.subrange(vp as int, vp + 8));
            crate::bytes::lemma_pow256_values();
        }
        let value_index = read_le(index.as_slice(), vp, 8) as u64;
        let ghost head = (key@, value_index as nat);
        r.push((key, value_index));
        proof {
            assert(r@.map_values(|e: (String, u64)| (e.0@, e.1 as nat)) =~= acc + seq![head]);
            match parse_index_keys(index@, vp + 8) {
                Some(v) => {
                    assert(acc + (seq![head] + v) =~= (acc + seq![head]) + v);
                },
                None => {},
            }
        }
        i = vp + 8;
    }
    assert(parse_index_keys(index@, i as int) == Some(Seq::<(Seq<char>, nat)>::empty()));
    assert(r@.map_values(|e: (String, u64)| (e.0@, e.1 as nat)) + Seq::<(Seq<char>, nat)>::empty()
        =~= r@.map_values(|e: (String, u64)| (e.0@, e.1 as nat)));
    r
}

/// Looks `arg` up in the bytes of an indexed-list file: the value of its
/// first index entry, `None` when no entry has it, or an error when the file
/// ends early or has another version. Requires that the decoder does not
/// index past the index nor meet text that is not UTF-8.
pub fn key(f: &Vec<u8>, arg: &str) -> (r: Result<Option<String>, NeutronError>)
    requires
        !(search_key(f@, arg@) is Panics),
    ensures
        match search_key(f@, arg@) {
            Decoded::Value(v) => r is Ok && v == match r->Ok_0 {
                Some(s) => Some(s@),
                None => None::<Seq<char>>,
            },
            Decoded::Invalid(e) => r == Err::<Option<String>, NeutronError>(e),
            Decoded::Panics => false,
        },
{
    let flen = f.len();
    if flen < 9 {
        return Err(NeutronError::UnexpectedEnd);
    }
    if f[0] != 1 {
        return Err(NeutronError::UnsupportedVersion);
    }
    let index_length = read_le(f.as_slice(), 1, 8) as usize;
    if index_length > flen - 9 {
        return Err(NeutronError::UnexpectedEnd);
    }
    let index_buffer = copy_range(f.as_slice(), 9, 9 + index_length);
    assert(index_buffer@ == f@.subrange(9, 9 + index_length));
    let index_list = read_index(&index_buffer);
    let ghost entries = index_list@.map_values(|e: (String, u64)| (e.0@, e.1 as nat));
    let target = arg.to_owned();
    let mut j: usize = 0;
    assert(entries.subrange(0, entries.len() as int) =~= entries);
    assert(search_key(f@, arg@) == match first_match(entries, arg@) {
        None => Decoded::Value(None),
        Some(vi) => read_value_at(f@, vi),
    });
    while j < index_list.len()
        invariant
            j <= index_list@.len(),
            entries == index_list@.map_values(|e: (String, u64)| (e.0@, e.1 as nat)),
            target@ == arg@,
            flen == f@.len(),
            !(search_key(f@, arg@) is Panics),
            search_key(f@, arg@) == match first_match(entries, arg@) {
                None => Decoded::Value(None),
                Some(vi) => read_value_at(f@, vi),
            },
            first_match(entries, arg@) == first_match(entries.subrange(j as int, entries.len() as int), arg@),
        decreases index_list@.len() - j,
    {
        let ghost rest = entries.subrange(j as int, entries.len() as int);
        assert(rest[0] == entries[j as int]);
        assert(rest.drop_first() =~= entries.subrange(j + 1, entries.len() as int));
        if index_list[j].0 == target {
            let vi = index_list[j].1;
            assert(entries[j as int] == (index_list@[j as int].0@, vi as nat));
            assert(first_match(entries, arg@) == Some(vi as nat));
            assert(search_key(f@, arg@) == read_value_at(f@, vi as nat));
            if vi >= flen as u64 {
                return Err(NeutronError::UnexpectedEnd);
            }
            let vi: usize = vi as usize;
            assert(vi < flen);
            let marker = f[vi];
            let w: usize = if marker == 1 || marker == 2 || marker == 4 || marker == 8 {
                marker as usize
            } else {
                0
            };
            if w > flen - vi - 1 {
                return Err(NeutronError::UnexpectedEnd);
            }
            let value_length = read_le(f.as_slice(), vi + 1, w) as usize;
            let s = vi + 1 + w;
            if value_length > flen - s {
                return Err(NeutronError::UnexpectedEnd);
            }
            let value_buffer = copy_range(f.as_slice(), s, s + value_length);
            let value = string_from_utf8(value_buffer).unwrap();
            return Ok(Some(value));
        }
        j = j + 1;
    }
    assert(entries.subrange(j as int, entries.len() as int) =~= Seq::<(Seq<char>, nat)>::empty());
    Ok(None)
}


/// The value of the first pair whose key is `key`, or `None` when no pair
/// has it.
pub open spec fn first_value(objs: Seq<(Seq<char>, Seq<char>)>, key: Seq<char>) -> Option<Seq<char>>
    decreases objs.len(),
{
    if objs.len() == 0 {
        None
    } else if objs[0].0 == key {
        Some(objs[0].1)
    } else {
        first_value(objs.drop_first(), key)
    }
}

/// The index entries of a written list: each key with the position of its
/// value.
pub open spec fn written_entries(objs: Seq<(Seq<char>, Seq<char>)>) -> Seq<(Seq<char>, nat)> {
    Seq::new(
        objs.len(),
        |i: int| (objs[i].0, values_region(objs.subrange(0, i)).len() + index_size(objs) + 9),
    )
}

/// Reading the index keys of a written list from its `j`th entry on gives
/// the written entries from the `j`th on.
proof fn lemma_index_keys_written(objs: Seq<(Seq<char>, Seq<char>)>, j: int)
    requires
        0 <= j <= objs.len(),
        short_entries(objs),
        spec_indexed_list(objs).len() <= usize::MAX,
    ensures
        parse_index_keys(index_region(objs, index_size(objs) + 9), index_size(objs.subrange(0, j)) as int)
            == Some(written_entries(objs).subrange(j, objs.len() as int)),
    decreases objs.len() - j,
{
    let base = index_size(objs) + 9;
    let idx = index_region(objs, base);
    lemma_index_region_len(objs, base);
    lemma_prefix_sizes(objs, j);
    let e = written_entries(objs);
    if j == objs.len() {
        assert(objs.subrange(0, j) =~= objs);
        assert(e.subrange(j, objs.len() as int) =~= Seq::<(Seq<char>, nat)>::empty());
    } else {
        let k = objs[j].0;
        vstd::utf8::encode_utf8_valid_utf8(k);
        vstd::utf8::encode_utf8_decode_utf8(k);
        lemma_key_at(objs, j);
        let p = index_size(objs.subrange(0, j)) as int;
        let kb = encode_utf8(k);
        let ks = p + len_prefix(kb.len()).len();
        let q = ks + kb.len();
        assert(p < idx.len());
        lemma_index_keys_written(objs, j + 1);
        assert(e[j] == (k, values_region(objs.subrange(0, j)).len() + base));
        assert(seq![e[j]] + e.subrange(j + 1, objs.len() as int) =~= e.subrange(j, objs.len() as int));
    }
}

/// The first matching index entry of a written list points to the value of
/// the first pair with the key.
proof fn lemma_first_match_written(objs: Seq<(Seq<char>, Seq<char>)>, key: Seq<char>, j: int)
    requires
        0 <= j <= objs.len(),
    ensures
        ({
            let m = first_match(written_entries(objs).subrange(j, objs.len() as int), key);
            let fv = first_value(objs.subrange(j, objs.len() as int), key);
            &&& m is None <==> fv is None
            &&& m is Some ==> exists|i: int|
                j <= i < objs.len() && m->0 == #[trigger] written_entries(objs)[i].1 && fv == Some(objs[i].1)
        }),
    decreases objs.len() - j,
{
    let e = written_entries(objs);
    let es = e.subrange(j, objs.len() as int);
    let os = objs.subrange(j, objs.len() as int);
    if j < objs.len() {
        lemma_first_match_written(objs, key, j + 1);
        assert(es.drop_first() =~= e.subrange(j + 1, objs.len() as int));
        assert(os.drop_first() =~= objs.subrange(j + 1, objs.len() as int));
        assert(es[0] == e[j]);
        assert(os[0] == objs[j]);
        if objs[j].0 == key {
            assert(first_match(es, key) == Some(e[j].1));
            assert(first_value(os, key) == Some(objs[j].1));
        }
    } else {
        assert(es.len() == 0);
        assert(os.len() == 0);
    }
}

/// Looking a key up in the bytes of a written list gives the value of the
/// first pair with that key, or `None` when no pair has it, when its keys
/// and values each take fewer than 65536 bytes.
pub proof fn lemma_search_written_list(objs: Seq<(Seq<char>, Seq<char>)>, key: Seq<char>)
    requires
        short_entries(objs),
        spec_indexed_list(objs).len() <= usize::MAX,
    ensures
        search_key(spec_indexed_list(objs), key) == Decoded::Value(first_value(objs, key)),
{
    let base = index_size(objs) + 9;
    let b = spec_indexed_list(objs);
    let idx = index_region(objs, base);
    lemma_index_region_len(objs, base);
    lemma_from_le_bytes(index_size(objs), 8);
    lemma_pow256_values();
    vstd::arithmetic::div_mod::lemma_small_mod(index_size(objs), pow256(8));
    assert(b.subrange(1, 9) =~= le_bytes(index_size(objs), 8));
    assert(b.subrange(9, 9 + index_size(objs) as int) =~= idx);
    assert(objs.subrange(0, 0) =~= Seq::<(Seq<char>, Seq<char>)>::empty());
    lemma_index_keys_written(objs, 0);
    assert(written_entries(objs).subrange(0, objs.len() as int) =~= written_entries(objs));
    assert(objs.subrange(0, objs.len() as int) =~= objs);
    lemma_first_match_written(objs, key, 0);
    match first_match(written_entries(objs), key) {
        None => {},
        Some(vi) => {
            let i = choose|i: int|
                0 <= i < objs.len() && vi == #[trigger] written_entries(objs)[i].1 && first_value(objs, key) == Some(
                    objs[i].1,
                );
            let v = objs[i].1;
            vstd::utf8::encode_utf8_valid_utf8(v);
            vstd::utf8::encode_utf8_decode_utf8(v);
            lemma_value_at(objs, i);
            assert(vi == values_region(objs.subrange(0, i)).len() + base);
        },
    }
}

} // verus!
