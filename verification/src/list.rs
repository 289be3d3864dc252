//! The indexed-list format: a version byte (1), the index size as eight
//! little-endian bytes, an index of keys each followed by the eight-byte
//! position of its value, and the values. Every key and value is preceded by
//! a width marker and its length in that many little-endian bytes.
use vstd::prelude::*;
use vstd::utf8::{encode_utf8, decode_utf8, valid_utf8};
use crate::bytes::{le_bytes, from_le, lemma_from_le_bytes, lemma_pow256_values, pow256};
use crate::linked_list::{Decoded, prepend};

pub mod deserialize;
pub mod search;
pub mod serialize;

verus! {

/// The marker and length written before a key or value of `len` bytes.
/// Lengths below 65536 get a one-byte marker; longer ones get their marker
/// written as a four- or eight-byte integer.
pub open spec fn len_prefix(len: nat) -> Seq<u8> {
    if len < 256 {
        seq![1u8, len as u8]
    } else if len < 65536 {
        seq![2u8] + le_bytes(len, 2)
    } else if len < 0x1_0000_0000 {
        le_bytes(4, 4) + le_bytes(len, 4)
    } else {
        le_bytes(8, 8) + le_bytes(len, 8)
    }
}

/// A key as it stands in the index, without its value position.
pub open spec fn key_entry(k: Seq<char>) -> Seq<u8> {
    len_prefix(encode_utf8(k).len()) + encode_utf8(k)
}

/// A value as it stands in the value area.
pub open spec fn value_entry(v: Seq<char>) -> Seq<u8> {
    len_prefix(encode_utf8(v).len()) + encode_utf8(v)
}

/// The value area of a list.
pub open spec fn values_region(objs: Seq<(Seq<char>, Seq<char>)>) -> Seq<u8>
    decreases objs.len(),
{
    if objs.len() == 0 {
        Seq::empty()
    } else {
        values_region(objs.drop_last()) + value_entry(objs.last().1)
    }
}

/// The size of the index of a list.
pub open spec fn index_size(objs: Seq<(Seq<char>, Seq<char>)>) -> nat
    decreases objs.len(),
{
    if objs.len() == 0 {
        0
    } else {
        index_size(objs.drop_last()) + key_entry(objs.last().0).len() + 8
    }
}

/// The index of a list whose value area starts at `base`.
pub open spec fn index_region(objs: Seq<(Seq<char>, Seq<char>)>, base: nat) -> Seq<u8>
    decreases objs.len(),
{
    if objs.len() == 0 {
        Seq::empty()
    } else {
        index_region(objs.drop_last(), base) + key_entry(objs.last().0) + le_bytes(
            values_region(objs.drop_last()).len() + base,
            8,
        )
    }
}

/// The bytes of a list.
pub open spec fn spec_indexed_list(objs: Seq<(Seq<char>, Seq<char>)>) -> Seq<u8> {
    seq![1u8] + le_bytes(index_size(objs), 8) + index_region(objs, index_size(objs) + 9)
        + values_region(objs)
}

/// The number of length bytes that a marker stands for; an unknown marker
/// stands for none (a length of zero).
pub open spec fn marker_width(marker: u8) -> int {
    if marker == 1 || marker == 2 || marker == 4 || marker == 8 {
        marker as int
    } else {
        0
    }
}

/// Reads the marker at `at` and the length after it: gives the length and
/// where the data starts, or `None` where the decoder indexes past `b`.
pub open spec fn read_prefixed(b: Seq<u8>, at: int) -> Option<(int, int)> {
    if at < 0 || at >= b.len() {
        None
    } else {
        let w = marker_width(b[at]);
        if at + 1 + w > b.len() {
            None
        } else {
            Some((from_le(b.subrange(at + 1, at + 1 + w)) as usize as int, at + 1 + w))
        }
    }
}

/// What decoding the index entries from position `i` gives, each key paired
/// with the value that its position points to in `arg`.
pub open spec fn parse_entries(arg: Seq<u8>, index: Seq<u8>, i: int) -> Decoded<
    Seq<(Seq<char>, Seq<char>)>,
>
    decreases index.len() - i,
{
    if i < 0 || i >= index.len() {
        Decoded::Value(Seq::empty())
    } else {
        match read_prefixed(index, i) {
            None => Decoded::Panics,
            Some((kl, ks)) => if ks + kl > index.len() || !valid_utf8(index.subrange(ks, ks + kl)) {
                Decoded::Panics
            } else if ks + kl + 8 > index.len() {
                Decoded::Panics
            } else {
                let vp = ks + kl;
                let vi = from_le(index.subrange(vp, vp + 8)) as usize as int;
                match read_prefixed(arg, vi) {
                    None => Decoded::Panics,
                    Some((vl, vs)) => if vs + vl > arg.len() || !valid_utf8(arg.subrange(vs, vs + vl)) {
                        Decoded::Panics
                    } else {
                        let head = (decode_utf8(index.subrange(ks, ks + kl)), decode_utf8(arg.subrange(vs, vs + vl)));
                        prepend(seq![head], parse_entries(arg, index, vp + 8))
                    },
                }
            },
        }
    }
}

/// The index area that the header of `arg` delimits, when it fits.
pub open spec fn index_of(arg: Seq<u8>) -> Option<Seq<u8>> {
    if arg.len() < 9 {
        None
    } else {
        let size = from_le(arg.subrange(1, 9)) as usize as int;
        if 9 + size > arg.len() {
            None
        } else {
            Some(arg.subrange(9, 9 + size))
        }
    }
}

/// What decoding a list gives: nothing for a version other than 1.
pub open spec fn parse_indexed_list(arg: Seq<u8>) -> Decoded<Seq<(Seq<char>, Seq<char>)>> {
    if arg.len() == 0 {
        Decoded::Panics
    } else if arg[0] != 1 {
        Decoded::Value(Seq::empty())
    } else {
        match index_of(arg) {
            None => Decoded::Panics,
            Some(index) => parse_entries(arg, index, 0),
        }
    }
}

/// Lengths of the areas of a prefix of a list are at most those of the list.
pub proof fn lemma_prefix_sizes(objs: Seq<(Seq<char>, Seq<char>)>, j: int)
    requires
        0 <= j <= objs.len(),
    ensures
        values_region(objs.subrange(0, j)).len() <= values_region(objs).len(),
        index_size(objs.subrange(0, j)) <= index_size(objs),
    decreases objs.len(),
{
    if j < objs.len() {
        let o = objs.drop_last();
        assert(o.subrange(0, j) =~= objs.subrange(0, j));
        lemma_prefix_sizes(o, j);
    } else {
        assert(objs.subrange(0, j) =~= objs);
    }
}

/// The index takes `index_size` bytes.
pub proof fn lemma_index_region_len(objs: Seq<(Seq<char>, Seq<char>)>, base: nat)
    ensures
        index_region(objs, base).len() == index_size(objs),
    decreases objs.len(),
{
    if objs.len() > 0 {
        lemma_index_region_len(objs.drop_last(), base);
    }
}

/// The index of a prefix of a list is the start of the index of the list.
proof fn lemma_index_region_prefix(objs: Seq<(Seq<char>, Seq<char>)>, base: nat, j: int)
    requires
        0 <= j <= objs.len(),
    ensures
        index_size(objs.subrange(0, j)) <= index_region(objs, base).len(),
        index_region(objs, base).subrange(0, index_size(objs.subrange(0, j)) as int) == index_region(
            objs.subrange(0, j),
            base,
        ),
    decreases objs.len(),
{
    lemma_index_region_len(objs, base);
    lemma_index_region_len(objs.subrange(0, j), base);
    lemma_prefix_sizes(objs, j);
    if j < objs.len() {
        let o = objs.drop_last();
        assert(o.subrange(0, j) =~= objs.subrange(0, j));
        lemma_index_region_prefix(o, base, j);
        lemma_index_region_len(o, base);
        lemma_prefix_sizes(o, j);
        assert(index_region(objs, base).subrange(0, index_size(objs.subrange(0, j)) as int)
            =~= index_region(o, base).subrange(0, index_size(o.subrange(0, j)) as int));
    } else {
        assert(objs.subrange(0, j) =~= objs);
        assert(index_region(objs, base).subrange(0, index_size(objs) as int) =~= index_region(objs, base));
    }
}

/// The value area of a prefix of a list is the start of its value area.
proof fn lemma_values_region_prefix(objs: Seq<(Seq<char>, Seq<char>)>, j: int)
    requires
        0 <= j <= objs.len(),
    ensures
        values_region(objs).subrange(0, values_region(objs.subrange(0, j)).len() as int) == values_region(
            objs.subrange(0, j),
        ),
    decreases objs.len(),
{
    lemma_prefix_sizes(objs, j);
    if j < objs.len() {
        let o = objs.drop_last();
        assert(o.subrange(0, j) =~= objs.subrange(0, j));
        lemma_values_region_prefix(o, j);
        lemma_prefix_sizes(o, j);
        assert(values_region(objs).subrange(0, values_region(objs.subrange(0, j)).len() as int)
            =~= values_region(o).subrange(0, values_region(o.subrange(0, j)).len() as int));
    } else {
        assert(objs.subrange(0, j) =~= objs);
        assert(values_region(objs).subrange(0, values_region(objs).len() as int) =~= values_region(objs));
    }
}

/// A length below 65536 written with its marker reads back.
proof fn lemma_read_prefixed(b: Seq<u8>, at: int, data: Seq<u8>)
    requires
        data.len() < 65536,
        0 <= at,
        at + len_prefix(data.len()).len() + data.len() <= b.len(),
        b.subrange(at, at + len_prefix(data.len()).len() + data.len()) == len_prefix(data.len()) + data,
    ensures
        read_prefixed(b, at) == Some((data.len() as int, at + len_prefix(data.len()).len())),
        b.subrange(at + len_prefix(data.len()).len(), at + len_prefix(data.len()).len() + data.len())
            == data,
{
    let pl = len_prefix(data.len()).len() as int;
    let w = pl - 1;
    lemma_from_le_bytes(data.len(), w as nat);
    lemma_pow256_values();
    assert(b[at] == (len_prefix(data.len()) + data)[0]);
    assert(b.subrange(at + 1, at + 1 + w) =~= (len_prefix(data.len()) + data).subrange(1, 1 + w));
    if data.len() < 256 {
        assert(le_bytes(data.len(), 1)[0] == (data.len() % 256) as u8);
        assert((len_prefix(data.len()) + data).subrange(1, 2) =~= le_bytes(data.len(), 1));
    } else {
        assert((len_prefix(data.len()) + data).subrange(1, 3) =~= le_bytes(data.len(), 2));
    }
    vstd::arithmetic::div_mod::lemma_small_mod(data.len(), pow256(w as nat));
    assert(b.subrange(at + pl, at + pl + data.len()) =~= (len_prefix(data.len()) + data).subrange(
        pl,
        pl + data.len(),
    ));
}

/// Keys and values below 65536 bytes each.
pub open spec fn short_entries(objs: Seq<(Seq<char>, Seq<char>)>) -> bool {
    forall|i: int|
        0 <= i < objs.len() ==> encode_utf8(#[trigger] objs[i].0).len() < 65536 && encode_utf8(
            objs[i].1,
        ).len() < 65536
}

/// Where the `j`th key of a written list stands in its index, and the value
/// position after it.
pub(crate) proof fn lemma_key_at(objs: Seq<(Seq<char>, Seq<char>)>, j: int)
    requires
        0 <= j < objs.len(),
        short_entries(objs),
        spec_indexed_list(objs).len() <= usize::MAX,
    ensures
        ({
            let base = index_size(objs) + 9;
            let idx = index_region(objs, base);
            let p = index_size(objs.subrange(0, j)) as int;
            let kb = encode_utf8(objs[j].0);
            let ks = p + len_prefix(kb.len()).len();
            let q = ks + kb.len();
            &&& read_prefixed(idx, p) == Some((kb.len() as int, ks))
            &&& idx.subrange(ks, q) == kb
            &&& q + 8 <= idx.len()
            &&& q + 8 == index_size(objs.subrange(0, j + 1))
            &&& from_le(idx.subrange(q, q + 8)) as usize as int == values_region(objs.subrange(0, j)).len()
                + base
            &&& from_le(idx.subrange(q, q + 8)) == values_region(objs.subrange(0, j)).len() + base
        }),
{
    let base = index_size(objs) + 9;
    let idx = index_region(objs, base);
    let p = index_size(objs.subrange(0, j)) as int;
    let pj = objs.subrange(0, j + 1);
    lemma_index_region_len(objs, base);
    assert(pj.drop_last() =~= objs.subrange(0, j));
    lemma_index_region_prefix(objs, base, j + 1);
    lemma_prefix_sizes(objs, j + 1);
    lemma_prefix_sizes(objs, j);
    let k = objs[j].0;
    assert(encode_utf8(k).len() < 65536);
    let ke = key_entry(k);
    let q = p + ke.len();
    let vpos = values_region(objs.subrange(0, j)).len() + base;
    lemma_index_region_len(objs.subrange(0, j), base);
    assert(index_region(pj, base) == index_region(objs.subrange(0, j), base) + ke + le_bytes(vpos, 8));
    assert(idx.subrange(p, q) =~= index_region(pj, base).subrange(p, q));
    assert(idx.subrange(p, q) =~= ke);
    lemma_read_prefixed(idx, p, encode_utf8(k));
    assert(idx.subrange(q, q + 8) =~= index_region(pj, base).subrange(q, q + 8));
    assert(idx.subrange(q, q + 8) =~= le_bytes(vpos, 8));
    lemma_from_le_bytes(vpos, 8);
    lemma_pow256_values();
    vstd::arithmetic::div_mod::lemma_small_mod(vpos, pow256(8));
}

/// Where the `j`th value of a written list stands.
pub(crate) proof fn lemma_value_at(objs: Seq<(Seq<char>, Seq<char>)>, j: int)
    requires
        0 <= j < objs.len(),
        short_entries(objs),
        spec_indexed_list(objs).len() <= usize::MAX,
    ensures
        ({
            let base = index_size(objs) + 9;
            let b = spec_indexed_list(objs);
            let vpos = values_region(objs.subrange(0, j)).len() + base;
            let vb = encode_utf8(objs[j].1);
            let vs = vpos + len_prefix(vb.len()).len();
            &&& read_prefixed(b, vpos as int) == Some((vb.len() as int, vs as int))
            &&& vs + vb.len() <= b.len()
            &&& b.subrange(vs as int, (vs + vb.len()) as int) == vb
        }),
{
    let base = index_size(objs) + 9;
    let b = spec_indexed_list(objs);
    let pj = objs.subrange(0, j + 1);
    assert(pj.drop_last() =~= objs.subrange(0, j));
    lemma_index_region_len(objs, base);
    lemma_values_region_prefix(objs, j + 1);
    lemma_prefix_sizes(objs, j + 1);
    let v = objs[j].1;
    assert(encode_utf8(v).len() < 65536);
    let vr = values_region(objs);
    let v0 = values_region(objs.subrange(0, j)).len() as int;
    let ve = value_entry(v);
    let vpos = v0 + base;
    assert(values_region(pj) == values_region(objs.subrange(0, j)) + ve);
    assert(vr.subrange(v0, v0 + ve.len()) =~= values_region(pj).subrange(v0, v0 + ve.len()));
    assert(b.subrange(vpos, vpos + ve.len()) =~= vr.subrange(v0, v0 + ve.len()));
    assert(values_region(pj).subrange(v0, v0 + ve.len()) =~= ve);
    assert(b.subrange(vpos, vpos + ve.len()) == ve);
    assert(ve == len_prefix(encode_utf8(v).len()) + encode_utf8(v));
    lemma_read_prefixed(b, vpos, encode_utf8(v));
}

/// One step of decoding the index: an entry whose key and value read back.
proof fn lemma_parse_entries_step(
    arg: Seq<u8>,
    index: Seq<u8>,
    p: int,
    kl: int,
    ks: int,
    vi: int,
    vl: int,
    vs: int,
)
    requires
        0 <= p < index.len(),
        read_prefixed(index, p) == Some((kl, ks)),
        ks + kl + 8 <= index.len(),
        valid_utf8(index.subrange(ks, ks + kl)),
        from_le(index.subrange(ks + kl, ks + kl + 8)) as usize as int == vi,
        read_prefixed(arg, vi) == Some((vl, vs)),
        vs + vl <= arg.len(),
        valid_utf8(arg.subrange(vs, vs + vl)),
    ensures
        parse_entries(arg, index, p) == prepend(
            seq![(decode_utf8(index.subrange(ks, ks + kl)), decode_utf8(arg.subrange(vs, vs + vl)))],
            parse_entries(arg, index, ks + kl + 8),
        ),
{
}

/// Reading the entries of a written list from the `j`th on gives those
/// pairs.
proof fn lemma_parse_entries_written(objs: Seq<(Seq<char>, Seq<char>)>, j: int)
    requires
        0 <= j <= objs.len(),
        short_entries(objs),
        spec_indexed_list(objs).len() <= usize::MAX,
    ensures
        parse_entries(
            spec_indexed_list(objs),
            index_region(objs, index_size(objs) + 9),
            index_size(objs.subrange(0, j)) as int,
        ) == Decoded::Value(objs.subrange(j, objs.len() as int)),
    decreases objs.len() - j,
{
    let base = index_size(objs) + 9;
    lemma_index_region_len(objs, base);
    lemma_prefix_sizes(objs, j);
    if j == objs.len() {
        assert(objs.subrange(0, j) =~= objs);
        assert(objs.subrange(j, objs.len() as int) =~= Seq::<(Seq<char>, Seq<char>)>::empty());
    } else {
        let k = objs[j].0;
        let v = objs[j].1;
        vstd::utf8::encode_utf8_valid_utf8(k);
        vstd::utf8::encode_utf8_decode_utf8(k);
        vstd::utf8::encode_utf8_valid_utf8(v);
        vstd::utf8::encode_utf8_decode_utf8(v);
        lemma_key_at(objs, j);
        lemma_value_at(objs, j);
        let b = spec_indexed_list(objs);
        let idx = index_region(objs, base);
        let p = index_size(objs.subrange(0, j)) as int;
        let kb = encode_utf8(k);
        let vb = encode_utf8(v);
        let ks = p + len_prefix(kb.len()).len();
        let vpos = values_region(objs.subrange(0, j)).len() + base;
        let vs = vpos + len_prefix(vb.len()).len();
        lemma_parse_entries_step(b, idx, p, kb.len() as int, ks, vpos as int, vb.len() as int, vs as int);
        lemma_parse_entries_written(objs, j + 1);
        assert(seq![(k, v)] + objs.subrange(j + 1, objs.len() as int) =~= objs.subrange(
            j,
            objs.len() as int,
        ));
    }
}

/// Reading back the bytes of a list gives the list, when its keys and values
/// each take fewer than 65536 bytes (longer ones get a marker of four or
/// eight bytes, which is read as a one-byte marker).
pub proof fn lemma_indexed_list_roundtrip(objs: Seq<(Seq<char>, Seq<char>)>)
    requires
        short_entries(objs),
        spec_indexed_list(objs).len() <= usize::MAX,
    ensures
        parse_indexed_list(spec_indexed_list(objs)) == Decoded::Value(objs),
{
    let base = index_size(objs) + 9;
    let b = spec_indexed_list(objs);
    lemma_index_region_len(objs, base);
    lemma_from_le_bytes(index_size(objs), 8);
    lemma_pow256_values();
    vstd::arithmetic::div_mod::lemma_small_mod(index_size(objs), pow256(8));
    assert(b.subrange(1, 9) =~= le_bytes(index_size(objs), 8));
    assert(b.subrange(9, 9 + index_size(objs) as int) =~= index_region(objs, base));
    assert(objs.subrange(0, 0) =~= Seq::<(Seq<char>, Seq<char>)>::empty());
    lemma_parse_entries_written(objs, 0);
    assert(objs.subrange(0, objs.len() as int) =~= objs);
}

} // verus!
