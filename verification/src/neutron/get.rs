//! Reading the values of given keys from a neutron table (the layout that
//! `create` writes), with byte-string keys and values.
use vstd::prelude::*;
use crate::bytes::{from_le, from_be, read_le, read_be8, copy_range, lemma_from_le_bound, lemma_pow256_values};
use crate::astro::{astro_decode_from, astro_decode};
use crate::error::NeutronError;
use crate::linked_list::{Decoded, prepend};
use crate::entries::{entry_map, byte_pairs, bytes_sorted, upsert_bytes};

verus! {

/// The keys and value positions of the index records from the `j`th on.
/// A record of two items gives its key and the big-endian position in its
/// second item; a record of another size is skipped; a record that does not
/// decode, or a position that is not eight bytes, is an error.
pub open spec fn get_key_indices(items: Seq<Seq<u8>>, j: int) -> Decoded<Seq<(Seq<u8>, nat)>>
    decreases items.len() - j,
{
    if j < 0 || j >= items.len() {
        Decoded::Value(Seq::empty())
    } else {
        match astro_decode_from(items[j], 0) {
            Decoded::Panics => Decoded::Panics,
            Decoded::Invalid(e) => Decoded::Invalid(NeutronError::InvalidEncoding),
            Decoded::Value(d) => if d.len() == 2 {
                if d[1].len() != 8 {
                    Decoded::Invalid(NeutronError::InvalidByteSize)
                } else {
                    prepend(seq![(d[0], from_be(d[1]))], get_key_indices(items, j + 1))
                }
            } else {
                get_key_indices(items, j + 1)
            },
        }
    }
}

/// The first position of `key` in `keys`, from `j` on.
pub open spec fn first_position(keys: Seq<Seq<u8>>, key: Seq<u8>, j: int) -> int
    decreases keys.len() - j,
{
    if j < 0 || j >= keys.len() {
        keys.len() as int
    } else if keys[j] == key {
        j
    } else {
        first_position(keys, key, j + 1)
    }
}

/// The values of the requested keys from the `k`th on: each key's value
/// runs from the position of the index record at the key's first place in
/// the request to the position of the record after it, counted from `base`.
pub open spec fn get_values(f: Seq<u8>, keys: Seq<Seq<u8>>, ki: Seq<(Seq<u8>, nat)>, base: int, k: int) -> Decoded<
    Seq<(Seq<u8>, Seq<u8>)>,
>
    decreases keys.len() - k,
{
    if k < 0 || k >= keys.len() {
        Decoded::Value(Seq::empty())
    } else {
        let i = first_position(keys, keys[k], 0);
        if i + 1 >= ki.len() {
            Decoded::Panics
        } else {
            let start = ki[i].1 as int;
            let end = ki[i + 1].1 as int;
            let vi = base + start;
            if end < start || vi > u64::MAX {
                Decoded::Panics
            } else if vi + (end - start) > f.len() {
                Decoded::Invalid(NeutronError::UnexpectedEnd)
            } else {
                prepend(seq![(keys[k], f.subrange(vi, vi + (end - start)))], get_values(f, keys, ki, base, k + 1))
            }
        }
    }
}

/// What reading the requested keys from the table bytes `f` gives.
pub open spec fn get_table(keys: Seq<Seq<u8>>, f: Seq<u8>) -> Decoded<Seq<(Seq<u8>, Seq<u8>)>> {
    if f.len() < 8 {
        Decoded::Invalid(NeutronError::UnexpectedEnd)
    } else {
        let kp = (from_le(f.subrange(0, 8)) + 8) as int;
        if kp > u64::MAX {
            Decoded::Panics
        } else if kp + 8 > f.len() {
            Decoded::Invalid(NeutronError::UnexpectedEnd)
        } else {
            let kbs = from_be(f.subrange(kp as int, kp + 8)) as usize as int;
            if kp + 8 + kbs > f.len() {
                Decoded::Invalid(NeutronError::UnexpectedEnd)
            } else {
                match astro_decode_from(f.subrange(kp + 8, kp + 8 + kbs), 0) {
                    Decoded::Panics => Decoded::Panics,
                    Decoded::Invalid(e) => Decoded::Invalid(NeutronError::InvalidEncoding),
                    Decoded::Value(items) => match get_key_indices(items, 0) {
                        Decoded::Panics => Decoded::Panics,
                        Decoded::Invalid(e) => Decoded::Invalid(e),
                        Decoded::Value(ki) => if kp + kbs > u64::MAX {
                            Decoded::Panics
                        } else {
                            get_values(f, keys, ki, kp + kbs, 0)
                        },
                    },
                }
            }
        }
    }
}

fn read_key_indices(items: &Vec<Vec<u8>>) -> (r: Result<Vec<(Vec<u8>, u64)>, NeutronError>)
    requires
        !(get_key_indices(items@.map_values(|v: Vec<u8>| v@), 0) is Panics),
    ensures
        match get_key_indices(items@.map_values(|v: Vec<u8>| v@), 0) {
            Decoded::Value(ki) => r is Ok && r->Ok_0@.map_values(|e: (Vec<u8>, u64)| (e.0@, e.1 as nat)) == ki,
            Decoded::Invalid(e) => r == Err::<Vec<(Vec<u8>, u64)>, NeutronError>(e),
            Decoded::Panics => false,
        },
{
    let ghost iv = items@.map_values(|v: Vec<u8>| v@);
    let mut r: Vec<(Vec<u8>, u64)> = Vec::new();
    let mut j: usize = 0;
    assert(prepend(Seq::empty(), get_key_indices(iv, 0)) =~= get_key_indices(iv, 0)) by {
        match get_key_indices(iv, 0) {
            Decoded::Value(v) => {
                assert(Seq::<(Seq<u8>, nat)>::empty() + v =~= v);
            },
            _ => {},
        }
    }
    while j < items.len()
        invariant
            j <= items@.len() == iv.len(),
            iv == items@.map_values(|v: Vec<u8>| v@),
            !(get_key_indices(iv, 0) is Panics),
            prepend(r@.map_values(|e: (Vec<u8>, u64)| (e.0@, e.1 as nat)), get_key_indices(iv, j as int))
                == get_key_indices(iv, 0),
        decreases items@.len() - j,
    {
        let ghost acc = r@.map_values(|e: (Vec<u8>, u64)| (e.0@, e.1 as nat));
        assert(iv[j as int] == items@[j as int]@);
        match astro_decode(items[j].as_slice()) {
            Some(d) => {
                if d.len() == 2 {
                    assert(d@[0]@ == d@.map_values(|v: Vec<u8>| v@)[0]);
                    assert(d@[1]@ == d@.map_values(|v: Vec<u8>| v@)[1]);
                    if d[1].len() != 8 {
                        return Err(NeutronError::InvalidByteSize);
                    }
                    let k = copy_range(d[0].as_slice(), 0, d[0].len());
                    assert(k@ =~= d@[0]@);
                    let index = read_be8(d[1].as_slice(), 0);
                    assert(d@[1]@.subrange(0, 8) =~= d@[1]@);
                    let ghost head = (k@, index as nat);
                    r.push((k, index));
                    proof {
                        assert(r@.map_values(|e: (Vec<u8>, u64)| (e.0@, e.1 as nat)) =~= acc + seq![head]);
                        match get_key_indices(iv, j + 1) {
                            Decoded::Value(v) => {
                                assert(acc + (seq![head] + v) =~= (acc + seq![head]) + v);
                            },
                            _ => {},
                        }
                    }
                }
            },
            None => {
                return Err(NeutronError::InvalidEncoding);
            },
        }
        j = j + 1;
    }
    assert(r@.map_values(|e: (Vec<u8>, u64)| (e.0@, e.1 as nat)) + Seq::<(Seq<u8>, nat)>::empty()
        =~= r@.map_values(|e: (Vec<u8>, u64)| (e.0@, e.1 as nat)));
    Ok(r)
}

/// The position of the first request equal to `keys[k]`.
fn first_position_of(keys: &Vec<Vec<u8>>, k: usize) -> (i: usize)
    requires
        k < keys@.len(),
    ensures
        i as int == first_position(keys@.map_values(|v: Vec<u8>| v@), keys@[k as int]@, 0),
        i <= k,
{
    let ghost kv = keys@.map_values(|v: Vec<u8>| v@);
    let mut i: usize = 0;
    while i < k
        invariant
            i <= k < keys@.len(),
            kv == keys@.map_values(|v: Vec<u8>| v@),
            first_position(kv, kv[k as int], 0) == first_position(kv, kv[k as int], i as int),
        ensures
            i <= k,
            first_position(kv, kv[k as int], 0) == first_position(kv, kv[k as int], i as int),
            i < k ==> kv[i as int] == kv[k as int],
        decreases k - i,
    {
        if bytes_equal(&keys[i], &keys[k]) {
            break;
        }
        i = i + 1;
    }
    i
}

/// Whether two byte strings are equal.
fn bytes_equal(a: &Vec<u8>, b: &Vec<u8>) -> (r: bool)
    ensures
        r == (a@ == b@),
{
    if a.len() != b.len() {
        return false;
    }
    let mut i: usize = 0;
    while i < a.len()
        invariant
            i <= a@.len() == b@.len(),
            forall|j: int| 0 <= j < i ==> a@[j] == b@[j],
        decreases a@.len() - i,
    {
        if a[i] != b[i] {
            return false;
        }
        i = i + 1;
    }
    assert(a@ =~= b@);
    true
}

/// The values of the requested keys in the table bytes `f`, as a map in key
/// order (each requested key once): each key's value is read at the index
/// record that stands at the key's first place in the request, and runs to
/// the next record's position. Requires that the reader does not panic (on a
/// malformed index, too few records, positions out of order, or positions
/// that overflow).
pub fn run(keys: &Vec<Vec<u8>>, f: &Vec<u8>) -> (r: Result<Vec<(Vec<u8>, Vec<u8>)>, NeutronError>)
    requires
        !(get_table(keys@.map_values(|v: Vec<u8>| v@), f@) is Panics),
    ensures
        match get_table(keys@.map_values(|v: Vec<u8>| v@), f@) {
            Decoded::Value(v) => r is Ok && bytes_sorted(byte_pairs(r->Ok_0@)) && entry_map(byte_pairs(r->Ok_0@))
                == entry_map(v),
            Decoded::Invalid(e) => r == Err::<Vec<(Vec<u8>, Vec<u8>)>, NeutronError>(e),
            Decoded::Panics => false,
        },
{
    let ghost kv = keys@.map_values(|v: Vec<u8>| v@);
    let flen = f.len();
    if flen < 8 {
        return Err(NeutronError::UnexpectedEnd);
    }
    proof {
        lemma_from_le_bound(f@.subrange(0, 8));
        lemma_pow256_values();
    }
    let bloom_len = read_le(f.as_slice(), 0, 8) as u64;
    let keys_index: u64 = bloom_len + 8;
    if keys_index > flen as u64 || flen as u64 - keys_index < 8 {
        return Err(NeutronError::UnexpectedEnd);
    }
    let kp = keys_index as usize;
    let keys_buffer_size = read_be8(f.as_slice(), kp) as usize;
    if keys_buffer_size > flen - kp - 8 {
        return Err(NeutronError::UnexpectedEnd);
    }
    let keys_buffer = copy_range(f.as_slice(), kp + 8, kp + 8 + keys_buffer_size);
    let items = match astro_decode(keys_buffer.as_slice()) {
        Some(items) => items,
        None => {
            return Err(NeutronError::InvalidEncoding);
        },
    };
    let key_indices = match read_key_indices(&items) {
        Ok(ki) => ki,
        Err(e) => {
            return Err(e);
        },
    };
    let ghost kiv = key_indices@.map_values(|e: (Vec<u8>, u64)| (e.0@, e.1 as nat));
    let base: u64 = keys_index + keys_buffer_size as u64;
    assert(get_table(kv, f@) == get_values(f@, kv, kiv, base as int, 0));
    let mut res: Vec<(Vec<u8>, Vec<u8>)> = Vec::new();
    let mut k: usize = 0;
    assert(prepend(Seq::empty(), get_values(f@, kv, kiv, base as int, 0)) =~= get_values(f@, kv, kiv, base as int, 0)) by {
        match get_values(f@, kv, kiv, base as int, 0) {
            Decoded::Value(v) => {
                assert(Seq::<(Seq<u8>, Seq<u8>)>::empty() + v =~= v);
            },
            _ => {},
        }
    }
    while k < keys.len()
        invariant
            k <= keys@.len() == kv.len(),
            kv == keys@.map_values(|v: Vec<u8>| v@),
            kiv == key_indices@.map_values(|e: (Vec<u8>, u64)| (e.0@, e.1 as nat)),
            flen == f@.len(),
            !(get_values(f@, kv, kiv, base as int, 0) is Panics),
            get_table(kv, f@) == get_values(f@, kv, kiv, base as int, 0),
            prepend(res@.map_values(|e: (Vec<u8>, Vec<u8>)| (e.0@, e.1@)), get_values(f@, kv, kiv, base as int, k as int))
                == get_values(f@, kv, kiv, base as int, 0),
        decreases keys@.len() - k,
    {
        let ghost acc = res@.map_values(|e: (Vec<u8>, Vec<u8>)| (e.0@, e.1@));
        let i = first_position_of(keys, k);
        assert(kv[k as int] == keys@[k as int]@);
        let start = key_indices[i].1;
        let end = key_indices[i + 1].1;
        let value_buffer_size = end - start;
        let value_index = base + start;
        if value_index > flen as u64 || value_buffer_size > flen as u64 - value_index {
            return Err(NeutronError::UnexpectedEnd);
        }
        let vi = value_index as usize;
        let value = copy_range(f.as_slice(), vi, vi + value_buffer_size as usize);
        let key = copy_range(keys[k].as_slice(), 0, keys[k].len());
        assert(key@ =~= kv[k as int]);
        let ghost head = (key@, value@);
        res.push((key, value));
        proof {
            assert(res@.map_values(|e: (Vec<u8>, Vec<u8>)| (e.0@, e.1@)) =~= acc + seq![head]);
            match get_values(f@, kv, kiv, base as int, k + 1) {
                Decoded::Value(v) => {
                    assert(acc + (seq![head] + v) =~= (acc + seq![head]) + v);
                },
                _ => {},
            }
        }
        k = k + 1;
    }
    assert(res@.map_values(|e: (Vec<u8>, Vec<u8>)| (e.0@, e.1@)) + Seq::<(Seq<u8>, Seq<u8>)>::empty()
        =~= res@.map_values(|e: (Vec<u8>, Vec<u8>)| (e.0@, e.1@)));
    let ghost list = byte_pairs(res@);
    assert(list == res@.map_values(|e: (Vec<u8>, Vec<u8>)| (e.0@, e.1@)));
    let mut map: Vec<(Vec<u8>, Vec<u8>)> = Vec::new();
    let mut m: usize = 0;
    assert(list.subrange(0, 0) =~= Seq::<(Seq<u8>, Seq<u8>)>::empty());
    assert(byte_pairs(map@) =~= Seq::<(Seq<u8>, Seq<u8>)>::empty());
    while m < res.len()
        invariant
            m <= res@.len(),
            list == byte_pairs(res@),
            bytes_sorted(byte_pairs(map@)),
            entry_map(byte_pairs(map@)) == entry_map(list.subrange(0, m as int)),
        decreases res@.len() - m,
    {
        let key = copy_range(res[m].0.as_slice(), 0, res[m].0.len());
        let value = copy_range(res[m].1.as_slice(), 0, res[m].1.len());
        assert(key@ =~= list[m as int].0 && value@ =~= list[m as int].1);
        upsert_bytes(&mut map, key, value);
        assert(list.subrange(0, m + 1).drop_last() =~= list.subrange(0, m as int));
        m = m + 1;
    }
    assert(list.subrange(0, m as int) =~= list);
    Ok(map)
}

} // verus!
