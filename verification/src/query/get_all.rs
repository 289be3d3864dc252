//! All the entries of a store kept in linked-list files.
use vstd::prelude::*;
use crate::error::NeutronError;
use crate::entries::entry_map;
use crate::linked_list::{Decoded, pairs_view, parse_list, prepend};
use crate::linked_list::deserialize::list as decode_list;
use crate::list_store::ListStore;
use crate::text_store::{merge_latest, pairs_sorted, concat_entries};

verus! {

/// What decoding the files from the `i`th on gives: the records of each,
/// in order, or the first error.
pub open spec fn decode_files(files: Seq<Seq<u8>>, i: int) -> Decoded<Seq<Seq<(Seq<char>, Seq<char>)>>>
    decreases files.len() - i,
{
    if i < 0 || i >= files.len() {
        Decoded::Value(Seq::empty())
    } else {
        match parse_list(files[i]) {
            Decoded::Value(v) => prepend(seq![v], decode_files(files, i + 1)),
            Decoded::Invalid(e) => Decoded::Invalid(e),
            Decoded::Panics => Decoded::Panics,
        }
    }
}

/// The bytes of each file.
pub open spec fn bytes_view(files: Seq<Vec<u8>>) -> Seq<Seq<u8>> {
    files.map_values(|f: Vec<u8>| f@)
}

/// Every entry of the store, given the bytes of each of its tables' files
/// (in the order of its tables): the tables' records and then the cache's,
/// merged into one entry per key, the last one given, in key order; `None`
/// when there is no entry at all, and the first table's error where a
/// table's records do not decode. Requires that the decoder does not panic
/// on any table's bytes.
pub fn run(store: &ListStore, files: &Vec<Vec<u8>>) -> (r: Result<Option<Vec<(String, String)>>, NeutronError>)
    requires
        forall|i: int| 0 <= i < files@.len() ==> !(parse_list(#[trigger] files@[i]@) is Panics),
    ensures
        match decode_files(bytes_view(files@), 0) {
            Decoded::Value(lists) => {
                let all = concat_entries(lists) + pairs_view(store.cache@);
                &&& r is Ok
                &&& all.len() == 0 ==> r->Ok_0 is None
                &&& all.len() > 0 ==> r->Ok_0 is Some && pairs_sorted(pairs_view(r->Ok_0->0@)) && entry_map(
                    pairs_view(r->Ok_0->0@),
                ) == entry_map(all)
            },
            Decoded::Invalid(e) => r == Err::<Option<Vec<(String, String)>>, NeutronError>(e),
            Decoded::Panics => false,
        },
{
    let ghost fv = bytes_view(files@);
    let ghost goal = decode_files(fv, 0);
    let mut decoded: Vec<Vec<(String, String)>> = Vec::new();
    let mut any = false;
    let mut i: usize = 0;
    while i < files.len()
        invariant
            i <= files@.len(),
            fv == bytes_view(files@),
            forall|k: int| 0 <= k < files@.len() ==> !(parse_list(#[trigger] files@[k]@) is Panics),
            goal == decode_files(fv, 0),
            prepend(decoded@.map_values(|t: Vec<(String, String)>| pairs_view(t@)), decode_files(fv, i as int))
                == goal,
            any <==> concat_entries(decoded@.map_values(|t: Vec<(String, String)>| pairs_view(t@))).len() > 0,
        decreases files@.len() - i,
    {
        let ghost lists = decoded@.map_values(|t: Vec<(String, String)>| pairs_view(t@));
        assert(fv[i as int] == files@[i as int]@);
        match decode_list(&files[i]) {
            Ok(v) => {
                let ghost lv = pairs_view(v@);
                let nonempty = v.len() > 0;
                decoded.push(v);
                proof {
                    let lists2 = decoded@.map_values(|t: Vec<(String, String)>| pairs_view(t@));
                    assert(lists2 =~= lists.push(lv));
                    assert(lists2.drop_last() =~= lists);
                    match decode_files(fv, i + 1) {
                        Decoded::Value(rest) => {
                            assert(lists + (seq![lv] + rest) =~= lists.push(lv) + rest);
                        },
                        _ => {},
                    }
                }
                any = any || nonempty;
            },
            Err(e) => {
                return Err(e);
            },
        }
        i = i + 1;
    }
    proof {
        assert(decode_files(fv, i as int) == Decoded::<Seq<Seq<(Seq<char>, Seq<char>)>>>::Value(Seq::empty()));
        let lists = decoded@.map_values(|t: Vec<(String, String)>| pairs_view(t@));
        assert(lists + Seq::<Seq<(Seq<char>, Seq<char>)>>::empty() =~= lists);
    }
    if !any && store.cache.len() == 0 {
        return Ok(None);
    }
    let merged = merge_latest(&decoded, &store.cache);
    proof {
        let all = concat_entries(decoded@.map_values(|t: Vec<(String, String)>| pairs_view(t@))) + pairs_view(
            store.cache@,
        );
        assert(all.len() > 0);
    }
    Ok(Some(merged))
}

} // verus!
