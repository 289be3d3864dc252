//! Neutron tables: a bloom filter, an astro-encoded index of keys with the
//! positions of their values, and the values.
use vstd::prelude::*;
use vstd::utf8::{encode_utf8, decode_utf8, valid_utf8};
use crate::bytes::{le_bytes, from_be};
use crate::astro::{astro_encoding, astro_decode_from};
use crate::linked_list::Decoded;
use crate::error::NeutronError;

pub mod create;
pub mod fetch;
pub mod get;
pub mod get_all;
pub mod search;

verus! {

/// The values of a table, one after another.
pub open spec fn table_values(objs: Seq<(Seq<char>, Seq<char>)>) -> Seq<u8>
    decreases objs.len(),
{
    if objs.len() == 0 {
        Seq::empty()
    } else {
        table_values(objs.drop_last()) + encode_utf8(objs.last().1)
    }
}

/// The index record of a key whose value starts at `index` in the values.
pub open spec fn key_record(key: Seq<char>, index: nat) -> Seq<u8> {
    astro_encoding(seq![encode_utf8(key), le_bytes(index, 8)])
}

/// The index records of a table.
pub open spec fn key_records(objs: Seq<(Seq<char>, Seq<char>)>) -> Seq<Seq<u8>> {
    Seq::new(objs.len(), |j: int| key_record(objs[j].0, table_values(objs.subrange(0, j)).len()))
}

/// The bytes of a table: the bloom filter's length and bytes, the index's
/// length and bytes, and the values.
pub open spec fn spec_table(bloom: Seq<u8>, objs: Seq<(Seq<char>, Seq<char>)>) -> Seq<u8> {
    let keys = astro_encoding(key_records(objs));
    le_bytes(bloom.len(), 8) + bloom + le_bytes(keys.len(), 8) + keys + table_values(objs)
}

/// The items of an astro encoding that decodes; empty otherwise.
pub open spec fn astro_items(x: Seq<u8>) -> Seq<Seq<u8>> {
    match astro_decode_from(x, 0) {
        Decoded::Value(v) => v,
        _ => Seq::empty(),
    }
}

/// An index record of an older table layout: an astro encoding of a UTF-8
/// key and an eight-byte big-endian position.
pub open spec fn record_ok(x: Seq<u8>) -> bool {
    &&& astro_decode_from(x, 0) is Value
    &&& astro_items(x).len() >= 2
    &&& valid_utf8(astro_items(x)[0])
    &&& astro_items(x)[1].len() == 8
}

/// The key of an index record.
pub open spec fn record_key(x: Seq<u8>) -> Seq<char> {
    decode_utf8(astro_items(x)[0])
}

/// The value position of an index record.
pub open spec fn record_seek(x: Seq<u8>) -> nat {
    from_be(astro_items(x)[1])
}

/// Every index record is well formed.
pub open spec fn records_ok(items: Seq<Seq<u8>>) -> bool {
    forall|j: int| 0 <= j < items.len() ==> record_ok(#[trigger] items[j])
}

/// The position of the first index record, from `j` on, whose key is `key`.
pub open spec fn first_key_from(items: Seq<Seq<u8>>, key: Seq<char>, j: int) -> Option<int>
    decreases items.len() - j,
{
    if j < 0 || j >= items.len() {
        None
    } else if record_key(items[j]) == key {
        Some(j)
    } else {
        first_key_from(items, key, j + 1)
    }
}

/// The bytes of a table with this bloom filter and these entries, which
/// come as a map does: in strictly increasing key order.
pub fn create(bloom: Vec<u8>, list: &Vec<(String, String)>) -> (r: Vec<u8>)
    requires
        crate::text_store::pairs_sorted(crate::linked_list::pairs_view(list@)),
    ensures
        r@ == spec_table(bloom@, crate::linked_list::pairs_view(list@)),
{
    create::run(bloom, list)
}

/// Reads every entry of a table. The length of the bloom filter is taken
/// from the first nine bytes, which do not convert to an eight-byte integer,
/// so reading always stops there with an error.
pub fn get_all(buffer: &Vec<u8>) -> (r: Result<Vec<(String, String)>, NeutronError>)
    requires
        buffer@.len() >= 9,
    ensures
        r == Err::<Vec<(String, String)>, NeutronError>(NeutronError::InvalidByteSize),
{
    get_all::run(buffer.as_slice())
}

/// The value of `key` in the bytes of a table of the older layout (see
/// `search`).
pub fn get(key: &str, table: &Vec<u8>) -> (r: Result<String, NeutronError>)
    requires
        !(search::search_table(key@, table@) is Panics),
    ensures
        match search::search_table(key@, table@) {
            Decoded::Value(v) => r is Ok && r->Ok_0@ == v,
            Decoded::Invalid(e) => r == Err::<String, NeutronError>(e),
            Decoded::Panics => false,
        },
{
    search::search(key, table)
}

} // verus!
