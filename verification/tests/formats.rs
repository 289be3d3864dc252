use neutrondb::error::NeutronError;
use neutrondb::linked_list;
use neutrondb::list;
use neutrondb::neutron;

fn pairs(items: &[(&str, &str)]) -> Vec<(String, String)> {
    items.iter().map(|(k, v)| (k.to_string(), v.to_string())).collect()
}

#[test]
fn linked_list_object_bytes() {
    let bytes = linked_list::serialize::object("ab", "xyz");
    assert_eq!(bytes, vec![2, 97, 98, 1, 3, 120, 121, 122]);
}

#[test]
fn linked_list_object_wide_value_length() {
    let value = "v".repeat(300);
    let bytes = linked_list::serialize::object("k", &value);
    assert_eq!(&bytes[..5], &[1, 107, 2, 44, 1]);
    assert_eq!(bytes.len(), 5 + 300);
}

#[test]
fn linked_list_list_bytes() {
    let bytes = linked_list::serialize::list(&pairs(&[("a", "b"), ("cd", "")]));
    assert_eq!(bytes, vec![1, 97, 1, 1, 98, 2, 99, 100, 1, 0]);
}

#[test]
fn linked_list_list_roundtrip() {
    let items = pairs(&[("a", "b"), ("key", "value"), ("", "empty key")]);
    let bytes = linked_list::serialize::list(&items);
    assert_eq!(linked_list::deserialize::list(&bytes).unwrap(), items);
}

#[test]
fn linked_list_object_reads_key_up_to_its_length() {
    // the key is read from byte 1 up to (not past) the key length
    let bytes = vec![2, 97, 98, 1, 3, 120, 121, 122];
    let (key, value) = linked_list::deserialize::object(&bytes).unwrap();
    assert_eq!(key, "a");
    assert_eq!(value, "xyz");
}

#[test]
fn linked_list_object_unknown_width() {
    let bytes = vec![1, 97, 3, 0];
    assert_eq!(linked_list::deserialize::object(&bytes), Err(NeutronError::ValueLengthSizeUnknown));
}

#[test]
fn linked_list_list_unknown_width() {
    let bytes = vec![1, 97, 5, 0];
    assert_eq!(linked_list::deserialize::list(&bytes), Err(NeutronError::ValueLengthSizeUnknown));
}

#[test]
fn linked_list_list_invalid_value_text() {
    let bytes = vec![1, 97, 1, 1, 0xff];
    assert_eq!(linked_list::deserialize::list(&bytes), Err(NeutronError::InvalidUtf8));
}

#[test]
fn indexed_list_bytes() {
    let bytes = list::serialize::list(&pairs(&[("a", "bc")]));
    assert_eq!(
        bytes,
        vec![1, 11, 0, 0, 0, 0, 0, 0, 0, 1, 1, 97, 20, 0, 0, 0, 0, 0, 0, 0, 1, 2, 98, 99]
    );
}

#[test]
fn indexed_list_roundtrip() {
    let items = pairs(&[("one", "1"), ("two", "22"), ("three", "")]);
    let bytes = list::serialize::list(&items);
    assert_eq!(list::deserialize::list(&bytes).unwrap(), items);
}

#[test]
fn indexed_list_other_version_is_empty() {
    let bytes = vec![2, 0, 0, 0, 0, 0, 0, 0, 0];
    assert_eq!(list::deserialize::list(&bytes).unwrap(), Vec::<(String, String)>::new());
}

#[test]
fn indexed_list_search() {
    let bytes = list::serialize::list(&pairs(&[("a", "bc"), ("d", "ef")]));
    assert_eq!(list::search::key(&bytes, "a"), Ok(Some("bc".to_string())));
    assert_eq!(list::search::key(&bytes, "d"), Ok(Some("ef".to_string())));
    assert_eq!(list::search::key(&bytes, "z"), Ok(None));
}

#[test]
fn indexed_list_search_errors() {
    assert_eq!(list::search::key(&vec![1, 0, 0], "a"), Err(NeutronError::UnexpectedEnd));
    assert_eq!(list::search::key(&vec![3, 0, 0, 0, 0, 0, 0, 0, 0], "a"), Err(NeutronError::UnsupportedVersion));
    assert_eq!(list::search::key(&vec![1, 5, 0, 0, 0, 0, 0, 0, 0, 1], "a"), Err(NeutronError::UnexpectedEnd));
}

#[test]
fn neutron_create_bytes() {
    let bytes = neutron::create(vec![7], &pairs(&[("a", "bc")]));
    assert_eq!(
        bytes,
        vec![
            1, 0, 0, 0, 0, 0, 0, 0, 7, 15, 0, 0, 0, 0, 0, 0, 0, 1, 13, 1, 1, 97, 1, 8, 0, 0, 0, 0, 0, 0,
            0, 0, 98, 99
        ]
    );
}

#[test]
fn neutron_create_value_positions() {
    let bytes = neutron::create(vec![], &pairs(&[("a", "xy"), ("b", "z")]));
    // the second key's record holds the position 2 (after "xy")
    let keys_len = u64::from_le_bytes(bytes[8..16].try_into().unwrap()) as usize;
    assert_eq!(&bytes[16 + keys_len..], b"xyz");
    assert_eq!(bytes[16 + 15 + 2 + 5], 2);
}

#[test]
fn neutron_get_all_stops_at_bloom_length() {
    let bytes = neutron::create(vec![1, 2], &pairs(&[("a", "b")]));
    assert_eq!(neutron::get_all(&bytes), Err(NeutronError::InvalidByteSize));
}

fn older_table(key: &str, value: &str) -> Vec<u8> {
    let mut record = vec![1, key.len() as u8];
    record.extend(key.as_bytes());
    record.extend([1, 8, 0, 0, 0, 0, 0, 0, 0, 0]);
    let mut index = vec![1, record.len() as u8];
    index.extend(record);
    let mut f = (index.len() as u64).to_be_bytes().to_vec();
    f.extend(0u64.to_be_bytes());
    f.extend(index);
    f.extend(value.as_bytes());
    f
}

#[test]
fn neutron_get_finds_value() {
    let f = older_table("a", "xy");
    assert_eq!(neutron::get("a", &f), Ok("xy".to_string()));
}

#[test]
fn neutron_get_missing_key() {
    let f = older_table("a", "xy");
    assert_eq!(neutron::get("b", &f), Err(NeutronError::NotFound));
}

#[test]
fn neutron_get_short_table() {
    assert_eq!(neutron::get("a", &vec![0, 0, 0]), Err(NeutronError::UnexpectedEnd));
}

fn record(key: &str, position: u64) -> Vec<u8> {
    let mut r = vec![1, key.len() as u8];
    r.extend(key.as_bytes());
    r.extend([1, 8]);
    r.extend(position.to_be_bytes());
    r
}

fn astro_items(items: &[Vec<u8>]) -> Vec<u8> {
    let mut out = Vec::new();
    for item in items {
        out.push(1);
        out.push(item.len() as u8);
        out.extend(item);
    }
    out
}

#[test]
fn neutron_fetch_reads_every_entry() {
    let index = astro_items(&[record("a", 0), record("b", 2)]);
    let mut f = (index.len() as u64).to_be_bytes().to_vec();
    f.extend(0u64.to_be_bytes());
    f.extend(&index);
    f.extend(b"xyz");
    assert_eq!(neutron::fetch::fetch(&f), Ok(pairs(&[("a", "xy"), ("b", "z")])));
}

#[test]
fn neutron_get_run_reads_requested_keys() {
    let keys = astro_items(&[record("a", 0), record("b", 2), record("c", 3)]);
    let mut f = 0u64.to_le_bytes().to_vec();
    f.extend((keys.len() as u64).to_be_bytes());
    f.extend(&keys);
    f.extend(b"xyz");
    let base = 8 + keys.len();
    let request = vec![b"b".to_vec(), b"a".to_vec(), b"b".to_vec()];
    let got = neutron::get::run(&request, &f).unwrap();
    // each key's value is read at the record of its first place in the request
    assert_eq!(got, vec![(b"a".to_vec(), f[base + 2..base + 3].to_vec()), (b"b".to_vec(), f[base..base + 2].to_vec())]);
}

#[test]
fn neutron_get_run_short_table() {
    assert_eq!(neutron::get::run(&vec![b"a".to_vec()], &vec![1, 2, 3]), Err(NeutronError::UnexpectedEnd));
}

#[test]
fn linked_list_of_joined_lists_is_joined_bytes() {
    let a = pairs(&[("a", "b"), ("key", "value")]);
    let b = pairs(&[("x", "yz")]);
    let mut ab = a.clone();
    ab.extend(b.clone());
    let mut joined = linked_list::serialize::list(&a);
    joined.extend(linked_list::serialize::list(&b));
    assert_eq!(linked_list::serialize::list(&ab), joined);
    assert_eq!(linked_list::serialize::list(&vec![]), Vec::<u8>::new());
    assert_eq!(linked_list::serialize::list(&b), linked_list::serialize::object("x", "yz"));
}

#[test]
fn indexed_list_search_gives_the_first_pair() {
    let bytes = list::serialize::list(&pairs(&[("k", "first"), ("m", "other"), ("k", "second")]));
    assert_eq!(list::search::key(&bytes, "k"), Ok(Some("first".to_string())));
    assert_eq!(list::search::key(&bytes, "m"), Ok(Some("other".to_string())));
    assert_eq!(list::search::key(&bytes, "n"), Ok(None));
}
