use neutrondb::error::NeutronError;
use neutrondb::linked_list::serialize::list;
use neutrondb::list_store::{open_list_store, try_open_list_store};

fn pairs(items: &[(&str, &str)]) -> Vec<(String, String)> {
    items.iter().map(|(k, v)| (k.to_string(), v.to_string())).collect()
}

fn hex(bytes: &[u8]) -> String {
    let mut s = "0x".to_string();
    for b in bytes {
        s.push_str(&format!("{:02x}", b));
    }
    s
}

fn stellar_list(items: &[&str]) -> String {
    let mut bytes = Vec::new();
    for i in items {
        bytes.push(1u8);
        bytes.push(i.len() as u8);
        bytes.extend(i.as_bytes());
    }
    hex(&bytes)
}

#[test]
fn open_list_store_reads_its_files() {
    let cache = list(&pairs(&[("k", "v"), ("k2", "v2")]));
    let graves = list(&pairs(&[("gone", "")]));
    let tables = list(&pairs(&[("t1", &stellar_list(&["0x01", "0x0102"]))]));
    let s = open_list_store("store", Some(&cache), Some(&graves), Some(&tables)).unwrap();
    assert_eq!(s.name, "store");
    assert_eq!(s.cache, pairs(&[("k", "v"), ("k2", "v2")]));
    assert_eq!(s.cache_buffer, cache);
    assert_eq!(s.graves, vec!["gone".to_string()]);
    assert_eq!(s.lists.len(), 1);
    assert_eq!((s.lists[0].name.as_str(), s.lists[0].level), ("t1", 1));
    assert_eq!(s.lists[0].bloom_filter, vec![1, 2]);
}

#[test]
fn open_list_store_without_files() {
    let s = open_list_store("store", None, None, None).unwrap();
    assert!(s.cache.is_empty() && s.graves.is_empty() && s.lists.is_empty() && s.cache_buffer.is_empty());
}

#[test]
fn open_list_store_bad_cache() {
    let cache = vec![1, 97, 3, 0];
    let r = open_list_store("store", Some(&cache), None, None);
    assert!(matches!(r, Err(NeutronError::ValueLengthSizeUnknown)));
}

#[test]
fn try_open_list_store_refuses_files_that_would_panic() {
    // a key length past the end of the bytes
    let cache = vec![5u8, 97];
    assert!(try_open_list_store("store", Some(&cache), None, None).is_none());
    // a table record whose value has an odd number of characters
    let tables = list(&pairs(&[("t1", "0x0")]));
    assert!(try_open_list_store("store", None, None, Some(&tables)).is_none());
    // a level item that reads as two bytes
    let tables = list(&pairs(&[("t1", &stellar_list(&["0x0102", "0x01"]))]));
    assert!(try_open_list_store("store", None, None, Some(&tables)).is_none());
}

#[test]
fn try_open_list_store_opens_readable_files() {
    let cache = list(&pairs(&[("k", "v")]));
    let tables = list(&pairs(&[("t1", &stellar_list(&["0x03", "0x0a0b"]))]));
    let s = try_open_list_store("store", Some(&cache), None, Some(&tables)).unwrap().unwrap();
    assert_eq!(s.cache, pairs(&[("k", "v")]));
    assert_eq!((s.lists[0].level, s.lists[0].bloom_filter.clone()), (3, vec![10, 11]));
    let bad = vec![1u8, 97, 3, 0];
    assert!(matches!(try_open_list_store("store", Some(&bad), None, None), Some(Err(NeutronError::ValueLengthSizeUnknown))));
}

#[test]
fn get_all_merges_tables_and_cache_by_key() {
    let tables = list(&pairs(&[("t1", &stellar_list(&["0x01", "0x00"])), ("t2", &stellar_list(&["0x01", "0x00"]))]));
    let cache = list(&pairs(&[("b", "cache")]));
    let s = open_list_store("store", Some(&cache), None, Some(&tables)).unwrap();
    let files = vec![list(&pairs(&[("c", "1"), ("a", "old")])), list(&pairs(&[("a", "new")]))];
    let all = neutrondb::query::get_all::run(&s, &files).unwrap().unwrap();
    assert_eq!(all, pairs(&[("a", "new"), ("b", "cache"), ("c", "1")]));
    let empty = open_list_store("store", None, None, None).unwrap();
    assert_eq!(neutrondb::query::get_all::run(&empty, &vec![]), Ok(None));
    let bad = vec![vec![1u8, 97, 3, 0]];
    assert_eq!(neutrondb::query::get_all::run(&empty, &bad), Err(NeutronError::ValueLengthSizeUnknown));
}
