use neutrondb::bloom_filter;
use neutrondb::error::NeutronError;
use neutrondb::text_store::{purge_graves, run, table_filter, Store};

fn lines(items: &[&str]) -> Vec<String> {
    items.iter().map(|s| s.to_string()).collect()
}

#[test]
fn connect_reads_graves_meta_and_log() {
    let s = Store::connect(
        "blocks",
        &lines(&["0x6162"]),
        &lines(&["0x7431 0x01 0x0102"]),
        &lines(&["0x01 0x6b 0x76", "0x02 0x6b", "0x01 0x6b 0x77", "0x03"]),
    )
    .unwrap();
    assert_eq!(s.directory, "./neutrondb/blocks");
    assert_eq!(s.cache, vec![("k".to_string(), "v".to_string()), ("k".to_string(), "w".to_string())]);
    assert_eq!(s.graves, vec!["ab".to_string()]);
    assert_eq!(s.meta.len(), 1);
    assert_eq!(s.meta[0].name, "t1");
    assert_eq!(s.meta[0].level, 1);
    assert_eq!(s.meta[0].bloom_filter, vec![1, 2]);
}

#[test]
fn connect_grave_after_put_stays() {
    let s = Store::connect("s", &lines(&[]), &lines(&[]), &lines(&["0x01 0x6b 0x76", "0x02 0x6b"])).unwrap();
    assert_eq!(s.graves, vec!["k".to_string()]);
    assert_eq!(s.cache.len(), 1);
}

#[test]
fn connect_plus_sign_digit() {
    let s = Store::connect("s", &lines(&["0x+a6b"]), &lines(&[]), &lines(&[])).unwrap();
    assert_eq!(s.graves, vec!["\nk".to_string()]);
}

#[test]
fn connect_empty_files() {
    let s = Store::connect("s", &lines(&[]), &lines(&[]), &lines(&[])).unwrap();
    assert!(s.cache.is_empty() && s.graves.is_empty() && s.meta.is_empty());
}

#[test]
fn connect_refuses_unreadable_lines() {
    // a put without its value
    assert!(Store::connect("s", &lines(&[]), &lines(&[]), &lines(&["0x01 0x6b"])).is_none());
    // a grave that is not hexadecimal
    assert!(Store::connect("s", &lines(&["0xzz"]), &lines(&[]), &lines(&[])).is_none());
    // a table line with a level of two bytes
    assert!(Store::connect("s", &lines(&[]), &lines(&["0x74 0x0101 0x"]), &lines(&[])).is_none());
    // an odd number of characters
    assert!(Store::connect("s", &lines(&["0x616"]), &lines(&[]), &lines(&[])).is_none());
    // a value that is not UTF-8
    assert!(Store::connect("s", &lines(&[]), &lines(&[]), &lines(&["0x01 0x6b 0xff"])).is_none());
}

fn pairs(items: &[(&str, &str)]) -> Vec<(String, String)> {
    items.iter().map(|(k, v)| (k.to_string(), v.to_string())).collect()
}

#[test]
fn latest_entries_last_value_in_key_order() {
    let s = Store::connect(
        "s",
        &lines(&[]),
        &lines(&[]),
        &lines(&["0x01 0x62 0x31", "0x01 0x61 0x32", "0x01 0x62 0x33"]),
    )
    .unwrap();
    let tables = vec![pairs(&[("c", "old"), ("a", "older")]), pairs(&[("c", "new")])];
    let all = s.latest_entries(&tables);
    assert_eq!(all, pairs(&[("a", "2"), ("b", "3"), ("c", "new")]));
}

#[test]
fn latest_entries_byte_order() {
    let s = Store::connect("s", &lines(&[]), &lines(&[]), &lines(&[])).unwrap();
    let tables = vec![pairs(&[("b", "1"), ("B", "2"), ("", "3"), ("ba", "4"), ("é", "5")])];
    let all = s.latest_entries(&tables);
    let keys: Vec<&str> = all.iter().map(|p| p.0.as_str()).collect();
    assert_eq!(keys, vec!["", "B", "b", "ba", "é"]);
}

#[test]
fn purge_graves_drops_deleted_keys() {
    let entries = pairs(&[("a", "1"), ("b", "2"), ("a", "3"), ("c", "4")]);
    let graves = lines(&["a", "z", "a"]);
    let (kept, left) = purge_graves(entries, graves);
    assert_eq!(kept, pairs(&[("b", "2"), ("c", "4")]));
    assert_eq!(left, lines(&["z"]));
}

#[test]
fn purge_graves_without_graves() {
    let entries = pairs(&[("a", "1")]);
    let (kept, left) = purge_graves(entries.clone(), vec![]);
    assert_eq!(kept, entries);
    assert!(left.is_empty());
}

#[test]
fn table_filter_finds_every_key() {
    let entries = pairs(&[("a", "1"), ("b", "2"), ("c", "3")]);
    let filter = table_filter(&entries);
    assert_eq!(filter.len(), 32);
    for (k, _) in &entries {
        assert!(bloom_filter::lookup(&filter, k));
    }
    let expected = bloom_filter::insert(bloom_filter::insert(bloom_filter::insert(vec![0u8; 32], "a"), "b"), "c");
    assert_eq!(filter, expected);
}

#[test]
fn run_replays_the_log_and_counts_the_cache() {
    let s = run(
        "blocks",
        &lines(&["0x6162"]),
        &lines(&["0x01 0x6b 0x76", "0x02 0x6b", "0x01 0x6b 0x7777"]),
        &lines(&["0x7431 0x01 0x0000000000000100 0x0102"]),
    )
    .unwrap()
    .unwrap();
    assert_eq!(s.name, "blocks");
    assert_eq!(s.cache, pairs(&[("k", "v"), ("k", "ww")]));
    assert_eq!(s.cache_size, 5);
    assert_eq!(s.graves, lines(&["ab"]));
    assert_eq!(s.lists.len(), 1);
    assert_eq!((s.lists[0].name.as_str(), s.lists[0].level, s.lists[0].size), ("t1", 1, 256));
    assert_eq!(s.lists[0].bloom_filter, vec![1, 2]);
}

#[test]
fn run_text_that_is_not_utf8() {
    let r = run("s", &lines(&[]), &lines(&["0x01 0xff"]), &lines(&[]));
    assert!(matches!(r, Some(Err(NeutronError::InvalidUtf8))));
    let r = run("s", &lines(&[]), &lines(&["0x01 0x6b 0xfe"]), &lines(&[]));
    assert!(matches!(r, Some(Err(NeutronError::InvalidUtf8))));
}

#[test]
fn run_lines_that_do_not_read() {
    assert!(run("s", &lines(&[]), &lines(&["0x01 0x6b"]), &lines(&[])).is_none());
    assert!(run("s", &lines(&[]), &lines(&[]), &lines(&["0x74 0x01 0x01 0x"])).is_none());
}
