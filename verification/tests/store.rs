use neutrondb::error::NeutronError;
use neutrondb::store::get::{search_table, Lookup, TableSearch};
use neutrondb::store::new::{parse_graves, parse_level_name, parse_table_header, sort_tables};
use neutrondb::store::{Store, Table};

fn empty_store() -> Store<String, String> {
    Store::new("db", vec![], vec![], &vec![]).unwrap()
}

fn table(name: &str, level: u8, file_size: u64) -> Table {
    Table {
        bloom_filter: vec![],
        key_count: 0,
        level,
        name: name.to_string(),
        file_size,
        index_position: 25,
        keys_position: 25,
    }
}

#[test]
fn new_store_is_empty() {
    let s = empty_store();
    assert_eq!(s.directory, "db");
    assert_eq!(s.cache_limit, 1_000_000);
    assert_eq!(s.log_len, 0);
    assert!(s.keys.is_empty() && s.values.is_empty() && s.graves.is_empty());
}

#[test]
fn put_logs_key_and_value() {
    let mut s = empty_store();
    let rec = s.put(&"k".to_string(), "v".to_string());
    // key record: type, key hash, value hash, key length, key
    assert_eq!(rec.log.len(), 74 + 42);
    assert_eq!(rec.log[0], 1);
    assert_eq!(&rec.log[1..33], &rec.key_hash[..]);
    assert_eq!(&rec.log[65..73], &1u64.to_le_bytes());
    assert_eq!(rec.log[73], b'k');
    // value record: type, value hash, value length, value
    assert_eq!(rec.log[74], 2);
    assert_eq!(&rec.log[75..107], &rec.log[33..65]);
    assert_eq!(&rec.log[107..115], &1u64.to_le_bytes());
    assert_eq!(rec.log[115], b'v');
    assert_eq!(s.log_len, 116);
    assert!(!rec.flush);
    assert_ne!(&rec.key_hash[..1], b"k");
}

#[test]
fn put_same_value_logs_key_only() {
    let mut s = empty_store();
    let _ = s.put(&"a".to_string(), "same".to_string());
    let rec = s.put(&"b".to_string(), "same".to_string());
    assert_eq!(rec.log.len(), 74);
    assert_eq!(s.values.len(), 1);
    assert_eq!(s.keys.len(), 2);
}

#[test]
fn put_then_get() {
    let mut s = empty_store();
    let _ = s.put(&"k".to_string(), "v".to_string());
    match s.get(&"k".to_string()) {
        Lookup::Found(v) => assert_eq!(v, "v"),
        _ => panic!("expected the cached value"),
    }
}

#[test]
fn get_unknown_key_searches_tables() {
    let s = empty_store();
    match s.get(&"nothing".to_string()) {
        Lookup::SearchTables(h) => assert_eq!(h.len(), 32),
        _ => panic!("expected a table search"),
    }
}

#[test]
fn delete_then_get() {
    let mut s = empty_store();
    let rec = s.put(&"k".to_string(), "v".to_string());
    let grave = s.delete(&"k".to_string()).unwrap();
    assert_eq!(grave.len(), 33);
    assert_eq!(grave[0], 3);
    assert_eq!(&grave[1..], &rec.key_hash[..]);
    assert!(matches!(s.get(&"k".to_string()), Lookup::Missing));
    // a second delete of the same key logs nothing
    assert_eq!(s.delete(&"k".to_string()), None);
}

#[test]
fn remove_grave_after_put() {
    let mut s = empty_store();
    let _ = s.delete(&"k".to_string());
    let rec = s.put(&"k".to_string(), "v".to_string());
    s.remove_grave(&rec.key_hash);
    match s.get(&"k".to_string()) {
        Lookup::Found(v) => assert_eq!(v, "v"),
        _ => panic!("expected the cached value"),
    }
}

#[test]
fn replay_of_put_log() {
    let mut s = empty_store();
    let rec = s.put(&"k".to_string(), "v".to_string());
    let s2: Store<String, String> = Store::new("db", vec![], vec![], &rec.log).unwrap();
    assert_eq!(s2.log_len, rec.log.len() as u64);
    match s2.get(&"k".to_string()) {
        Lookup::Found(v) => assert_eq!(v, "v"),
        _ => panic!("expected the replayed value"),
    }
}

#[test]
fn replay_of_put_and_delete_log() {
    let mut s = empty_store();
    let mut log = s.put(&"k".to_string(), "v".to_string()).log;
    log.extend(s.delete(&"k".to_string()).unwrap());
    let s2: Store<String, String> = Store::new("db", vec![], vec![], &log).unwrap();
    assert!(matches!(s2.get(&"k".to_string()), Lookup::Missing));
}

#[test]
fn replay_cut_short() {
    let mut s = empty_store();
    let log = s.put(&"k".to_string(), "v".to_string()).log;
    let cut = log[..40].to_vec();
    let r: Result<Store<String, String>, NeutronError> = Store::new("db", vec![], vec![], &cut);
    assert!(matches!(r, Err(NeutronError::UnexpectedEnd)));
}

#[test]
fn replay_value_that_does_not_read_back() {
    let mut s: Store<String, String> = empty_store();
    let log = s.put(&"k".to_string(), "abc".to_string()).log;
    let r: Result<Store<String, u64>, NeutronError> = Store::new("db", vec![], vec![], &log);
    assert!(matches!(r, Err(NeutronError::InvalidByteSize)));
}

#[test]
fn cache_limit_asks_for_flush() {
    let mut s = empty_store();
    let big = "x".repeat(10);
    let mut asked = false;
    for i in 0..20000u32 {
        let rec = s.put(&format!("key{}", i), format!("{}{}", big, i));
        if rec.flush {
            asked = true;
            break;
        }
    }
    assert!(asked);
    s.reset_cache();
    assert!(s.keys.is_empty() && s.values.is_empty());
    assert_eq!(s.cache_size, 0);
}

#[test]
fn flush_table_bytes() {
    let mut s = empty_store();
    let rec = s.put(&"k".to_string(), "v".to_string());
    let t = s.flush_table(&vec![0, 0, 0, 0], &rec.log).unwrap();
    assert_eq!(t.key_count, 1);
    assert_eq!(t.index_position, 29);
    assert_eq!(t.keys_position, 29 + 56);
    let b = &t.bytes;
    assert_eq!(b.len(), 29 + 56 + 1 + 41);
    assert_eq!(b[0], 1);
    assert_eq!(&b[1..9], &1u64.to_le_bytes());
    assert_eq!(&b[9..17], &29u64.to_le_bytes());
    assert_eq!(&b[17..25], &85u64.to_le_bytes());
    assert_eq!(&b[25..29], &[0, 0, 0, 0]);
    assert_eq!(&b[29..61], &rec.key_hash[..]);
    assert_eq!(&b[61..69], &85u64.to_le_bytes());
    assert_eq!(&b[69..77], &1u64.to_le_bytes());
    assert_eq!(&b[77..85], &86u64.to_le_bytes());
    assert_eq!(b[85], b'k');
    assert_eq!(&b[86..], &rec.log[75..116]);
}

#[test]
fn flush_table_log_too_short() {
    let mut s = empty_store();
    let rec = s.put(&"k".to_string(), "v".to_string());
    let r = s.flush_table(&vec![], &rec.log[..50].to_vec());
    assert!(matches!(r, Err(NeutronError::UnexpectedEnd)));
}

#[test]
fn graves_file_bytes() {
    let mut s = empty_store();
    let g1 = s.delete(&"a".to_string()).unwrap();
    let g2 = s.delete(&"b".to_string()).unwrap();
    let mut expected = g1[1..].to_vec();
    expected.extend(&g2[1..]);
    assert_eq!(s.graves_bytes(), expected);
    assert_eq!(parse_graves(&expected).len(), 2);
}

#[test]
fn tables_ordered_by_name() {
    let sorted = sort_tables(vec![table("10", 1, 0), table("30", 1, 0), table("20", 2, 0)]);
    let names: Vec<&str> = sorted.iter().map(|t| t.name.as_str()).collect();
    assert_eq!(names, vec!["30", "20", "10"]);
    let mut s = empty_store();
    s.add_table(table("5", 1, 0));
    s.add_table(table("7", 1, 0));
    assert_eq!(s.tables[0].name, "7");
}

#[test]
fn level_directory_names() {
    assert_eq!(parse_level_name("3"), Some(3));
    assert_eq!(parse_level_name("255"), Some(255));
    assert_eq!(parse_level_name("256"), None);
    assert_eq!(parse_level_name("x1"), None);
}

#[test]
fn table_header_fields() {
    let mut b = vec![1u8];
    b.extend(3u64.to_le_bytes());
    b.extend(29u64.to_le_bytes());
    b.extend(200u64.to_le_bytes());
    let h = parse_table_header(&b).unwrap();
    assert_eq!((h.key_count, h.index_position, h.keys_position), (3, 29, 200));
    assert_eq!(h.bloom_filter_size(), 4);
    assert!(matches!(parse_table_header(&b[..24]), Err(NeutronError::UnexpectedEnd)));
}

#[test]
fn table_search_halves() {
    let mut ts = TableSearch::new(4);
    assert_eq!(ts.probe(25), Some(25 + 2 * 56));
    let lower = [0u8; 32];
    let higher = [9u8; 32];
    // the searched hash is above the table's: the search moves up
    assert!(!ts.step(&higher, &lower));
    assert_eq!(ts.probe(25), Some(25 + 3 * 56));
}

#[test]
fn put_key_hash_is_the_fides_hash() {
    let mut s = empty_store();
    let rec = s.put(&"k".to_string(), "v".to_string());
    assert_eq!(rec.key_hash, fides::hash::blake_3(b"k"));
    assert_eq!(&rec.log[33..65], &fides::hash::blake_3(b"v")[..]);
}

#[test]
fn table_search_stops_below_entry_zero() {
    let mut ts = TableSearch::new(0);
    assert!(!ts.step(&[0u8; 32], &[9u8; 32]));
    assert_eq!(ts.probe(25), None);
}

#[test]
fn get_after_flush_reads_the_table() {
    let mut s = empty_store();
    let mut log = Vec::new();
    let mut hashes = Vec::new();
    for (k, v) in [("k", "v"), ("other", "w"), ("third", "xyz")] {
        let rec = s.put(&k.to_string(), v.to_string());
        hashes.push((rec.key_hash, v));
        log.extend(rec.log);
    }
    let t = s.flush_table(&vec![0, 0, 0, 0], &log).unwrap();
    for (h, v) in hashes {
        let found = search_table(&t.bytes, t.index_position, t.key_count, &h).unwrap();
        assert_eq!(found, Some(v.as_bytes().to_vec()));
    }
    assert_eq!(search_table(&t.bytes, t.index_position, t.key_count, &[7u8; 32]).unwrap(), None);
}

#[test]
fn cache_limit_sets_at_least_the_minimum() {
    let mut s = empty_store();
    s.cache_limit(500);
    assert_eq!(s.cache_limit, 1_000_000);
    s.cache_limit(2_000_000);
    assert_eq!(s.cache_limit, 2_000_000);
}

#[test]
fn reopened_store_forgets_a_grave_that_a_put_undid() {
    let mut s = empty_store();
    let mut log = s.delete(&"k".to_string()).unwrap();
    let rec = s.put(&"k".to_string(), "v".to_string());
    s.remove_grave(&rec.key_hash);
    log.extend(rec.log);
    let s2: Store<String, String> = Store::new("db", vec![], vec![], &log).unwrap();
    match s2.get(&"k".to_string()) {
        Lookup::Found(v) => assert_eq!(v, "v"),
        _ => panic!("expected the value put after the delete"),
    }
}

#[test]
fn replay_key_size_too_large() {
    let mut log = vec![1u8];
    log.extend([0u8; 64]);
    log.extend(u64::MAX.to_le_bytes());
    let r: Result<Store<String, String>, NeutronError> = Store::new("db", vec![], vec![], &log);
    assert!(matches!(r, Err(NeutronError::InvalidByteSize)));
}

#[test]
fn latest_put_wins() {
    let mut s = empty_store();
    let rec = s.put(&"k".to_string(), "v1".to_string());
    s.remove_grave(&rec.key_hash);
    let rec = s.put(&"k".to_string(), "v2".to_string());
    s.remove_grave(&rec.key_hash);
    match s.get(&"k".to_string()) {
        Lookup::Found(v) => assert_eq!(v, "v2"),
        _ => panic!("expected the second value"),
    }
}

#[test]
fn deleted_key_stays_missing_after_other_puts() {
    let mut s = empty_store();
    let _ = s.put(&"k".to_string(), "v".to_string());
    let _ = s.delete(&"k".to_string());
    let rec = s.put(&"other".to_string(), "w".to_string());
    s.remove_grave(&rec.key_hash);
    assert!(matches!(s.get(&"k".to_string()), Lookup::Missing));
}

#[test]
fn deleted_key_stays_missing_after_flush() {
    let mut s = empty_store();
    let mut log = Vec::new();
    let rec = s.put(&"k".to_string(), "v".to_string());
    log.extend(rec.log);
    log.extend(s.delete(&"k".to_string()).unwrap());
    let _ = s.flush_table(&vec![0, 0, 0, 0], &log).unwrap();
    s.reset_cache();
    assert!(matches!(s.get(&"k".to_string()), Lookup::Missing));
}

#[test]
fn new_store_orders_its_tables_by_name() {
    let s: Store<String, String> =
        Store::new("db", vec![], vec![table("10", 1, 0), table("30", 1, 0), table("20", 2, 0)], &vec![]).unwrap();
    let names: Vec<&str> = s.tables.iter().map(|t| t.name.as_str()).collect();
    assert_eq!(names, vec!["30", "20", "10"]);
}

#[test]
fn flushed_table_is_added_at_level_one() {
    let mut s = empty_store();
    s.add_table(table("1", 2, 0));
    let rec = s.put(&"k".to_string(), "v".to_string());
    let t = s.flush_table(&vec![0, 0, 0, 0], &rec.log).unwrap();
    s.add_flushed_table(&t, vec![0, 0, 0, 0], "2".to_string());
    let new = &s.tables[0];
    assert_eq!((new.name.as_str(), new.level, new.key_count), ("2", 1, 1));
    assert_eq!(new.file_size, t.bytes.len() as u64);
    assert_eq!((new.index_position, new.keys_position), (29, 85));
    assert_eq!(new.bloom_filter, vec![0, 0, 0, 0]);
    assert_eq!(s.tables[1].name, "1");
}

#[test]
fn finish_put_empties_an_outgrown_cache_and_removes_the_grave() {
    let mut s = empty_store();
    let _ = s.delete(&"k".to_string());
    let rec = s.put(&"k".to_string(), "v".to_string());
    s.finish_put(&rec.key_hash);
    assert!(s.graves.is_empty());
    assert_eq!(s.keys.len(), 1);
    let mut s = empty_store();
    s.cache_limit = 0;
    let rec = s.put(&"k".to_string(), "v".to_string());
    assert!(rec.flush);
    s.finish_put(&rec.key_hash);
    assert!(s.keys.is_empty() && s.values.is_empty());
    assert_eq!((s.cache_size, s.log_len), (0, 0));
}

#[test]
fn get_from_tables_takes_the_newest_table_that_has_the_key() {
    let mut s = empty_store();
    let rec_old = s.put(&"k".to_string(), "old".to_string());
    let older = s.flush_table(&vec![0, 0, 0, 0], &rec_old.log).unwrap();
    s.reset_cache();
    let rec_new = s.put(&"k".to_string(), "new".to_string());
    let newer = s.flush_table(&vec![0, 0, 0, 0], &rec_new.log).unwrap();
    s.reset_cache();
    s.add_flushed_table(&older, vec![0, 0, 0, 0], "1".to_string());
    s.add_flushed_table(&newer, vec![0, 0, 0, 0], "2".to_string());
    let files = vec![newer.bytes.clone(), older.bytes.clone()];
    assert_eq!(s.get_from_tables(&rec_new.key_hash, &files), Ok(b"new".to_vec()));
    assert_eq!(s.get_from_tables(&[7u8; 32], &files), Err(NeutronError::NotFound));
    assert_eq!(s.get_from_tables(&rec_new.key_hash, &vec![vec![1u8; 3], older.bytes.clone()]), Err(NeutronError::UnexpectedEnd));
}

#[test]
fn second_delete_logs_nothing() {
    let mut s = empty_store();
    assert!(s.delete(&"k".to_string()).is_some());
    let before = (s.graves.clone(), s.log_len);
    assert_eq!(s.delete(&"k".to_string()), None);
    assert_eq!((s.graves.clone(), s.log_len), before);
}

#[test]
fn other_puts_and_deletes_keep_a_read() {
    let mut s = empty_store();
    let rec = s.put(&"k".to_string(), "v".to_string());
    s.finish_put(&rec.key_hash);
    let rec = s.put(&"other".to_string(), "v".to_string());
    s.finish_put(&rec.key_hash);
    let _ = s.delete(&"third".to_string());
    match s.get(&"k".to_string()) {
        Lookup::Found(v) => assert_eq!(v, "v"),
        _ => panic!("expected the value put"),
    }
}
