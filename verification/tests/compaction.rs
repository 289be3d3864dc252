use neutrondb::error::NeutronError;
use neutrondb::store::{Store, Table};

fn table(name: &str, level: u8, file_size: u64, index_position: u64, keys_position: u64) -> Table {
    Table {
        bloom_filter: vec![],
        key_count: 1,
        level,
        name: name.to_string(),
        file_size,
        index_position,
        keys_position,
    }
}

fn store_with(tables: Vec<Table>) -> Store<String, String> {
    Store::new("db", vec![], tables, &vec![]).unwrap()
}

/// A table file with one index entry: key hash `kh`, key `key`, and a value
/// entry with hash `vh` and byte `v`.
fn table_file(kh: u8, key: &[u8; 2], vh: u8, v: u8) -> Vec<u8> {
    let mut f = vec![0u8; 25];
    f.extend([kh; 32]);
    f.extend(81u64.to_le_bytes());
    f.extend(2u64.to_le_bytes());
    f.extend(83u64.to_le_bytes());
    f.extend(key);
    f.extend([vh; 32]);
    f.extend(1u64.to_le_bytes());
    f.push(v);
    f
}

#[test]
fn levels_each_once() {
    let s = store_with(vec![table("3", 1, 0, 25, 25), table("2", 2, 0, 25, 25), table("1", 1, 0, 25, 25)]);
    let mut levels = s.levels();
    levels.sort();
    assert_eq!(levels, vec![1, 2]);
}

#[test]
fn compaction_due_past_limit() {
    let s = store_with(vec![table("3", 1, 6_000_000, 25, 25), table("2", 1, 4_000_001, 25, 25), table("1", 2, 5, 25, 25)]);
    assert!(s.compaction_due(1));
    assert!(!s.compaction_due(2));
    let s = store_with(vec![table("3", 1, 10_000_000, 25, 25)]);
    assert!(!s.compaction_due(1));
}

#[test]
fn merge_one_table() {
    let f = table_file(0x11, b"k1", 0xaa, b'x');
    let s = store_with(vec![table("1", 1, f.len() as u64, 25, 81)]);
    let plan = s.merge_level(1, &vec![f]).unwrap();
    assert_eq!(plan.index, vec![([0x11; 32], (0, 2, 0))]);
    assert_eq!(plan.key_locations, vec![(0, 81, 2)]);
    assert_eq!(plan.value_locations, vec![(0, 83, 41)]);
    assert_eq!((plan.keys_size, plan.values_size), (2, 41));
}

#[test]
fn merge_shares_a_value_and_writes_the_table() {
    let newer = table_file(0x22, b"k2", 0xaa, b'x');
    let older = table_file(0x11, b"k1", 0xaa, b'x');
    let s = store_with(vec![
        table("2", 1, newer.len() as u64, 25, 81),
        table("1", 1, older.len() as u64, 25, 81),
        table("0", 2, 0, 25, 25),
    ]);
    let files = vec![newer, older];
    let plan = s.merge_level(1, &files).unwrap();
    // ordered by key hash; the older table's key shares the value entry
    assert_eq!(plan.index, vec![([0x11; 32], (2, 2, 0)), ([0x22; 32], (0, 2, 0))]);
    assert_eq!(plan.key_locations, vec![(0, 81, 2), (1, 81, 2)]);
    assert_eq!(plan.value_locations, vec![(0, 83, 41)]);
    let t = plan.table_bytes(&vec![0, 0, 0, 0], &files).unwrap();
    assert_eq!((t.key_count, t.index_position, t.keys_position), (2, 29, 141));
    let b = &t.bytes;
    assert_eq!(b.len(), 29 + 2 * 56 + 4 + 41);
    assert_eq!(b[0], 1);
    assert_eq!(&b[1..9], &2u64.to_le_bytes());
    assert_eq!(&b[29..61], &[0x11; 32]);
    assert_eq!(&b[61..69], &143u64.to_le_bytes());
    assert_eq!(&b[69..77], &2u64.to_le_bytes());
    assert_eq!(&b[77..85], &145u64.to_le_bytes());
    assert_eq!(&b[85..117], &[0x22; 32]);
    assert_eq!(&b[117..125], &141u64.to_le_bytes());
    assert_eq!(&b[141..145], b"k2k1");
    assert_eq!(&b[145..177], &[0xaa; 32]);
    assert_eq!(b[185], b'x');
}

#[test]
fn merge_of_a_cut_table() {
    let f = table_file(0x11, b"k1", 0xaa, b'x');
    let cut = f[..60].to_vec();
    let s = store_with(vec![table("1", 1, 60, 25, 81)]);
    assert!(matches!(s.merge_level(1, &vec![cut]), Err(NeutronError::UnexpectedEnd)));
}

#[test]
fn merge_of_an_oversized_value() {
    let mut f = table_file(0x11, b"k1", 0xaa, b'x');
    f[115..123].copy_from_slice(&u64::MAX.to_le_bytes());
    let s = store_with(vec![table("1", 1, f.len() as u64, 25, 81)]);
    assert!(matches!(s.merge_level(1, &vec![f]), Err(NeutronError::SizeOverflow)));
}

#[test]
fn table_bytes_of_a_missing_key() {
    let f = table_file(0x11, b"k1", 0xaa, b'x');
    let s = store_with(vec![table("1", 1, f.len() as u64, 25, 81)]);
    let plan = s.merge_level(1, &vec![f.clone()]).unwrap();
    let short = vec![f[..82].to_vec()];
    assert!(matches!(plan.table_bytes(&vec![], &short), Err(NeutronError::UnexpectedEnd)));
}

#[test]
fn replace_level_keeps_order() {
    let mut s = store_with(vec![table("3", 1, 0, 25, 25), table("5", 2, 0, 25, 25), table("1", 1, 0, 25, 25)]);
    s.replace_level(1, table("9", 2, 0, 25, 25));
    let names: Vec<&str> = s.tables.iter().map(|t| t.name.as_str()).collect();
    assert_eq!(names, vec!["9", "5"]);
}

#[test]
fn compacted_table_reads_the_merged_values() {
    let newer = table_file(0x22, b"k2", 0xbb, b'y');
    let older = table_file(0x11, b"k1", 0xaa, b'x');
    let s = store_with(vec![
        table("2", 1, newer.len() as u64, 25, 81),
        table("1", 1, older.len() as u64, 25, 81),
    ]);
    let files = vec![newer, older];
    let plan = s.merge_level(1, &files).unwrap();
    let t = plan.table_bytes(&vec![0, 0, 0, 0], &files).unwrap();
    let found = |h: u8| {
        neutrondb::store::get::search_table(&t.bytes, t.index_position, t.key_count, &[h; 32]).unwrap()
    };
    assert_eq!(found(0x22), Some(vec![b'y']));
    assert_eq!(found(0x11), Some(vec![b'x']));
    assert_eq!(found(0x33), None);
}

#[test]
fn compacted_table_goes_one_level_up() {
    let newer = table_file(0x22, b"k2", 0xbb, b'y');
    let older = table_file(0x11, b"k1", 0xaa, b'x');
    let mut s = store_with(vec![
        table("2", 1, newer.len() as u64, 25, 81),
        table("1", 1, older.len() as u64, 25, 81),
        table("0", 2, 0, 25, 25),
    ]);
    let files = vec![newer, older];
    let plan = s.merge_level(1, &files).unwrap();
    let t = plan.table_bytes(&vec![0, 0, 0, 0], &files).unwrap();
    s.add_compacted_table(1, &t, vec![0, 0, 0, 0], "9".to_string());
    assert_eq!(s.tables.len(), 2);
    let new = &s.tables[0];
    assert_eq!((new.name.as_str(), new.level, new.key_count), ("9", 2, 2));
    assert_eq!(new.file_size, t.bytes.len() as u64);
    assert_eq!((new.index_position, new.keys_position), (t.index_position, t.keys_position));
    assert_eq!(s.tables[1].name, "0");
    assert!(s.tables.iter().all(|t| t.level != 1));
}
