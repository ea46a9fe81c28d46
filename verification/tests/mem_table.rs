use mini_lsm::mem_table::MemTable;

#[test]
fn test_mem_table_create() {
    let mem_table = MemTable::create(0);
    assert_eq!(mem_table.id(), 0);
    assert_eq!(mem_table.approximate_size(), 0);
}

#[test]
fn test_mem_table_create_with_wal() {
    let mem_table = MemTable::create_with_wal(0);
    assert_eq!(mem_table.id(), 0);
    assert_eq!(mem_table.approximate_size(), 0);
    assert_eq!(mem_table.wal_data().unwrap().len(), 0);
}

#[test]
fn test_mem_table_recover_with_wal() {
    let mut mem_table = MemTable::create_with_wal(0);
    mem_table.put(b"key", b"value");
    assert_eq!(mem_table.id(), 0);
    assert_eq!(mem_table.approximate_size(), 8);
}

#[test]
fn test_mem_table_put() {
    let mut mem_table = MemTable::create(0);
    mem_table.put(b"key", b"value");
    assert_eq!(mem_table.get(b"key"), Some(b"value".to_vec()));
}

#[test]
fn test_mem_table_get() {
    let mut mem_table = MemTable::create(0);
    mem_table.put(b"key", b"value");
    assert_eq!(mem_table.get(b"key"), Some(b"value".to_vec()));
}

#[test]
fn test_mem_table_get_none() {
    let mem_table = MemTable::create(0);
    assert_eq!(mem_table.get(b"key"), None);
}

#[test]
fn test_mem_table_overwrite_last_wins() {
    let mut mem_table = MemTable::create(7);
    mem_table.put(b"k", b"one");
    mem_table.put(b"k", b"two");
    assert_eq!(mem_table.get(b"k"), Some(b"two".to_vec()));
    assert_eq!(mem_table.id(), 7);
}

#[test]
fn test_mem_table_entries_sorted() {
    let mut mem_table = MemTable::create(0);
    mem_table.put(b"pear", b"3");
    mem_table.put(b"apple", b"1");
    mem_table.put(b"orange", b"2");
    let entries = mem_table.entries();
    assert_eq!(entries.len(), 3);
    assert_eq!(entries[0].0, b"apple".to_vec());
    assert_eq!(entries[1].0, b"orange".to_vec());
    assert_eq!(entries[2].0, b"pear".to_vec());
    assert_eq!(entries[0].1, b"1".to_vec());
}
