use mini_lsm::sstable::{merge_tables, SsTable};

fn table(entries: &[(&[u8], &[u8])]) -> SsTable {
    let owned: Vec<(Vec<u8>, Vec<u8>)> =
        entries.iter().map(|(k, v)| (k.to_vec(), v.to_vec())).collect();
    SsTable::build(owned)
}

#[test]
fn test_sstable_get() {
    let t = table(&[(b"a", b"1"), (b"b", b"2"), (b"c", b"3")]);
    assert_eq!(t.len(), 3);
    assert_eq!(t.get(b"a"), Some(b"1".to_vec()));
    assert_eq!(t.get(b"b"), Some(b"2".to_vec()));
    assert_eq!(t.get(b"c"), Some(b"3".to_vec()));
    assert_eq!(t.get(b"d"), None);
    assert_eq!(t.get(b""), None);
}

#[test]
fn test_merge_newest_wins() {
    let older = table(&[(b"a", b"old"), (b"b", b"old")]);
    let newer = table(&[(b"b", b"new"), (b"c", b"new")]);
    // Oldest first: the later table's writes win.
    let merged = merge_tables(&vec![older, newer], true);
    assert_eq!(merged.len(), 3);
    assert_eq!(merged.get(b"a"), Some(b"old".to_vec()));
    assert_eq!(merged.get(b"b"), Some(b"new".to_vec()));
    assert_eq!(merged.get(b"c"), Some(b"new".to_vec()));
}

#[test]
fn test_merge_tombstones() {
    let older = table(&[(b"a", b"1"), (b"b", b"2")]);
    let newer = table(&[(b"a", b""), (b"c", b"3")]);
    // Kept above the bottom level...
    let kept = merge_tables(&vec![table(&[(b"a", b"1"), (b"b", b"2")]),
        table(&[(b"a", b""), (b"c", b"3")])], true);
    assert_eq!(kept.len(), 3);
    assert_eq!(kept.get(b"a"), Some(b"".to_vec()));
    // ...dropped for good at the bottom.
    let dropped = merge_tables(&vec![older, newer], false);
    assert_eq!(dropped.len(), 2);
    assert_eq!(dropped.get(b"a"), None);
    assert_eq!(dropped.get(b"b"), Some(b"2".to_vec()));
    assert_eq!(dropped.get(b"c"), Some(b"3".to_vec()));
}

#[test]
fn test_merge_output_sorted() {
    let t1 = table(&[(b"d", b"4"), (b"f", b"6")]);
    let t2 = table(&[(b"a", b"1"), (b"e", b"5")]);
    let merged = merge_tables(&vec![t1, t2], true);
    let entries = merged.entry_list();
    assert_eq!(entries.len(), 4);
    assert_eq!(entries[0].0, b"a".to_vec());
    assert_eq!(entries[1].0, b"d".to_vec());
    assert_eq!(entries[2].0, b"e".to_vec());
    assert_eq!(entries[3].0, b"f".to_vec());
}
