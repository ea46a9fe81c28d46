use mini_lsm::compact::{
    CompactionOptions, SimpleLeveledCompactionOptions, TieredCompactionOptions,
};
use mini_lsm::errors::LsmError;
use mini_lsm::lsm_storage::{LsmStorageInner, LsmStorageOptions, LsmStorageState, WriteBatchRecord};

fn simple_options(target_sst_size: usize, trigger: usize, max_levels: usize) -> LsmStorageOptions {
    LsmStorageOptions {
        block_size: 1024,
        target_sst_size,
        num_memttable_limit: 10,
        compaction_options: CompactionOptions::Simple(SimpleLeveledCompactionOptions {
            size_ratio_percent: 10,
            level0_file_num_compaction_trigger: trigger,
            max_levels,
        }),
        enable_wal: true,
        serialized: true,
    }
}

#[test]
fn test_lsm_storage_state_create() {
    let option = LsmStorageOptions {
        block_size: 1024,
        target_sst_size: 1024 * 1024,
        num_memttable_limit: 10,
        compaction_options: CompactionOptions::Simple(SimpleLeveledCompactionOptions {
            size_ratio_percent: 10,
            level0_file_num_compaction_trigger: 10,
            max_levels: 10,
        }),
        enable_wal: true,
        serialized: true,
    };
    let state = LsmStorageState::create(&option);
    assert_eq!(state.memtable.id(), 0);
    assert_eq!(state.imm_memtable.len(), 0);
    assert_eq!(state.l0_sstable.len(), 0);
    assert_eq!(state.levels.len(), 10);
    assert_eq!(state.sstables.len(), 0);
}

#[test]
fn test_get_put_delete() {
    let mut engine = LsmStorageInner::create(simple_options(1 << 20, 4, 4));
    assert_eq!(engine.get(b"key"), None);
    engine.put(b"key", b"value").unwrap();
    assert_eq!(engine.get(b"key"), Some(b"value".to_vec()));
    engine.put(b"key", b"newer").unwrap();
    assert_eq!(engine.get(b"key"), Some(b"newer".to_vec()));
    engine.delete(b"key").unwrap();
    assert_eq!(engine.get(b"key"), None);
    assert_eq!(engine.get(b"other"), None);
}

#[test]
fn test_put_empty_key_or_value_refused() {
    let mut engine = LsmStorageInner::create(simple_options(1 << 20, 4, 4));
    assert_eq!(engine.put(b"", b"value"), Err(LsmError::InvalidArgument));
    assert_eq!(engine.put(b"key", b""), Err(LsmError::InvalidArgument));
    assert_eq!(engine.delete(b""), Err(LsmError::InvalidArgument));
    assert_eq!(engine.get(b"key"), None);
}

#[test]
fn test_write_batch_order() {
    let mut engine = LsmStorageInner::create(simple_options(1 << 20, 4, 4));
    engine.put(b"steady", b"before").unwrap();
    let batch = vec![
        WriteBatchRecord::Put(b"a".to_vec(), b"1".to_vec()),
        WriteBatchRecord::Put(b"b".to_vec(), b"2".to_vec()),
        WriteBatchRecord::Del(b"a".to_vec()),
        WriteBatchRecord::Put(b"b".to_vec(), b"3".to_vec()),
    ];
    engine.write_batch(&batch).unwrap();
    assert_eq!(engine.get(b"a"), None);
    assert_eq!(engine.get(b"b"), Some(b"3".to_vec()));
    assert_eq!(engine.get(b"steady"), Some(b"before".to_vec()));
}

#[test]
fn test_write_batch_invalid_record_refused() {
    let mut engine = LsmStorageInner::create(simple_options(1 << 20, 4, 4));
    engine.put(b"steady", b"before").unwrap();
    let batch = vec![
        WriteBatchRecord::Put(b"a".to_vec(), b"1".to_vec()),
        WriteBatchRecord::Put(b"bad".to_vec(), b"".to_vec()),
    ];
    assert_eq!(engine.write_batch(&batch), Err(LsmError::InvalidArgument));
    // Nothing of the refused batch was applied.
    assert_eq!(engine.get(b"a"), None);
    assert_eq!(engine.get(b"steady"), Some(b"before".to_vec()));
    let batch2 = vec![WriteBatchRecord::Del(b"".to_vec())];
    assert_eq!(engine.write_batch(&batch2), Err(LsmError::InvalidArgument));
}

#[test]
fn test_freeze_and_flush_cycle() {
    // Pairs of roughly ten bytes against a 1024-byte threshold: at least one
    // freeze must happen over two hundred writes.
    let mut engine = LsmStorageInner::create(simple_options(1024, 1000, 4));
    for i in 0..200usize {
        let key = format!("key{:02}", i % 100);
        let value = format!("val{:02}", i % 100);
        engine.put(key.as_bytes(), value.as_bytes()).unwrap();
    }
    let frozen = engine.state.imm_memtable.len();
    assert!(frozen >= 1);
    assert_eq!(engine.state.l0_sstable.len(), 0);
    let mut flushed = 0usize;
    while engine.force_flush_next_imm_memtable() {
        flushed += 1;
        assert_eq!(engine.state.l0_sstable.len(), flushed);
        assert_eq!(engine.state.imm_memtable.len(), frozen - flushed);
    }
    assert_eq!(flushed, frozen);
    assert_eq!(engine.state.imm_memtable.len(), 0);
    // Every write stays readable across the freeze/flush boundary.
    for i in 0..100usize {
        let key = format!("key{:02}", i);
        let value = format!("val{:02}", i);
        assert_eq!(engine.get(key.as_bytes()), Some(value.into_bytes()));
    }
}

#[test]
fn test_freeze_happens_once_per_crossing() {
    let mut engine = LsmStorageInner::create(simple_options(16, 1000, 4));
    engine.put(b"0123456789", b"0123456789").unwrap();
    assert_eq!(engine.state.imm_memtable.len(), 1);
    // The next small write sees a fresh, nearly empty memtable: no freeze.
    engine.put(b"a", b"b").unwrap();
    assert_eq!(engine.state.imm_memtable.len(), 1);
}

#[test]
fn test_try_freeze_rechecks_current_size() {
    let mut engine = LsmStorageInner::create(simple_options(16, 1000, 4));
    engine.put(b"12345678", b"12345678").unwrap();
    assert_eq!(engine.state.imm_memtable.len(), 1);
    // A second caller still holding the old estimate: the re-check against
    // the fresh, empty active memtable stops a duplicate freeze.
    engine.try_freeze(16);
    assert_eq!(engine.state.imm_memtable.len(), 1);
    engine.try_freeze(usize::MAX);
    assert_eq!(engine.state.imm_memtable.len(), 1);
}

#[test]
fn test_initial_memtable_is_wal_backed() {
    let mut engine = LsmStorageInner::create(simple_options(1 << 20, 4, 4));
    // Logging is on: the very first write, before any freeze, is logged.
    engine.put(b"first", b"write").unwrap();
    let image = engine.state.memtable.wal_data().unwrap().clone();
    let recovered = mini_lsm::mem_table::MemTable::recover_with_wal(0, &image);
    assert_eq!(recovered.get(b"first"), Some(b"write".to_vec()));
}

#[test]
fn test_open_recovered_rebuilds_state() {
    // Craft two log images, as an earlier run would have left them: the
    // initial active memtable's (id 0) and one frozen table's (id 1).
    let mut older = mini_lsm::mem_table::MemTable::create_with_wal(0);
    older.put(b"a", b"old");
    older.put(b"b", b"kept");
    let mut newer = mini_lsm::mem_table::MemTable::create_with_wal(1);
    newer.put(b"a", b"new");
    let logs = vec![
        (1usize, newer.wal_data().unwrap().clone()),
        (0usize, older.wal_data().unwrap().clone()),
    ];
    let engine = LsmStorageInner::open_recovered(simple_options(1 << 20, 4, 4), &logs);
    assert_eq!(engine.state.imm_memtable.len(), 2);
    assert_eq!(engine.state.imm_memtable[0].id(), 1);
    assert_eq!(engine.state.imm_memtable[1].id(), 0);
    assert_eq!(engine.state.memtable.id(), 2);
    assert_eq!(engine.next_sst_id, 3);
    // Newest-first recency holds across the recovered tables.
    assert_eq!(engine.get(b"a"), Some(b"new".to_vec()));
    assert_eq!(engine.get(b"b"), Some(b"kept".to_vec()));
    assert_eq!(engine.get(b"c"), None);
    // With nothing to recover, every read is absent.
    let empty = LsmStorageInner::open_recovered(simple_options(1 << 20, 4, 4), &Vec::new());
    assert_eq!(empty.state.memtable.id(), 0);
    assert_eq!(empty.next_sst_id, 1);
    assert_eq!(empty.get(b"a"), None);
}

#[test]
fn test_newest_layer_wins_across_files() {
    let mut engine = LsmStorageInner::create(simple_options(1 << 20, 100, 4));
    engine.put(b"k", b"oldest").unwrap();
    engine.force_freeze_memtable();
    assert!(engine.force_flush_next_imm_memtable());
    engine.put(b"k", b"middle").unwrap();
    engine.force_freeze_memtable();
    assert!(engine.force_flush_next_imm_memtable());
    assert_eq!(engine.get(b"k"), Some(b"middle".to_vec()));
    engine.put(b"k", b"newest").unwrap();
    engine.force_freeze_memtable();
    assert_eq!(engine.get(b"k"), Some(b"newest".to_vec()));
}

#[test]
fn test_freeze_creates_wal_backed_memtable() {
    let mut engine = LsmStorageInner::create(simple_options(1 << 20, 100, 4));
    engine.put(b"k", b"v").unwrap();
    engine.force_freeze_memtable();
    // Logging is on: the fresh active memtable carries a log image, and a
    // write lands in it.
    engine.put(b"k2", b"v2").unwrap();
    let image = engine.state.memtable.wal_data().unwrap().clone();
    assert!(!image.is_empty());
    let recovered = mini_lsm::mem_table::MemTable::recover_with_wal(9, &image);
    assert_eq!(recovered.get(b"k2"), Some(b"v2".to_vec()));
    assert_eq!(recovered.get(b"k"), None);
}

#[test]
fn test_compaction_drops_tombstones_at_bottom() {
    // One level only: the first merge into it reaches the bottom of the tree.
    let mut engine = LsmStorageInner::create(simple_options(1 << 20, 2, 1));
    engine.put(b"kept", b"v").unwrap();
    engine.put(b"gone", b"w").unwrap();
    engine.force_freeze_memtable();
    assert!(engine.force_flush_next_imm_memtable());
    engine.delete(b"gone").unwrap();
    engine.force_freeze_memtable();
    assert!(engine.force_flush_next_imm_memtable());
    assert_eq!(engine.state.l0_sstable.len(), 2);
    assert!(engine.compact_once());
    assert_eq!(engine.state.l0_sstable.len(), 0);
    assert_eq!(engine.state.levels[0].1.len(), 1);
    let bottom_id = engine.state.levels[0].1[0];
    assert_eq!(engine.get(b"kept"), Some(b"v".to_vec()));
    assert_eq!(engine.get(b"gone"), None);
    // The tombstone is gone from the bottom file itself, not just shadowed.
    let bottom = engine.state.sstables.get(&bottom_id).unwrap();
    assert_eq!(bottom.len(), 1);
    assert_eq!(bottom.get(b"gone"), None);
    assert_eq!(bottom.get(b"kept"), Some(b"v".to_vec()));
}

#[test]
fn test_tiered_engine_cycle() {
    let options = LsmStorageOptions {
        block_size: 1024,
        target_sst_size: 1 << 20,
        num_memttable_limit: 10,
        compaction_options: CompactionOptions::Tiered(TieredCompactionOptions {
            num_tiers: 3,
            max_size_amplification_percent: 200,
            size_ratio: 1,
            min_merge_width: 2,
        }),
        enable_wal: false,
        serialized: false,
    };
    let mut engine = LsmStorageInner::create(options);
    assert_eq!(engine.state.levels.len(), 0);
    engine.put(b"a", b"1").unwrap();
    engine.force_freeze_memtable();
    assert!(engine.force_flush_next_imm_memtable());
    engine.put(b"b", b"2").unwrap();
    engine.force_freeze_memtable();
    assert!(engine.force_flush_next_imm_memtable());
    engine.delete(b"a").unwrap();
    engine.force_freeze_memtable();
    assert!(engine.force_flush_next_imm_memtable());
    assert_eq!(engine.state.l0_sstable.len(), 3);
    assert!(engine.compact_once());
    // One tier remains, with the tombstone compacted away for good.
    assert_eq!(engine.state.l0_sstable.len(), 1);
    let tier_id = engine.state.l0_sstable[0];
    let tier = engine.state.sstables.get(&tier_id).unwrap();
    assert_eq!(tier.len(), 1);
    assert_eq!(engine.get(b"a"), None);
    assert_eq!(engine.get(b"b"), Some(b"2".to_vec()));
    // Below the count trigger again: no further merge.
    assert!(!engine.compact_once());
}

#[test]
fn test_compaction_keeps_tombstones_above_bottom() {
    let mut engine = LsmStorageInner::create(simple_options(1 << 20, 2, 4));
    engine.put(b"gone", b"w").unwrap();
    engine.force_freeze_memtable();
    assert!(engine.force_flush_next_imm_memtable());
    engine.delete(b"gone").unwrap();
    engine.force_freeze_memtable();
    assert!(engine.force_flush_next_imm_memtable());
    assert!(engine.compact_once());
    // Level 1 of 4 is not the bottom: the tombstone must survive the merge.
    let out_id = engine.state.levels[0].1[0];
    let out = engine.state.sstables.get(&out_id).unwrap();
    assert_eq!(out.get(b"gone"), Some(b"".to_vec()));
    assert_eq!(engine.get(b"gone"), None);
}
