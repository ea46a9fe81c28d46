use mini_lsm::compact::{
    apply_compaction, select_compaction, CompactionOptions, LeveledCompactionOptions,
    SimpleLeveledCompactionOptions, TieredCompactionOptions,
};
use mini_lsm::lsm_storage::{LsmStorageOptions, LsmStorageState};

fn state_for(options: &CompactionOptions) -> LsmStorageState {
    let option = LsmStorageOptions {
        block_size: 1024,
        target_sst_size: 1024,
        num_memttable_limit: 10,
        compaction_options: *options,
        enable_wal: false,
        serialized: false,
    };
    LsmStorageState::create(&option)
}

#[test]
fn test_simple_leveled_l0_trigger() {
    let options = CompactionOptions::Simple(SimpleLeveledCompactionOptions {
        size_ratio_percent: 10,
        level0_file_num_compaction_trigger: 4,
        max_levels: 4,
    });
    let mut state = state_for(&options);
    state.l0_sstable = vec![4, 3, 2, 1];
    let task = select_compaction(&options, &state).unwrap();
    assert_eq!(task.upper_level, None);
    assert_eq!(task.upper_ids, vec![4, 3, 2, 1]);
    assert_eq!(task.lower_level, 1);
    assert_eq!(task.lower_ids, Vec::<usize>::new());
    assert!(!task.is_bottom_level);
    apply_compaction(&mut state, &task, 5);
    assert_eq!(state.l0_sstable, Vec::<usize>::new());
    assert_eq!(state.levels[0].1, vec![5]);
    assert_eq!(state.levels[1].1, Vec::<usize>::new());
    assert_eq!(state.levels[2].1, Vec::<usize>::new());
    assert_eq!(state.levels[3].1, Vec::<usize>::new());
}

#[test]
fn test_simple_leveled_below_trigger_no_task() {
    let options = CompactionOptions::Simple(SimpleLeveledCompactionOptions {
        size_ratio_percent: 10,
        level0_file_num_compaction_trigger: 4,
        max_levels: 4,
    });
    let mut state = state_for(&options);
    state.l0_sstable = vec![3, 2, 1];
    assert!(select_compaction(&options, &state).is_none());
}

#[test]
fn test_simple_leveled_ratio_trigger() {
    let options = CompactionOptions::Simple(SimpleLeveledCompactionOptions {
        size_ratio_percent: 50,
        level0_file_num_compaction_trigger: 10,
        max_levels: 3,
    });
    let mut state = state_for(&options);
    // Level 1 holds four files, level 2 one: one is 25% of four, under the
    // 50% floor, so level 1 flows into level 2.
    state.levels[0].1 = vec![4, 3, 2, 1];
    state.levels[1].1 = vec![5];
    let task = select_compaction(&options, &state).unwrap();
    assert_eq!(task.upper_level, Some(1));
    assert_eq!(task.upper_ids, vec![4, 3, 2, 1]);
    assert_eq!(task.lower_level, 2);
    assert_eq!(task.lower_ids, vec![5]);
    assert!(!task.is_bottom_level);
    apply_compaction(&mut state, &task, 6);
    assert_eq!(state.levels[0].1, Vec::<usize>::new());
    assert_eq!(state.levels[1].1, vec![6]);
    assert_eq!(state.levels[2].1, Vec::<usize>::new());
    assert_eq!(state.l0_sstable, Vec::<usize>::new());
}

#[test]
fn test_select_is_deterministic() {
    let options = CompactionOptions::Simple(SimpleLeveledCompactionOptions {
        size_ratio_percent: 10,
        level0_file_num_compaction_trigger: 2,
        max_levels: 2,
    });
    let mut state = state_for(&options);
    state.l0_sstable = vec![2, 1];
    let first = select_compaction(&options, &state);
    let second = select_compaction(&options, &state);
    assert_eq!(first, second);
    assert!(first.is_some());
}

#[test]
fn test_no_compaction_never_selects() {
    let options = CompactionOptions::NoCompaction;
    let mut state = state_for(&options);
    state.l0_sstable = vec![9, 8, 7, 6, 5, 4, 3, 2, 1];
    assert!(select_compaction(&options, &state).is_none());
}

#[test]
fn test_leveled_l0_trigger() {
    let options = CompactionOptions::Leveled(LeveledCompactionOptions {
        level_size_multiplier: 10,
        level0_file_num_compaction_trigger: 3,
        max_levels: 4,
        base_level_size_mb: 128,
    });
    let mut state = state_for(&options);
    state.l0_sstable = vec![3, 2, 1];
    let task = select_compaction(&options, &state).unwrap();
    assert_eq!(task.upper_level, None);
    assert_eq!(task.upper_ids, vec![3, 2, 1]);
    assert_eq!(task.lower_level, 1);
    state.l0_sstable = vec![2, 1];
    assert!(select_compaction(&options, &state).is_none());
}

#[test]
fn test_tiered_whole_run_merge() {
    let options = CompactionOptions::Tiered(TieredCompactionOptions {
        num_tiers: 3,
        max_size_amplification_percent: 200,
        size_ratio: 1,
        min_merge_width: 2,
    });
    let mut state = state_for(&options);
    assert_eq!(state.levels.len(), 0);
    state.l0_sstable = vec![3, 2, 1];
    let task = select_compaction(&options, &state).unwrap();
    assert_eq!(task.upper_level, None);
    assert_eq!(task.upper_ids, vec![3, 2, 1]);
    assert_eq!(task.lower_level, 0);
    assert!(task.is_bottom_level);
    apply_compaction(&mut state, &task, 4);
    assert_eq!(state.l0_sstable, vec![4]);
    assert!(select_compaction(&options, &state).is_none());
}
