use vstd::prelude::*;

verus! {

/// Configuration of the leveled strategy: per-level target sizes scaled by a
/// multiplier from a base anchor, with a file-count trigger for the top.
#[derive(Debug, Clone, Copy)]
pub struct LeveledCompactionOptions {
    pub level_size_multiplier: usize,
    pub level0_file_num_compaction_trigger: usize,
    pub max_levels: usize,
    pub base_level_size_mb: usize,
}

} // verus!
