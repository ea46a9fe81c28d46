use vstd::prelude::*;

verus! {

/// Configuration of the simple leveled strategy: a file-count trigger for L0
/// and a percentage floor on the size ratio between adjacent levels.
#[derive(Debug, Clone, Copy)]
pub struct SimpleLeveledCompactionOptions {
    pub size_ratio_percent: usize,
    pub level0_file_num_compaction_trigger: usize,
    pub max_levels: usize,
}

} // verus!
