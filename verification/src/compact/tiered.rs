use vstd::prelude::*;

verus! {

/// Configuration of the tiered strategy: tiers accumulate, one per flush, and
/// merge wholesale on count and size-ratio heuristics.
#[derive(Debug, Clone, Copy)]
pub struct TieredCompactionOptions {
    pub num_tiers: usize,
    pub max_size_amplification_percent: usize,
    pub size_ratio: usize,
    pub min_merge_width: usize,
}

} // verus!
