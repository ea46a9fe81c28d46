pub mod leveld;
pub mod simple_leveld;
pub mod tiered;

pub use leveld::LeveledCompactionOptions;
pub use simple_leveld::SimpleLeveledCompactionOptions;
pub use tiered::TieredCompactionOptions;

use vstd::prelude::*;

use crate::lsm_storage::LsmStorageState;

verus! {

/// Which compaction strategy the engine runs, fixed at open time.
#[derive(Debug, Clone, Copy)]
pub enum CompactionOptions {
    /// Leveled compaction with partial compaction and dynamic level targets.
    Leveled(LeveledCompactionOptions),
    /// Tiered compaction: whole tiers merge together.
    Tiered(TieredCompactionOptions),
    /// Simple leveled compaction on file counts.
    Simple(SimpleLeveledCompactionOptions),
    /// No compaction: everything accumulates in L0.
    NoCompaction,
}

/// One unit of compaction work: merge the upper input files (L0 when
/// `upper_level` is `None`, else that level's files) together with the lower
/// level's input files into the lower level.  A `lower_level` of 0 stands for
/// L0 itself: a whole-tier merge whose output stays in L0.
#[derive(Debug, Clone, PartialEq, Eq)]
pub struct CompactionTask {
    pub upper_level: Option<usize>,
    pub upper_ids: Vec<usize>,
    pub lower_level: usize,
    pub lower_ids: Vec<usize>,
    pub is_bottom_level: bool,
}

// ---------------------------------------------------------------------------
// Triggers and task shapes, strategy by strategy
// ---------------------------------------------------------------------------

/// Simple leveled, first trigger: L0 holds at least the configured number of
/// files (and a level exists to flow into).
pub open spec fn spec_simple_l0_trigger(
    o: SimpleLeveledCompactionOptions,
    s: LsmStorageState,
) -> bool {
    s.l0_sstable@.len() >= o.level0_file_num_compaction_trigger && s.levels@.len() >= 1
}

/// Simple leveled, second trigger: level `i` (1-based, non-empty) holds so
/// many files that level `i+1` falls below the configured percentage of it.
pub open spec fn spec_ratio_violation(
    o: SimpleLeveledCompactionOptions,
    s: LsmStorageState,
    i: int,
) -> bool {
    &&& 1 <= i
    &&& i < s.levels@.len()
    &&& s.levels@[i - 1].1@.len() > 0
    &&& s.levels@[i].1@.len() * 100 < s.levels@[i - 1].1@.len() * o.size_ratio_percent
}

/// The task that merges all of L0 into level 1.
pub open spec fn spec_l0_task(s: LsmStorageState, t: CompactionTask) -> bool {
    &&& t.upper_level is None
    &&& t.upper_ids@ == s.l0_sstable@
    &&& t.lower_level == 1
    &&& t.lower_ids@ == s.levels@[0].1@
    &&& t.is_bottom_level == (s.levels@.len() == 1)
}

/// No earlier pair of levels is in violation: the scan from the top found
/// its first hit at `i`.
pub open spec fn no_violation_below(
    o: SimpleLeveledCompactionOptions,
    s: LsmStorageState,
    i: int,
) -> bool {
    forall|j: int| 1 <= j < i ==> !spec_ratio_violation(o, s, j)
}

/// The task that merges all of level `i` into level `i+1`.
pub open spec fn spec_level_task(s: LsmStorageState, i: int, t: CompactionTask) -> bool {
    &&& t.upper_level == Some(i as usize)
    &&& t.upper_ids@ == s.levels@[i - 1].1@
    &&& t.lower_level == i + 1
    &&& t.lower_ids@ == s.levels@[i].1@
    &&& t.is_bottom_level == (i + 1 == s.levels@.len())
}

/// The scan's first ratio violation, with the task it calls for.
pub open spec fn spec_first_violation_task(
    o: SimpleLeveledCompactionOptions,
    s: LsmStorageState,
    i: int,
    t: CompactionTask,
) -> bool {
    spec_ratio_violation(o, s, i) && no_violation_below(o, s, i) && spec_level_task(s, i, t)
}

/// The one leveled trigger modeled here: L0 reaches its file-count trigger
/// and flows into the first level.  The per-level byte-size targets scaled
/// from `base_level_size_mb` are not modeled: the file model carries no byte
/// sizes, so `level_size_multiplier` and the base anchor go unread.
pub open spec fn spec_leveled_l0_trigger(o: LeveledCompactionOptions, s: LsmStorageState) -> bool {
    s.l0_sstable@.len() >= o.level0_file_num_compaction_trigger && s.levels@.len() >= 1
}

/// The one tiered trigger modeled here: the tiers (one L0 file each, one
/// per flush) reach the configured count, and the whole run merges into one
/// tier.  The size-ratio and space-amplification heuristics are not modeled,
/// so `max_size_amplification_percent`, `size_ratio` and `min_merge_width`
/// go unread.
pub open spec fn spec_tier_trigger(o: TieredCompactionOptions, s: LsmStorageState) -> bool {
    s.l0_sstable@.len() >= o.num_tiers && s.l0_sstable@.len() >= 2
}

/// The whole-run tier merge: every L0 file in, one L0 file out.
pub open spec fn spec_tier_task(s: LsmStorageState, t: CompactionTask) -> bool {
    &&& t.upper_level is None
    &&& t.upper_ids@ == s.l0_sstable@
    &&& t.lower_level == 0
    &&& t.lower_ids@.len() == 0
    &&& t.is_bottom_level == (s.levels@.len() == 0)
}

/// Whether the chosen strategy wants to compact the given snapshot.
pub open spec fn compaction_due(options: CompactionOptions, s: LsmStorageState) -> bool {
    match options {
        CompactionOptions::NoCompaction => false,
        CompactionOptions::Simple(o) => spec_simple_l0_trigger(o, s) || (exists|i: int|
            spec_ratio_violation(o, s, i)),
        CompactionOptions::Leveled(o) => spec_leveled_l0_trigger(o, s),
        CompactionOptions::Tiered(o) => spec_tier_trigger(o, s),
    }
}

/// What `select` hands back for each strategy: exactly the task its trigger
/// calls for, and nothing when no trigger fires.  The decision reads only the
/// snapshot, so equal snapshots always give equal answers.
pub open spec fn select_post(
    options: CompactionOptions,
    s: LsmStorageState,
    r: Option<CompactionTask>,
) -> bool {
    match r {
        Some(t) => match options {
            CompactionOptions::NoCompaction => false,
            CompactionOptions::Simple(o) => if spec_simple_l0_trigger(o, s) {
                spec_l0_task(s, t)
            } else {
                exists|i: int| #[trigger] spec_first_violation_task(o, s, i, t)
            },
            CompactionOptions::Leveled(o) => spec_leveled_l0_trigger(o, s) && spec_l0_task(s, t),
            CompactionOptions::Tiered(o) => spec_tier_trigger(o, s) && spec_tier_task(s, t),
        },
        None => !compaction_due(options, s),
    }
}

/// Copies a list of file ids.
fn copy_ids(v: &Vec<usize>) -> (r: Vec<usize>)
    ensures
        r@ == v@,
{
    let mut r: Vec<usize> = Vec::new();
    let mut i: usize = 0;
    while i < v.len()
        invariant
            0 <= i <= v@.len(),
            r@ == v@.take(i as int),
        decreases v@.len() - i,
    {
        r.push(v[i]);
        proof {
            assert(v@.take(i + 1) =~= v@.take(i as int).push(v@[i as int]));
        }
        i += 1;
    }
    proof {
        assert(v@.take(v@.len() as int) =~= v@);
    }
    r
}

/// Picks the compaction the chosen strategy asks for on this snapshot, if
/// any.  Pure: it reads the snapshot and builds a task, nothing more.
pub fn select_compaction(options: &CompactionOptions, s: &LsmStorageState) -> (r: Option<
    CompactionTask,
>)
    ensures
        select_post(*options, *s, r),
{
    match *options {
        CompactionOptions::NoCompaction => None,
        CompactionOptions::Simple(o) => {
            if s.levels.len() >= 1 && s.l0_sstable.len() >= o.level0_file_num_compaction_trigger {
                return Some(
                    CompactionTask {
                        upper_level: None,
                        upper_ids: copy_ids(&s.l0_sstable),
                        lower_level: 1,
                        lower_ids: copy_ids(&s.levels[0].1),
                        is_bottom_level: s.levels.len() == 1,
                    },
                );
            }
            let mut i: usize = 1;
            while i < s.levels.len()
                invariant
                    1 <= i,
                    *options == CompactionOptions::Simple(o),
                    !spec_simple_l0_trigger(o, *s),
                    forall|j: int| 1 <= j < i ==> !spec_ratio_violation(o, *s, j),
                decreases s.levels@.len() - i,
            {
                let upper_count = s.levels[i - 1].1.len();
                let lower_count = s.levels[i].1.len();
                let uc: u128 = upper_count as u128;
                let rp: u128 = o.size_ratio_percent as u128;
                proof {
                    assert(uc * rp <= 0xffffffffffffffffu128 * 0xffffffffffffffffu128)
                        by (nonlinear_arith)
                        requires
                            uc <= 0xffffffffffffffffu128,
                            rp <= 0xffffffffffffffffu128,
                    ;
                }
                if upper_count > 0 && (lower_count as u128) * 100 < uc * rp {
                    let t = CompactionTask {
                        upper_level: Some(i),
                        upper_ids: copy_ids(&s.levels[i - 1].1),
                        lower_level: i + 1,
                        lower_ids: copy_ids(&s.levels[i].1),
                        is_bottom_level: i + 1 == s.levels.len(),
                    };
                    proof {
                        assert(spec_ratio_violation(o, *s, i as int));
                        assert(spec_level_task(*s, i as int, t));
                        assert(spec_first_violation_task(o, *s, i as int, t));
                        assert(exists|ii: int| #[trigger] spec_first_violation_task(o, *s, ii, t));
                    }
                    return Some(t);
                }
                i += 1;
            }
            proof {
                assert forall|ii: int| !spec_ratio_violation(o, *s, ii) by {
                    if 1 <= ii < s.levels@.len() {
                        assert(!spec_ratio_violation(o, *s, ii));
                    }
                }
            }
            None
        },
        CompactionOptions::Leveled(o) => {
            if s.levels.len() >= 1 && s.l0_sstable.len() >= o.level0_file_num_compaction_trigger {
                return Some(
                    CompactionTask {
                        upper_level: None,
                        upper_ids: copy_ids(&s.l0_sstable),
                        lower_level: 1,
                        lower_ids: copy_ids(&s.levels[0].1),
                        is_bottom_level: s.levels.len() == 1,
                    },
                );
            }
            None
        },
        CompactionOptions::Tiered(o) => {
            if s.l0_sstable.len() >= o.num_tiers && s.l0_sstable.len() >= 2 {
                return Some(
                    CompactionTask {
                        upper_level: None,
                        upper_ids: copy_ids(&s.l0_sstable),
                        lower_level: 0,
                        lower_ids: Vec::new(),
                        is_bottom_level: s.levels.len() == 0,
                    },
                );
            }
            None
        },
    }
}

// ---------------------------------------------------------------------------
// Applying a finished task to the snapshot's file lists
// ---------------------------------------------------------------------------

/// The id list with the given ids struck out, order kept.
pub open spec fn remove_ids(ids: Seq<usize>, rm: Seq<usize>) -> Seq<usize>
    decreases ids.len(),
{
    if ids.len() == 0 {
        Seq::empty()
    } else if rm.contains(ids[0]) {
        remove_ids(ids.skip(1), rm)
    } else {
        seq![ids[0]] + remove_ids(ids.skip(1), rm)
    }
}

/// Striking out a covering set leaves nothing.
pub proof fn lemma_remove_ids_superset(ids: Seq<usize>, rm: Seq<usize>)
    requires
        forall|i: int| 0 <= i < ids.len() ==> rm.contains(#[trigger] ids[i]),
    ensures
        remove_ids(ids, rm) == Seq::<usize>::empty(),
    decreases ids.len(),
{
    if ids.len() > 0 {
        assert(rm.contains(ids[0]));
        assert forall|i: int| 0 <= i < ids.skip(1).len() implies rm.contains(
            #[trigger] ids.skip(1)[i],
        ) by {
            assert(ids.skip(1)[i] == ids[i + 1]);
        }
        lemma_remove_ids_superset(ids.skip(1), rm);
    }
}

/// Everything that survives the strike-out was there before.
pub proof fn lemma_remove_ids_element(ids: Seq<usize>, rm: Seq<usize>, x: usize)
    requires
        remove_ids(ids, rm).contains(x),
    ensures
        ids.contains(x),
    decreases ids.len(),
{
    let kept = remove_ids(ids, rm);
    if ids.len() == 0 {
        assert(false);
    } else if rm.contains(ids[0]) {
        lemma_remove_ids_element(ids.skip(1), rm, x);
        let j = choose|j: int| 0 <= j < ids.skip(1).len() && ids.skip(1)[j] == x;
        assert(ids[j + 1] == x);
        assert(ids.contains(x));
    } else {
        let tailkept = remove_ids(ids.skip(1), rm);
        if x == ids[0] {
            assert(ids.contains(x)) by {
                assert(ids[0] == x);
            }
        } else {
            let j = choose|j: int| 0 <= j < kept.len() && kept[j] == x;
            assert(kept[0] == ids[0]);
            assert(j != 0);
            assert(kept[j] == tailkept[j - 1]);
            assert(tailkept.contains(x));
            lemma_remove_ids_element(ids.skip(1), rm, x);
            let j2 = choose|j2: int| 0 <= j2 < ids.skip(1).len() && ids.skip(1)[j2] == x;
            assert(ids[j2 + 1] == x);
            assert(ids.contains(x));
        }
    }
}

fn contains_id(v: &Vec<usize>, id: usize) -> (r: bool)
    ensures
        r == v@.contains(id),
{
    let mut i: usize = 0;
    while i < v.len()
        invariant
            0 <= i <= v@.len(),
            forall|j: int| 0 <= j < i ==> v@[j] != id,
        decreases v@.len() - i,
    {
        if v[i] == id {
            return true;
        }
        i += 1;
    }
    proof {
        if v@.contains(id) {
            let j = choose|j: int| 0 <= j < v@.len() && v@[j] == id;
            assert(v@[j] != id);
        }
    }
    false
}

fn remove_ids_exec(ids: &Vec<usize>, rm: &Vec<usize>) -> (r: Vec<usize>)
    ensures
        r@ == remove_ids(ids@, rm@),
{
    let mut out: Vec<usize> = Vec::new();
    let mut i: usize = 0;
    proof {
        assert(ids@.skip(0) =~= ids@);
        assert(out@ + remove_ids(ids@, rm@) =~= remove_ids(ids@, rm@));
    }
    while i < ids.len()
        invariant
            0 <= i <= ids@.len(),
            remove_ids(ids@, rm@) == out@ + remove_ids(ids@.skip(i as int), rm@),
        decreases ids@.len() - i,
    {
        let id = ids[i];
        let ghost tail = ids@.skip(i as int);
        proof {
            assert(tail[0] == ids@[i as int]);
            assert(tail.skip(1) =~= ids@.skip(i + 1));
        }
        if !contains_id(rm, id) {
            out.push(id);
            proof {
                assert(out@.drop_last() + (seq![id] + remove_ids(ids@.skip(i + 1), rm@)) =~= out@
                    + remove_ids(ids@.skip(i + 1), rm@));
            }
        }
        i += 1;
    }
    proof {
        assert(ids@.skip(ids@.len() as int) =~= Seq::<usize>::empty());
        assert(out@ + remove_ids(ids@.skip(ids@.len() as int), rm@) =~= out@);
    }
    out
}

/// How a finished task rewrites the file lists: the inputs leave their
/// levels, the output file takes its place at the front of the target, and
/// every unrelated level is untouched.  The memtables and the loaded-file map
/// are not this function's business.
pub fn apply_compaction(s: &mut LsmStorageState, task: &CompactionTask, out_id: usize)
    requires
        task.lower_level as int <= old(s).levels@.len(),
        match task.upper_level {
            Some(u) => 1 <= u && (u as int) < (task.lower_level as int),
            None => true,
        },
    ensures
        final(s).memtable == old(s).memtable,
        final(s).imm_memtable == old(s).imm_memtable,
        final(s).sstables == old(s).sstables,
        final(s).levels@.len() == old(s).levels@.len(),
        match task.upper_level {
            Some(u) => final(s).l0_sstable == old(s).l0_sstable && final(s).levels@[u - 1].1@
                == remove_ids(old(s).levels@[u - 1].1@, task.upper_ids@),
            None => if task.lower_level == 0 {
                final(s).l0_sstable@ == seq![out_id] + remove_ids(
                    old(s).l0_sstable@,
                    task.upper_ids@,
                )
            } else {
                final(s).l0_sstable@ == remove_ids(old(s).l0_sstable@, task.upper_ids@)
            },
        },
        task.lower_level >= 1 ==> final(s).levels@[task.lower_level - 1].1@ == seq![out_id]
            + remove_ids(old(s).levels@[task.lower_level - 1].1@, task.lower_ids@),
        forall|lvl: int|
            0 <= lvl < old(s).levels@.len() && lvl != task.lower_level - 1 && (match task
                .upper_level {
                Some(u) => lvl != u - 1,
                None => true,
            }) ==> final(s).levels@[lvl] == old(s).levels@[lvl],
    {
        match task.upper_level {
            Some(u) => {
                let upper_kept = remove_ids_exec(&s.levels[u - 1].1, &task.upper_ids);
                let upper_no = s.levels[u - 1].0;
                let ghost pre_levels = s.levels@;
                let _removed = s.levels.remove(u - 1);
                s.levels.insert(u - 1, (upper_no, upper_kept));
                proof {
                    assert(s.levels@ =~= pre_levels.update(u - 1, (upper_no, upper_kept)));
                }
            },
            None => {
                let new_l0 = if task.lower_level == 0 {
                    let mut with_out: Vec<usize> = Vec::new();
                    with_out.push(out_id);
                    let kept = remove_ids_exec(&s.l0_sstable, &task.upper_ids);
                    let mut whole = with_out;
                    let mut kept_tail = kept;
                    whole.append(&mut kept_tail);
                    whole
                } else {
                    remove_ids_exec(&s.l0_sstable, &task.upper_ids)
                };
                s.l0_sstable = new_l0;
            },
        }
        if task.lower_level >= 1 {
            let li = task.lower_level - 1;
            let mut lower_new: Vec<usize> = Vec::new();
            lower_new.push(out_id);
            let mut lower_kept = remove_ids_exec(&s.levels[li].1, &task.lower_ids);
            lower_new.append(&mut lower_kept);
            let lower_no = s.levels[li].0;
            let ghost pre_levels = s.levels@;
            let _removed = s.levels.remove(li);
            s.levels.insert(li, (lower_no, lower_new));
            proof {
                assert(s.levels@ =~= pre_levels.update(li as int, (lower_no, lower_new)));
            }
        }
    }

} // verus!
