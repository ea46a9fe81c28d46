use vstd::prelude::*;

use crate::compact::{
    no_violation_below, remove_ids, select_post, spec_first_violation_task, spec_ratio_violation,
    spec_simple_l0_trigger, CompactionOptions, CompactionTask,
};
use crate::lsm_storage::{
    files_lookup, freeze_due, froze, levels_lookup, mem_lookup, state_lookup, user_view,
    LsmStorageInner, LsmStorageState,
};
use crate::mem_table::MemTable;
use crate::sstable::{lemma_tables_merged_append, run_tables, SsTable};
use crate::wal::{
    entries_map, lemma_replay_clean_extend, lemma_replay_record_prefix, record_bytes,
    replay_entries, replay_truncated,
};

verus! {

// ---------------------------------------------------------------------------
// Reads of unwritten keys
// ---------------------------------------------------------------------------

/// The key is bound somewhere in the store: some layer has ever been written
/// with it (and still holds the record, a tombstone included).
pub open spec fn key_written(s: LsmStorageState, k: Seq<u8>) -> bool {
    ||| s.memtable.contents().contains_key(k)
    ||| exists|i: int|
        0 <= i < s.imm_memtable@.len() && (#[trigger] s.imm_memtable@[i]).contents().contains_key(k)
    ||| exists|i: int|
        0 <= i < s.l0_sstable@.len() && s.sstables@.contains_key(#[trigger] s.l0_sstable@[i])
            && s.sstables@[s.l0_sstable@[i]].as_map().contains_key(k)
    ||| exists|lvl: int, j: int|
        0 <= lvl < s.levels@.len() && 0 <= j < s.levels@[lvl].1@.len() && s.sstables@.contains_key(
            #[trigger] s.levels@[lvl].1@[j],
        ) && s.sstables@[s.levels@[lvl].1@[j]].as_map().contains_key(k)
}

proof fn lemma_mem_lookup_absent(ms: Seq<MemTable>, k: Seq<u8>)
    requires
        forall|i: int| 0 <= i < ms.len() ==> !(#[trigger] ms[i]).contents().contains_key(k),
    ensures
        mem_lookup(ms, k) is None,
    decreases ms.len(),
{
    if ms.len() > 0 {
        assert forall|i: int|
            0 <= i < ms.skip(1).len() implies !(#[trigger] ms.skip(1)[i]).contents().contains_key(
            k,
        ) by {
            assert(ms.skip(1)[i] == ms[i + 1]);
        }
        lemma_mem_lookup_absent(ms.skip(1), k);
    }
}

proof fn lemma_files_lookup_absent(ids: Seq<usize>, tables: Map<usize, SsTable>, k: Seq<u8>)
    requires
        forall|i: int|
            0 <= i < ids.len() ==> !(tables.contains_key(#[trigger] ids[i])
                && tables[ids[i]].as_map().contains_key(k)),
    ensures
        files_lookup(ids, tables, k) is None,
    decreases ids.len(),
{
    if ids.len() > 0 {
        assert forall|i: int|
            0 <= i < ids.skip(1).len() implies !(tables.contains_key(#[trigger] ids.skip(1)[i])
                && tables[ids.skip(1)[i]].as_map().contains_key(k)) by {
            assert(ids.skip(1)[i] == ids[i + 1]);
        }
        lemma_files_lookup_absent(ids.skip(1), tables, k);
    }
}

proof fn lemma_levels_lookup_absent(
    ls: Seq<(usize, Vec<usize>)>,
    tables: Map<usize, SsTable>,
    k: Seq<u8>,
)
    requires
        forall|lvl: int, j: int|
            0 <= lvl < ls.len() && 0 <= j < ls[lvl].1@.len() ==> !(tables.contains_key(
                #[trigger] ls[lvl].1@[j],
            ) && tables[ls[lvl].1@[j]].as_map().contains_key(k)),
    ensures
        levels_lookup(ls, tables, k) is None,
    decreases ls.len(),
{
    if ls.len() > 0 {
        assert forall|j: int|
            0 <= j < ls[0].1@.len() implies !(tables.contains_key(#[trigger] ls[0].1@[j])
                && tables[ls[0].1@[j]].as_map().contains_key(k)) by {}
        lemma_files_lookup_absent(ls[0].1@, tables, k);
        assert forall|lvl: int, j: int|
            0 <= lvl < ls.skip(1).len() && 0 <= j < ls.skip(1)[lvl].1@.len() implies !(tables
                .contains_key(#[trigger] ls.skip(1)[lvl].1@[j]) && tables[ls.skip(
                1,
            )[lvl].1@[j]].as_map().contains_key(k)) by {
            assert(ls.skip(1)[lvl] == ls[lvl + 1]);
        }
        lemma_levels_lookup_absent(ls.skip(1), tables, k);
    }
}

/// A key that no layer holds reads as absent: the store invents nothing.
pub proof fn law_unwritten_key_absent(s: LsmStorageState, k: Seq<u8>)
    requires
        !key_written(s, k),
    ensures
        state_lookup(s, k) is None,
        user_view(state_lookup(s, k)) is None,
{
    lemma_mem_lookup_absent(s.imm_memtable@, k);
    lemma_files_lookup_absent(s.l0_sstable@, s.sstables@, k);
    lemma_levels_lookup_absent(s.levels@, s.sstables@, k);
}

// ---------------------------------------------------------------------------
// Writes and their visibility
// ---------------------------------------------------------------------------

/// After a put of a non-empty value, and across any later operations that
/// leave this key's binding alone (writes to other keys, freezes, flushes),
/// a read of the key sees exactly that value.
pub proof fn law_put_get_until_overwrite(
    s_put: LsmStorageState,
    s_later: LsmStorageState,
    k: Seq<u8>,
    v: Seq<u8>,
)
    requires
        state_lookup(s_put, k) == Some(v),
        v.len() > 0,
        state_lookup(s_later, k) == state_lookup(s_put, k),
    ensures
        user_view(state_lookup(s_later, k)) == Some(v),
{
}

/// After a delete, a read of the key sees absence, however many older
/// bindings the frozen memtables and the files still hold: the tombstone is
/// the newest binding and wins.
pub proof fn law_delete_get_absent(s: LsmStorageState, k: Seq<u8>)
    requires
        state_lookup(s, k) == Some(Seq::<u8>::empty()),
    ensures
        user_view(state_lookup(s, k)) is None,
{
}

// ---------------------------------------------------------------------------
// Freezing
// ---------------------------------------------------------------------------

/// A freeze cannot happen twice for one threshold crossing: right after a
/// freeze the active memtable is empty, so the under-lock re-check of the
/// current size fails for any caller still holding the old estimate, and
/// `try_freeze` leaves the store untouched.
pub proof fn law_freeze_idempotent(
    pre: LsmStorageInner,
    mid: LsmStorageInner,
    est: usize,
    est2: usize,
)
    requires
        pre.options.target_sst_size >= 1,
        froze(pre, mid),
    ensures
        !freeze_due(mid, est2),
{
    assert(mid.state.memtable.spec_approximate_size() == 0);
    assert(mid.options.target_sst_size >= 1);
}

// ---------------------------------------------------------------------------
// The write-ahead log
// ---------------------------------------------------------------------------

/// Replaying a memtable's log reproduces exactly the mapping it holds: the
/// well-formedness that creation establishes and every put preserves.
pub proof fn law_wal_round_trip(mt: MemTable)
    requires
        mt.wf(),
        mt.has_wal(),
    ensures
        entries_map(replay_entries(mt.spec_wal_bytes())) == mt.contents(),
        !replay_truncated(mt.spec_wal_bytes()),
{
}

/// A log whose last record was cut short still replays every whole record
/// before the cut, and reports the cut rather than inventing data.
pub proof fn law_truncated_tail_recovers_prefix(data: Seq<u8>, k: Seq<u8>, v: Seq<u8>, cut: int)
    requires
        !replay_truncated(data),
        k.len() <= u64::MAX,
        v.len() <= u64::MAX,
        0 < cut < record_bytes(k, v).len(),
    ensures
        replay_entries(data + record_bytes(k, v).subrange(0, cut)) == replay_entries(data),
        replay_truncated(data + record_bytes(k, v).subrange(0, cut)),
{
    lemma_replay_record_prefix(k, v, cut);
    lemma_replay_clean_extend(data, record_bytes(k, v).subrange(0, cut));
    assert(replay_entries(data) + replay_entries(record_bytes(k, v).subrange(0, cut))
        =~= replay_entries(data));
}

// ---------------------------------------------------------------------------
// Compaction strategies
// ---------------------------------------------------------------------------

/// Selection is a pure decision: two selections over one snapshot agree,
/// task for task and field for field.
pub proof fn law_select_deterministic(
    options: CompactionOptions,
    s: LsmStorageState,
    r1: Option<CompactionTask>,
    r2: Option<CompactionTask>,
)
    requires
        select_post(options, s, r1),
        select_post(options, s, r2),
    ensures
        r1 is Some <==> r2 is Some,
        (r1 is Some && r2 is Some) ==> {
            let t1 = r1->Some_0;
            let t2 = r2->Some_0;
            t1.upper_level == t2.upper_level && t1.upper_ids@ == t2.upper_ids@ && t1.lower_level
                == t2.lower_level && t1.lower_ids@ == t2.lower_ids@ && t1.is_bottom_level
                == t2.is_bottom_level
        },
{
    if r1 is Some && r2 is Some {
        let t1 = r1->Some_0;
        let t2 = r2->Some_0;
        match options {
            CompactionOptions::Simple(o) => {
                if !spec_simple_l0_trigger(o, s) {
                    let i1 = choose|i: int| #[trigger] spec_first_violation_task(o, s, i, t1);
                    let i2 = choose|i: int| #[trigger] spec_first_violation_task(o, s, i, t2);
                    assert(spec_ratio_violation(o, s, i1));
                    assert(spec_ratio_violation(o, s, i2));
                    assert(no_violation_below(o, s, i1));
                    assert(no_violation_below(o, s, i2));
                    if i1 < i2 {
                        assert(!spec_ratio_violation(o, s, i1));
                    } else if i2 < i1 {
                        assert(!spec_ratio_violation(o, s, i2));
                    }
                    assert(i1 == i2);
                }
            },
            _ => {},
        }
    }
}

/// Merging a run of files into one preserves what the run binds: the
/// first-hit rule over the list (newest first) and the merge's
/// newest-write-wins union give the same answer for every key.
pub proof fn law_run_merge_preserves_lookup(
    ids: Seq<usize>,
    tables: Map<usize, SsTable>,
    k: Seq<u8>,
)
    ensures
        files_lookup(ids, tables, k) == {
            let merged = crate::sstable::tables_merged(run_tables(ids, tables));
            if merged.contains_key(k) {
                Some(merged[k])
            } else {
                None
            }
        },
    decreases ids.len(),
{
    if ids.len() > 0 {
        law_run_merge_preserves_lookup(ids.skip(1), tables, k);
        let older = run_tables(ids.skip(1), tables);
        if tables.contains_key(ids[0]) {
            let t = tables[ids[0]];
            assert(run_tables(ids, tables) == older.push(t));
            assert(older.push(t).drop_last() =~= older);
            assert(older.push(t).last() == t);
            assert(crate::sstable::tables_merged(older.push(t)) == crate::sstable::tables_merged(
                older,
            ).union_prefer_right(t.as_map()));
        }
    }
}

/// A run of file ids reads the same through two table maps that agree on
/// every id the run names.
pub proof fn lemma_files_lookup_agree(
    ids: Seq<usize>,
    t1: Map<usize, SsTable>,
    t2: Map<usize, SsTable>,
    k: Seq<u8>,
)
    requires
        forall|i: int|
            0 <= i < ids.len() ==> t1.contains_key(#[trigger] ids[i]) == t2.contains_key(ids[i])
                && (t1.contains_key(ids[i]) ==> t1[ids[i]] == t2[ids[i]]),
    ensures
        files_lookup(ids, t1, k) == files_lookup(ids, t2, k),
        run_tables(ids, t1) == run_tables(ids, t2),
    decreases ids.len(),
{
    if ids.len() > 0 {
        assert forall|i: int|
            0 <= i < ids.skip(1).len() implies t1.contains_key(#[trigger] ids.skip(1)[i])
                == t2.contains_key(ids.skip(1)[i]) && (t1.contains_key(ids.skip(1)[i]) ==> t1[ids.skip(
                1,
            )[i]] == t2[ids.skip(1)[i]]) by {
            assert(ids.skip(1)[i] == ids[i + 1]);
        }
        lemma_files_lookup_agree(ids.skip(1), t1, t2, k);
        assert(ids[0] == ids[0]);
    }
}

/// The levels read the same through two table maps that agree on every id
/// they name.
pub proof fn lemma_levels_lookup_agree(
    ls: Seq<(usize, Vec<usize>)>,
    t1: Map<usize, SsTable>,
    t2: Map<usize, SsTable>,
    k: Seq<u8>,
)
    requires
        forall|lvl: int, j: int|
            0 <= lvl < ls.len() && 0 <= j < ls[lvl].1@.len() ==> t1.contains_key(
                #[trigger] ls[lvl].1@[j],
            ) == t2.contains_key(ls[lvl].1@[j]) && (t1.contains_key(ls[lvl].1@[j]) ==> t1[ls[lvl].1@[j]]
                == t2[ls[lvl].1@[j]]),
    ensures
        levels_lookup(ls, t1, k) == levels_lookup(ls, t2, k),
    decreases ls.len(),
{
    if ls.len() > 0 {
        assert forall|j: int|
            0 <= j < ls[0].1@.len() implies t1.contains_key(#[trigger] ls[0].1@[j])
                == t2.contains_key(ls[0].1@[j]) && (t1.contains_key(ls[0].1@[j]) ==> t1[ls[0].1@[j]]
                == t2[ls[0].1@[j]]) by {}
        lemma_files_lookup_agree(ls[0].1@, t1, t2, k);
        assert forall|lvl: int, j: int|
            0 <= lvl < ls.skip(1).len() && 0 <= j < ls.skip(1)[lvl].1@.len() implies t1.contains_key(
            #[trigger] ls.skip(1)[lvl].1@[j]) == t2.contains_key(ls.skip(1)[lvl].1@[j]) && (
        t1.contains_key(ls.skip(1)[lvl].1@[j]) ==> t1[ls.skip(1)[lvl].1@[j]] == t2[ls.skip(
            1,
        )[lvl].1@[j]]) by {
            assert(ls.skip(1)[lvl] == ls[lvl + 1]);
        }
        lemma_levels_lookup_agree(ls.skip(1), t1, t2, k);
    }
}

/// Compacting the whole of L0 together with the first level into one output
/// file changes no read: the merged file, standing alone in the first level,
/// binds every key exactly as the run of inputs did, and every other layer is
/// untouched.  This is the strategies' L0 task, as `apply` rewrites the lists
/// and the merge (tombstones kept) fills the output.
pub proof fn law_l0_compaction_preserves_reads(
    pre: LsmStorageState,
    post: LsmStorageState,
    out: SsTable,
    out_id: usize,
    k: Seq<u8>,
)
    requires
        post.memtable == pre.memtable,
        post.imm_memtable == pre.imm_memtable,
        pre.levels@.len() >= 1,
        post.levels@.len() == pre.levels@.len(),
        post.l0_sstable@ == Seq::<usize>::empty(),
        post.levels@[0].1@ == seq![out_id],
        forall|lvl: int| 1 <= lvl < pre.levels@.len() ==> post.levels@[lvl] == pre.levels@[lvl],
        out.as_map() == crate::sstable::tables_merged(
            run_tables(pre.levels@[0].1@, pre.sstables@) + run_tables(
                pre.l0_sstable@,
                pre.sstables@,
            ),
        ),
        post.sstables@.contains_key(out_id),
        post.sstables@[out_id] == out,
        forall|lvl: int, j: int|
            1 <= lvl < pre.levels@.len() && 0 <= j < pre.levels@[lvl].1@.len()
                ==> pre.sstables@.contains_key(#[trigger] pre.levels@[lvl].1@[j])
                == post.sstables@.contains_key(pre.levels@[lvl].1@[j]) && (pre.sstables@.contains_key(
                pre.levels@[lvl].1@[j],
            ) ==> pre.sstables@[pre.levels@[lvl].1@[j]] == post.sstables@[pre.levels@[lvl].1@[j]]),
    ensures
        state_lookup(post, k) == state_lookup(pre, k),
{
    law_run_merge_preserves_lookup(pre.l0_sstable@, pre.sstables@, k);
    law_run_merge_preserves_lookup(pre.levels@[0].1@, pre.sstables@, k);
    lemma_tables_merged_append(
        run_tables(pre.levels@[0].1@, pre.sstables@),
        run_tables(pre.l0_sstable@, pre.sstables@),
    );
    // The single output file answers for the old L0 run and old first level.
    assert(post.levels@[0].1@[0] == out_id);
    assert(post.levels@[0].1@.skip(1) =~= Seq::<usize>::empty());
    assert(files_lookup(post.levels@[0].1@, post.sstables@, k) == if out.as_map().contains_key(k) {
        Some(out.as_map()[k])
    } else {
        None
    });
    // The levels below read the same through both table maps.
    assert(pre.levels@.skip(1) =~= post.levels@.skip(1)) by {
        assert forall|lvl: int| 0 <= lvl < pre.levels@.skip(1).len() implies pre.levels@.skip(
            1,
        )[lvl] == post.levels@.skip(1)[lvl] by {
            assert(pre.levels@.skip(1)[lvl] == pre.levels@[lvl + 1]);
            assert(post.levels@.skip(1)[lvl] == post.levels@[lvl + 1]);
        }
    }
    assert forall|lvl: int, j: int|
        0 <= lvl < pre.levels@.skip(1).len() && 0 <= j < pre.levels@.skip(1)[lvl].1@.len()
            implies pre.sstables@.contains_key(#[trigger] pre.levels@.skip(1)[lvl].1@[j])
            == post.sstables@.contains_key(pre.levels@.skip(1)[lvl].1@[j]) && (pre.sstables@.contains_key(
            pre.levels@.skip(1)[lvl].1@[j],
        ) ==> pre.sstables@[pre.levels@.skip(1)[lvl].1@[j]] == post.sstables@[pre.levels@.skip(
            1,
        )[lvl].1@[j]]) by {
        assert(pre.levels@.skip(1)[lvl] == pre.levels@[lvl + 1]);
    }
    lemma_levels_lookup_agree(pre.levels@.skip(1), pre.sstables@, post.sstables@, k);
    assert(files_lookup(post.l0_sstable@, post.sstables@, k) is None);
    // Walking pre's levels: the first level, then the rest.
    assert(levels_lookup(pre.levels@, pre.sstables@, k) == match files_lookup(
        pre.levels@[0].1@,
        pre.sstables@,
        k,
    ) {
        Some(v) => Some(v),
        None => levels_lookup(pre.levels@.skip(1), pre.sstables@, k),
    });
    assert(levels_lookup(post.levels@, post.sstables@, k) == match files_lookup(
        post.levels@[0].1@,
        post.sstables@,
        k,
    ) {
        Some(v) => Some(v),
        None => levels_lookup(post.levels@.skip(1), post.sstables@, k),
    });
}

/// Dropping tombstones from a merged mapping changes no caller-visible read:
/// a tombstone already read as absence.
pub proof fn law_drop_tombstones_user_view(m: Map<Seq<u8>, Seq<u8>>, k: Seq<u8>)
    ensures
        user_view(
            {
                let dropped = crate::sstable::drop_tombstones(m);
                if dropped.contains_key(k) {
                    Some(dropped[k])
                } else {
                    None
                }
            },
        ) == user_view(
            if m.contains_key(k) {
                Some(m[k])
            } else {
                None
            },
        ),
{
}

/// The strike-out really strikes out: an input id is gone from the list it
/// was removed from.
pub proof fn lemma_remove_ids_removes(ids: Seq<usize>, rm: Seq<usize>, x: usize)
    requires
        rm.contains(x),
    ensures
        !remove_ids(ids, rm).contains(x),
    decreases ids.len(),
{
    if ids.len() > 0 {
        lemma_remove_ids_removes(ids.skip(1), rm, x);
        if !rm.contains(ids[0]) {
            let whole = seq![ids[0]] + remove_ids(ids.skip(1), rm);
            assert forall|j: int| 0 <= j < whole.len() implies whole[j] != x by {
                if j == 0 {
                    assert(whole[0] == ids[0]);
                } else {
                    assert(whole[j] == remove_ids(ids.skip(1), rm)[j - 1]);
                    if whole[j] == x {
                        assert(remove_ids(ids.skip(1), rm).contains(x));
                    }
                }
            }
            if whole.contains(x) {
                let j = choose|j: int| 0 <= j < whole.len() && whole[j] == x;
            }
        }
    }
}

/// Applying a finished task leaves none of its input files in the rewritten
/// list: what went into the merge is gone, and only the (fresh) output id is
/// new.
pub proof fn law_apply_inputs_absent(
    rewritten: Seq<usize>,
    before: Seq<usize>,
    inputs: Seq<usize>,
    out_id: usize,
    x: usize,
)
    requires
        rewritten == seq![out_id] + remove_ids(before, inputs),
        inputs.contains(x),
        x != out_id,
    ensures
        !rewritten.contains(x),
{
    lemma_remove_ids_removes(before, inputs, x);
    if rewritten.contains(x) {
        let j = choose|j: int| 0 <= j < rewritten.len() && rewritten[j] == x;
        if j == 0 {
            assert(rewritten[0] == out_id);
        } else {
            assert(rewritten[j] == remove_ids(before, inputs)[j - 1]);
            assert(remove_ids(before, inputs).contains(x));
        }
    }
}

} // verus!
