use vstd::prelude::*;

use std::collections::HashMap;

use crate::compact::{
    apply_compaction, compaction_due, lemma_remove_ids_element, lemma_remove_ids_superset,
    no_violation_below, remove_ids, select_compaction, spec_first_violation_task, spec_l0_task,
    CompactionTask,
    spec_level_task, spec_ratio_violation, spec_simple_l0_trigger, spec_tier_task,
    CompactionOptions, SimpleLeveledCompactionOptions,
};
use crate::errors::LsmError;
use crate::mem_table::MemTable;
use crate::sstable::{
    lemma_listing_exact, lemma_tables_merged_congruent, merge_result, merge_tables, run_tables,
    tables_merged, SsTable,
};
use crate::wal::pairs_view;

verus! {

broadcast use vstd::std_specs::hash::group_hash_axioms;

/// A filter for the compaction execution path: entries matching a filter
/// are to be dropped for good during a merge.  The vocabulary is here for
/// callers; the rounds do not consult filters yet — they drop tombstones
/// only — so the engine stores no filter list.
#[derive(Debug, Clone)]
pub enum CompactionFilter {
    Prefix(Vec<u8>),
}

/// One record of a write batch.
pub enum WriteBatchRecord {
    Put(Vec<u8>, Vec<u8>),
    Del(Vec<u8>),
}

/// Configuration chosen at open time, fixed for the engine's lifetime.
#[derive(Debug, Clone)]
pub struct LsmStorageOptions {
    pub block_size: usize,
    pub target_sst_size: usize,
    pub num_memttable_limit: usize,
    pub compaction_options: CompactionOptions,
    pub enable_wal: bool,
    pub serialized: bool,
}

/// An immutable snapshot of the whole store: the active memtable, the frozen
/// memtables newest first, the L0 file list newest first, the per-level file
/// lists, and the loaded file objects by id.
pub struct LsmStorageState {
    pub memtable: MemTable,
    pub imm_memtable: Vec<MemTable>,
    pub l0_sstable: Vec<usize>,
    pub levels: Vec<(usize, Vec<usize>)>,
    pub sstables: HashMap<usize, SsTable>,
}

// ---------------------------------------------------------------------------
// The read model: most-recent-wins, layer by layer.
// ---------------------------------------------------------------------------

/// The first hit among a run of memtables, in the order given.
pub open spec fn mem_lookup(ms: Seq<MemTable>, k: Seq<u8>) -> Option<Seq<u8>>
    decreases ms.len(),
{
    if ms.len() == 0 {
        None
    } else if ms[0].contents().contains_key(k) {
        Some(ms[0].contents()[k])
    } else {
        mem_lookup(ms.skip(1), k)
    }
}

/// The first hit among a run of files, in the order given; an id missing from
/// the table map is passed over.
pub open spec fn files_lookup(ids: Seq<usize>, tables: Map<usize, SsTable>, k: Seq<u8>) -> Option<
    Seq<u8>,
>
    decreases ids.len(),
{
    if ids.len() == 0 {
        None
    } else if tables.contains_key(ids[0]) && tables[ids[0]].as_map().contains_key(k) {
        Some(tables[ids[0]].as_map()[k])
    } else {
        files_lookup(ids.skip(1), tables, k)
    }
}

/// The first hit walking the levels from the top down.
pub open spec fn levels_lookup(
    ls: Seq<(usize, Vec<usize>)>,
    tables: Map<usize, SsTable>,
    k: Seq<u8>,
) -> Option<Seq<u8>>
    decreases ls.len(),
{
    if ls.len() == 0 {
        None
    } else {
        match files_lookup(ls[0].1@, tables, k) {
            Some(v) => Some(v),
            None => levels_lookup(ls.skip(1), tables, k),
        }
    }
}

/// What the store as a whole binds a key to, tombstones included: the active
/// memtable wins over the frozen ones (newest first), which win over L0
/// (newest first), which wins over the lower levels in order.
pub open spec fn state_lookup(s: LsmStorageState, k: Seq<u8>) -> Option<Seq<u8>> {
    if s.memtable.contents().contains_key(k) {
        Some(s.memtable.contents()[k])
    } else {
        match mem_lookup(s.imm_memtable@, k) {
            Some(v) => Some(v),
            None => match files_lookup(s.l0_sstable@, s.sstables@, k) {
                Some(v) => Some(v),
                None => levels_lookup(s.levels@, s.sstables@, k),
            },
        }
    }
}

/// Translates the raw binding to what a caller sees: a tombstone is absence.
pub open spec fn user_view(r: Option<Seq<u8>>) -> Option<Seq<u8>> {
    match r {
        Some(v) => if v.len() == 0 {
            None
        } else {
            Some(v)
        },
        None => None,
    }
}

/// The view of an owned optional byte string.
pub open spec fn opt_view(r: Option<Vec<u8>>) -> Option<Seq<u8>> {
    match r {
        Some(v) => Some(v@),
        None => None,
    }
}

/// Every part of the snapshot is well formed.
pub open spec fn state_wf(s: LsmStorageState) -> bool {
    &&& s.memtable.wf()
    &&& forall|i: int| 0 <= i < s.imm_memtable@.len() ==> (#[trigger] s.imm_memtable@[i]).wf()
    &&& forall|id: usize| #[trigger] s.sstables@.contains_key(id) ==> s.sstables@[id].wf()
}

/// Every identity the snapshot mentions lies below the allocator's next id:
/// fresh ids never collide with live ones.
pub open spec fn ids_below(s: LsmStorageState, b: int) -> bool {
    &&& s.memtable.spec_id() < b
    &&& forall|i: int|
        0 <= i < s.imm_memtable@.len() ==> (#[trigger] s.imm_memtable@[i]).spec_id() < b
    &&& forall|id: usize| #[trigger] s.sstables@.contains_key(id) ==> id < b
    &&& forall|i: int| 0 <= i < s.l0_sstable@.len() ==> (#[trigger] s.l0_sstable@[i]) < b
    &&& forall|lvl: int, j: int|
        0 <= lvl < s.levels@.len() && 0 <= j < s.levels@[lvl].1@.len() ==> (
        #[trigger] s.levels@[lvl].1@[j]) < b
}

// ---------------------------------------------------------------------------
// Lookup lemmas
// ---------------------------------------------------------------------------

/// A run of memtables with one appended at the old end: the old run is
/// consulted first, the appended table last.
pub proof fn lemma_mem_lookup_push(ms: Seq<MemTable>, m: MemTable, k: Seq<u8>)
    ensures
        mem_lookup(ms.push(m), k) == match mem_lookup(ms, k) {
            Some(v) => Some(v),
            None => if m.contents().contains_key(k) {
                Some(m.contents()[k])
            } else {
                None
            },
        },
    decreases ms.len(),
{
    let whole = ms.push(m);
    if ms.len() == 0 {
        assert(whole.len() == 1);
        assert(whole[0] == m);
        assert(whole.skip(1) =~= Seq::<MemTable>::empty());
        assert(mem_lookup(whole.skip(1), k) is None);
        if m.contents().contains_key(k) {
            assert(mem_lookup(whole, k) == Some(m.contents()[k]));
        } else {
            assert(mem_lookup(whole, k) is None);
        }
        assert(mem_lookup(ms, k) is None);
    } else {
        assert(whole[0] == ms[0]);
        assert(whole.skip(1) =~= ms.skip(1).push(m));
        lemma_mem_lookup_push(ms.skip(1), m, k);
        if ms[0].contents().contains_key(k) {
            assert(mem_lookup(whole, k) == Some(ms[0].contents()[k]));
            assert(mem_lookup(ms, k) == Some(ms[0].contents()[k]));
        } else {
            assert(mem_lookup(whole, k) == mem_lookup(ms.skip(1).push(m), k));
            assert(mem_lookup(ms, k) == mem_lookup(ms.skip(1), k));
        }
    }
}

/// Adding a file under a fresh id leaves every lookup through the old ids
/// unchanged.
pub proof fn lemma_files_lookup_fresh(
    ids: Seq<usize>,
    tables: Map<usize, SsTable>,
    nid: usize,
    t: SsTable,
    k: Seq<u8>,
)
    requires
        forall|i: int| 0 <= i < ids.len() ==> (#[trigger] ids[i]) != nid,
    ensures
        files_lookup(ids, tables.insert(nid, t), k) == files_lookup(ids, tables, k),
    decreases ids.len(),
{
    if ids.len() > 0 {
        assert(ids[0] != nid);
        assert forall|i: int| 0 <= i < ids.skip(1).len() implies (#[trigger] ids.skip(1)[i])
            != nid by {
            assert(ids.skip(1)[i] == ids[i + 1]);
        }
        lemma_files_lookup_fresh(ids.skip(1), tables, nid, t, k);
    }
}

/// The same, walking every level.
pub proof fn lemma_levels_lookup_fresh(
    ls: Seq<(usize, Vec<usize>)>,
    tables: Map<usize, SsTable>,
    nid: usize,
    t: SsTable,
    k: Seq<u8>,
)
    requires
        forall|lvl: int, j: int|
            0 <= lvl < ls.len() && 0 <= j < ls[lvl].1@.len() ==> (#[trigger] ls[lvl].1@[j]) != nid,
    ensures
        levels_lookup(ls, tables.insert(nid, t), k) == levels_lookup(ls, tables, k),
    decreases ls.len(),
{
    if ls.len() > 0 {
        assert forall|j: int| 0 <= j < ls[0].1@.len() implies (#[trigger] ls[0].1@[j]) != nid by {}
        lemma_files_lookup_fresh(ls[0].1@, tables, nid, t, k);
        assert forall|lvl: int, j: int|
            0 <= lvl < ls.skip(1).len() && 0 <= j < ls.skip(1)[lvl].1@.len() implies (
        #[trigger] ls.skip(1)[lvl].1@[j]) != nid by {
            assert(ls.skip(1)[lvl] == ls[lvl + 1]);
        }
        lemma_levels_lookup_fresh(ls.skip(1), tables, nid, t, k);
    }
}

impl LsmStorageState {
    /// A fresh snapshot for the given configuration: an empty active memtable
    /// with id 0, no frozen memtables, no files, and the level buckets the
    /// chosen strategy pre-populates.
    pub fn create(option: &LsmStorageOptions) -> (s: Self)
        ensures
            s.memtable.contents() == Map::<Seq<u8>, Seq<u8>>::empty(),
            s.memtable.spec_id() == 0,
            s.memtable.spec_approximate_size() == 0,
            s.memtable.has_wal() == option.enable_wal,
            s.imm_memtable@.len() == 0,
            s.l0_sstable@.len() == 0,
            s.sstables@ == Map::<usize, SsTable>::empty(),
            s.levels@.len() == match option.compaction_options {
                CompactionOptions::Leveled(o) => o.max_levels as int,
                CompactionOptions::Simple(o) => o.max_levels as int,
                _ => 0,
            },
            forall|i: int|
                0 <= i < s.levels@.len() ==> (#[trigger] s.levels@[i]).0 == i + 1 && s.levels@[i].1@
                    =~= Seq::<usize>::empty(),
            state_wf(s),
            ids_below(s, 1),
            forall|k: Seq<u8>| state_lookup(s, k) is None,
    {
        let max: usize = match &option.compaction_options {
            CompactionOptions::Leveled(o) => o.max_levels,
            CompactionOptions::Simple(o) => o.max_levels,
            CompactionOptions::Tiered(_) => 0,
            CompactionOptions::NoCompaction => 0,
        };
        let mut levels: Vec<(usize, Vec<usize>)> = Vec::new();
        let mut i: usize = 0;
        while i < max
            invariant
                0 <= i <= max,
                levels@.len() == i,
                forall|j: int|
                    0 <= j < i ==> (#[trigger] levels@[j]).0 == j + 1 && levels@[j].1@.len() == 0,
            decreases max - i,
        {
            levels.push((i + 1, Vec::new()));
            i += 1;
        }
        // With logging on, the active memtable is log-backed from the start:
        // a write before the first freeze must survive a crash too.
        let active = if option.enable_wal {
            MemTable::create_with_wal(0)
        } else {
            MemTable::create(0)
        };
        let s = LsmStorageState {
            memtable: active,
            imm_memtable: Vec::new(),
            l0_sstable: Vec::new(),
            levels,
            sstables: HashMap::new(),
        };
        proof {
            assert forall|k: Seq<u8>| state_lookup(s, k) is None by {
                assert(s.imm_memtable@.skip(0) =~= s.imm_memtable@);
                assert(mem_lookup(s.imm_memtable@, k) is None);
                assert(files_lookup(s.l0_sstable@, s.sstables@, k) is None);
                lemma_levels_lookup_none(s.levels@, s.sstables@, k);
            }
        }
        s
    }
}

/// With no file map entries at all, no level can produce a hit.
pub proof fn lemma_levels_lookup_none(
    ls: Seq<(usize, Vec<usize>)>,
    tables: Map<usize, SsTable>,
    k: Seq<u8>,
)
    requires
        tables.dom() =~= Set::<usize>::empty(),
    ensures
        levels_lookup(ls, tables, k) is None,
    decreases ls.len(),
{
    if ls.len() > 0 {
        lemma_files_lookup_none(ls[0].1@, tables, k);
        lemma_levels_lookup_none(ls.skip(1), tables, k);
    }
}

/// The same for one run of file ids.
pub proof fn lemma_files_lookup_none(ids: Seq<usize>, tables: Map<usize, SsTable>, k: Seq<u8>)
    requires
        tables.dom() =~= Set::<usize>::empty(),
    ensures
        files_lookup(ids, tables, k) is None,
    decreases ids.len(),
{
    if ids.len() > 0 {
        lemma_files_lookup_none(ids.skip(1), tables, k);
    }
}

/// The storage engine's sequential core: the current snapshot, the fixed
/// configuration, and the id allocator.  Callers that share it across threads
/// serialize access around it; its transitions are what they install.
pub struct LsmStorageInner {
    pub state: LsmStorageState,
    pub options: LsmStorageOptions,
    pub next_sst_id: usize,
}

impl LsmStorageInner {
    pub open spec fn wf(self) -> bool {
        &&& state_wf(self.state)
        &&& ids_below(self.state, self.next_sst_id as int)
        &&& self.options.target_sst_size >= 1
    }

    /// A fresh engine over a fresh snapshot.
    pub fn create(options: LsmStorageOptions) -> (e: Self)
        requires
            options.target_sst_size >= 1,
        ensures
            e.wf(),
            e.options == options,
            e.next_sst_id == 1,
            forall|k: Seq<u8>| state_lookup(e.state, k) is None,
            e.state.imm_memtable@.len() == 0,
            e.state.l0_sstable@.len() == 0,
            e.state.memtable.spec_approximate_size() == 0,
            e.state.memtable.contents() == Map::<Seq<u8>, Seq<u8>>::empty(),
            e.state.memtable.spec_id() == 0,
            e.state.memtable.has_wal() == options.enable_wal,
            e.state.sstables@ == Map::<usize, SsTable>::empty(),
            forall|lvl: int|
                0 <= lvl < e.state.levels@.len() ==> (#[trigger] e.state.levels@[lvl]).1@.len()
                    == 0,
    {
        let state = LsmStorageState::create(&options);
        let e = LsmStorageInner { state, options, next_sst_id: 1 };
        proof {
            assert forall|lvl: int|
                0 <= lvl < e.state.levels@.len() implies (#[trigger] e.state.levels@[lvl]).1@.len()
                == 0 by {
                assert(e.state.levels@[lvl].1@ =~= Seq::<usize>::empty());
            }
        }
        e
    }

    /// Builds an engine from the memtables recovered out of surviving log
    /// images, handed newest first (ids strictly decreasing).  They stand in
    /// the frozen list; a fresh active memtable takes the next id above them
    /// (log-backed when logging is on), and the allocator resumes past it.
    /// With no logs at all this is a fresh engine, and every read is absent.
    pub fn open_recovered(options: LsmStorageOptions, logs: &Vec<(usize, Vec<u8>)>) -> (e: Self)
        requires
            options.target_sst_size >= 1,
            forall|i: int, j: int|
                0 <= i < j < logs@.len() ==> (#[trigger] logs@[i].0) > (#[trigger] logs@[j].0),
            logs@.len() > 0 ==> logs@[0].0 < usize::MAX - 1,
        ensures
            e.wf(),
            e.options == options,
            e.state.memtable.contents() == Map::<Seq<u8>, Seq<u8>>::empty(),
            e.state.memtable.spec_approximate_size() == 0,
            e.state.memtable.has_wal() == options.enable_wal,
            e.state.memtable.spec_id() == if logs@.len() == 0 {
                0int
            } else {
                logs@[0].0 + 1
            },
            e.state.l0_sstable@.len() == 0,
            e.state.sstables@ == Map::<usize, SsTable>::empty(),
            forall|lvl: int|
                0 <= lvl < e.state.levels@.len() ==> (#[trigger] e.state.levels@[lvl]).1@.len()
                    == 0,
            e.state.imm_memtable@.len() == logs@.len(),
            forall|i: int|
                0 <= i < logs@.len() ==> (#[trigger] e.state.imm_memtable@[i]).spec_id()
                    == logs@[i].0 && e.state.imm_memtable@[i].contents()
                    == crate::wal::entries_map(crate::wal::replay_entries(logs@[i].1@)),
            e.next_sst_id == if logs@.len() == 0 {
                1int
            } else {
                logs@[0].0 + 2
            },
            logs@.len() == 0 ==> forall|k: Seq<u8>| state_lookup(e.state, k) is None,
    {
        let mut e = LsmStorageInner::create(options);
        let mut i: usize = 0;
        while i < logs.len()
            invariant
                0 <= i <= logs@.len(),
                forall|a: int, b: int|
                    0 <= a < b < logs@.len() ==> (#[trigger] logs@[a].0) > (#[trigger] logs@[b].0),
                logs@.len() > 0 ==> logs@[0].0 < usize::MAX - 1,
                e.options == options,
                e.next_sst_id == 1,
                e.state.memtable.wf(),
                e.state.memtable.contents() == Map::<Seq<u8>, Seq<u8>>::empty(),
                e.state.memtable.spec_id() == 0,
                e.state.memtable.spec_approximate_size() == 0,
                e.state.memtable.has_wal() == options.enable_wal,
                e.state.l0_sstable@.len() == 0,
                e.state.sstables@ == Map::<usize, SsTable>::empty(),
                forall|lvl: int|
                    0 <= lvl < e.state.levels@.len() ==> (#[trigger] e.state.levels@[lvl]).1@.len()
                        == 0,
                e.state.imm_memtable@.len() == i,
                forall|a: int|
                    0 <= a < i ==> (#[trigger] e.state.imm_memtable@[a]).spec_id() == logs@[a].0
                        && e.state.imm_memtable@[a].contents() == crate::wal::entries_map(
                        crate::wal::replay_entries(logs@[a].1@),
                    ) && e.state.imm_memtable@[a].wf(),
            decreases logs@.len() - i,
        {
            let entry = &logs[i];
            let mt = MemTable::recover_with_wal(entry.0, entry.1.as_slice());
            e.state.imm_memtable.push(mt);
            i += 1;
        }
        if logs.len() > 0 {
            // The recovered tables may include id 0: the fresh active
            // memtable takes the id just above the newest of them.
            let newest = logs[0].0;
            let active = if e.options.enable_wal {
                MemTable::create_with_wal(newest + 1)
            } else {
                MemTable::create(newest + 1)
            };
            e.state.memtable = active;
            e.next_sst_id = newest + 2;
        }
        proof {
            assert forall|a: int|
                0 <= a < e.state.imm_memtable@.len() implies (
            #[trigger] e.state.imm_memtable@[a]).spec_id() < e.next_sst_id as int by {
                if a > 0 {
                    assert(logs@[0].0 > logs@[a].0);
                }
            }
            if logs@.len() == 0 {
                assert forall|k: Seq<u8>| state_lookup(e.state, k) is None by {
                    assert(mem_lookup(e.state.imm_memtable@, k) is None);
                    lemma_files_lookup_none(e.state.l0_sstable@, e.state.sstables@, k);
                    lemma_levels_lookup_none(e.state.levels@, e.state.sstables@, k);
                }
            }
        }
        e
    }

    /// The raw binding of a key, walking the layers newest to oldest.
    fn lookup_raw(&self, key: &[u8]) -> (r: Option<Vec<u8>>)
        requires
            state_wf(self.state),
        ensures
            opt_view(r) == state_lookup(self.state, key@),
    {
        match self.state.memtable.get(key) {
            Some(v) => {
                return Some(v);
            },
            None => {},
        }
        let ghost imm = self.state.imm_memtable@;
        let mut i: usize = 0;
        proof {
            assert(imm.skip(0) =~= imm);
        }
        while i < self.state.imm_memtable.len()
            invariant
                0 <= i <= imm.len(),
                imm == self.state.imm_memtable@,
                state_wf(self.state),
                mem_lookup(imm, key@) == mem_lookup(imm.skip(i as int), key@),
                !self.state.memtable.contents().contains_key(key@),
            decreases imm.len() - i,
        {
            let mt = &self.state.imm_memtable[i];
            let found = mt.get(key);
            proof {
                assert(imm.skip(i as int)[0] == imm[i as int]);
                assert(imm.skip(i as int).skip(1) =~= imm.skip(i + 1));
            }
            match found {
                Some(v) => {
                    return Some(v);
                },
                None => {},
            }
            i += 1;
        }
        proof {
            assert(imm.skip(imm.len() as int) =~= Seq::<MemTable>::empty());
        }
        let from_l0 = files_get(&self.state.l0_sstable, &self.state.sstables, key);
        match from_l0 {
            Some(v) => {
                return Some(v);
            },
            None => {},
        }
        levels_get(&self.state.levels, &self.state.sstables, key)
    }

    /// Looks a key up; a tombstone, wherever it lies, is absence.
    pub fn get(&self, key: &[u8]) -> (r: Option<Vec<u8>>)
        requires
            state_wf(self.state),
        ensures
            opt_view(r) == user_view(state_lookup(self.state, key@)),
    {
        match self.lookup_raw(key) {
            Some(v) => {
                if v.is_empty() {
                    None
                } else {
                    Some(v)
                }
            },
            None => None,
        }
    }
}

/// A batch record that the engine accepts: no empty key, and no empty value
/// on a put (the empty value is the tombstone marker, reserved internally).
pub open spec fn record_valid(r: WriteBatchRecord) -> bool {
    match r {
        WriteBatchRecord::Put(k, v) => k@.len() > 0 && v@.len() > 0,
        WriteBatchRecord::Del(k) => k@.len() > 0,
    }
}

pub open spec fn batch_valid(rs: Seq<WriteBatchRecord>) -> bool {
    forall|i: int| 0 <= i < rs.len() ==> record_valid(#[trigger] rs[i])
}

/// What a batch, applied in order, leaves a key bound to: the last record
/// that writes the key wins; a delete binds it to the tombstone.
pub open spec fn batch_effect(rs: Seq<WriteBatchRecord>, k: Seq<u8>) -> Option<Seq<u8>>
    decreases rs.len(),
{
    if rs.len() == 0 {
        None
    } else {
        match rs.last() {
            WriteBatchRecord::Put(pk, pv) => if pk@ == k {
                Some(pv@)
            } else {
                batch_effect(rs.drop_last(), k)
            },
            WriteBatchRecord::Del(dk) => if dk@ == k {
                Some(Seq::empty())
            } else {
                batch_effect(rs.drop_last(), k)
            },
        }
    }
}

/// The freeze condition: the caller's estimate and the size the active
/// memtable has right now both reach the threshold, and an id is available.
pub open spec fn freeze_due(e: LsmStorageInner, estimated_size: usize) -> bool {
    &&& estimated_size >= e.options.target_sst_size
    &&& e.state.memtable.spec_approximate_size() >= e.options.target_sst_size
    &&& e.next_sst_id < usize::MAX
}

/// How a freeze rewrites the engine: a fresh, empty active memtable under the
/// next id, the old one at the front of the frozen list, files untouched.
pub open spec fn froze(pre: LsmStorageInner, post: LsmStorageInner) -> bool {
    &&& post.state.memtable.contents() == Map::<Seq<u8>, Seq<u8>>::empty()
    &&& post.state.memtable.spec_approximate_size() == 0
    &&& post.state.memtable.spec_id() == pre.next_sst_id
    &&& post.state.memtable.has_wal() == pre.options.enable_wal
    &&& post.state.imm_memtable@ == pre.state.imm_memtable@.insert(0, pre.state.memtable)
    &&& post.state.l0_sstable == pre.state.l0_sstable
    &&& post.state.levels == pre.state.levels
    &&& post.state.sstables == pre.state.sstables
    &&& post.next_sst_id == pre.next_sst_id + 1
    &&& post.options == pre.options
}

/// What merging the whole of L0 into the first level yields: the first
/// level's files (older) under the L0 run (newer), the newest write winning.
pub open spec fn l0_task_merge(s: LsmStorageState) -> Map<Seq<u8>, Seq<u8>> {
    tables_merged(run_tables(s.levels@[0].1@, s.sstables@) + run_tables(s.l0_sstable@, s.sstables@))
}

/// What merging every L0 tier into one yields.
pub open spec fn tier_task_merge(s: LsmStorageState) -> Map<Seq<u8>, Seq<u8>> {
    tables_merged(run_tables(s.l0_sstable@, s.sstables@))
}

/// What merging level `i` into level `i+1` yields.
pub open spec fn ratio_task_merge(s: LsmStorageState, i: int) -> Map<Seq<u8>, Seq<u8>> {
    tables_merged(
        run_tables(s.levels@[i].1@, s.sstables@) + run_tables(s.levels@[i - 1].1@, s.sstables@),
    )
}

/// The whole of L0 merged into the first level: L0 is drained, the output
/// file stands alone there holding exactly the merge of the inputs (with
/// tombstones dropped when the first level is the bottom), and the input
/// files have left the loaded-file map.
pub open spec fn l0_run_compacted(pre: LsmStorageInner, post: LsmStorageInner) -> bool {
    &&& post.state.l0_sstable@ == Seq::<usize>::empty()
    &&& post.state.levels@[0].1@ == seq![pre.next_sst_id]
    &&& post.state.sstables@.contains_key(pre.next_sst_id)
    &&& post.state.sstables@[pre.next_sst_id].as_map() == merge_result(
        l0_task_merge(pre.state),
        pre.state.levels@.len() == 1,
    )
    &&& forall|i: int|
        0 <= i < pre.state.l0_sstable@.len() ==> !post.state.sstables@.contains_key(
            #[trigger] pre.state.l0_sstable@[i],
        )
    &&& forall|i: int|
        0 <= i < pre.state.levels@[0].1@.len() ==> !post.state.sstables@.contains_key(
            #[trigger] pre.state.levels@[0].1@[i],
        )
}

/// The whole of L0 merged into one tier: the output file stands alone in L0
/// holding exactly the merge of the tiers (tombstones dropped when no levels
/// lie below), the levels are untouched, and the input files have left the
/// loaded-file map.
pub open spec fn tier_run_compacted(pre: LsmStorageInner, post: LsmStorageInner) -> bool {
    &&& post.state.l0_sstable@ == seq![pre.next_sst_id]
    &&& post.state.levels@ == pre.state.levels@
    &&& post.state.sstables@.contains_key(pre.next_sst_id)
    &&& post.state.sstables@[pre.next_sst_id].as_map() == merge_result(
        tier_task_merge(pre.state),
        pre.state.levels@.len() == 0,
    )
    &&& forall|i: int|
        0 <= i < pre.state.l0_sstable@.len() ==> !post.state.sstables@.contains_key(
            #[trigger] pre.state.l0_sstable@[i],
        )
}

/// Level `i` merged wholly into level `i+1`: the upper level is emptied, the
/// output file stands alone in the lower holding exactly the merge of both
/// (tombstones dropped when the lower is the bottom), every other level is
/// untouched, and the input files have left the loaded-file map.
pub open spec fn ratio_run_compacted(pre: LsmStorageInner, post: LsmStorageInner, i: int) -> bool {
    &&& post.state.l0_sstable == pre.state.l0_sstable
    &&& post.state.levels@.len() == pre.state.levels@.len()
    &&& post.state.levels@[i - 1].1@ == Seq::<usize>::empty()
    &&& post.state.levels@[i].1@ == seq![pre.next_sst_id]
    &&& forall|lvl: int|
        0 <= lvl < pre.state.levels@.len() && lvl != i - 1 && lvl != i ==> post.state.levels@[lvl]
            == pre.state.levels@[lvl]
    &&& post.state.sstables@.contains_key(pre.next_sst_id)
    &&& post.state.sstables@[pre.next_sst_id].as_map() == merge_result(
        ratio_task_merge(pre.state, i),
        i + 1 == pre.state.levels@.len(),
    )
    &&& forall|j: int|
        0 <= j < pre.state.levels@[i - 1].1@.len() ==> !post.state.sstables@.contains_key(
            #[trigger] pre.state.levels@[i - 1].1@[j],
        )
    &&& forall|j: int|
        0 <= j < pre.state.levels@[i].1@.len() ==> !post.state.sstables@.contains_key(
            #[trigger] pre.state.levels@[i].1@[j],
        )
}

/// One ratio-triggered round of the simple leveled strategy: the first pair
/// of levels in violation merged, exactly as the task the scan picks asks.
pub open spec fn ratio_round(
    o: SimpleLeveledCompactionOptions,
    pre: LsmStorageInner,
    post: LsmStorageInner,
    i: int,
) -> bool {
    &&& spec_ratio_violation(o, pre.state, i)
    &&& no_violation_below(o, pre.state, i)
    &&& ratio_run_compacted(pre, post, i)
}

/// Whether a write of these key/value lengths pushes the active memtable to
/// the freeze threshold (with an id still available for the fresh table):
/// the size after the write is what the under-lock re-check sees.
pub open spec fn write_freezes(pre: LsmStorageInner, klen: nat, vlen: nat) -> bool {
    &&& crate::mem_table::size_after(pre.state.memtable.spec_approximate_size(), klen, vlen)
        >= pre.options.target_sst_size
    &&& pre.next_sst_id < usize::MAX
}

/// The write landed in the active memtable, which then froze: it stands at
/// the front of the frozen list holding the write, and a fresh, empty table
/// under the next id is active.
pub open spec fn wrote_and_froze(
    pre: LsmStorageInner,
    post: LsmStorageInner,
    k: Seq<u8>,
    v: Seq<u8>,
) -> bool {
    &&& post.state.imm_memtable@.len() == pre.state.imm_memtable@.len() + 1
    &&& forall|i: int|
        0 <= i < pre.state.imm_memtable@.len() ==> (#[trigger] post.state.imm_memtable@[i + 1])
            == pre.state.imm_memtable@[i]
    &&& post.state.imm_memtable@[0].contents() == pre.state.memtable.contents().insert(k, v)
    &&& post.state.imm_memtable@[0].spec_id() == pre.state.memtable.spec_id()
    &&& post.state.memtable.contents() == Map::<Seq<u8>, Seq<u8>>::empty()
    &&& post.state.memtable.spec_approximate_size() == 0
    &&& post.state.memtable.spec_id() == pre.next_sst_id
    &&& post.next_sst_id == pre.next_sst_id + 1
}

/// The write landed in the active memtable, which stayed active: no freeze.
pub open spec fn wrote_in_place(
    pre: LsmStorageInner,
    post: LsmStorageInner,
    k: Seq<u8>,
    v: Seq<u8>,
) -> bool {
    &&& post.state.imm_memtable == pre.state.imm_memtable
    &&& post.state.memtable.contents() == pre.state.memtable.contents().insert(k, v)
    &&& post.state.memtable.spec_approximate_size() == crate::mem_table::size_after(
        pre.state.memtable.spec_approximate_size(),
        k.len(),
        v.len(),
    )
    &&& post.state.memtable.spec_id() == pre.state.memtable.spec_id()
    &&& post.next_sst_id == pre.next_sst_id
}

/// The key a record writes.
pub open spec fn record_key(r: WriteBatchRecord) -> Seq<u8> {
    match r {
        WriteBatchRecord::Put(k, _) => k@,
        WriteBatchRecord::Del(k) => k@,
    }
}

/// The value a record writes: a delete writes the tombstone.
pub open spec fn record_value(r: WriteBatchRecord) -> Seq<u8> {
    match r {
        WriteBatchRecord::Put(_, v) => v@,
        WriteBatchRecord::Del(_) => Seq::empty(),
    }
}

/// One record applied to the engine: the write landed in the active
/// memtable, freezing exactly when it crossed the threshold, and the file
/// layers were untouched.
pub open spec fn record_applied(
    pre: LsmStorageInner,
    post: LsmStorageInner,
    r: WriteBatchRecord,
) -> bool {
    &&& post.options == pre.options
    &&& post.state.l0_sstable == pre.state.l0_sstable
    &&& post.state.levels == pre.state.levels
    &&& post.state.sstables == pre.state.sstables
    &&& (write_freezes(pre, record_key(r).len(), record_value(r).len()) ==> wrote_and_froze(
        pre,
        post,
        record_key(r),
        record_value(r),
    ))
    &&& (!write_freezes(pre, record_key(r).len(), record_value(r).len()) ==> wrote_in_place(
        pre,
        post,
        record_key(r),
        record_value(r),
    ))
}

/// A chain of engine states carrying the batch from `pre` to `post`: one
/// state per step, each record applied to the one before it.
pub open spec fn chain_applies(
    pre: LsmStorageInner,
    post: LsmStorageInner,
    rs: Seq<WriteBatchRecord>,
    chain: Seq<LsmStorageInner>,
) -> bool {
    &&& chain.len() == rs.len() + 1
    &&& chain[0] == pre
    &&& chain[rs.len() as int] == post
    &&& forall|j: int| 0 <= j < rs.len() ==> record_applied(#[trigger] chain[j], chain[j + 1], rs[j])
}

/// The records applied in order, each one freezing exactly when its write
/// crossed the threshold: what a batch does to the engine, record by record.
pub open spec fn batch_applied(
    pre: LsmStorageInner,
    post: LsmStorageInner,
    rs: Seq<WriteBatchRecord>,
) -> bool {
    exists|chain: Seq<LsmStorageInner>| #[trigger] chain_applies(pre, post, rs, chain)
}

impl LsmStorageInner {
    /// Freezes the active memtable: a fresh, empty one (backed by a log when
    /// logging is on) takes its place, and the old one becomes the newest
    /// frozen memtable.  Every read sees exactly what it saw before.
    pub fn force_freeze_memtable(&mut self)
        requires
            old(self).wf(),
            old(self).next_sst_id < usize::MAX,
        ensures
            final(self).wf(),
            final(self).options == old(self).options,
            final(self).next_sst_id == old(self).next_sst_id + 1,
            final(self).state.memtable.contents() == Map::<Seq<u8>, Seq<u8>>::empty(),
            final(self).state.memtable.spec_id() == old(self).next_sst_id,
            final(self).state.memtable.spec_approximate_size() == 0,
            final(self).state.memtable.has_wal() == old(self).options.enable_wal,
            final(self).state.imm_memtable@ == old(self).state.imm_memtable@.insert(
                0,
                old(self).state.memtable,
            ),
            final(self).state.l0_sstable == old(self).state.l0_sstable,
            final(self).state.levels == old(self).state.levels,
            final(self).state.sstables == old(self).state.sstables,
            forall|k: Seq<u8>|
                state_lookup(final(self).state, k) == state_lookup(old(self).state, k),
    {
        let id = self.next_sst_id;
        self.next_sst_id = self.next_sst_id + 1;
        let mut fresh_table = if self.options.enable_wal {
            MemTable::create_with_wal(id)
        } else {
            MemTable::create(id)
        };
        core::mem::swap(&mut self.state.memtable, &mut fresh_table);
        self.state.imm_memtable.insert(0, fresh_table);
        proof {
            let post = self.state;
            let pre = old(self).state;
            assert forall|k: Seq<u8>| state_lookup(post, k) == state_lookup(pre, k) by {
                assert(post.imm_memtable@[0] == pre.memtable);
                assert(post.imm_memtable@.skip(1) =~= pre.imm_memtable@);
                assert(!post.memtable.contents().contains_key(k));
            }
            assert forall|i: int|
                0 <= i < post.imm_memtable@.len() implies (#[trigger] post.imm_memtable@[i]).wf()
                && post.imm_memtable@[i].spec_id() < self.next_sst_id as int by {
                if i > 0 {
                    assert(post.imm_memtable@[i] == pre.imm_memtable@[i - 1]);
                }
            }
        }
    }

    /// Freezes only when the caller's size estimate and the size the active
    /// memtable has right now both reach the configured threshold, and an id
    /// is still available.  The second look at the current size is what keeps
    /// a racing caller, whose estimate is stale, from freezing twice.
    pub fn try_freeze(&mut self, estimated_size: usize)
        requires
            old(self).wf(),
        ensures
            final(self).wf(),
            final(self).options == old(self).options,
            final(self).state.l0_sstable == old(self).state.l0_sstable,
            final(self).state.levels == old(self).state.levels,
            final(self).state.sstables == old(self).state.sstables,
            forall|k: Seq<u8>|
                state_lookup(final(self).state, k) == state_lookup(old(self).state, k),
            freeze_due(*old(self), estimated_size) ==> froze(*old(self), *final(self)),
            !freeze_due(*old(self), estimated_size) ==> *final(self) == *old(self),
    {
        if estimated_size >= self.options.target_sst_size {
            if self.state.memtable.approximate_size() >= self.options.target_sst_size {
                if self.next_sst_id < usize::MAX {
                    self.force_freeze_memtable();
                }
            }
        }
    }

    /// Applies one write (a put, or a delete as a tombstone put) to the
    /// active memtable, then freezes if the size threshold is crossed.
    fn apply_write(&mut self, key: &[u8], value: &[u8])
        requires
            old(self).wf(),
        ensures
            final(self).wf(),
            final(self).options == old(self).options,
            final(self).state.l0_sstable == old(self).state.l0_sstable,
            final(self).state.levels == old(self).state.levels,
            final(self).state.sstables == old(self).state.sstables,
            state_lookup(final(self).state, key@) == Some(value@),
            forall|k2: Seq<u8>|
                k2 != key@ ==> state_lookup(final(self).state, k2) == state_lookup(
                    old(self).state,
                    k2,
                ),
            write_freezes(*old(self), key@.len(), value@.len()) ==> wrote_and_froze(
                *old(self),
                *final(self),
                key@,
                value@,
            ),
            !write_freezes(*old(self), key@.len(), value@.len()) ==> wrote_in_place(
                *old(self),
                *final(self),
                key@,
                value@,
            ),
    {
        self.state.memtable.put(key, value);
        proof {
            let mid = self.state;
            let pre = old(self).state;
            assert(mid.memtable.contents() == pre.memtable.contents().insert(key@, value@));
            assert(state_lookup(mid, key@) == Some(value@));
            assert forall|k2: Seq<u8>| k2 != key@ implies state_lookup(mid, k2) == state_lookup(
                pre,
                k2,
            ) by {
                assert(mid.memtable.contents().contains_key(k2) == pre.memtable.contents()
                    .contains_key(k2));
                if pre.memtable.contents().contains_key(k2) {
                    assert(mid.memtable.contents()[k2] == pre.memtable.contents()[k2]);
                }
            }
        }
        let size = self.state.memtable.approximate_size();
        self.try_freeze(size);
    }

    /// Writes one key/value pair.  An empty key or value is refused: the
    /// empty value is reserved internally as the tombstone marker.
    pub fn put(&mut self, key: &[u8], value: &[u8]) -> (r: Result<(), LsmError>)
        requires
            old(self).wf(),
        ensures
            final(self).wf(),
            final(self).options == old(self).options,
            match r {
                Ok(_) => key@.len() > 0 && value@.len() > 0 && state_lookup(
                    final(self).state,
                    key@,
                ) == Some(value@) && (forall|k2: Seq<u8>|
                    k2 != key@ ==> state_lookup(final(self).state, k2) == state_lookup(
                        old(self).state,
                        k2,
                    )) && (write_freezes(*old(self), key@.len(), value@.len()) ==> wrote_and_froze(
                    *old(self),
                    *final(self),
                    key@,
                    value@,
                )) && (!write_freezes(*old(self), key@.len(), value@.len()) ==> wrote_in_place(
                    *old(self),
                    *final(self),
                    key@,
                    value@,
                )),
                Err(e) => (key@.len() == 0 || value@.len() == 0) && e == LsmError::InvalidArgument
                    && *final(self) == *old(self),
            },
    {
        if key.is_empty() || value.is_empty() {
            return Err(LsmError::InvalidArgument);
        }
        self.apply_write(key, value);
        Ok(())
    }

    /// Deletes a key: writes the tombstone, so every read from now on sees
    /// the key as absent, whatever older layers still hold.
    pub fn delete(&mut self, key: &[u8]) -> (r: Result<(), LsmError>)
        requires
            old(self).wf(),
        ensures
            final(self).wf(),
            final(self).options == old(self).options,
            match r {
                Ok(_) => key@.len() > 0 && state_lookup(final(self).state, key@) == Some(
                    Seq::<u8>::empty(),
                ) && user_view(state_lookup(final(self).state, key@)) is None && (forall|
                    k2: Seq<u8>,
                |
                    k2 != key@ ==> state_lookup(final(self).state, k2) == state_lookup(
                        old(self).state,
                        k2,
                    )) && (write_freezes(*old(self), key@.len(), 0) ==> wrote_and_froze(
                    *old(self),
                    *final(self),
                    key@,
                    Seq::<u8>::empty(),
                )) && (!write_freezes(*old(self), key@.len(), 0) ==> wrote_in_place(
                    *old(self),
                    *final(self),
                    key@,
                    Seq::<u8>::empty(),
                )),
                Err(e) => key@.len() == 0 && e == LsmError::InvalidArgument && *final(self)
                    == *old(self),
            },
    {
        if key.is_empty() {
            return Err(LsmError::InvalidArgument);
        }
        let tombstone: Vec<u8> = Vec::new();
        self.apply_write(key, tombstone.as_slice());
        Ok(())
    }

    /// Applies a batch of writes in order; each record is subject to the same
    /// freeze check an individual write gets.  A batch holding an empty key,
    /// or an empty value on a put, is refused whole: nothing is applied.  The
    /// batch is not atomic with respect to a crash: only the per-record
    /// ordering is promised.
    pub fn write_batch(&mut self, batch: &Vec<WriteBatchRecord>) -> (r: Result<(), LsmError>)
        requires
            old(self).wf(),
        ensures
            final(self).wf(),
            final(self).options == old(self).options,
            match r {
                Ok(_) => batch_valid(batch@) && batch_applied(*old(self), *final(self), batch@)
                    && (forall|k: Seq<u8>|
                    state_lookup(final(self).state, k) == match batch_effect(batch@, k) {
                        Some(v) => Some(v),
                        None => state_lookup(old(self).state, k),
                    }),
                Err(e) => !batch_valid(batch@) && e == LsmError::InvalidArgument && *final(self)
                    == *old(self),
            },
    {
        let mut idx: usize = 0;
        while idx < batch.len()
            invariant
                0 <= idx <= batch@.len(),
                *self == *old(self),
                old(self).wf(),
                forall|j: int| 0 <= j < idx ==> record_valid(#[trigger] batch@[j]),
            decreases batch@.len() - idx,
        {
            let ok = match &batch[idx] {
                WriteBatchRecord::Put(k, val) => k.len() > 0 && val.len() > 0,
                WriteBatchRecord::Del(k) => k.len() > 0,
            };
            if !ok {
                proof {
                    assert(!record_valid(batch@[idx as int]));
                }
                return Err(LsmError::InvalidArgument);
            }
            idx += 1;
        }
        let mut i: usize = 0;
        proof {
            assert(batch@.take(0) =~= Seq::<WriteBatchRecord>::empty());
            let chain0 = seq![*old(self)];
            assert(chain0[0] == *old(self));
            assert(chain_applies(*old(self), *self, batch@.take(0), chain0));
            assert(batch_applied(*old(self), *self, batch@.take(0)));
        }
        while i < batch.len()
            invariant
                0 <= i <= batch@.len(),
                self.wf(),
                self.options == old(self).options,
                batch_valid(batch@),
                batch_applied(*old(self), *self, batch@.take(i as int)),
                forall|k: Seq<u8>|
                    state_lookup(self.state, k) == match batch_effect(batch@.take(i as int), k) {
                        Some(v) => Some(v),
                        None => state_lookup(old(self).state, k),
                    },
            decreases batch@.len() - i,
        {
            let ghost mid_engine = *self;
            match &batch[i] {
                WriteBatchRecord::Put(k, v) => {
                    self.apply_write(k.as_slice(), v.as_slice());
                },
                WriteBatchRecord::Del(k) => {
                    let tombstone: Vec<u8> = Vec::new();
                    self.apply_write(k.as_slice(), tombstone.as_slice());
                },
            }
            proof {
                assert(batch@.take(i + 1).drop_last() =~= batch@.take(i as int));
                assert(batch@.take(i + 1).last() == batch@[i as int]);
                assert(record_applied(mid_engine, *self, batch@[i as int]));
                let prev_chain = choose|c: Seq<LsmStorageInner>|
                    #[trigger] chain_applies(*old(self), mid_engine, batch@.take(i as int), c);
                let next_chain = prev_chain.push(*self);
                assert forall|j: int|
                    0 <= j < batch@.take(i + 1).len() implies record_applied(
                    #[trigger] next_chain[j],
                    next_chain[j + 1],
                    batch@.take(i + 1)[j],
                ) by {
                    if j < i {
                        assert(next_chain[j] == prev_chain[j]);
                        assert(next_chain[j + 1] == prev_chain[j + 1]);
                        assert(batch@.take(i + 1)[j] == batch@.take(i as int)[j]);
                        assert(record_applied(prev_chain[j], prev_chain[j + 1], batch@.take(
                            i as int,
                        )[j]));
                    } else {
                        assert(next_chain[j] == prev_chain[i as int]);
                        assert(prev_chain[i as int] == mid_engine);
                        assert(next_chain[j + 1] == *self);
                        assert(batch@.take(i + 1)[j] == batch@[i as int]);
                    }
                }
                assert(chain_applies(*old(self), *self, batch@.take(i + 1), next_chain));
                assert(batch_applied(*old(self), *self, batch@.take(i + 1)));
            }
            i += 1;
        }
        proof {
            assert(batch@.take(batch@.len() as int) =~= batch@);
        }
        Ok(())
    }

    /// Drains the oldest frozen memtable into a new L0 file: the file gets a
    /// fresh id, lands at the front of the L0 list, and the memtable leaves
    /// the frozen list.  Every read sees exactly what it saw before.  Nothing
    /// happens (and `false` comes back) when no frozen memtable is waiting or
    /// the id space is spent.
    pub fn force_flush_next_imm_memtable(&mut self) -> (flushed: bool)
        requires
            old(self).wf(),
        ensures
            final(self).wf(),
            final(self).options == old(self).options,
            flushed == (old(self).state.imm_memtable@.len() > 0 && old(self).next_sst_id
                < usize::MAX),
            forall|k: Seq<u8>|
                state_lookup(final(self).state, k) == state_lookup(old(self).state, k),
            flushed ==> {
                &&& final(self).state.imm_memtable@ == old(self).state.imm_memtable@.drop_last()
                &&& final(self).state.l0_sstable@ == old(self).state.l0_sstable@.insert(
                    0,
                    old(self).next_sst_id,
                )
                &&& final(self).state.sstables@.contains_key(old(self).next_sst_id)
                &&& final(self).state.sstables@[old(self).next_sst_id].as_map() == old(
                    self,
                ).state.imm_memtable@.last().contents()
                &&& final(self).state.levels == old(self).state.levels
                &&& final(self).state.memtable == old(self).state.memtable
                &&& final(self).next_sst_id == old(self).next_sst_id + 1
            },
            !flushed ==> *final(self) == *old(self),
    {
        if self.state.imm_memtable.is_empty() {
            return false;
        }
        if self.next_sst_id == usize::MAX {
            return false;
        }
        let oldest = match self.state.imm_memtable.pop() {
            Some(mt) => mt,
            None => {
                proof {
                    assert(false);
                }
                return false;
            },
        };
        let listing = oldest.entries();
        proof {
            let pv = pairs_view(listing@);
            assert forall|i: int| 0 <= i < pv.len() implies oldest.contents().contains_pair(
                #[trigger] pv[i].0,
                pv[i].1,
            ) by {
                assert(pv[i] == (listing@[i].0@, listing@[i].1@));
            }
            assert forall|i: int, j: int| 0 <= i < j < pv.len() implies crate::keys::lex_lt(
                #[trigger] pv[i].0,
                #[trigger] pv[j].0,
            ) by {
                assert(pv[i] == (listing@[i].0@, listing@[i].1@));
                assert(pv[j] == (listing@[j].0@, listing@[j].1@));
            }
            assert forall|k: Seq<u8>|
                #[trigger] crate::sstable::contains_key_of(oldest.contents(), k) implies exists|
                i: int,
            |
                0 <= i < pv.len() && pv[i].0 == k by {
                assert(oldest.contents().contains_key(k));
                let i = choose|i: int| 0 <= i < listing@.len() && listing@[i].0@ == k;
                assert(pv[i] == (listing@[i].0@, listing@[i].1@));
                assert(pv[i].0 == k);
            }
            lemma_listing_exact(oldest.contents(), pairs_view(listing@));
        }
        let table = SsTable::build(listing);
        let id = self.next_sst_id;
        self.next_sst_id = self.next_sst_id + 1;
        self.state.l0_sstable.insert(0, id);
        self.state.sstables.insert(id, table);
        proof {
            let pre = old(self).state;
            let post = self.state;
            let imm_kept = pre.imm_memtable@.drop_last();
            assert(pre.imm_memtable@ =~= imm_kept.push(oldest));
            assert(post.imm_memtable@ == imm_kept);
            assert(post.l0_sstable@[0] == id);
            assert(post.l0_sstable@.skip(1) =~= pre.l0_sstable@);
            assert(post.sstables@ == pre.sstables@.insert(id, table));
            assert forall|k: Seq<u8>| state_lookup(post, k) == state_lookup(pre, k) by {
                lemma_mem_lookup_push(imm_kept, oldest, k);
                assert forall|i: int|
                    0 <= i < pre.l0_sstable@.len() implies (#[trigger] pre.l0_sstable@[i])
                    != id by {}
                lemma_files_lookup_fresh(pre.l0_sstable@, pre.sstables@, id, table, k);
                assert forall|lvl: int, j: int|
                    0 <= lvl < pre.levels@.len() && 0 <= j < pre.levels@[lvl].1@.len() implies (
                #[trigger] pre.levels@[lvl].1@[j]) != id by {}
                lemma_levels_lookup_fresh(pre.levels@, pre.sstables@, id, table, k);
                if !pre.memtable.contents().contains_key(k) {
                    match mem_lookup(imm_kept, k) {
                        Some(_) => {},
                        None => {
                            if oldest.contents().contains_key(k) {
                                // The flushed table is the first file consulted
                                // and holds exactly the old memtable's binding.
                                assert(table.as_map().contains_key(k));
                                assert(files_lookup(post.l0_sstable@, post.sstables@, k) == Some(
                                    oldest.contents()[k],
                                ));
                            } else {
                                assert(!table.as_map().contains_key(k));
                                assert(files_lookup(post.l0_sstable@, post.sstables@, k)
                                    == files_lookup(pre.l0_sstable@, post.sstables@, k));
                            }
                        },
                    }
                }
            }
            assert forall|i: int|
                0 <= i < post.imm_memtable@.len() implies (#[trigger] post.imm_memtable@[i]).wf()
                && post.imm_memtable@[i].spec_id() < self.next_sst_id as int by {
                assert(post.imm_memtable@[i] == pre.imm_memtable@[i]);
            }
            assert forall|id2: usize| #[trigger] post.sstables@.contains_key(id2) implies post
                .sstables@[id2].wf() && id2 < self.next_sst_id as int by {
                if id2 != id {
                    assert(pre.sstables@.contains_key(id2));
                }
            }
            assert forall|i: int|
                0 <= i < post.l0_sstable@.len() implies (#[trigger] post.l0_sstable@[i])
                < self.next_sst_id as int by {
                if i > 0 {
                    assert(post.l0_sstable@[i] == pre.l0_sstable@[i - 1]);
                }
            }
        }
        true
    }

    /// Runs one round of compaction: asks the strategy for a task, merges
    /// the chosen files (the newest write of each key winning, tombstones
    /// dropped when the merge reaches the bottom), and installs the rewritten
    /// file lists with the output under a fresh id, the inputs gone from the
    /// loaded-file map.  Nothing happens when no trigger fires or the id
    /// space is spent.
    pub fn compact_once(&mut self) -> (r: bool)
        requires
            old(self).wf(),
        ensures
            final(self).wf(),
            final(self).options == old(self).options,
            final(self).state.memtable == old(self).state.memtable,
            final(self).state.imm_memtable == old(self).state.imm_memtable,
            r == (compaction_due(old(self).options.compaction_options, old(self).state)
                && old(self).next_sst_id < usize::MAX),
            r ==> final(self).next_sst_id == old(self).next_sst_id + 1,
            r ==> forall|id2: usize|
                #[trigger] final(self).state.sstables@.contains_key(id2) ==> id2 == old(
                    self,
                ).next_sst_id || old(self).state.sstables@.contains_key(id2),
            !r ==> *final(self) == *old(self),
            r ==> match old(self).options.compaction_options {
                CompactionOptions::Simple(o) => if spec_simple_l0_trigger(o, old(self).state) {
                    l0_run_compacted(*old(self), *final(self))
                } else {
                    exists|i: int| #[trigger] ratio_round(o, *old(self), *final(self), i)
                },
                CompactionOptions::Leveled(_) => l0_run_compacted(*old(self), *final(self)),
                CompactionOptions::Tiered(_) => tier_run_compacted(*old(self), *final(self)),
                CompactionOptions::NoCompaction => true,
            },
    {
        let task = match select_compaction(&self.options.compaction_options, &self.state) {
            Some(t) => t,
            None => {
                return false;
            },
        };
        if self.next_sst_id == usize::MAX {
            return false;
        }
        let ghost pre = *self;
        // Copy the input files, oldest first: the lower run, then the upper.
        let mut inputs: Vec<SsTable> = Vec::new();
        gather_run(&self.state.sstables, &task.lower_ids, &mut inputs);
        let ghost inputs_mid = inputs@;
        gather_run(&self.state.sstables, &task.upper_ids, &mut inputs);
        let ghost run_lower = run_tables(task.lower_ids@, pre.state.sstables@);
        let ghost run_upper = run_tables(task.upper_ids@, pre.state.sstables@);
        proof {
            assert forall|a: int|
                0 <= a < (run_lower + run_upper).len() implies (#[trigger] inputs@[a]).as_seq()
                == (run_lower + run_upper)[a].as_seq() by {
                assert(inputs_mid.len() == run_lower.len());
                if a < run_lower.len() {
                    assert(inputs@[a] == inputs_mid[a]);
                    assert(inputs_mid[a].as_seq() == run_lower[a].as_seq());
                    assert((run_lower + run_upper)[a] == run_lower[a]);
                } else {
                    assert(inputs@[a].as_seq() == run_upper[a - run_lower.len()].as_seq());
                    assert((run_lower + run_upper)[a] == run_upper[a - run_lower.len()]);
                }
            }
            lemma_tables_merged_congruent(inputs@, run_lower + run_upper);
        }
        let keep_tombstones = !task.is_bottom_level;
        let out = merge_tables(&inputs, keep_tombstones);
        proof {
            assert(out.as_map() == merge_result(
                tables_merged(run_lower + run_upper),
                task.is_bottom_level,
            ));
        }
        let out_id = self.next_sst_id;
        self.next_sst_id = self.next_sst_id + 1;
        proof {
            // The task a strategy hands out always fits the snapshot's levels.
            let ghost opts = self.options.compaction_options;
            match opts {
                CompactionOptions::Simple(o) => {
                    if !spec_simple_l0_trigger(o, pre.state) {
                        let i = choose|i: int|
                            #[trigger] spec_first_violation_task(o, pre.state, i, task);
                        assert(task.lower_level == i + 1);
                    }
                },
                _ => {},
            }
            assert(task.lower_level as int <= self.state.levels@.len());
        }
        // The inputs leave the loaded-file map; the output file joins it.
        remove_run(&mut self.state.sstables, &task.lower_ids);
        let ghost tables_mid = self.state.sstables@;
        remove_run(&mut self.state.sstables, &task.upper_ids);
        let ghost tables_removed = self.state.sstables@;
        apply_compaction(&mut self.state, &task, out_id);
        self.state.sstables.insert(out_id, out);
        proof {
            let post = self.state;
            let b = self.next_sst_id as int;
            let pre_l0 = pre.state.l0_sstable@;
            // What the loaded-file map holds after the round.
            assert forall|id2: usize| #[trigger] post.sstables@.contains_key(id2) implies id2
                == out_id || (pre.state.sstables@.contains_key(id2) && post.sstables@[id2]
                == pre.state.sstables@[id2] && !task.lower_ids@.contains(id2)
                && !task.upper_ids@.contains(id2)) by {
                if id2 != out_id {
                    assert(tables_removed.contains_key(id2));
                    assert(tables_mid.contains_key(id2));
                }
            }
            assert(post.sstables@[out_id] == out);
            assert forall|id2: usize| #[trigger] post.sstables@.contains_key(id2) implies post
                .sstables@[id2].wf() && id2 < b by {
                if id2 != out_id {
                    assert(pre.state.sstables@.contains_key(id2));
                }
            }
            assert forall|i: int|
                0 <= i < post.l0_sstable@.len() implies (#[trigger] post.l0_sstable@[i]) < b by {
                let x = post.l0_sstable@[i];
                match task.upper_level {
                    Some(_) => {
                        assert(pre_l0[i] == x);
                    },
                    None => {
                        let kept = remove_ids(pre_l0, task.upper_ids@);
                        if task.lower_level == 0 {
                            if i == 0 {
                                assert(x == out_id);
                            } else {
                                assert(kept[i - 1] == x);
                                assert(kept.contains(x));
                                lemma_remove_ids_element(pre_l0, task.upper_ids@, x);
                                let jj = choose|jj: int| 0 <= jj < pre_l0.len() && pre_l0[jj] == x;
                                assert(pre_l0[jj] < b);
                            }
                        } else {
                            assert(kept[i] == x);
                            assert(kept.contains(x));
                            lemma_remove_ids_element(pre_l0, task.upper_ids@, x);
                            let jj = choose|jj: int| 0 <= jj < pre_l0.len() && pre_l0[jj] == x;
                            assert(pre_l0[jj] < b);
                        }
                    },
                }
            }
            assert forall|lvl: int, jj: int|
                0 <= lvl < post.levels@.len() && 0 <= jj < post.levels@[lvl].1@.len() implies (
            #[trigger] post.levels@[lvl].1@[jj]) < b by {
                let x = post.levels@[lvl].1@[jj];
                let pre_list = pre.state.levels@[lvl].1@;
                let lower_hit = task.lower_level >= 1 && lvl == task.lower_level - 1;
                let upper_hit = match task.upper_level {
                    Some(u) => lvl == u - 1,
                    None => false,
                };
                if lower_hit {
                    if jj == 0 {
                        assert(x == out_id);
                    } else {
                        let kept = remove_ids(pre_list, task.lower_ids@);
                        assert(kept[jj - 1] == x);
                        assert(kept.contains(x));
                        lemma_remove_ids_element(pre_list, task.lower_ids@, x);
                        let kk = choose|kk: int| 0 <= kk < pre_list.len() && pre_list[kk] == x;
                        assert(pre_list[kk] < b);
                    }
                } else if upper_hit {
                    let kept = remove_ids(pre_list, task.upper_ids@);
                    assert(kept[jj] == x);
                    assert(kept.contains(x));
                    lemma_remove_ids_element(pre_list, task.upper_ids@, x);
                    let kk = choose|kk: int| 0 <= kk < pre_list.len() && pre_list[kk] == x;
                    assert(pre_list[kk] < b);
                } else {
                    assert(post.levels@[lvl] == pre.state.levels@[lvl]);
                    assert(pre_list[jj] == x);
                }
            }
            // Per strategy: the task's shape gives the round's shape.
            let ghost opts2 = pre.options.compaction_options;
            match opts2 {
                CompactionOptions::Simple(o) => {
                    if spec_simple_l0_trigger(o, pre.state) {
                        lemma_whole_l0_round(pre, *self, task, out, out_id, tables_mid,
                            tables_removed);
                    } else {
                        let i = choose|i: int|
                            #[trigger] spec_first_violation_task(o, pre.state, i, task);
                        lemma_ratio_level_round(pre, *self, task, out, out_id, tables_mid,
                            tables_removed, i);
                        assert(ratio_round(o, pre, *self, i));
                        assert(exists|ii: int| #[trigger] ratio_round(o, pre, *self, ii));
                    }
                },
                CompactionOptions::Leveled(_) => {
                    lemma_whole_l0_round(pre, *self, task, out, out_id, tables_mid,
                        tables_removed);
                },
                CompactionOptions::Tiered(_) => {
                    lemma_whole_tier_round(pre, *self, task, out, out_id, tables_mid,
                        tables_removed);
                },
                CompactionOptions::NoCompaction => {},
            }
        }
        true
    }

}

/// The whole-of-L0 task, carried out: the lists drained and the merge of the
/// first level's run under the L0 run standing alone in the first level.
proof fn lemma_whole_l0_round(
    pre: LsmStorageInner,
    post: LsmStorageInner,
    task: CompactionTask,
    out: SsTable,
    out_id: usize,
    tables_mid: Map<usize, SsTable>,
    tables_removed: Map<usize, SsTable>,
)
    requires
        pre.wf(),
        out_id == pre.next_sst_id,
        pre.state.levels@.len() >= 1,
        spec_l0_task(pre.state, task),
        out.as_map() == merge_result(
            tables_merged(
                run_tables(task.lower_ids@, pre.state.sstables@) + run_tables(
                    task.upper_ids@,
                    pre.state.sstables@,
                ),
            ),
            task.is_bottom_level,
        ),
        forall|id2: usize|
            #[trigger] tables_mid.contains_key(id2) ==> pre.state.sstables@.contains_key(id2)
                && !task.lower_ids@.contains(id2),
        forall|id2: usize|
            #[trigger] tables_removed.contains_key(id2) ==> tables_mid.contains_key(id2)
                && !task.upper_ids@.contains(id2),
        post.state.sstables@ == tables_removed.insert(out_id, out),
        post.state.l0_sstable@ == remove_ids(pre.state.l0_sstable@, task.upper_ids@),
        post.state.levels@.len() == pre.state.levels@.len(),
        post.state.levels@[0].1@ == seq![out_id] + remove_ids(
            pre.state.levels@[0].1@,
            task.lower_ids@,
        ),
    ensures
        l0_run_compacted(pre, post),
{
    let pre_l0 = pre.state.l0_sstable@;
    let lower_list = pre.state.levels@[0].1@;
    assert forall|i: int| 0 <= i < pre_l0.len() implies task.upper_ids@.contains(
        #[trigger] pre_l0[i],
    ) by {
        assert(task.upper_ids@[i] == pre_l0[i]);
    }
    lemma_remove_ids_superset(pre_l0, task.upper_ids@);
    assert forall|i: int| 0 <= i < lower_list.len() implies task.lower_ids@.contains(
        #[trigger] lower_list[i],
    ) by {
        assert(task.lower_ids@[i] == lower_list[i]);
    }
    lemma_remove_ids_superset(lower_list, task.lower_ids@);
    assert(seq![out_id] + Seq::<usize>::empty() =~= seq![out_id]);
    assert forall|i: int| 0 <= i < pre_l0.len() implies !post.state.sstables@.contains_key(
        #[trigger] pre_l0[i],
    ) by {
        let x = pre_l0[i];
        assert(task.upper_ids@.contains(x));
        assert(x < pre.next_sst_id);
        if post.state.sstables@.contains_key(x) {
            assert(tables_removed.contains_key(x));
        }
    }
    assert forall|i: int| 0 <= i < lower_list.len() implies !post.state.sstables@.contains_key(
        #[trigger] lower_list[i],
    ) by {
        let x = lower_list[i];
        assert(task.lower_ids@.contains(x));
        assert(x < pre.next_sst_id);
        if post.state.sstables@.contains_key(x) {
            assert(tables_removed.contains_key(x));
            assert(tables_mid.contains_key(x));
        }
    }
    assert(post.state.sstables@[out_id] == out);
}

/// The whole-tier task, carried out: every L0 file merged into one, standing
/// alone in L0, the levels untouched.
proof fn lemma_whole_tier_round(
    pre: LsmStorageInner,
    post: LsmStorageInner,
    task: CompactionTask,
    out: SsTable,
    out_id: usize,
    tables_mid: Map<usize, SsTable>,
    tables_removed: Map<usize, SsTable>,
)
    requires
        pre.wf(),
        out_id == pre.next_sst_id,
        spec_tier_task(pre.state, task),
        out.as_map() == merge_result(
            tables_merged(
                run_tables(task.lower_ids@, pre.state.sstables@) + run_tables(
                    task.upper_ids@,
                    pre.state.sstables@,
                ),
            ),
            task.is_bottom_level,
        ),
        forall|id2: usize|
            #[trigger] tables_mid.contains_key(id2) ==> pre.state.sstables@.contains_key(id2)
                && !task.lower_ids@.contains(id2),
        forall|id2: usize|
            #[trigger] tables_removed.contains_key(id2) ==> tables_mid.contains_key(id2)
                && !task.upper_ids@.contains(id2),
        post.state.sstables@ == tables_removed.insert(out_id, out),
        post.state.l0_sstable@ == seq![out_id] + remove_ids(
            pre.state.l0_sstable@,
            task.upper_ids@,
        ),
        post.state.levels@.len() == pre.state.levels@.len(),
        forall|lvl: int|
            0 <= lvl < pre.state.levels@.len() ==> post.state.levels@[lvl]
                == pre.state.levels@[lvl],
    ensures
        tier_run_compacted(pre, post),
{
    let pre_l0 = pre.state.l0_sstable@;
    assert forall|i: int| 0 <= i < pre_l0.len() implies task.upper_ids@.contains(
        #[trigger] pre_l0[i],
    ) by {
        assert(task.upper_ids@[i] == pre_l0[i]);
    }
    lemma_remove_ids_superset(pre_l0, task.upper_ids@);
    assert(seq![out_id] + Seq::<usize>::empty() =~= seq![out_id]);
    assert(run_tables(task.lower_ids@, pre.state.sstables@) =~= Seq::<SsTable>::empty());
    assert(run_tables(task.lower_ids@, pre.state.sstables@) + run_tables(
        task.upper_ids@,
        pre.state.sstables@,
    ) =~= run_tables(task.upper_ids@, pre.state.sstables@));
    assert(post.state.levels@ =~= pre.state.levels@);
    assert forall|i: int| 0 <= i < pre_l0.len() implies !post.state.sstables@.contains_key(
        #[trigger] pre_l0[i],
    ) by {
        let x = pre_l0[i];
        assert(task.upper_ids@.contains(x));
        assert(x < pre.next_sst_id);
        if post.state.sstables@.contains_key(x) {
            assert(tables_removed.contains_key(x));
        }
    }
    assert(post.state.sstables@[out_id] == out);
}

/// The ratio task at level `i`, carried out: level `i` emptied, the merge of
/// level `i+1`'s run under level `i`'s standing alone in level `i+1`.
proof fn lemma_ratio_level_round(
    pre: LsmStorageInner,
    post: LsmStorageInner,
    task: CompactionTask,
    out: SsTable,
    out_id: usize,
    tables_mid: Map<usize, SsTable>,
    tables_removed: Map<usize, SsTable>,
    i: int,
)
    requires
        pre.wf(),
        out_id == pre.next_sst_id,
        1 <= i && i < pre.state.levels@.len(),
        spec_level_task(pre.state, i, task),
        out.as_map() == merge_result(
            tables_merged(
                run_tables(task.lower_ids@, pre.state.sstables@) + run_tables(
                    task.upper_ids@,
                    pre.state.sstables@,
                ),
            ),
            task.is_bottom_level,
        ),
        forall|id2: usize|
            #[trigger] tables_mid.contains_key(id2) ==> pre.state.sstables@.contains_key(id2)
                && !task.lower_ids@.contains(id2),
        forall|id2: usize|
            #[trigger] tables_removed.contains_key(id2) ==> tables_mid.contains_key(id2)
                && !task.upper_ids@.contains(id2),
        post.state.sstables@ == tables_removed.insert(out_id, out),
        post.state.l0_sstable == pre.state.l0_sstable,
        post.state.levels@.len() == pre.state.levels@.len(),
        post.state.levels@[i - 1].1@ == remove_ids(pre.state.levels@[i - 1].1@, task.upper_ids@),
        post.state.levels@[i].1@ == seq![out_id] + remove_ids(
            pre.state.levels@[i].1@,
            task.lower_ids@,
        ),
        forall|lvl: int|
            0 <= lvl < pre.state.levels@.len() && lvl != i - 1 && lvl != i
                ==> post.state.levels@[lvl] == pre.state.levels@[lvl],
    ensures
        ratio_run_compacted(pre, post, i),
{
    let upper_list = pre.state.levels@[i - 1].1@;
    let lower_list = pre.state.levels@[i].1@;
    assert forall|j: int| 0 <= j < upper_list.len() implies task.upper_ids@.contains(
        #[trigger] upper_list[j],
    ) by {
        assert(task.upper_ids@[j] == upper_list[j]);
    }
    lemma_remove_ids_superset(upper_list, task.upper_ids@);
    assert forall|j: int| 0 <= j < lower_list.len() implies task.lower_ids@.contains(
        #[trigger] lower_list[j],
    ) by {
        assert(task.lower_ids@[j] == lower_list[j]);
    }
    lemma_remove_ids_superset(lower_list, task.lower_ids@);
    assert(seq![out_id] + Seq::<usize>::empty() =~= seq![out_id]);
    assert forall|j: int| 0 <= j < upper_list.len() implies !post.state.sstables@.contains_key(
        #[trigger] upper_list[j],
    ) by {
        let x = upper_list[j];
        assert(task.upper_ids@.contains(x));
        assert(x < pre.next_sst_id);
        if post.state.sstables@.contains_key(x) {
            assert(tables_removed.contains_key(x));
        }
    }
    assert forall|j: int| 0 <= j < lower_list.len() implies !post.state.sstables@.contains_key(
        #[trigger] lower_list[j],
    ) by {
        let x = lower_list[j];
        assert(task.lower_ids@.contains(x));
        assert(x < pre.next_sst_id);
        if post.state.sstables@.contains_key(x) {
            assert(tables_removed.contains_key(x));
            assert(tables_mid.contains_key(x));
        }
    }
    assert(post.state.sstables@[out_id] == out);
}

/// Copies the files a run names out of the loaded-file map, oldest first,
/// appending them to `into`.
fn gather_run(tables: &HashMap<usize, SsTable>, ids: &Vec<usize>, into: &mut Vec<SsTable>)
    ensures
        final(into)@.len() == old(into)@.len() + run_tables(ids@, tables@).len(),
        forall|a: int| 0 <= a < old(into)@.len() ==> (#[trigger] final(into)@[a]) == old(into)@[a],
        forall|a: int|
            old(into)@.len() <= a < final(into)@.len() ==> (#[trigger] final(into)@[a]).as_seq()
                == run_tables(ids@, tables@)[a - old(into)@.len()].as_seq(),
{
    let ghost base = into@.len() as int;
    let mut j: usize = ids.len();
    proof {
        assert(ids@.skip(ids@.len() as int) =~= Seq::<usize>::empty());
    }
    while j > 0
        invariant
            0 <= j <= ids@.len(),
            base == old(into)@.len(),
            into@.len() == base + run_tables(ids@.skip(j as int), tables@).len(),
            forall|a: int| 0 <= a < base ==> (#[trigger] into@[a]) == old(into)@[a],
            forall|a: int|
                base <= a < into@.len() ==> (#[trigger] into@[a]).as_seq() == run_tables(
                    ids@.skip(j as int),
                    tables@,
                )[a - base].as_seq(),
        decreases j,
    {
        j = j - 1;
        let ghost prev = ids@.skip(j as int + 1);
        let ghost cur = ids@.skip(j as int);
        proof {
            assert(cur[0] == ids@[j as int]);
            assert(cur.skip(1) =~= prev);
        }
        let id = ids[j];
        match tables.get(&id) {
            Some(t) => {
                let ghost into_before = into@;
                let copy = t.duplicate();
                into.push(copy);
                proof {
                    assert(run_tables(cur, tables@) == run_tables(prev, tables@).push(
                        tables@[id],
                    ));
                    assert forall|a: int|
                        base <= a < into@.len() implies (#[trigger] into@[a]).as_seq()
                        == run_tables(cur, tables@)[a - base].as_seq() by {
                        if a < into_before.len() {
                            assert(into@[a] == into_before[a]);
                        } else {
                            assert(into@[a] == copy);
                            assert(run_tables(cur, tables@)[a - base] == tables@[id]);
                        }
                    }
                }
            },
            None => {
                proof {
                    assert(run_tables(cur, tables@) == run_tables(prev, tables@));
                }
            },
        }
    }
    proof {
        assert(ids@.skip(0) =~= ids@);
    }
}

/// Strikes the files a run names out of the loaded-file map.
fn remove_run(tables: &mut HashMap<usize, SsTable>, ids: &Vec<usize>)
    ensures
        forall|id2: usize|
            #[trigger] final(tables)@.contains_key(id2) ==> old(tables)@.contains_key(id2)
                && !ids@.contains(id2) && final(tables)@[id2] == old(tables)@[id2],
        forall|id2: usize|
            old(tables)@.contains_key(id2) && !ids@.contains(id2)
                ==> #[trigger] final(tables)@.contains_key(id2),
{
    let mut i: usize = 0;
    proof {
        assert(ids@.take(0) =~= Seq::<usize>::empty());
    }
    while i < ids.len()
        invariant
            0 <= i <= ids@.len(),
            forall|id2: usize|
                #[trigger] tables@.contains_key(id2) ==> old(tables)@.contains_key(id2) && !ids@
                    .take(i as int).contains(id2) && tables@[id2] == old(tables)@[id2],
            forall|id2: usize|
                old(tables)@.contains_key(id2) && !ids@.take(i as int).contains(id2)
                    ==> #[trigger] tables@.contains_key(id2),
        decreases ids@.len() - i,
    {
        let id = ids[i];
        tables.remove(&id);
        proof {
            let taken0 = ids@.take(i as int);
            let taken1 = ids@.take(i + 1);
            assert forall|id2: usize| #[trigger] taken1.contains(id2) implies taken0.contains(id2)
                || id2 == ids@[i as int] by {
                let jx = choose|jx: int| 0 <= jx < taken1.len() && taken1[jx] == id2;
                if jx < i {
                    assert(taken0[jx] == id2);
                }
            }
            assert forall|id2: usize|
                taken0.contains(id2) || id2 == ids@[i as int] implies #[trigger] taken1.contains(
                id2,
            ) by {
                if id2 == ids@[i as int] {
                    assert(taken1[i as int] == id2);
                } else {
                    let jx = choose|jx: int| 0 <= jx < taken0.len() && taken0[jx] == id2;
                    assert(taken1[jx] == id2);
                }
            }
        }
        i += 1;
    }
    proof {
        assert(ids@.take(ids@.len() as int) =~= ids@);
    }
}

/// The first hit among the files of one id list, newest first.
fn files_get(ids: &Vec<usize>, tables: &HashMap<usize, SsTable>, key: &[u8]) -> (r: Option<Vec<u8>>)
    requires
        forall|id: usize| #[trigger] tables@.contains_key(id) ==> tables@[id].wf(),
    ensures
        opt_view(r) == files_lookup(ids@, tables@, key@),
{
    let mut i: usize = 0;
    proof {
        assert(ids@.skip(0) =~= ids@);
    }
    while i < ids.len()
        invariant
            0 <= i <= ids@.len(),
            forall|id: usize| #[trigger] tables@.contains_key(id) ==> tables@[id].wf(),
            files_lookup(ids@, tables@, key@) == files_lookup(ids@.skip(i as int), tables@, key@),
        decreases ids@.len() - i,
    {
        let id = ids[i];
        proof {
            assert(ids@.skip(i as int)[0] == ids@[i as int]);
            assert(ids@.skip(i as int).skip(1) =~= ids@.skip(i + 1));
        }
        match tables.get(&id) {
            Some(t) => {
                match t.get(key) {
                    Some(v) => {
                        return Some(v);
                    },
                    None => {},
                }
            },
            None => {},
        }
        i += 1;
    }
    proof {
        assert(ids@.skip(ids@.len() as int) =~= Seq::<usize>::empty());
    }
    None
}

/// The first hit walking the levels from the top down.
fn levels_get(
    levels: &Vec<(usize, Vec<usize>)>,
    tables: &HashMap<usize, SsTable>,
    key: &[u8],
) -> (r: Option<Vec<u8>>)
    requires
        forall|id: usize| #[trigger] tables@.contains_key(id) ==> tables@[id].wf(),
    ensures
        opt_view(r) == levels_lookup(levels@, tables@, key@),
{
    let mut i: usize = 0;
    proof {
        assert(levels@.skip(0) =~= levels@);
    }
    while i < levels.len()
        invariant
            0 <= i <= levels@.len(),
            forall|id: usize| #[trigger] tables@.contains_key(id) ==> tables@[id].wf(),
            levels_lookup(levels@, tables@, key@) == levels_lookup(
                levels@.skip(i as int),
                tables@,
                key@,
            ),
        decreases levels@.len() - i,
    {
        let found = files_get(&levels[i].1, tables, key);
        proof {
            assert(levels@.skip(i as int)[0] == levels@[i as int]);
            assert(levels@.skip(i as int).skip(1) =~= levels@.skip(i + 1));
        }
        match found {
            Some(v) => {
                return Some(v);
            },
            None => {},
        }
        i += 1;
    }
    proof {
        assert(levels@.skip(levels@.len() as int) =~= Seq::<(usize, Vec<usize>)>::empty());
    }
    None
}

} // verus!
