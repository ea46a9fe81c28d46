use vstd::prelude::*;
use vstd::slice::slice_to_vec;

use crate::byte_map::{byte_map_contents, ByteMap};
use crate::keys::{bytes_eq, lemma_lex_irrefl, lex_lt};
use crate::wal::{entries_map, pairs_view};

verus! {

/// Entries stand in strictly ascending key order.
pub open spec fn sorted_strict(es: Seq<(Seq<u8>, Seq<u8>)>) -> bool {
    forall|i: int, j: int|
        0 <= i < j < es.len() ==> lex_lt(#[trigger] es[i].0, #[trigger] es[j].0)
}

/// No two entries share a key.
pub open spec fn distinct_keys(es: Seq<(Seq<u8>, Seq<u8>)>) -> bool {
    forall|i: int, j: int| 0 <= i < j < es.len() ==> (#[trigger] es[i].0) != (#[trigger] es[j].0)
}

pub proof fn lemma_sorted_distinct(es: Seq<(Seq<u8>, Seq<u8>)>)
    requires
        sorted_strict(es),
    ensures
        distinct_keys(es),
{
    assert forall|i: int, j: int| 0 <= i < j < es.len() implies (#[trigger] es[i].0) != (
    #[trigger] es[j].0) by {
        if es[i].0 == es[j].0 {
            lemma_lex_irrefl(es[i].0);
        }
    }
}

/// With no key repeated, the mapping a sequence of entries folds into is the
/// sequence read as a table: each entry is in the mapping, and nothing else.
pub proof fn lemma_distinct_entries_map(es: Seq<(Seq<u8>, Seq<u8>)>)
    requires
        distinct_keys(es),
    ensures
        forall|i: int|
            0 <= i < es.len() ==> entries_map(es).contains_key(#[trigger] es[i].0) && entries_map(
                es,
            )[es[i].0] == es[i].1,
        forall|k: Seq<u8>|
            #[trigger] entries_map(es).contains_key(k) ==> exists|i: int|
                0 <= i < es.len() && es[i].0 == k,
    decreases es.len(),
{
    if es.len() > 0 {
        let es0 = es.drop_last();
        let last = es.last();
        assert forall|i: int, j: int| 0 <= i < j < es0.len() implies (#[trigger] es0[i].0) != (
        #[trigger] es0[j].0) by {
            assert(es[i] == es0[i]);
            assert(es[j] == es0[j]);
        }
        lemma_distinct_entries_map(es0);
        assert forall|i: int|
            0 <= i < es.len() implies entries_map(es).contains_key(#[trigger] es[i].0)
            && entries_map(es)[es[i].0] == es[i].1 by {
            if i < es.len() - 1 {
                assert(es0[i] == es[i]);
                assert(es[i].0 != last.0);
            }
        }
        assert forall|k: Seq<u8>| #[trigger] entries_map(es).contains_key(k) implies exists|i: int|
            0 <= i < es.len() && es[i].0 == k by {
            if k == last.0 {
                assert(es[es.len() - 1].0 == k);
            } else {
                assert(entries_map(es0).contains_key(k));
                let i = choose|i: int| 0 <= i < es0.len() && es0[i].0 == k;
                assert(es[i].0 == k);
            }
        }
    }
}

/// A sorted, every-key-once listing of a mapping folds back into exactly that
/// mapping.
pub proof fn lemma_listing_exact(contents: Map<Seq<u8>, Seq<u8>>, pv: Seq<(Seq<u8>, Seq<u8>)>)
    requires
        forall|i: int| 0 <= i < pv.len() ==> contents.contains_pair(#[trigger] pv[i].0, pv[i].1),
        forall|k: Seq<u8>|
            #[trigger] contains_key_of(contents, k) ==> exists|i: int|
                0 <= i < pv.len() && pv[i].0 == k,
        sorted_strict(pv),
    ensures
        entries_map(pv) == contents,
        distinct_keys(pv),
{
    lemma_sorted_distinct(pv);
    lemma_distinct_entries_map(pv);
    assert forall|k: Seq<u8>| #[trigger] entries_map(pv).contains_key(k) implies contents
        .contains_key(k) && entries_map(pv)[k] == contents[k] by {
        let i = choose|i: int| 0 <= i < pv.len() && pv[i].0 == k;
        assert(contents.contains_pair(pv[i].0, pv[i].1));
    }
    assert forall|k: Seq<u8>| #[trigger] contents.contains_key(k) implies entries_map(
        pv,
    ).contains_key(k) by {
        assert(contains_key_of(contents, k));
        let i = choose|i: int| 0 <= i < pv.len() && pv[i].0 == k;
    }
    assert(entries_map(pv) =~= contents);
}

/// A named form of map membership, used to phrase quantified facts.
pub open spec fn contains_key_of(m: Map<Seq<u8>, Seq<u8>>, k: Seq<u8>) -> bool {
    m.contains_key(k)
}

/// An immutable sorted file: the entries of one table, in strictly ascending
/// key order.  Tombstones (empty values) are kept until a compaction into the
/// bottom level drops them.
pub struct SsTable {
    entries: Vec<(Vec<u8>, Vec<u8>)>,
}

impl SsTable {
    /// The entries, in file order.
    pub closed spec fn as_seq(self) -> Seq<(Seq<u8>, Seq<u8>)> {
        pairs_view(self.entries@)
    }

    /// The key-to-value mapping the file holds.
    pub open spec fn as_map(self) -> Map<Seq<u8>, Seq<u8>> {
        entries_map(self.as_seq())
    }

    pub open spec fn wf(self) -> bool {
        sorted_strict(self.as_seq())
    }

    /// Wraps a sorted listing as a file.
    pub fn build(entries: Vec<(Vec<u8>, Vec<u8>)>) -> (t: SsTable)
        requires
            sorted_strict(pairs_view(entries@)),
        ensures
            t.as_seq() == pairs_view(entries@),
            t.wf(),
    {
        SsTable { entries }
    }

    /// The number of entries.
    pub fn len(&self) -> (n: usize)
        ensures
            n == self.as_seq().len(),
    {
        self.entries.len()
    }

    /// The entries, for a caller that walks the file.
    pub fn entry_list(&self) -> (r: &Vec<(Vec<u8>, Vec<u8>)>)
        ensures
            pairs_view(r@) == self.as_seq(),
    {
        &self.entries
    }

    /// An owned copy of the file, entry for entry.
    pub fn duplicate(&self) -> (t: SsTable)
        ensures
            t.as_seq() == self.as_seq(),
    {
        let mut copied: Vec<(Vec<u8>, Vec<u8>)> = Vec::new();
        let mut i: usize = 0;
        while i < self.entries.len()
            invariant
                0 <= i <= self.entries@.len(),
                copied@.len() == i,
                forall|j: int|
                    0 <= j < i ==> (#[trigger] copied@[j]).0@ == self.entries@[j].0@
                        && copied@[j].1@ == self.entries@[j].1@,
            decreases self.entries@.len() - i,
        {
            let e = &self.entries[i];
            copied.push((slice_to_vec(e.0.as_slice()), slice_to_vec(e.1.as_slice())));
            i += 1;
        }
        let t = SsTable { entries: copied };
        proof {
            assert forall|j: int| 0 <= j < t.as_seq().len() implies #[trigger] t.as_seq()[j]
                == self.as_seq()[j] by {
                assert(t.as_seq()[j] == (t.entries@[j].0@, t.entries@[j].1@));
                assert(self.as_seq()[j] == (self.entries@[j].0@, self.entries@[j].1@));
            }
            assert(t.as_seq() =~= self.as_seq());
        }
        t
    }

    /// Looks a key up in the file; a tombstone comes back as the empty value.
    pub fn get(&self, key: &[u8]) -> (r: Option<Vec<u8>>)
        requires
            self.wf(),
        ensures
            match r {
                Some(v) => self.as_map().contains_key(key@) && v@ == self.as_map()[key@],
                None => !self.as_map().contains_key(key@),
            },
    {
        proof {
            lemma_sorted_distinct(self.as_seq());
            lemma_distinct_entries_map(self.as_seq());
        }
        let mut i: usize = 0;
        while i < self.entries.len()
            invariant
                0 <= i <= self.entries@.len(),
                forall|j: int| 0 <= j < i ==> (#[trigger] self.as_seq()[j].0) != key@,
                distinct_keys(self.as_seq()),
                forall|ii: int|
                    0 <= ii < self.as_seq().len() ==> self.as_map().contains_key(
                        #[trigger] self.as_seq()[ii].0,
                    ) && self.as_map()[self.as_seq()[ii].0] == self.as_seq()[ii].1,
                forall|k: Seq<u8>|
                    #[trigger] self.as_map().contains_key(k) ==> exists|ii: int|
                        0 <= ii < self.as_seq().len() && self.as_seq()[ii].0 == k,
            decreases self.entries@.len() - i,
        {
            let e = &self.entries[i];
            if bytes_eq(e.0.as_slice(), key) {
                proof {
                    assert(self.as_seq()[i as int] == (e.0@, e.1@));
                    assert(self.as_seq()[i as int].0 == e.0@);
                    assert(self.as_seq()[i as int].1 == e.1@);
                    assert(self.as_map().contains_key(e.0@));
                    assert(self.as_map()[e.0@] == e.1@);
                }
                return Some(slice_to_vec(e.1.as_slice()));
            }
            proof {
                assert(self.as_seq()[i as int] == (e.0@, e.1@));
                assert(self.as_seq()[i as int].0 == e.0@);
            }
            i += 1;
        }
        proof {
            if self.as_map().contains_key(key@) {
                let ii = choose|ii: int|
                    0 <= ii < self.as_seq().len() && self.as_seq()[ii].0 == key@;
                assert((self.as_seq()[ii].0) != key@);
            }
        }
        None
    }
}

// ---------------------------------------------------------------------------
// Merging sorted files: the execution step of a compaction.
// ---------------------------------------------------------------------------

/// The mapping that merging a run of tables yields, oldest table first: a
/// later (newer) table's entry for a key wins.
pub open spec fn tables_merged(ts: Seq<SsTable>) -> Map<Seq<u8>, Seq<u8>>
    decreases ts.len(),
{
    if ts.len() == 0 {
        Map::empty()
    } else {
        tables_merged(ts.drop_last()).union_prefer_right(ts.last().as_map())
    }
}

/// The same mapping with every tombstone removed: what remains once deletes
/// are compacted away at the bottom of the tree.
pub open spec fn drop_tombstones(m: Map<Seq<u8>, Seq<u8>>) -> Map<Seq<u8>, Seq<u8>> {
    Map::new(|k: Seq<u8>| m.contains_key(k) && m[k].len() > 0, |k: Seq<u8>| m[k])
}

/// The same mapping with tombstones dropped when the merge reaches the
/// bottom of the tree, kept otherwise.
pub open spec fn merge_result(m: Map<Seq<u8>, Seq<u8>>, bottom: bool) -> Map<Seq<u8>, Seq<u8>> {
    if bottom {
        drop_tombstones(m)
    } else {
        m
    }
}

/// The files one id list names, oldest first: what a compaction feeds the
/// merge, in merge order.  An id with no loaded file is passed over, as a
/// lookup passes over it.
pub open spec fn run_tables(ids: Seq<usize>, tables: Map<usize, SsTable>) -> Seq<SsTable>
    decreases ids.len(),
{
    if ids.len() == 0 {
        Seq::empty()
    } else {
        let older = run_tables(ids.skip(1), tables);
        if tables.contains_key(ids[0]) {
            older.push(tables[ids[0]])
        } else {
            older
        }
    }
}

/// Two runs merged one after the other: the later (newer) run's writes win
/// over the earlier run's.
pub proof fn lemma_tables_merged_append(a: Seq<SsTable>, b: Seq<SsTable>)
    ensures
        tables_merged(a + b) == tables_merged(a).union_prefer_right(tables_merged(b)),
    decreases b.len(),
{
    if b.len() == 0 {
        assert(a + b =~= a);
        assert(tables_merged(a).union_prefer_right(tables_merged(b)) =~= tables_merged(a));
    } else {
        lemma_tables_merged_append(a, b.drop_last());
        assert((a + b).drop_last() =~= a + b.drop_last());
        assert((a + b).last() == b.last());
        let am = tables_merged(a);
        let bm0 = tables_merged(b.drop_last());
        let lm = b.last().as_map();
        assert(am.union_prefer_right(bm0).union_prefer_right(lm) =~= am.union_prefer_right(
            bm0.union_prefer_right(lm),
        ));
    }
}

/// Two runs equal entry for entry merge to the same mapping.
pub proof fn lemma_tables_merged_congruent(a: Seq<SsTable>, b: Seq<SsTable>)
    requires
        a.len() == b.len(),
        forall|i: int| 0 <= i < a.len() ==> (#[trigger] a[i]).as_seq() == b[i].as_seq(),
    ensures
        tables_merged(a) == tables_merged(b),
    decreases a.len(),
{
    if a.len() > 0 {
        assert forall|i: int|
            0 <= i < a.drop_last().len() implies (#[trigger] a.drop_last()[i]).as_seq()
            == b.drop_last()[i].as_seq() by {
            assert(a.drop_last()[i] == a[i]);
            assert(b.drop_last()[i] == b[i]);
        }
        lemma_tables_merged_congruent(a.drop_last(), b.drop_last());
        assert(a[a.len() - 1].as_seq() == b[a.len() - 1].as_seq());
        assert(a.last().as_map() == b.last().as_map());
    }
}

/// Merges a run of tables, oldest first, into one sorted output file.  The
/// newest write of each key wins; when `keep_tombstones` is false (the merge
/// reaches the bottom level) deleted keys are dropped for good.
pub fn merge_tables(tables: &Vec<SsTable>, keep_tombstones: bool) -> (out: SsTable)
    ensures
        out.wf(),
        keep_tombstones ==> out.as_map() == tables_merged(tables@),
        !keep_tombstones ==> out.as_map() == drop_tombstones(tables_merged(tables@)),
{
    let mut acc = ByteMap::new();
    let mut t: usize = 0;
    proof {
        assert(tables@.take(0) =~= Seq::<SsTable>::empty());
    }
    while t < tables.len()
        invariant
            0 <= t <= tables@.len(),
            byte_map_contents(acc) == tables_merged(tables@.take(t as int)),
        decreases tables@.len() - t,
    {
        let table = &tables[t];
        let es = table.entry_list();
        let ghost pre_merge = byte_map_contents(acc);
        let mut j: usize = 0;
        proof {
            assert(pairs_view(es@).take(0) =~= Seq::<(Seq<u8>, Seq<u8>)>::empty());
            assert(pre_merge.union_prefer_right(entries_map(pairs_view(es@).take(0))) =~= pre_merge);
        }
        while j < es.len()
            invariant
                0 <= j <= es@.len(),
                pairs_view(es@) == table.as_seq(),
                byte_map_contents(acc) == pre_merge.union_prefer_right(
                    entries_map(pairs_view(es@).take(j as int)),
                ),
            decreases es@.len() - j,
        {
            let e = &es[j];
            acc.insert(e.0.as_slice(), e.1.as_slice());
            proof {
                let pv = pairs_view(es@);
                assert(pv[j as int] == (e.0@, e.1@));
                assert(pv.take(j + 1).drop_last() =~= pv.take(j as int));
                assert(pv.take(j + 1).last() == pv[j as int]);
                assert(pre_merge.union_prefer_right(entries_map(pv.take(j as int))).insert(
                    e.0@,
                    e.1@,
                ) =~= pre_merge.union_prefer_right(
                    entries_map(pv.take(j as int)).insert(e.0@, e.1@),
                ));
            }
            j += 1;
        }
        proof {
            let pv = pairs_view(es@);
            assert(pv.take(pv.len() as int) =~= pv);
            assert(tables@.take(t + 1).drop_last() =~= tables@.take(t as int));
            assert(tables@.take(t + 1).last() == tables@[t as int]);
        }
        t += 1;
    }
    proof {
        assert(tables@.take(tables@.len() as int) =~= tables@);
    }
    let merged = acc.entries();
    let ghost merged_map = byte_map_contents(acc);
    proof {
        let pv = pairs_view(merged@);
        assert forall|i: int| 0 <= i < pv.len() implies merged_map.contains_pair(
            #[trigger] pv[i].0,
            pv[i].1,
        ) by {
            assert(pv[i] == (merged@[i].0@, merged@[i].1@));
        }
        assert forall|i: int, j: int| 0 <= i < j < pv.len() implies lex_lt(
            #[trigger] pv[i].0,
            #[trigger] pv[j].0,
        ) by {
            assert(pv[i] == (merged@[i].0@, merged@[i].1@));
            assert(pv[j] == (merged@[j].0@, merged@[j].1@));
        }
        assert forall|k: Seq<u8>| #[trigger] contains_key_of(merged_map, k) implies exists|i: int|
            0 <= i < pv.len() && pv[i].0 == k by {
            let i = choose|i: int| 0 <= i < merged@.len() && merged@[i].0@ == k;
            assert(pv[i] == (merged@[i].0@, merged@[i].1@));
            assert(pv[i].0 == k);
        }
        lemma_listing_exact(merged_map, pairs_view(merged@));
    }
    if keep_tombstones {
        let out = SsTable::build(merged);
        return out;
    }
    // Drop tombstones: keep the entries whose value is non-empty.
    let mut kept: Vec<(Vec<u8>, Vec<u8>)> = Vec::new();
    let ghost pv = pairs_view(merged@);
    let ghost mut picked: Seq<int> = Seq::empty();
    let mut i: usize = 0;
    while i < merged.len()
        invariant
            0 <= i <= merged@.len(),
            pv == pairs_view(merged@),
            picked.len() == kept@.len(),
            forall|a: int|
                0 <= a < picked.len() ==> 0 <= #[trigger] picked[a] < i && pairs_view(kept@)[a]
                    == pv[picked[a]],
            forall|a: int, b: int| 0 <= a < b < picked.len() ==> picked[a] < picked[b],
            forall|a: int| 0 <= a < picked.len() ==> (#[trigger] pv[picked[a]].1.len()) > 0,
            forall|jj: int|
                0 <= jj < i && (#[trigger] pv[jj].1.len()) > 0 ==> exists|a: int|
                    0 <= a < picked.len() && picked[a] == jj,
        decreases merged@.len() - i,
    {
        let e = &merged[i];
        proof {
            assert(pv[i as int] == (e.0@, e.1@));
        }
        if e.1.len() > 0 {
            let pair = (slice_to_vec(e.0.as_slice()), slice_to_vec(e.1.as_slice()));
            let ghost kept_before = kept@;
            let ghost picked_before = picked;
            kept.push(pair);
            proof {
                picked = picked.push(i as int);
                assert(kept@ == kept_before.push(pair));
                assert(pairs_view(kept@)[picked.len() - 1] == (pair.0@, pair.1@));
                assert(pairs_view(kept@)[picked.len() - 1] == pv[i as int]);
                assert forall|a: int| 0 <= a < picked.len() - 1 implies pairs_view(kept@)[a]
                    == pairs_view(kept_before)[a] by {
                    assert(kept@[a] == kept_before[a]);
                }
                assert forall|jj: int|
                    0 <= jj < i + 1 && (#[trigger] pv[jj].1.len()) > 0 implies exists|a: int|
                    0 <= a < picked.len() && picked[a] == jj by {
                    if jj == i as int {
                        assert(picked[picked.len() - 1] == jj);
                    } else {
                        let a = choose|a: int|
                            0 <= a < picked_before.len() && picked_before[a] == jj;
                        assert(picked[a] == jj);
                    }
                }
            }
        } else {
            proof {
                assert forall|jj: int|
                    0 <= jj < i + 1 && (#[trigger] pv[jj].1.len()) > 0 implies exists|a: int|
                    0 <= a < picked.len() && picked[a] == jj by {
                    assert(jj != i as int);
                }
            }
        }
        i += 1;
    }
    proof {
        let kv = pairs_view(kept@);
        assert forall|a: int, b: int| 0 <= a < b < kv.len() implies lex_lt(
            #[trigger] kv[a].0,
            #[trigger] kv[b].0,
        ) by {
            assert(kv[a] == pv[picked[a]]);
            assert(kv[b] == pv[picked[b]]);
            assert(lex_lt(pv[picked[a]].0, pv[picked[b]].0));
        }
        let dropped = drop_tombstones(merged_map);
        assert forall|a: int| 0 <= a < kv.len() implies dropped.contains_pair(
            #[trigger] kv[a].0,
            kv[a].1,
        ) by {
            assert(kv[a] == pv[picked[a]]);
            assert(merged_map.contains_pair(pv[picked[a]].0, pv[picked[a]].1));
            assert(pv[picked[a]].1.len() > 0);
        }
        assert forall|k: Seq<u8>| #[trigger] contains_key_of(dropped, k) implies exists|a: int|
            0 <= a < kv.len() && kv[a].0 == k by {
            assert(merged_map.contains_key(k) && merged_map[k].len() > 0);
            assert(contains_key_of(merged_map, k));
            let jj = choose|jj: int| 0 <= jj < pv.len() && pv[jj].0 == k;
            assert(merged_map.contains_pair(pv[jj].0, pv[jj].1));
            assert(pv[jj].1.len() > 0);
            let a = choose|a: int| 0 <= a < picked.len() && picked[a] == jj;
            assert(kv[a] == pv[jj]);
            assert(kv[a].0 == k);
        }
        lemma_listing_exact(dropped, pairs_view(kept@));
    }
    let out = SsTable::build(kept);
    out
}

} // verus!
