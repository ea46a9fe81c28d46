use vstd::prelude::*;

use crate::byte_map::{byte_map_contents, ByteMap};
use crate::wal::{
    entries_map, lemma_entries_map_push, lemma_replay_clean_extend, lemma_replay_single_record,
    pairs_view, record_bytes, replay, replay_bytes, replay_entries, replay_truncated, Wal,
};

verus! {

/// Adding to a byte budget, capped at the machine's limit.  The memtable's
/// size counter is a flush heuristic, so capping (rather than failing) on
/// overflow keeps it monotone and total.
pub open spec fn size_after(old_size: usize, klen: nat, vlen: nat) -> usize {
    if old_size + klen + vlen <= usize::MAX {
        (old_size + klen + vlen) as usize
    } else {
        usize::MAX
    }
}

/// The size counter that replaying the given records front to back builds up,
/// starting from `start`.
pub open spec fn replayed_size(start: usize, es: Seq<(Seq<u8>, Seq<u8>)>) -> usize
    decreases es.len(),
{
    if es.len() == 0 {
        start
    } else {
        replayed_size(size_after(start, es[0].0.len(), es[0].1.len()), es.skip(1))
    }
}

/// An in-memory table of the most recent writes: an ordered map from key to
/// value, optionally backed by a write-ahead log image, with a monotone
/// approximate byte-size counter.  A zero-length value is a tombstone.
pub struct MemTable {
    map: ByteMap,
    wal: Option<Wal>,
    id: usize,
    approximate_size: usize,
}

impl MemTable {
    /// The key-to-value mapping this table holds.
    pub closed spec fn contents(self) -> Map<Seq<u8>, Seq<u8>> {
        byte_map_contents(self.map)
    }

    pub closed spec fn spec_id(self) -> usize {
        self.id
    }

    pub closed spec fn spec_approximate_size(self) -> usize {
        self.approximate_size
    }

    pub closed spec fn has_wal(self) -> bool {
        self.wal is Some
    }

    /// The log image backing this table, where one exists.
    pub closed spec fn spec_wal_bytes(self) -> Seq<u8>
        recommends
            self.has_wal(),
    {
        self.wal->Some_0.bytes()
    }

    /// A table backed by a log is well formed when replaying that log
    /// reproduces exactly the mapping the table holds.
    pub open spec fn wf(self) -> bool {
        self.has_wal() ==> {
            &&& !replay_truncated(self.spec_wal_bytes())
            &&& entries_map(replay_entries(self.spec_wal_bytes())) == self.contents()
        }
    }

    /// Creates a fresh, empty table without a log.
    pub fn create(id: usize) -> (mt: MemTable)
        ensures
            mt.contents() == Map::<Seq<u8>, Seq<u8>>::empty(),
            mt.spec_id() == id,
            mt.spec_approximate_size() == 0,
            !mt.has_wal(),
            mt.wf(),
    {
        MemTable { map: ByteMap::new(), wal: None, id, approximate_size: 0 }
    }

    /// Creates a fresh, empty table backed by a fresh, empty log image.
    pub fn create_with_wal(id: usize) -> (mt: MemTable)
        ensures
            mt.contents() == Map::<Seq<u8>, Seq<u8>>::empty(),
            mt.spec_id() == id,
            mt.spec_approximate_size() == 0,
            mt.has_wal(),
            mt.spec_wal_bytes() == Seq::<u8>::empty(),
            mt.wf(),
    {
        let mt = MemTable { map: ByteMap::new(), wal: Some(Wal::create()), id, approximate_size: 0 };
        proof {
            assert(entries_map(replay_entries(Seq::<u8>::empty())) =~= Map::<
                Seq<u8>,
                Seq<u8>,
            >::empty());
        }
        mt
    }

    /// Rebuilds a table from a log image by replaying every whole record in
    /// file order.  An incomplete trailing record is dropped: the whole-record
    /// prefix is what the table (and its fresh log image) holds afterwards.
    pub fn recover_with_wal(id: usize, data: &[u8]) -> (mt: MemTable)
        ensures
            mt.contents() == entries_map(replay_entries(data@)),
            mt.spec_id() == id,
            mt.spec_approximate_size() == replayed_size(0, replay_entries(data@)),
            mt.has_wal(),
            mt.wf(),
    {
        let (entries, _truncated) = replay_bytes(data);
        let ghost es = replay_entries(data@);
        let mut mt = MemTable::create_with_wal(id);
        let mut i: usize = 0;
        proof {
            assert(es.skip(0) =~= es);
            assert(entries_map(es.take(0)) =~= Map::<Seq<u8>, Seq<u8>>::empty());
        }
        while i < entries.len()
            invariant
                0 <= i <= entries@.len(),
                pairs_view(entries@) == es,
                mt.contents() == entries_map(es.take(i as int)),
                mt.spec_id() == id,
                mt.has_wal(),
                mt.wf(),
                replayed_size(0, es) == replayed_size(mt.spec_approximate_size(), es.skip(i as int)),
            decreases entries@.len() - i,
        {
            let ghost size_before = mt.spec_approximate_size();
            let entry = &entries[i];
            mt.put(entry.0.as_slice(), entry.1.as_slice());
            proof {
                assert(es[i as int] == (entry.0@, entry.1@));
                assert(es.take(i + 1).drop_last() =~= es.take(i as int));
                assert(es.take(i + 1).last() == es[i as int]);
                assert(es.skip(i as int)[0] == es[i as int]);
                assert(es.skip(i as int).skip(1) =~= es.skip(i + 1));
                assert(replayed_size(size_before, es.skip(i as int)) == replayed_size(
                    mt.spec_approximate_size(),
                    es.skip(i + 1),
                ));
            }
            i += 1;
        }
        proof {
            assert(es.take(es.len() as int) =~= es);
            assert(es.skip(es.len() as int) =~= Seq::<(Seq<u8>, Seq<u8>)>::empty());
        }
        mt
    }

    /// Looks a key up; a tombstone comes back as the empty value, not as
    /// absence.
    pub fn get(&self, key: &[u8]) -> (r: Option<Vec<u8>>)
        ensures
            match r {
                Some(v) => self.contents().contains_key(key@) && v@ == self.contents()[key@],
                None => !self.contents().contains_key(key@),
            },
    {
        self.map.get(key)
    }

    /// Writes one key/value pair (an empty value is a tombstone), appending
    /// the matching record to the log where one exists.
    pub fn put(&mut self, key: &[u8], value: &[u8])
        ensures
            final(self).contents() == old(self).contents().insert(key@, value@),
            final(self).spec_id() == old(self).spec_id(),
            final(self).has_wal() == old(self).has_wal(),
            final(self).spec_approximate_size() == size_after(
                old(self).spec_approximate_size(),
                key@.len(),
                value@.len(),
            ),
            old(self).has_wal() ==> final(self).spec_wal_bytes() == old(self).spec_wal_bytes()
                + record_bytes(key@, value@),
            old(self).wf() ==> final(self).wf(),
    {
        let ghost pre = *self;
        let klen = key.len();
        let vlen = value.len();
        self.map.insert(key, value);
        let budget = usize::MAX - self.approximate_size;
        if klen <= budget && vlen <= budget - klen {
            self.approximate_size = self.approximate_size + klen + vlen;
        } else {
            self.approximate_size = usize::MAX;
        }
        match &mut self.wal {
            Some(w) => {
                w.put(key, value);
            },
            None => {},
        }
        proof {
            assert(key@.len() == klen && klen <= usize::MAX);
            assert(value@.len() == vlen && vlen <= usize::MAX);
            if pre.has_wal() && pre.wf() {
                lemma_replay_clean_extend(pre.spec_wal_bytes(), record_bytes(key@, value@));
                lemma_replay_single_record(key@, value@);
                lemma_entries_map_push(replay_entries(pre.spec_wal_bytes()), key@, value@);
                assert(replay_entries(self.spec_wal_bytes()) == replay_entries(
                    pre.spec_wal_bytes(),
                ) + seq![(key@, value@)]);
            }
        }
    }

    /// The bytes this table has accepted so far; a flush trigger heuristic.
    pub fn approximate_size(&self) -> (n: usize)
        ensures
            n == self.spec_approximate_size(),
    {
        self.approximate_size
    }

    /// The table's identity, assigned at creation and never reused.
    pub fn id(&self) -> (n: usize)
        ensures
            n == self.spec_id(),
    {
        self.id
    }

    /// The log image to persist, where this table keeps one.
    pub fn wal_data(&self) -> (r: Option<&Vec<u8>>)
        ensures
            match r {
                Some(d) => self.has_wal() && d@ == self.spec_wal_bytes(),
                None => !self.has_wal(),
            },
    {
        match &self.wal {
            Some(w) => Some(w.data()),
            None => None,
        }
    }

    /// Every entry of the table, in ascending key order; what a flush drains
    /// into a sorted file.
    pub fn entries(&self) -> (v: Vec<(Vec<u8>, Vec<u8>)>)
        ensures
            forall|i: int|
                0 <= i < v@.len() ==> self.contents().contains_pair(#[trigger] v@[i].0@, v@[i].1@),
            forall|k: Seq<u8>|
                #[trigger] self.contents().contains_key(k) ==> exists|i: int|
                    0 <= i < v@.len() && v@[i].0@ == k,
            forall|i: int, j: int|
                0 <= i < j < v@.len() ==> crate::keys::lex_lt(
                    #[trigger] v@[i].0@,
                    #[trigger] v@[j].0@,
                ),
    {
        self.map.entries()
    }
}

} // verus!
