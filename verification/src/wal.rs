use vstd::prelude::*;
use vstd::slice::{slice_index_get, slice_subrange, slice_to_vec};

use crate::errors::{IoErrorKind, LsmError};

verus! {

// ---------------------------------------------------------------------------
// Record framing: each log record is [key length, 8 bytes LE]
// [value length, 8 bytes LE] [key bytes] [value bytes].  The length prefix is
// what lets recovery tell a whole record from a trailing fragment.
// ---------------------------------------------------------------------------

/// The eight little-endian bytes of a 64-bit length.
pub open spec fn le64_bytes(n: u64) -> Seq<u8> {
    seq![
        (n & 0xff) as u8,
        ((n >> 8) & 0xff) as u8,
        ((n >> 16) & 0xff) as u8,
        ((n >> 24) & 0xff) as u8,
        ((n >> 32) & 0xff) as u8,
        ((n >> 40) & 0xff) as u8,
        ((n >> 48) & 0xff) as u8,
        ((n >> 56) & 0xff) as u8,
    ]
}

/// The 64-bit value held by eight little-endian bytes.
pub open spec fn le64_val(s: Seq<u8>) -> u64
    recommends
        s.len() == 8,
{
    (s[0] as u64) | ((s[1] as u64) << 8) | ((s[2] as u64) << 16) | ((s[3] as u64) << 24) | ((
    s[4] as u64) << 32) | ((s[5] as u64) << 40) | ((s[6] as u64) << 48) | ((s[7] as u64) << 56)
}

pub proof fn lemma_le64_roundtrip(n: u64)
    ensures
        le64_val(le64_bytes(n)) == n,
{
    let s = le64_bytes(n);
    assert(s[0] == (n & 0xff) as u8);
    assert(s[1] == ((n >> 8) & 0xff) as u8);
    assert(s[2] == ((n >> 16) & 0xff) as u8);
    assert(s[3] == ((n >> 24) & 0xff) as u8);
    assert(s[4] == ((n >> 32) & 0xff) as u8);
    assert(s[5] == ((n >> 40) & 0xff) as u8);
    assert(s[6] == ((n >> 48) & 0xff) as u8);
    assert(s[7] == ((n >> 56) & 0xff) as u8);
    assert(((n & 0xff) as u8 as u64) | (((n >> 8) & 0xff) as u8 as u64) << 8 | (((n >> 16)
        & 0xff) as u8 as u64) << 16 | (((n >> 24) & 0xff) as u8 as u64) << 24 | (((n >> 32)
        & 0xff) as u8 as u64) << 32 | (((n >> 40) & 0xff) as u8 as u64) << 40 | (((n >> 48)
        & 0xff) as u8 as u64) << 48 | (((n >> 56) & 0xff) as u8 as u64) << 56 == n)
        by (bit_vector);
}

/// The bytes of one whole log record for the given key and value.
pub open spec fn record_bytes(k: Seq<u8>, v: Seq<u8>) -> Seq<u8> {
    le64_bytes(k.len() as u64) + le64_bytes(v.len() as u64) + k + v
}

/// Replaying a log image: every whole record, in file order, and a flag that
/// says whether a trailing fragment (an incomplete record) was left over.
pub open spec fn replay(data: Seq<u8>) -> (Seq<(Seq<u8>, Seq<u8>)>, bool)
    decreases data.len(),
{
    if data.len() == 0 {
        (Seq::empty(), false)
    } else if data.len() < 16 {
        (Seq::empty(), true)
    } else {
        let klen = le64_val(data.subrange(0, 8)) as int;
        let vlen = le64_val(data.subrange(8, 16)) as int;
        if data.len() < 16 + klen + vlen {
            (Seq::empty(), true)
        } else {
            let k = data.subrange(16, 16 + klen);
            let v = data.subrange(16 + klen, 16 + klen + vlen);
            let rest = replay(data.skip(16 + klen + vlen));
            (seq![(k, v)] + rest.0, rest.1)
        }
    }
}

pub open spec fn replay_entries(data: Seq<u8>) -> Seq<(Seq<u8>, Seq<u8>)> {
    replay(data).0
}

pub open spec fn replay_truncated(data: Seq<u8>) -> bool {
    replay(data).1
}

/// The key-to-value mapping that a sequence of records builds up when applied
/// in order: a later record for the same key wins.
pub open spec fn entries_map(es: Seq<(Seq<u8>, Seq<u8>)>) -> Map<Seq<u8>, Seq<u8>>
    decreases es.len(),
{
    if es.len() == 0 {
        Map::empty()
    } else {
        entries_map(es.drop_last()).insert(es.last().0, es.last().1)
    }
}

/// The view of a vector of owned byte-string pairs as a sequence of
/// mathematical byte-string pairs.
pub open spec fn pairs_view(s: Seq<(Vec<u8>, Vec<u8>)>) -> Seq<(Seq<u8>, Seq<u8>)> {
    s.map_values(|p: (Vec<u8>, Vec<u8>)| (p.0@, p.1@))
}

// ---------------------------------------------------------------------------
// Replay lemmas
// ---------------------------------------------------------------------------

/// Replaying a fully-parsed image followed by anything parses the image's
/// records first and then treats the remainder on its own.
pub proof fn lemma_replay_clean_extend(data: Seq<u8>, tail: Seq<u8>)
    requires
        !replay(data).1,
    ensures
        replay(data + tail).0 == replay(data).0 + replay(tail).0,
        replay(data + tail).1 == replay(tail).1,
    decreases data.len(),
{
    if data.len() == 0 {
        assert(data + tail =~= tail);
        assert(replay(data).0 + replay(tail).0 =~= replay(tail).0);
    } else {
        // A clean, non-empty image must start with a whole record.
        assert(data.len() >= 16);
        let klen = le64_val(data.subrange(0, 8)) as int;
        let vlen = le64_val(data.subrange(8, 16)) as int;
        assert(data.len() >= 16 + klen + vlen);
        let whole = data + tail;
        assert(whole.subrange(0, 8) =~= data.subrange(0, 8));
        assert(whole.subrange(8, 16) =~= data.subrange(8, 16));
        assert(whole.len() >= 16 + klen + vlen);
        assert(whole.subrange(16, 16 + klen) =~= data.subrange(16, 16 + klen));
        assert(whole.subrange(16 + klen, 16 + klen + vlen) =~= data.subrange(
            16 + klen,
            16 + klen + vlen,
        ));
        let rest = data.skip(16 + klen + vlen);
        assert(whole.skip(16 + klen + vlen) =~= rest + tail);
        assert(!replay(rest).1);
        lemma_replay_clean_extend(rest, tail);
        let k = data.subrange(16, 16 + klen);
        let v = data.subrange(16 + klen, 16 + klen + vlen);
        assert(replay(whole).0 =~= seq![(k, v)] + (replay(rest).0 + replay(tail).0));
        assert(replay(data).0 + replay(tail).0 =~= seq![(k, v)] + (replay(rest).0 + replay(
            tail,
        ).0));
    }
}

/// One whole record replays to exactly its key/value pair.
pub proof fn lemma_replay_single_record(k: Seq<u8>, v: Seq<u8>)
    requires
        k.len() <= u64::MAX,
        v.len() <= u64::MAX,
    ensures
        replay(record_bytes(k, v)).0 == seq![(k, v)],
        !replay(record_bytes(k, v)).1,
{
    let r = record_bytes(k, v);
    let a = le64_bytes(k.len() as u64);
    let b = le64_bytes(v.len() as u64);
    assert(r.len() == 16 + k.len() + v.len());
    assert(r.subrange(0, 8) =~= a);
    assert(r.subrange(8, 16) =~= b);
    lemma_le64_roundtrip(k.len() as u64);
    lemma_le64_roundtrip(v.len() as u64);
    let klen = le64_val(r.subrange(0, 8)) as int;
    let vlen = le64_val(r.subrange(8, 16)) as int;
    assert(klen == k.len());
    assert(vlen == v.len());
    assert(r.subrange(16, 16 + klen) =~= k);
    assert forall|i: int| 16 + klen <= i < 16 + klen + vlen implies r[i] == v[i - 16 - klen] by {
        assert(r[i] == (((a + b) + k) + v)[i]);
        assert((((a + b) + k) + v)[i] == v[i - ((a + b) + k).len()]);
    }
    assert(r.subrange(16 + klen, 16 + klen + vlen) =~= v);
    assert(r.skip(16 + klen + vlen) =~= Seq::<u8>::empty());
    assert(replay(r.skip(16 + klen + vlen)) == replay(Seq::<u8>::empty()));
    assert(!replay(Seq::<u8>::empty()).1);
    assert(replay(r).0 =~= seq![(k, v)]);
}

/// A proper prefix of one record never replays as data: it is reported as a
/// trailing fragment (or as nothing at all when it is empty).
pub proof fn lemma_replay_record_prefix(k: Seq<u8>, v: Seq<u8>, cut: int)
    requires
        k.len() <= u64::MAX,
        v.len() <= u64::MAX,
        0 <= cut < record_bytes(k, v).len(),
    ensures
        replay(record_bytes(k, v).subrange(0, cut)).0 == Seq::<(Seq<u8>, Seq<u8>)>::empty(),
        replay(record_bytes(k, v).subrange(0, cut)).1 == (cut > 0),
{
    let r = record_bytes(k, v);
    let t = r.subrange(0, cut);
    if cut == 0 {
        assert(t.len() == 0);
    } else if cut < 16 {
        assert(t.len() < 16);
    } else {
        assert(t.subrange(0, 8) =~= le64_bytes(k.len() as u64));
        assert(t.subrange(8, 16) =~= le64_bytes(v.len() as u64));
        lemma_le64_roundtrip(k.len() as u64);
        lemma_le64_roundtrip(v.len() as u64);
        let klen = le64_val(t.subrange(0, 8)) as int;
        let vlen = le64_val(t.subrange(8, 16)) as int;
        assert(klen == k.len());
        assert(vlen == v.len());
        assert(t.len() == cut < r.len() == 16 + klen + vlen);
    }
}

/// Appending one record to the records already parsed folds into the mapping
/// as one more write of that key.
pub proof fn lemma_entries_map_push(es: Seq<(Seq<u8>, Seq<u8>)>, k: Seq<u8>, v: Seq<u8>)
    ensures
        entries_map(es + seq![(k, v)]) == entries_map(es).insert(k, v),
{
    let whole = es + seq![(k, v)];
    assert(whole.drop_last() =~= es);
    assert(whole.last() == (k, v));
}

// ---------------------------------------------------------------------------
// Executable codec
// ---------------------------------------------------------------------------

fn append_le64(out: &mut Vec<u8>, n: u64)
    ensures
        final(out)@ == old(out)@ + le64_bytes(n),
{
    out.push((n & 0xff) as u8);
    out.push(((n >> 8) & 0xff) as u8);
    out.push(((n >> 16) & 0xff) as u8);
    out.push(((n >> 24) & 0xff) as u8);
    out.push(((n >> 32) & 0xff) as u8);
    out.push(((n >> 40) & 0xff) as u8);
    out.push(((n >> 48) & 0xff) as u8);
    out.push(((n >> 56) & 0xff) as u8);
    proof {
        assert(out@ =~= old(out)@ + le64_bytes(n));
    }
}

fn append_slice(out: &mut Vec<u8>, s: &[u8])
    ensures
        final(out)@ == old(out)@ + s@,
{
    let mut i: usize = 0;
    while i < s.len()
        invariant
            0 <= i <= s@.len(),
            out@ == old(out)@ + s@.subrange(0, i as int),
        decreases s@.len() - i,
    {
        let b = *slice_index_get(s, i);
        out.push(b);
        proof {
            assert(out@ =~= old(out)@ + s@.subrange(0, i + 1));
        }
        i += 1;
    }
    proof {
        assert(s@.subrange(0, s@.len() as int) =~= s@);
    }
}

fn read_le64(s: &[u8]) -> (n: u64)
    requires
        s@.len() == 8,
    ensures
        n == le64_val(s@),
{
    (*slice_index_get(s, 0) as u64) | ((*slice_index_get(s, 1) as u64) << 8) | ((*slice_index_get(
        s,
        2,
    ) as u64) << 16) | ((*slice_index_get(s, 3) as u64) << 24) | ((*slice_index_get(s, 4) as u64)
        << 32) | ((*slice_index_get(s, 5) as u64) << 40) | ((*slice_index_get(s, 6) as u64) << 48)
        | ((*slice_index_get(s, 7) as u64) << 56)
}

/// Parses every whole record of a log image in file order; the flag reports a
/// trailing incomplete record.
pub fn replay_bytes(data: &[u8]) -> (r: (Vec<(Vec<u8>, Vec<u8>)>, bool))
    ensures
        pairs_view(r.0@) == replay_entries(data@),
        r.1 == replay_truncated(data@),
{
    let mut out: Vec<(Vec<u8>, Vec<u8>)> = Vec::new();
    let mut pos: usize = 0;
    proof {
        assert(data@.skip(0) =~= data@);
        assert(pairs_view(out@) + replay(data@).0 =~= replay(data@).0);
    }
    loop
        invariant
            pos <= data@.len(),
            replay(data@).0 == pairs_view(out@) + replay(data@.skip(pos as int)).0,
            replay(data@).1 == replay(data@.skip(pos as int)).1,
        decreases data@.len() - pos,
    {
        let rem = data.len() - pos;
        let ghost tail = data@.skip(pos as int);
        if rem == 0 {
            proof {
                assert(tail =~= Seq::<u8>::empty());
                assert(pairs_view(out@) + replay(tail).0 =~= pairs_view(out@));
            }
            return (out, false);
        }
        if rem < 16 {
            proof {
                assert(pairs_view(out@) + replay(tail).0 =~= pairs_view(out@));
            }
            return (out, true);
        }
        let klen64 = read_le64(slice_subrange(data, pos, pos + 8));
        let vlen64 = read_le64(slice_subrange(data, pos + 8, pos + 16));
        proof {
            assert(tail.subrange(0, 8) =~= data@.subrange(pos as int, pos as int + 8));
            assert(tail.subrange(8, 16) =~= data@.subrange(pos as int + 8, pos as int + 16));
        }
        if klen64 > (rem - 16) as u64 {
            proof {
                assert(tail.len() < 16 + (klen64 as int) + (le64_val(tail.subrange(8, 16)) as int));
                assert(pairs_view(out@) + replay(tail).0 =~= pairs_view(out@));
            }
            return (out, true);
        }
        let klen = klen64 as usize;
        if vlen64 > (rem - 16 - klen) as u64 {
            proof {
                assert(tail.len() < 16 + (klen as int) + (vlen64 as int));
                assert(pairs_view(out@) + replay(tail).0 =~= pairs_view(out@));
            }
            return (out, true);
        }
        let vlen = vlen64 as usize;
        let k = slice_to_vec(slice_subrange(data, pos + 16, pos + 16 + klen));
        let v = slice_to_vec(
            slice_subrange(data, pos + 16 + klen, pos + 16 + klen + vlen),
        );
        proof {
            assert(tail.subrange(16, 16 + klen as int) =~= data@.subrange(
                pos as int + 16,
                pos as int + 16 + klen as int,
            ));
            assert(tail.subrange(16 + klen as int, 16 + klen as int + vlen as int) =~= data@
                .subrange(
                pos as int + 16 + klen as int,
                pos as int + 16 + klen as int + vlen as int,
            ));
            assert(tail.skip(16 + klen as int + vlen as int) =~= data@.skip(
                pos as int + 16 + klen as int + vlen as int,
            ));
        }
        let ghost out_before = out@;
        out.push((k, v));
        proof {
            assert(pairs_view(out@) =~= pairs_view(out_before) + seq![(k@, v@)]);
            assert(replay(tail).0 == seq![(k@, v@)] + replay(
                data@.skip(pos as int + 16 + klen as int + vlen as int),
            ).0);
            assert(pairs_view(out_before) + replay(tail).0 =~= pairs_view(out@) + replay(
                data@.skip(pos as int + 16 + klen as int + vlen as int),
            ).0);
        }
        pos = pos + 16 + klen + vlen;
    }
}

// ---------------------------------------------------------------------------
// The write-ahead log buffer
// ---------------------------------------------------------------------------

/// The append-only image of one memtable's write-ahead log.  The engine keeps
/// the image in memory; persisting it to a file is the caller's business.
pub struct Wal {
    data: Vec<u8>,
}

impl Wal {
    /// The bytes appended so far.
    pub closed spec fn bytes(self) -> Seq<u8> {
        self.data@
    }

    /// Opens a fresh, empty log.
    pub fn create() -> (w: Wal)
        ensures
            w.bytes() == Seq::<u8>::empty(),
    {
        Wal { data: Vec::new() }
    }

    /// Appends one whole record for the given key and value.
    pub fn put(&mut self, key: &[u8], value: &[u8])
        ensures
            final(self).bytes() == old(self).bytes() + record_bytes(key@, value@),
    {
        append_le64(&mut self.data, key.len() as u64);
        append_le64(&mut self.data, value.len() as u64);
        append_slice(&mut self.data, key);
        append_slice(&mut self.data, value);
        proof {
            assert(self.data@ =~= old(self).bytes() + record_bytes(key@, value@));
        }
    }

    /// The raw log image, for the caller to persist.
    pub fn data(&self) -> (r: &Vec<u8>)
        ensures
            r@ == self.bytes(),
    {
        &self.data
    }

    /// Replays a log image under the strict contract: every whole record in
    /// file order, and an incomplete trailing record is an error of its own
    /// kind.  The lenient path that keeps the whole-record prefix of a cut
    /// image is `MemTable::recover_with_wal`.
    pub fn recover(data: &[u8]) -> (r: Result<(Wal, Vec<(Vec<u8>, Vec<u8>)>), LsmError>)
        ensures
            match r {
                Ok(p) => !replay_truncated(data@) && p.0.bytes() == data@ && pairs_view(p.1@)
                    == replay_entries(data@),
                Err(e) => replay_truncated(data@) && e == LsmError::IoError(IoErrorKind::Truncated),
            },
    {
        let (entries, truncated) = replay_bytes(data);
        if truncated {
            Err(LsmError::IoError(IoErrorKind::Truncated))
        } else {
            Ok((Wal { data: slice_to_vec(data) }, entries))
        }
    }
}

} // verus!
