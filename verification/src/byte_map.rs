use vstd::prelude::*;

use crate::keys::lex_lt;

verus! {

/// An ordered in-memory map from byte-string keys to byte-string values,
/// backed by `crossbeam_skiplist::SkipMap`.  The skiplist orders `Bytes` keys
/// by their byte content (its `Ord` delegates to the slice order), which is
/// the engine's lexicographic key order.  The struct hides the skiplist from
/// the verifier; the methods below are the trusted boundary around it.
#[verifier::external_body]
pub struct ByteMap {
    map: crossbeam_skiplist::SkipMap<bytes::Bytes, bytes::Bytes>,
}

/// The key-to-value mapping a `ByteMap` holds.
pub uninterp spec fn byte_map_contents(m: ByteMap) -> Map<Seq<u8>, Seq<u8>>;

/// The mapping of a map with nothing in it.
pub open spec fn empty_bytes_map() -> Map<Seq<u8>, Seq<u8>> {
    Map::empty()
}

impl ByteMap {
    /// Relies on SkipMap::new: creates an empty map.
    #[verifier::external_body]
    pub fn new() -> (m: ByteMap)
        ensures
            byte_map_contents(m) == empty_bytes_map(),
    {
        ByteMap { map: crossbeam_skiplist::SkipMap::new() }
    }

    /// Relies on SkipMap::insert: binds the key to the value, removing any
    /// existing entry with the same key first.
    #[verifier::external_body]
    pub fn insert(&mut self, key: &[u8], value: &[u8])
        ensures
            byte_map_contents(*final(self)) == byte_map_contents(*old(self)).insert(key@, value@),
    {
        self.map.insert(bytes::Bytes::copy_from_slice(key), bytes::Bytes::copy_from_slice(value));
    }

    /// Relies on SkipMap::get: returns the value bound to the key, if any.
    #[verifier::external_body]
    pub fn get(&self, key: &[u8]) -> (r: Option<Vec<u8>>)
        ensures
            match r {
                Some(v) => byte_map_contents(*self).contains_key(key@) && v@ == byte_map_contents(
                    *self,
                )[key@],
                None => !byte_map_contents(*self).contains_key(key@),
            },
    {
        self.map.get(key).map(|e| e.value().to_vec())
    }

    /// Relies on SkipMap::iter: yields every entry exactly once, in ascending
    /// key order.
    #[verifier::external_body]
    pub fn entries(&self) -> (v: Vec<(Vec<u8>, Vec<u8>)>)
        ensures
            forall|i: int|
                0 <= i < v@.len() ==> byte_map_contents(*self).contains_pair(
                    #[trigger] v@[i].0@,
                    v@[i].1@,
                ),
            forall|k: Seq<u8>|
                #[trigger] byte_map_contents(*self).contains_key(k) ==> exists|i: int|
                    0 <= i < v@.len() && v@[i].0@ == k,
            forall|i: int, j: int|
                0 <= i < j < v@.len() ==> lex_lt(#[trigger] v@[i].0@, #[trigger] v@[j].0@),
    {
        self.map.iter().map(|e| (e.key().to_vec(), e.value().to_vec())).collect()
    }
}

} // verus!
