//! The flat byte-oriented key-value store the collections persist into.
//!
//! The store offers exactly the constrained interface the collection layer
//! assumes of its persistence primitive: get-by-key and put-by-key, no range
//! scans, no transactions, last write wins per key. It is the in-memory
//! reference store; a deployment binds the same interface to its host's
//! storage at the call-dispatch boundary.

use crate::codec::{bytes_eq, clone_bytes};
use vstd::prelude::*;

verus! {

struct StoreEntry {
    key: Vec<u8>,
    val: Vec<u8>,
}

/// A flat store of byte values under byte keys.
pub struct FlatStore {
    entries: Vec<StoreEntry>,
}

spec fn map_of(s: Seq<(Seq<u8>, Seq<u8>)>) -> Map<Seq<u8>, Seq<u8>>
    decreases s.len(),
{
    if s.len() == 0 {
        Map::empty()
    } else {
        map_of(s.drop_last()).insert(s.last().0, s.last().1)
    }
}

impl View for FlatStore {
    type V = Map<Seq<u8>, Seq<u8>>;

    closed spec fn view(&self) -> Map<Seq<u8>, Seq<u8>> {
        map_of(self.entries@.map(|i: int, e: StoreEntry| (e.key@, e.val@)))
    }
}

proof fn lemma_map_of_last(s: Seq<(Seq<u8>, Seq<u8>)>, i: int, k: Seq<u8>)
    requires
        0 <= i < s.len(),
        s[i].0 == k,
        forall|j: int| i < j < s.len() ==> s[j].0 != k,
    ensures
        map_of(s).contains_key(k),
        map_of(s)[k] == s[i].1,
    decreases s.len(),
{
    if i == s.len() - 1 {
    } else {
        lemma_map_of_last(s.drop_last(), i, k);
    }
}

proof fn lemma_map_of_absent(s: Seq<(Seq<u8>, Seq<u8>)>, k: Seq<u8>)
    requires
        forall|j: int| 0 <= j < s.len() ==> s[j].0 != k,
    ensures
        !map_of(s).contains_key(k),
    decreases s.len(),
{
    if s.len() > 0 {
        lemma_map_of_absent(s.drop_last(), k);
    }
}

impl FlatStore {
    /// A store with no entries.
    pub fn new() -> (r: FlatStore)
        ensures
            r@ == Map::<Seq<u8>, Seq<u8>>::empty(),
    {
        FlatStore { entries: Vec::new() }
    }

    /// Reads the value last written under `key`, if any was.
    pub fn get(&self, key: &Vec<u8>) -> (r: Option<Vec<u8>>)
        ensures
            self@.contains_key(key@) ==> (r matches Some(v) && v@ == self@[key@]),
            !self@.contains_key(key@) ==> r is None,
    {
        let ghost s = self.entries@.map(|i: int, e: StoreEntry| (e.key@, e.val@));
        let mut i: usize = self.entries.len();
        while i > 0
            invariant
                i <= self.entries@.len(),
                s == self.entries@.map(|i: int, e: StoreEntry| (e.key@, e.val@)),
                forall|j: int| i <= j < s.len() ==> s[j].0 != key@,
            decreases i,
        {
            i -= 1;
            if bytes_eq(&self.entries[i].key, key) {
                proof {
                    lemma_map_of_last(s, i as int, key@);
                }
                return Some(clone_bytes(&self.entries[i].val));
            }
        }
        proof {
            lemma_map_of_absent(s, key@);
        }
        None
    }

    /// Tells whether any value was written under `key`.
    pub fn contains(&self, key: &Vec<u8>) -> (r: bool)
        ensures
            r == self@.contains_key(key@),
    {
        self.get(key).is_some()
    }

    /// Writes `val` under `key`, replacing whatever was there.
    pub fn set(&mut self, key: &Vec<u8>, val: &Vec<u8>)
        ensures
            final(self)@ == old(self)@.insert(key@, val@),
    {
        let entry = StoreEntry { key: clone_bytes(key), val: clone_bytes(val) };
        let ghost s = self.entries@.map(|i: int, e: StoreEntry| (e.key@, e.val@));
        self.entries.push(entry);
        proof {
            let s2 = self.entries@.map(|i: int, e: StoreEntry| (e.key@, e.val@));
            assert(s2.drop_last() =~= s);
            assert(s2.last() == (key@, val@));
        }
    }
}

} // verus!
