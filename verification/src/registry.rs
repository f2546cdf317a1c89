//! The registry of collection prefixes in use.
//!
//! It tracks every prefix a contract instance hands to a collection and
//! refuses one that equals a registered prefix or stands in a byte-prefix
//! relation with one, so that a prefix mistake becomes a constructible,
//! testable failure instead of silent key collisions.

use crate::codec::is_prefix_of;
use crate::errs::StoreError;
use vstd::prelude::*;

verus! {

/// The set of prefixes a contract instance has handed out.
pub struct CollectionRegistry {
    /// The registered prefixes.
    pub prefixes: Vec<Vec<u8>>,
}

impl CollectionRegistry {
    /// The prefix `p` is registered.
    pub open spec fn registered(self, p: Seq<u8>) -> bool {
        exists|i: int| 0 <= i < self.prefixes@.len() && self.prefixes@[i]@ == p
    }

    /// `p` equals a registered prefix or stands in a byte-prefix relation
    /// with one.
    pub open spec fn conflicts(self, p: Seq<u8>) -> bool {
        exists|i: int|
            0 <= i < self.prefixes@.len() && (is_prefix_of(#[trigger] self.prefixes@[i]@, p)
                || is_prefix_of(p, self.prefixes@[i]@))
    }

    /// No registered prefix is a byte-prefix of another.
    pub open spec fn wf(self) -> bool {
        forall|i: int, j: int|
            0 <= i < self.prefixes@.len() && 0 <= j < self.prefixes@.len() && i != j
                ==> !is_prefix_of((#[trigger] self.prefixes@[i])@, (#[trigger] self.prefixes@[j])@)
    }

    /// A registry with nothing registered.
    pub fn new() -> (r: CollectionRegistry)
        ensures
            r.prefixes@.len() == 0,
            r.wf(),
            forall|p: Seq<u8>| !(#[trigger] r.conflicts(p)),
    {
        CollectionRegistry { prefixes: Vec::new() }
    }

    /// Registers `prefix`, or fails with `PrefixCollision` exactly when it
    /// equals a registered prefix or is in a byte-prefix relation with one.
    pub fn register(&mut self, prefix: Vec<u8>) -> (r: Result<(), StoreError>)
        requires
            old(self).wf(),
        ensures
            old(self).conflicts(prefix@) ==> (r == Err::<(), StoreError>(StoreError::PrefixCollision)
                && *final(self) == *old(self)),
            !old(self).conflicts(prefix@) ==> (r == Ok::<(), StoreError>(())
                && final(self).prefixes@ == old(self).prefixes@.push(prefix)
                && final(self).wf() && final(self).registered(prefix@)),
    {
        let n: usize = self.prefixes.len();
        let mut i: usize = 0;
        while i < n
            invariant
                i <= n,
                n == self.prefixes@.len(),
                forall|j: int|
                    0 <= j < i ==> !is_prefix_of((#[trigger] self.prefixes@[j])@, prefix@)
                        && !is_prefix_of(prefix@, self.prefixes@[j]@),
            decreases n - i,
        {
            if is_prefix(&self.prefixes[i], &prefix) || is_prefix(&prefix, &self.prefixes[i]) {
                return Err(StoreError::PrefixCollision);
            }
            i += 1;
        }
        let ghost old_pre = self.prefixes@;
        self.prefixes.push(prefix);
        proof {
            let c2 = self.prefixes@;
            let iw = c2.len() - 1;
            assert forall|q: int, r2: int|
                0 <= q < c2.len() && 0 <= r2 < c2.len() && q != r2 implies !is_prefix_of(
                (#[trigger] c2[q])@,
                (#[trigger] c2[r2])@,
            ) by {
                if q < iw && r2 < iw {
                    assert(c2[q] == old_pre[q]);
                    assert(c2[r2] == old_pre[r2]);
                } else if q == iw {
                    assert(c2[r2] == old_pre[r2]);
                } else {
                    assert(c2[q] == old_pre[q]);
                }
            }
            assert(c2[iw]@ == prefix@);
            assert(self.registered(prefix@));
        }
        Ok(())
    }
}

/// Byte-level test of the prefix relation.
fn is_prefix(p: &Vec<u8>, k: &Vec<u8>) -> (r: bool)
    ensures
        r == is_prefix_of(p@, k@),
{
    if p.len() > k.len() {
        return false;
    }
    let mut i: usize = 0;
    while i < p.len()
        invariant
            i <= p@.len(),
            p@.len() <= k@.len(),
            forall|j: int| 0 <= j < i ==> p@[j] == k@[j],
        decreases p@.len() - i,
    {
        if p[i] != k[i] {
            proof {
                assert(k@.subrange(0, p@.len() as int)[i as int] == k@[i as int]);
            }
            return false;
        }
        i += 1;
    }
    proof {
        assert(k@.subrange(0, p@.len() as int) =~= p@);
    }
    true
}

} // verus!
