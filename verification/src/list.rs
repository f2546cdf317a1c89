//! An append-only, index-addressed sequence persisted element-by-element.
//!
//! Element `i` lives in the flat store under `index_key(prefix, i)`; the
//! number of committed elements lives under the prefix itself. Values pushed
//! during the current call sit in a dirty tail cache (`pending`) and reach the
//! store only when `flush` runs, so a call that fails commits nothing.
//! Reads below the committed length go straight to the store; reads of the
//! pending tail are answered from the cache, which gives read-your-writes
//! within one call.

use crate::codec::{
    be8, be8_of, be8_val, clone_bytes, index_key, is_prefix_of, lemma_be8_roundtrip,
    lemma_index_key_injective, lemma_keys_under_prefix, lemma_meta_key_distinct, make_index_key,
    parse_be8,
};
use crate::errs::StoreError;
use crate::store::FlatStore;
use vstd::prelude::*;

verus! {

/// The raw list: values are byte vectors; typed layers sit above it.
pub struct RawList {
    /// The byte prefix of this list's key space; also its metadata key.
    pub prefix: Vec<u8>,
    /// How many elements the store already holds under this prefix.
    pub committed: u64,
    /// Values appended during this call, dirty, at indices
    /// `committed..committed + pending.len()`.
    pub pending: Vec<Vec<u8>>,
}

/// The two stores agree everywhere outside the key space under `p`.
pub open spec fn agrees_off_prefix(
    p: Seq<u8>,
    s1: Map<Seq<u8>, Seq<u8>>,
    s2: Map<Seq<u8>, Seq<u8>>,
) -> bool {
    forall|k: Seq<u8>|
        !is_prefix_of(p, k) ==> ((#[trigger] s1.contains_key(k) <==> s2.contains_key(k)) && (
        s1.contains_key(k) ==> s1[k] == s2[k]))
}

/// The two stores agree at every key under `p`.
pub open spec fn agree_under_prefix(
    p: Seq<u8>,
    s1: Map<Seq<u8>, Seq<u8>>,
    s2: Map<Seq<u8>, Seq<u8>>,
) -> bool {
    forall|k: Seq<u8>|
        is_prefix_of(p, k) ==> ((#[trigger] s1.contains_key(k) <==> s2.contains_key(k)) && (
        s1.contains_key(k) ==> s1[k] == s2[k]))
}

/// A list reads only keys under its prefix: stores that agree there give it
/// the same well-formedness and the same contents.
pub proof fn lemma_list_frame(l: RawList, s1: Map<Seq<u8>, Seq<u8>>, s2: Map<Seq<u8>, Seq<u8>>)
    requires
        agree_under_prefix(l.prefix@, s1, s2),
    ensures
        l.wf(s1) == l.wf(s2),
        l.fits() && l.wf(s1) ==> l.raw_contents(s1) =~= l.raw_contents(s2),
{
    assert forall|i: u64| i < l.committed implies (s1.contains_key(
        #[trigger] index_key(l.prefix@, i),
    ) <==> s2.contains_key(index_key(l.prefix@, i))) && (s1.contains_key(index_key(l.prefix@, i))
        ==> s1[index_key(l.prefix@, i)] == s2[index_key(l.prefix@, i)]) by {
        lemma_keys_under_prefix(l.prefix@, i, Seq::<char>::empty());
        assert(s1.contains_key(index_key(l.prefix@, i)) <==> s2.contains_key(
            index_key(l.prefix@, i),
        ));
        if s1.contains_key(index_key(l.prefix@, i)) {
            assert(s1[index_key(l.prefix@, i)] == s2[index_key(l.prefix@, i)]);
        }
    }
    if l.fits() && l.wf(s1) {
        assert forall|i: int| 0 <= i < l.len_spec() implies l.raw_contents(s1)[i]
            == l.raw_contents(s2)[i] by {
            if i < l.committed {
                assert(s1.contains_key(index_key(l.prefix@, i as u64)));
                let iu = i as u64;
                lemma_keys_under_prefix(l.prefix@, iu, Seq::<char>::empty());
                assert(s1.contains_key(index_key(l.prefix@, iu)) <==> s2.contains_key(
                    index_key(l.prefix@, iu),
                ));
                if s1.contains_key(index_key(l.prefix@, iu)) {
                    assert(s1[index_key(l.prefix@, iu)] == s2[index_key(l.prefix@, iu)]);
                }
            }
        }
    }
}

impl RawList {
    /// The logical length: committed elements plus the pending tail.
    pub open spec fn len_spec(self) -> int {
        self.committed + self.pending@.len()
    }

    /// The logical length fits the persisted 64-bit counter.
    pub open spec fn fits(self) -> bool {
        self.len_spec() <= u64::MAX
    }

    /// Every committed element has its store entry.
    pub open spec fn wf(self, store: Map<Seq<u8>, Seq<u8>>) -> bool {
        forall|i: u64|
            i < self.committed ==> #[trigger] store.contains_key(index_key(self.prefix@, i))
    }

    /// The full contents as seen through store and cache together.
    pub open spec fn raw_contents(self, store: Map<Seq<u8>, Seq<u8>>) -> Seq<Seq<u8>>
        recommends
            self.fits(),
    {
        Seq::new(
            self.len_spec() as nat,
            |i: int|
                if i < self.committed {
                    store[index_key(self.prefix@, i as u64)]
                } else {
                    self.pending@[i - self.committed]@
                },
        )
    }

    /// A fresh, empty list over `prefix`. Nothing is persisted until `flush`.
    pub fn new(prefix: Vec<u8>) -> (r: RawList)
        ensures
            r.prefix == prefix,
            r.committed == 0,
            r.pending@.len() == 0,
            r.fits(),
            forall|s: Map<Seq<u8>, Seq<u8>>| r.wf(s),
            forall|s: Map<Seq<u8>, Seq<u8>>| (#[trigger] r.raw_contents(s)).len() == 0,
    {
        RawList { prefix, committed: 0, pending: Vec::new() }
    }

    /// Reconstructs the handle of a persisted list from its metadata entry.
    /// Fails with `CorruptState` when the store has no well-formed counter
    /// under `prefix`.
    pub fn load(prefix: Vec<u8>, store: &FlatStore) -> (r: Result<RawList, StoreError>)
        ensures
            store@.contains_key(prefix@) && store@[prefix@].len() == 8 ==> (r matches Ok(l)
                && l.prefix == prefix && l.committed == be8_val(store@[prefix@])
                && l.pending@.len() == 0),
            !(store@.contains_key(prefix@) && store@[prefix@].len() == 8) ==> r == Err::<
                RawList,
                StoreError,
            >(StoreError::CorruptState),
    {
        match store.get(&prefix) {
            None => Err(StoreError::CorruptState),
            Some(meta) => match parse_be8(&meta) {
                None => Err(StoreError::CorruptState),
                Some(n) => Ok(RawList { prefix, committed: n, pending: Vec::new() }),
            },
        }
    }

    /// The number of elements, committed and pending together.
    pub fn len(&self) -> (r: u64)
        requires
            self.fits(),
        ensures
            r == self.len_spec(),
    {
        self.committed + (self.pending.len() as u64)
    }

    /// Appends `value` at the current length; it stays in the dirty cache
    /// until `flush`. Touches no other index.
    pub fn push(&mut self, value: Vec<u8>)
        requires
            old(self).len_spec() < u64::MAX,
        ensures
            final(self).prefix == old(self).prefix,
            final(self).committed == old(self).committed,
            final(self).pending@ == old(self).pending@.push(value),
            final(self).fits(),
            final(self).len_spec() == old(self).len_spec() + 1,
            forall|s: Map<Seq<u8>, Seq<u8>>| #[trigger]
                final(self).raw_contents(s) =~= old(self).raw_contents(s).push(value@),
            forall|s: Map<Seq<u8>, Seq<u8>>| old(self).wf(s) ==> final(self).wf(s),
    {
        self.pending.push(value);
    }

    /// Reads element `index`. Out-of-range access is the only
    /// caller-triggerable error; a committed index whose store entry is gone
    /// reports the broken invariant as `CorruptState`.
    pub fn get(&self, store: &FlatStore, index: u64) -> (r: Result<Vec<u8>, StoreError>)
        ensures
            index >= self.len_spec() ==> r == Err::<Vec<u8>, StoreError>(
                StoreError::IndexOutOfRange,
            ),
            index < self.committed && store@.contains_key(index_key(self.prefix@, index)) ==> (
            r matches Ok(v) && v@ == store@[index_key(self.prefix@, index)]),
            index < self.committed && !store@.contains_key(index_key(self.prefix@, index)) ==> r
                == Err::<Vec<u8>, StoreError>(StoreError::CorruptState),
            self.committed <= index < self.len_spec() ==> (r matches Ok(v) && v@ == self.pending@[
            index - self.committed]@),
            self.wf(store@) && index < self.len_spec() ==> (r matches Ok(v) && v@
                == self.raw_contents(store@)[index as int]),
    {
        if index < self.committed {
            let key = make_index_key(&self.prefix, index);
            match store.get(&key) {
                Some(v) => Ok(v),
                None => Err(StoreError::CorruptState),
            }
        } else {
            let off = index - self.committed;
            if off < self.pending.len() as u64 {
                Ok(clone_bytes(&self.pending[off as usize]))
            } else {
                Err(StoreError::IndexOutOfRange)
            }
        }
    }

    /// The values `get(0)` through `get(length - 1)`, in order: the eager
    /// form of iteration, restarted from the front on every call. Each
    /// committed element costs one store read.
    pub fn values(&self, store: &FlatStore) -> (r: Result<Vec<Vec<u8>>, StoreError>)
        requires
            self.fits(),
        ensures
            self.wf(store@) ==> (r matches Ok(v) && v@.len() == self.len_spec() && forall|q: int|
                0 <= q < v@.len() ==> (#[trigger] v@[q])@ == self.raw_contents(store@)[q]),
            r is Err ==> r == Err::<Vec<Vec<u8>>, StoreError>(StoreError::CorruptState),
    {
        let n = self.len();
        let mut out: Vec<Vec<u8>> = Vec::new();
        let mut j: u64 = 0;
        while j < n
            invariant
                j <= n,
                n == self.len_spec(),
                self.fits(),
                out@.len() == j,
                self.wf(store@) ==> forall|q: int|
                    0 <= q < j ==> (#[trigger] out@[q])@ == self.raw_contents(store@)[q],
            decreases n - j,
        {
            match self.get(store, j) {
                Err(_) => {
                    return Err(StoreError::CorruptState);
                },
                Ok(b) => {
                    out.push(b);
                },
            }
            j += 1;
        }
        Ok(out)
    }

    /// Writes the dirty tail and the updated element counter to the store.
    /// Only keys under this list's prefix change; committed elements keep
    /// their entries, so the logical contents are unchanged.
    pub fn flush(&mut self, store: &mut FlatStore)
        requires
            old(self).fits(),
        ensures
            final(self).prefix == old(self).prefix,
            final(self).committed == old(self).len_spec(),
            final(self).pending@.len() == 0,
            final(self).fits(),
            final(store)@.contains_key(old(self).prefix@),
            final(store)@[old(self).prefix@] == be8_of(old(self).len_spec() as u64),
            forall|i: u64|
                #![trigger index_key(old(self).prefix@, i)]
                old(self).committed <= i < old(self).len_spec()
                    ==> final(store)@.contains_key(index_key(old(self).prefix@, i))
                    && final(store)@[index_key(old(self).prefix@, i)]
                    == old(self).pending@[i - old(self).committed]@,
            forall|k: Seq<u8>|
                #![trigger final(store)@.contains_key(k)]
                #![trigger final(store)@[k]]
                (k != old(self).prefix@ && !(exists|i: u64|
                    old(self).committed <= i < old(self).len_spec()
                        && k == #[trigger] index_key(old(self).prefix@, i)))
                    ==> ((final(store)@.contains_key(k) <==> old(store)@.contains_key(k))
                    && (old(store)@.contains_key(k) ==> final(store)@[k] == old(store)@[k])),
            agrees_off_prefix(old(self).prefix@, old(store)@, final(store)@),
            old(self).wf(old(store)@) ==> final(self).wf(final(store)@),
            old(self).wf(old(store)@)
                ==> final(self).raw_contents(final(store)@)
                =~= old(self).raw_contents(old(store)@),
    {
        let ghost base = self.committed;
        let ghost pend = self.pending@;
        let ghost prefix0 = self.prefix@;
        let ghost store0 = store@;
        let n: usize = self.pending.len();
        let mut j: usize = 0;
        while j < n
            invariant
                j <= n,
                n == self.pending@.len(),
                self.prefix@ == prefix0,
                self.committed == base,
                self.pending@ == pend,
                base + n <= u64::MAX,
                forall|i: u64|
                    #![trigger index_key(prefix0, i)]
                    base <= i < base + j ==> store@.contains_key(index_key(prefix0, i))
                        && store@[index_key(prefix0, i)] == pend[i - base]@,
                forall|k: Seq<u8>|
                    #![trigger store@.contains_key(k)]
                    #![trigger store@[k]]
                    (!(exists|i: u64|
                        base <= i < base + j && k == #[trigger] index_key(prefix0, i))) ==> ((
                    store@.contains_key(k) <==> store0.contains_key(k)) && (store0.contains_key(k)
                        ==> store@[k] == store0[k])),
            decreases n - j,
        {
            let idx: u64 = self.committed + (j as u64);
            let key = make_index_key(&self.prefix, idx);
            let ghost snap = store@;
            store.set(&key, &self.pending[j]);
            proof {
                assert(store@ == snap.insert(index_key(prefix0, idx), pend[j as int]@));
                assert forall|i: u64|
                    #![trigger index_key(prefix0, i)]
                    base <= i < base + j + 1 implies store@.contains_key(index_key(prefix0, i))
                    && store@[index_key(prefix0, i)] == pend[i - base]@ by {
                    if i < base + j {
                        if index_key(prefix0, i) == index_key(prefix0, idx) {
                            lemma_index_key_injective(prefix0, i, idx);
                        }
                        assert(snap.contains_key(index_key(prefix0, i)));
                    } else {
                        assert(i == idx);
                    }
                }
                assert forall|k: Seq<u8>|
                    #![trigger store@.contains_key(k)]
                    #![trigger store@[k]]
                    (!(exists|i: u64|
                        base <= i < base + j + 1 && k == #[trigger] index_key(prefix0, i)))
                    implies ((store@.contains_key(k) <==> store0.contains_key(k)) && (
                store0.contains_key(k) ==> store@[k] == store0[k])) by {
                    assert(base <= idx < base + j + 1);
                    assert(k != index_key(prefix0, idx));
                    assert(!(exists|i: u64| base <= i < base + j && k == index_key(prefix0, i)));
                    assert(snap.contains_key(k) <==> store0.contains_key(k));
                    if store0.contains_key(k) {
                        assert(snap[k] == store0[k]);
                    }
                }
            }
            j += 1;
        }
        let newlen: u64 = self.committed + (n as u64);
        let meta = be8(newlen);
        let ghost snap2 = store@;
        store.set(&self.prefix, &meta);
        self.committed = newlen;
        self.pending.clear();
        proof {
            lemma_be8_roundtrip(newlen);
            assert(store@ == snap2.insert(prefix0, be8_of(newlen)));
            assert forall|i: u64|
                #![trigger index_key(prefix0, i)]
                base <= i < base + n implies store@.contains_key(index_key(prefix0, i))
                && store@[index_key(prefix0, i)] == pend[i - base]@ by {
                lemma_meta_key_distinct(prefix0, i, Seq::<char>::empty());
                assert(snap2.contains_key(index_key(prefix0, i)));
                assert(snap2[index_key(prefix0, i)] == pend[i - base]@);
            }
            assert forall|k: Seq<u8>|
                #![trigger store@.contains_key(k)]
                #![trigger store@[k]]
                (k != prefix0 && !(exists|i: u64|
                    base <= i < base + n && k == #[trigger] index_key(prefix0, i)))
                implies ((store@.contains_key(k) <==> store0.contains_key(k)) && (
            store0.contains_key(k) ==> store@[k] == store0[k])) by {
                assert(snap2.contains_key(k) <==> store0.contains_key(k));
                if store0.contains_key(k) {
                    assert(snap2[k] == store0[k]);
                }
            }
            assert forall|k: Seq<u8>| !is_prefix_of(prefix0, k) implies ((
            #[trigger] store0.contains_key(k) <==> store@.contains_key(k)) && (store0.contains_key(
                k,
            ) ==> store0[k] == store@[k])) by {
                lemma_keys_under_prefix(prefix0, 0, Seq::<char>::empty());
                assert(k != prefix0);
                assert forall|i: u64|
                    base <= i < base + n implies k != #[trigger] index_key(prefix0, i) by {
                    lemma_keys_under_prefix(prefix0, i, Seq::<char>::empty());
                }
                assert(store@.contains_key(k) <==> store0.contains_key(k));
                if store0.contains_key(k) {
                    assert(store@[k] == store0[k]);
                }
            }
            if old(self).wf(store0) {
                assert forall|i: u64|
                    i < newlen implies #[trigger] store@.contains_key(index_key(prefix0, i)) by {
                    if i < base {
                        lemma_meta_key_distinct(prefix0, i, Seq::<char>::empty());
                        assert forall|x: u64|
                            base <= x < base + n implies index_key(prefix0, i)
                            != #[trigger] index_key(prefix0, x) by {
                            if index_key(prefix0, i) == index_key(prefix0, x) {
                                lemma_index_key_injective(prefix0, i, x);
                            }
                        }
                        assert(store0.contains_key(index_key(prefix0, i)));
                        assert(store@.contains_key(index_key(prefix0, i)));
                    }
                }
                assert forall|i: int|
                    0 <= i < base implies store@[#[trigger] index_key(prefix0, i as u64)]
                    == store0[index_key(prefix0, i as u64)] by {
                    let iu = i as u64;
                    lemma_meta_key_distinct(prefix0, iu, Seq::<char>::empty());
                    assert forall|x: u64|
                        base <= x < base + n implies index_key(prefix0, iu)
                        != #[trigger] index_key(prefix0, x) by {
                        if index_key(prefix0, iu) == index_key(prefix0, x) {
                            lemma_index_key_injective(prefix0, iu, x);
                        }
                    }
                    assert(store0.contains_key(index_key(prefix0, iu)));
                    assert(store@[index_key(prefix0, iu)] == store0[index_key(prefix0, iu)]);
                }
                assert(self.raw_contents(store@) =~= old(self).raw_contents(store0));
            }
        }
    }
}

} // verus!
