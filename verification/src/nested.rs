//! A map whose values are lists, each persisted under its own derived prefix.
//!
//! The child list of key `k` lives under the prefix `str_key(parent, k)`:
//! the parent prefix, then the key's length, then its UTF-8 bytes, so that no
//! two nested lists collide even when one key is a prefix of another. That
//! derived prefix is at the same time the map's own entry for `k`, holding
//! the child's element counter; a key is initialized exactly when that entry
//! exists (or was created during this call), and re-initializing it fails
//! loudly. Lists touched during the current call are cached with their dirty
//! tails and written back by `flush`.

use crate::codec::{
    be8_of, be8_val, index_key, is_prefix_of, lemma_child_index_injective, lemma_keys_under_prefix,
    lemma_prefix_transitive, lemma_str_key_injective, lemma_str_key_not_child_index, make_str_key,
    small_key, str_key, str_to_bytes,
};
use crate::errs::StoreError;
use crate::list::{agree_under_prefix, agrees_off_prefix, lemma_list_frame, RawList};
use crate::store::FlatStore;
use vstd::prelude::*;
use vstd::utf8::{decode_utf8, encode_utf8, valid_utf8};

verus! {

/// One touched child: the key and the handle of its list.
pub struct NestedChild {
    pub key: String,
    pub list: RawList,
}

/// The persistent map of string keys to lists of strings.
pub struct NestedMap {
    /// The byte prefix of this map's key space.
    pub prefix: Vec<u8>,
    /// The children touched during this call.
    pub children: Vec<NestedChild>,
}

/// A raw list's contents read as strings.
pub open spec fn str_contents(list: RawList, store: Map<Seq<u8>, Seq<u8>>) -> Seq<Seq<char>> {
    Seq::new(list.len_spec() as nat, |i: int| decode_utf8(list.raw_contents(store)[i]))
}

impl NestedMap {
    /// This call touched the child under `k`.
    pub open spec fn touched(self, k: Seq<char>) -> bool {
        exists|i: int| 0 <= i < self.children@.len() && self.children@[i].key@ == k
    }

    /// The handle of the touched child under `k`.
    pub open spec fn child_at(self, k: Seq<char>) -> RawList {
        self.children@[choose|i: int|
            0 <= i < self.children@.len() && self.children@[i].key@ == k].list
    }

    /// Touched children are unique, carry the derived prefix of their key,
    /// and hold only well-formed dirty values.
    pub open spec fn children_wf(self) -> bool {
        &&& forall|i: int, j: int|
            0 <= i < j < self.children@.len() ==> (#[trigger] self.children@[i].key@)
                != (#[trigger] self.children@[j].key@)
        &&& forall|i: int|
            0 <= i < self.children@.len() ==> {
                let c = #[trigger] self.children@[i];
                &&& small_key(c.key@)
                &&& c.list.prefix@ == str_key(self.prefix@, c.key@)
                &&& c.list.fits()
                &&& forall|j: int|
                    0 <= j < c.list.pending@.len() ==> valid_utf8(#[trigger] c.list.pending@[j]@)
            }
    }

    /// The counter persisted for the committed child under `k`.
    pub open spec fn committed_len(self, store: Map<Seq<u8>, Seq<u8>>, k: Seq<char>) -> u64 {
        be8_val(store[str_key(self.prefix@, k)])
    }

    /// The committed child list under `k`, read directly from the store.
    pub open spec fn committed_child(self, store: Map<Seq<u8>, Seq<u8>>, k: Seq<char>) -> Seq<
        Seq<char>,
    > {
        Seq::new(
            self.committed_len(store, k) as nat,
            |i: int| decode_utf8(store[index_key(str_key(self.prefix@, k), i as u64)]),
        )
    }

    /// The key `k` has been initialized, this call or a committed one.
    pub open spec fn initialized(self, store: Map<Seq<u8>, Seq<u8>>, k: Seq<char>) -> bool {
        small_key(k) && (self.touched(k) || store.contains_key(str_key(self.prefix@, k)))
    }

    /// The mapping from initialized keys to their lists' contents.
    pub open spec fn contents(self, store: Map<Seq<u8>, Seq<u8>>) -> Map<Seq<char>, Seq<Seq<char>>> {
        Map::new(
            |k: Seq<char>| self.initialized(store, k),
            |k: Seq<char>|
                if self.touched(k) {
                    str_contents(self.child_at(k), store)
                } else {
                    self.committed_child(store, k)
                },
        )
    }

    /// Every committed child has a well-formed counter, all its elements, and
    /// decodable bytes everywhere; touched handles line up with the store.
    pub open spec fn wf(self, store: Map<Seq<u8>, Seq<u8>>) -> bool {
        &&& self.children_wf()
        &&& forall|k: Seq<char>|
            small_key(k) && #[trigger] store.contains_key(str_key(self.prefix@, k)) ==> {
                let cp = str_key(self.prefix@, k);
                &&& store[cp].len() == 8
                &&& forall|i: u64|
                    i < be8_val(store[cp]) ==> #[trigger] store.contains_key(index_key(cp, i))
                        && valid_utf8(store[index_key(cp, i)])
            }
        &&& forall|i: int|
            0 <= i < self.children@.len() ==> {
                let l = (#[trigger] self.children@[i]).list;
                &&& l.wf(store)
                &&& forall|j: u64|
                    j < l.committed ==> valid_utf8(#[trigger] store[index_key(l.prefix@, j)])
            }
    }

    /// With unique keys, the slot holding `k` is the one `child_at` reads.
    proof fn lemma_child_at(self, i: int, k: Seq<char>)
        requires
            self.children_wf(),
            0 <= i < self.children@.len(),
            self.children@[i].key@ == k,
        ensures
            self.touched(k),
            self.child_at(k) == self.children@[i].list,
    {
        let w = choose|w: int| 0 <= w < self.children@.len() && self.children@[w].key@ == k;
        if w != i {
            if w < i {
                assert(self.children@[w].key@ != self.children@[i].key@);
            } else {
                assert(self.children@[i].key@ != self.children@[w].key@);
            }
        }
    }

    /// A fresh, empty nested map over `prefix`.
    pub fn new(prefix: Vec<u8>) -> (r: NestedMap)
        ensures
            r.prefix == prefix,
            r.children@.len() == 0,
            r.children_wf(),
            forall|k: Seq<char>| !(#[trigger] r.touched(k)),
    {
        NestedMap { prefix, children: Vec::new() }
    }

    /// The touched slot holding `key`, if any.
    fn find(&self, key: &String) -> (r: Option<usize>)
        ensures
            r matches Some(i) ==> i < self.children@.len() && self.children@[i as int].key@
                == key@,
            r is None ==> !self.touched(key@),
            (r is Some) == self.touched(key@),
    {
        let mut i: usize = 0;
        let n: usize = self.children.len();
        while i < n
            invariant
                i <= n,
                n == self.children@.len(),
                forall|j: int| 0 <= j < i ==> self.children@[j].key@ != key@,
            decreases n - i,
        {
            if self.children[i].key == *key {
                return Some(i);
            }
            i += 1;
        }
        None
    }

    /// Creates the empty child list under `key`. Under strict initialization
    /// a key that already has one, touched or committed, is refused.
    pub fn init_nested(&mut self, store: &FlatStore, key: String) -> (r: Result<(), StoreError>)
        requires
            old(self).children_wf(),
        ensures
            final(self).prefix == old(self).prefix,
            final(self).children_wf(),
            old(self).contents(store@).contains_key(key@) ==> (r == Err::<(), StoreError>(
                StoreError::AlreadyInitialized,
            ) && *final(self) == *old(self)),
            !old(self).contents(store@).contains_key(key@) ==> (r == Ok::<(), StoreError>(())
                && final(self).contents(store@) == old(self).contents(store@).insert(
                key@,
                Seq::<Seq<char>>::empty(),
            )),
    {
        let ghost key_v = key@;
        let ghost kids0 = self.children@;
        match self.find(&key) {
            Some(i) => {
                proof {
                    assert(small_key(kids0[i as int].key@));
                }
                Err(StoreError::AlreadyInitialized)
            },
            None => {
                let sk = make_str_key(&self.prefix, key.as_str());
                if store.contains(&sk) {
                    Err(StoreError::AlreadyInitialized)
                } else {
                    self.children.push(NestedChild { key, list: RawList::new(sk) });
                    proof {
                        let c2 = self.children@;
                        let iw = c2.len() - 1;
                        assert forall|q: int, r2: int|
                            0 <= q < r2 < c2.len() implies (#[trigger] c2[q].key@)
                            != (#[trigger] c2[r2].key@) by {
                            if r2 == iw {
                                assert(c2[q].key@ == kids0[q].key@);
                            }
                        }
                        self.lemma_child_at(iw, key_v);
                        assert forall|k2: Seq<char>| #[trigger]
                            self.touched(k2) <==> (old(self).touched(k2) || k2 == key_v) by {
                            if self.touched(k2) && k2 != key_v {
                                let w = choose|w: int|
                                    0 <= w < c2.len() && c2[w].key@ == k2;
                                assert(w != iw);
                                assert(kids0[w].key@ == k2);
                            }
                            if old(self).touched(k2) {
                                let w = choose|w: int|
                                    0 <= w < kids0.len() && kids0[w].key@ == k2;
                                assert(c2[w].key@ == k2);
                            }
                        }
                        assert forall|k2: Seq<char>|
                            k2 != key_v && #[trigger] self.touched(k2) implies old(self).touched(k2)
                            && self.child_at(k2) == old(self).child_at(k2) by {
                            let w = choose|w: int| 0 <= w < c2.len() && c2[w].key@ == k2;
                            assert(w != iw);
                            assert(c2[w] == kids0[w]);
                            old(self).lemma_child_at(w, k2);
                            self.lemma_child_at(w, k2);
                        }
                        assert(str_contents(self.child_at(key_v), store@) =~= Seq::<
                            Seq<char>,
                        >::empty());
                        assert(self.contents(store@) =~= old(self).contents(store@).insert(
                            key_v,
                            Seq::<Seq<char>>::empty(),
                        ));
                    }
                    Ok(())
                }
            },
        }
    }

    /// Appends `value` to the child list under `key`; the key must have been
    /// initialized, this call or a committed one. The value stays in the
    /// child's dirty tail until `flush`.
    pub fn push_into(&mut self, store: &FlatStore, key: String, value: String) -> (r: Result<
        (),
        StoreError,
    >)
        requires
            old(self).children_wf(),
            old(self).touched(key@) ==> old(self).child_at(key@).len_spec() < u64::MAX,
            !old(self).touched(key@) && store@.contains_key(str_key(old(self).prefix@, key@))
                ==> be8_val(store@[str_key(old(self).prefix@, key@)]) < u64::MAX,
        ensures
            final(self).prefix == old(self).prefix,
            final(self).children_wf(),
            !old(self).contents(store@).contains_key(key@) ==> (r == Err::<(), StoreError>(
                StoreError::NotInitialized,
            ) && *final(self) == *old(self)),
            !old(self).touched(key@) && store@.contains_key(str_key(old(self).prefix@, key@))
                && store@[str_key(old(self).prefix@, key@)].len() != 8 ==> (r == Err::<
                (),
                StoreError,
            >(StoreError::CorruptState) && *final(self) == *old(self)),
            old(self).touched(key@) || (store@.contains_key(str_key(old(self).prefix@, key@))
                && store@[str_key(old(self).prefix@, key@)].len() == 8 && small_key(key@)) ==> (r
                == Ok::<(), StoreError>(()) && final(self).contents(store@) == old(self).contents(
                store@,
            ).insert(key@, old(self).contents(store@)[key@].push(value@))),
            r is Ok ==> final(self).touched(key@),
    {
        let ghost key_v = key@;
        let ghost val_v = value@;
        let ghost kids0 = self.children@;
        let found = self.find(&key);
        match found {
            Some(i) => {
                proof {
                    old(self).lemma_child_at(i as int, key_v);
                }
                let vb = str_to_bytes(value.as_str());
                proof {
                    broadcast use vstd::utf8::encode_utf8_valid_utf8, vstd::utf8::encode_utf8_decode_utf8;

                }
                self.children[i].list.push(vb);
                proof {
                    self.lemma_after_child_update(*old(self), i as int, key_v, val_v, store@);
                }
                Ok(())
            },
            None => {
                let sk = make_str_key(&self.prefix, key.as_str());
                match store.get(&sk) {
                    None => Err(StoreError::NotInitialized),
                    Some(meta) => match crate::codec::parse_be8(&meta) {
                        None => Err(StoreError::CorruptState),
                        Some(n) => {
                            let vb = str_to_bytes(value.as_str());
                            proof {
                                broadcast use vstd::utf8::encode_utf8_valid_utf8, vstd::utf8::encode_utf8_decode_utf8;

                            }
                            let mut list = RawList { prefix: sk, committed: n, pending: Vec::new() };
                            list.push(vb);
                            self.children.push(NestedChild { key, list });
                            proof {
                                self.lemma_after_child_load(*old(self), key_v, val_v, store@);
                            }
                            Ok(())
                        },
                    },
                }
            },
        }
    }

    /// After pushing one value into the touched child at slot `i`, the
    /// mapping binds `k` to its old list with that value appended.
    proof fn lemma_after_child_update(
        self,
        m1: NestedMap,
        i: int,
        k: Seq<char>,
        v: Seq<char>,
        store: Map<Seq<u8>, Seq<u8>>,
    )
        requires
            m1.children_wf(),
            0 <= i < m1.children@.len(),
            m1.children@[i].key@ == k,
            m1.children@[i].list.len_spec() < u64::MAX,
            self.prefix@ == m1.prefix@,
            self.children@.len() == m1.children@.len(),
            forall|q: int|
                0 <= q < m1.children@.len() && q != i ==> #[trigger] self.children@[q]
                    == m1.children@[q],
            self.children@[i].key == m1.children@[i].key,
            self.children@[i].list.prefix == m1.children@[i].list.prefix,
            self.children@[i].list.committed == m1.children@[i].list.committed,
            self.children@[i].list.pending@ == m1.children@[i].list.pending@.push(
                self.children@[i].list.pending@.last(),
            ),
            decode_utf8(self.children@[i].list.pending@.last()@) == v,
            valid_utf8(self.children@[i].list.pending@.last()@),
        ensures
            self.children_wf(),
            self.contents(store) == m1.contents(store).insert(
                k,
                m1.contents(store)[k].push(v),
            ),
    {
        let c1 = m1.children@;
        let c2 = self.children@;
        assert forall|q: int, r2: int|
            0 <= q < r2 < c2.len() implies (#[trigger] c2[q].key@) != (#[trigger] c2[r2].key@) by {
            assert(c2[q].key@ == c1[q].key@);
            assert(c2[r2].key@ == c1[r2].key@);
        }
        assert forall|q: int| 0 <= q < c2.len() implies {
            let c = #[trigger] c2[q];
            &&& small_key(c.key@)
            &&& c.list.prefix@ == str_key(self.prefix@, c.key@)
            &&& c.list.fits()
            &&& forall|j: int|
                0 <= j < c.list.pending@.len() ==> valid_utf8(#[trigger] c.list.pending@[j]@)
        } by {
            assert(c1[q].key@ == c2[q].key@);
            if q == i {
                assert forall|j: int|
                    0 <= j < c2[q].list.pending@.len() implies valid_utf8(
                    #[trigger] c2[q].list.pending@[j]@,
                ) by {
                    if j < c1[q].list.pending@.len() {
                        assert(c2[q].list.pending@[j] == c1[q].list.pending@[j]);
                    }
                }
            }
        }
        m1.lemma_child_at(i, k);
        self.lemma_child_at(i, k);
        assert forall|k2: Seq<char>| #[trigger] self.touched(k2) == m1.touched(k2) by {
            if self.touched(k2) {
                let w = choose|w: int| 0 <= w < c2.len() && c2[w].key@ == k2;
                assert(c1[w].key@ == k2);
            }
            if m1.touched(k2) {
                let w = choose|w: int| 0 <= w < c1.len() && c1[w].key@ == k2;
                assert(c2[w].key@ == k2);
            }
        }
        assert forall|k2: Seq<char>|
            k2 != k && #[trigger] self.touched(k2) implies self.child_at(k2) == m1.child_at(
            k2,
        ) by {
            let w = choose|w: int| 0 <= w < c2.len() && c2[w].key@ == k2;
            assert(w != i);
            assert(c2[w] == c1[w]);
            m1.lemma_child_at(w, k2);
            self.lemma_child_at(w, k2);
        }
        assert(str_contents(self.child_at(k), store) =~= str_contents(
            m1.child_at(k),
            store,
        ).push(v)) by {
            let l1 = m1.children@[i].list;
            let l2 = self.children@[i].list;
            assert forall|x: int|
                0 <= x < l1.len_spec() implies l2.raw_contents(store)[x] == l1.raw_contents(
                store,
            )[x] by {
                if x >= l1.committed {
                    assert(l2.pending@[x - l2.committed] == l1.pending@[x - l1.committed]);
                }
            }
            assert(l2.raw_contents(store)[l1.len_spec()] == l2.pending@.last()@);
        }
        assert(self.contents(store) =~= m1.contents(store).insert(
            k,
            m1.contents(store)[k].push(v),
        ));
    }

    /// After loading the committed child under `k` and pushing one value,
    /// the mapping binds `k` to its committed list with that value appended.
    proof fn lemma_after_child_load(
        self,
        m1: NestedMap,
        k: Seq<char>,
        v: Seq<char>,
        store: Map<Seq<u8>, Seq<u8>>,
    )
        requires
            m1.children_wf(),
            !m1.touched(k),
            small_key(k),
            store.contains_key(str_key(m1.prefix@, k)),
            self.prefix@ == m1.prefix@,
            self.children@.len() == m1.children@.len() + 1,
            forall|q: int|
                0 <= q < m1.children@.len() ==> #[trigger] self.children@[q] == m1.children@[q],
            self.children@.last().key@ == k,
            self.children@.last().list.prefix@ == str_key(m1.prefix@, k),
            self.children@.last().list.committed == be8_val(store[str_key(m1.prefix@, k)]),
            self.children@.last().list.committed < u64::MAX,
            self.children@.last().list.pending@.len() == 1,
            decode_utf8(self.children@.last().list.pending@[0]@) == v,
            valid_utf8(self.children@.last().list.pending@[0]@),
        ensures
            self.children_wf(),
            self.contents(store) == m1.contents(store).insert(
                k,
                m1.contents(store)[k].push(v),
            ),
    {
        let c1 = m1.children@;
        let c2 = self.children@;
        let iw = c2.len() - 1;
        assert forall|q: int, r2: int|
            0 <= q < r2 < c2.len() implies (#[trigger] c2[q].key@) != (#[trigger] c2[r2].key@) by {
            if r2 == iw {
                assert(c2[q].key@ == c1[q].key@);
                if c2[q].key@ == k {
                    assert(m1.touched(k));
                }
            } else {
                assert(c2[q].key@ == c1[q].key@);
                assert(c2[r2].key@ == c1[r2].key@);
            }
        }
        assert(self.children_wf());
        self.lemma_child_at(iw, k);
        assert forall|k2: Seq<char>| #[trigger]
            self.touched(k2) <==> (m1.touched(k2) || k2 == k) by {
            if self.touched(k2) && k2 != k {
                let w = choose|w: int| 0 <= w < c2.len() && c2[w].key@ == k2;
                assert(w != iw);
                assert(c1[w].key@ == k2);
            }
            if m1.touched(k2) {
                let w = choose|w: int| 0 <= w < c1.len() && c1[w].key@ == k2;
                assert(c2[w].key@ == k2);
            }
        }
        assert forall|k2: Seq<char>|
            k2 != k && #[trigger] self.touched(k2) implies self.child_at(k2) == m1.child_at(
            k2,
        ) by {
            let w = choose|w: int| 0 <= w < c2.len() && c2[w].key@ == k2;
            assert(w != iw);
            assert(c2[w] == c1[w]);
            m1.lemma_child_at(w, k2);
            self.lemma_child_at(w, k2);
        }
        assert(str_contents(self.child_at(k), store) =~= m1.committed_child(store, k).push(v)) by {
            let l2 = self.children@.last().list;
            assert forall|x: int|
                0 <= x < l2.committed implies l2.raw_contents(store)[x] == store[index_key(
                str_key(m1.prefix@, k),
                x as u64,
            )] by {}
            assert(l2.raw_contents(store)[l2.committed as int] == l2.pending@[0]@);
        }
        assert(self.contents(store) =~= m1.contents(store).insert(
            k,
            m1.contents(store)[k].push(v),
        ));
    }

    /// Appends every value, in order, to the child list under `key`. An
    /// uninitialized key is refused before anything is written.
    pub fn extend_into(&mut self, store: &FlatStore, key: String, values: Vec<String>) -> (r:
        Result<(), StoreError>)
        requires
            old(self).children_wf(),
            old(self).touched(key@) ==> old(self).child_at(key@).len_spec() + values@.len()
                <= u64::MAX,
            !old(self).touched(key@) && store@.contains_key(str_key(old(self).prefix@, key@))
                ==> be8_val(store@[str_key(old(self).prefix@, key@)]) + values@.len() <= u64::MAX,
        ensures
            final(self).prefix == old(self).prefix,
            final(self).children_wf(),
            !old(self).contents(store@).contains_key(key@) ==> (r == Err::<(), StoreError>(
                StoreError::NotInitialized,
            ) && *final(self) == *old(self)),
            !old(self).touched(key@) && store@.contains_key(str_key(old(self).prefix@, key@))
                && store@[str_key(old(self).prefix@, key@)].len() != 8 ==> (r == Err::<
                (),
                StoreError,
            >(StoreError::CorruptState) && *final(self) == *old(self)),
            old(self).touched(key@) || (store@.contains_key(str_key(old(self).prefix@, key@))
                && store@[str_key(old(self).prefix@, key@)].len() == 8 && small_key(key@)) ==> (r
                == Ok::<(), StoreError>(()) && final(self).contents(store@) == old(self).contents(
                store@,
            ).insert(key@, old(self).contents(store@)[key@] + crate::json::strs_view(values@))),
    {
        let ghost views = crate::json::strs_view(values@);
        match self.find(&key) {
            Some(_) => {},
            None => {
                let sk = make_str_key(&self.prefix, key.as_str());
                match store.get(&sk) {
                    None => {
                        return Err(StoreError::NotInitialized);
                    },
                    Some(meta) => {
                        if meta.len() != 8 {
                            return Err(StoreError::CorruptState);
                        }
                    },
                }
            },
        }
        let ghost old_val = old(self).contents(store@)[key@];
        let n: usize = values.len();
        let mut j: usize = 0;
        while j < n
            invariant
                j <= n,
                n == values@.len(),
                views == crate::json::strs_view(values@),
                old_val == old(self).contents(store@)[key@],
                self.prefix == old(self).prefix,
                self.children_wf(),
                old(self).children_wf(),
                old(self).touched(key@) || (store@.contains_key(str_key(old(self).prefix@, key@))
                    && store@[str_key(old(self).prefix@, key@)].len() == 8 && small_key(key@)),
                old(self).touched(key@) ==> old(self).child_at(key@).len_spec() + n <= u64::MAX,
                !old(self).touched(key@) ==> be8_val(store@[str_key(old(self).prefix@, key@)]) + n
                    <= u64::MAX,
                j == 0 ==> *self == *old(self),
                j > 0 ==> self.touched(key@) && self.contents(store@) == old(self).contents(
                    store@,
                ).insert(key@, old_val + views.take(j as int)),
            decreases n - j,
        {
            proof {
                if j > 0 {
                    assert(self.contents(store@).contains_key(key@));
                    assert(self.child_at(key@).len_spec() == self.contents(store@)[key@].len());
                    assert(old_val.len() <= u64::MAX);
                }
                if j == 0 && old(self).touched(key@) {
                    assert(self.child_at(key@).len_spec() == old(self).child_at(key@).len_spec());
                }
            }
            let r = self.push_into(store, key.clone(), values[j].clone());
            proof {
                assert(r is Ok);
                let cur = self.contents(store@);
                if j == 0 {
                    assert(old_val + views.take(1) =~= old_val.push(views[0]));
                } else {
                    assert(old_val + views.take(j + 1) =~= (old_val + views.take(j as int)).push(
                        views[j as int],
                    ));
                    assert(self.contents(store@) =~= old(self).contents(store@).insert(
                        key@,
                        old_val + views.take(j + 1),
                    ));
                }
            }
            j += 1;
        }
        proof {
            assert(views.take(n as int) =~= views);
            if n == 0 {
                assert(old(self).contents(store@).contains_key(key@));
                assert(old_val + views =~= old_val);
                assert(self.contents(store@) =~= old(self).contents(store@).insert(
                    key@,
                    old_val + views,
                ));
            }
        }
        Ok(())
    }

    /// The full contents of the child list under `key`, in insertion order.
    pub fn get_all(&self, store: &FlatStore, key: &String) -> (r: Result<Vec<String>, StoreError>)
        requires
            self.children_wf(),
        ensures
            !self.contents(store@).contains_key(key@) ==> r == Err::<Vec<String>, StoreError>(
                StoreError::NotInitialized,
            ),
            r == Err::<Vec<String>, StoreError>(StoreError::NotInitialized) ==> !self.contents(
                store@,
            ).contains_key(key@),
            self.wf(store@) && self.contents(store@).contains_key(key@) ==> (r matches Ok(v)
                && v@.len() == self.contents(store@)[key@].len() && forall|q: int|
                0 <= q < v@.len() ==> (#[trigger] v@[q])@ == self.contents(store@)[key@][q]),
    {
        let r = match self.find(key) {
            Some(i) => {
                proof {
                    self.lemma_child_at(i as int, key@);
                    if self.wf(store@) {
                        assert(self.children@[i as int].list.wf(store@));
                        assert(forall|j: u64|
                            j < self.children@[i as int].list.committed ==> valid_utf8(
                                #[trigger] store@[index_key(
                                    self.children@[i as int].list.prefix@,
                                    j,
                                )],
                            ));
                        assert(forall|j: int|
                            0 <= j < self.children@[i as int].list.pending@.len() ==> valid_utf8(
                                #[trigger] self.children@[i as int].list.pending@[j]@,
                            ));
                    }
                }
                let r1 = collect_strings(&self.children[i].list, store);
                proof {
                    if self.wf(store@) && self.contents(store@).contains_key(key@) {
                        assert(r1 is Ok);
                        assert(r1 matches Ok(v) ==> v@.len() == self.contents(store@)[key@].len());
                        assert(r1 matches Ok(v) ==> forall|q: int|
                            0 <= q < v@.len() ==> (#[trigger] v@[q])@ == self.contents(store@)[
                            key@][q]);
                    }
                }
                r1
            },
            None => {
                let sk = make_str_key(&self.prefix, key.as_str());
                match store.get(&sk) {
                    None => Err(StoreError::NotInitialized),
                    Some(meta) => {
                        proof {
                            if self.wf(store@) {
                                assert(small_key(key@));
                                assert(store@.contains_key(str_key(self.prefix@, key@)));
                                assert(meta@ == store@[str_key(self.prefix@, key@)]);
                                assert(meta@.len() == 8);
                            }
                        }
                        match crate::codec::parse_be8(&meta) {
                            None => Err(StoreError::CorruptState),
                            Some(nlen) => {
                                let list = RawList {
                                    prefix: sk,
                                    committed: nlen,
                                    pending: Vec::new(),
                                };
                                proof {
                                    if self.wf(store@) {
                                        let cp = str_key(self.prefix@, key@);
                                        assert(nlen == be8_val(store@[cp]));
                                        assert(forall|x: u64|
                                            x < be8_val(store@[cp])
                                                ==> #[trigger] store@.contains_key(index_key(cp, x))
                                                && valid_utf8(store@[index_key(cp, x)]));
                                        assert(list.wf(store@));
                                        assert forall|x: u64|
                                            x < list.committed implies valid_utf8(
                                            #[trigger] store@[index_key(list.prefix@, x)],
                                        ) by {
                                            assert(store@.contains_key(index_key(cp, x)));
                                        }
                                        assert(str_contents(list, store@)
                                            =~= self.committed_child(store@, key@));
                                    }
                                }
                                let r2 = collect_strings(&list, store);
                                proof {
                                    if self.wf(store@) && self.contents(store@).contains_key(
                                        key@,
                                    ) {
                                        assert(r2 is Ok);
                                        assert(r2 matches Ok(v) ==> v@.len() == self.contents(
                                            store@,
                                        )[key@].len());
                                        assert(r2 matches Ok(v) ==> forall|q: int|
                                            0 <= q < v@.len() ==> (#[trigger] v@[q])@
                                                == self.contents(store@)[key@][q]);
                                    }
                                }
                                r2
                            },
                        }
                    },
                }
            },
        };
        r
    }

    /// The number of elements of the child list under `key`.
    pub fn len_of(&self, store: &FlatStore, key: &String) -> (r: Result<u64, StoreError>)
        requires
            self.children_wf(),
        ensures
            !self.contents(store@).contains_key(key@) ==> r == Err::<u64, StoreError>(
                StoreError::NotInitialized,
            ),
            self.touched(key@) ==> r == Ok::<u64, StoreError>(
                self.child_at(key@).len_spec() as u64,
            ),
            !self.touched(key@) && store@.contains_key(str_key(self.prefix@, key@)) && store@[
            str_key(self.prefix@, key@)].len() == 8 ==> r == Ok::<u64, StoreError>(
                be8_val(store@[str_key(self.prefix@, key@)]),
            ),
            !self.touched(key@) && store@.contains_key(str_key(self.prefix@, key@)) && store@[
            str_key(self.prefix@, key@)].len() != 8 ==> r == Err::<u64, StoreError>(
                StoreError::CorruptState,
            ),
    {
        match self.find(key) {
            Some(i) => {
                proof {
                    self.lemma_child_at(i as int, key@);
                }
                Ok(self.children[i].list.len())
            },
            None => {
                let sk = make_str_key(&self.prefix, key.as_str());
                match store.get(&sk) {
                    None => Err(StoreError::NotInitialized),
                    Some(meta) => match crate::codec::parse_be8(&meta) {
                        None => Err(StoreError::CorruptState),
                        Some(n) => Ok(n),
                    },
                }
            },
        }
    }

    /// The child list under `key`, rendered as a JSON array of strings.
    pub fn get_all_serialized(&self, store: &FlatStore, key: &String) -> (r: Result<
        String,
        StoreError,
    >)
        requires
            self.children_wf(),
        ensures
            !self.contents(store@).contains_key(key@) ==> r == Err::<String, StoreError>(
                StoreError::NotInitialized,
            ),
            self.wf(store@) && self.contents(store@).contains_key(key@) ==> (r matches Ok(s) && s@
                == crate::json::json_array(self.contents(store@)[key@])),
    {
        match self.get_all(store, key) {
            Err(e) => Err(e),
            Ok(v) => {
                let s = crate::json::sequence_to_json(&v);
                proof {
                    if self.wf(store@) && self.contents(store@).contains_key(key@) {
                        assert(crate::json::strs_view(v@) =~= self.contents(store@)[key@]);
                    }
                }
                Ok(s)
            },
        }
    }

    /// Writes every touched child's counter and dirty tail to the store and
    /// empties the cache. Only keys under this map's prefix change; the
    /// mapping itself is unchanged.
    pub fn flush(&mut self, store: &mut FlatStore)
        requires
            old(self).children_wf(),
        ensures
            final(self).prefix == old(self).prefix,
            final(self).children@.len() == 0,
            final(self).children_wf(),
            agrees_off_prefix(old(self).prefix@, old(store)@, final(store)@),
            old(self).wf(old(store)@) ==> final(self).wf(final(store)@),
            old(self).wf(old(store)@) ==> final(self).contents(final(store)@) == old(
                self,
            ).contents(old(store)@),
            old(self).children@.len() == 0 ==> final(store)@ == old(store)@,
    {
        let ghost prefix0 = self.prefix@;
        let ghost kids0 = self.children@;
        let ghost store0 = store@;
        let n: usize = self.children.len();
        let mut j: usize = 0;
        while j < n
            invariant
                j <= n,
                n == self.children@.len(),
                self.prefix == old(self).prefix,
                self.prefix@ == prefix0,
                kids0 == old(self).children@,
                kids0.len() == n,
                old(self).children_wf(),
                forall|i: int| j <= i < n ==> #[trigger] self.children@[i] == kids0[i],
                forall|i: int|
                    0 <= i < j ==> (#[trigger] self.children@[i]).key == kids0[i].key
                        && self.children@[i].list.prefix == kids0[i].list.prefix
                        && self.children@[i].list.committed == kids0[i].list.len_spec()
                        && self.children@[i].list.pending@.len() == 0,
                forall|i: int|
                    #![trigger kids0[i]]
                    0 <= i < j ==> store@.contains_key(str_key(prefix0, kids0[i].key@)) && store@[
                    str_key(prefix0, kids0[i].key@)] == be8_of(kids0[i].list.len_spec() as u64),
                forall|i: int, x: u64|
                    #![trigger kids0[i], index_key(str_key(prefix0, kids0[i].key@), x)]
                    0 <= i < j && kids0[i].list.committed <= x < kids0[i].list.len_spec()
                        ==> store@.contains_key(index_key(str_key(prefix0, kids0[i].key@), x))
                        && store@[index_key(str_key(prefix0, kids0[i].key@), x)]
                        == kids0[i].list.pending@[x - kids0[i].list.committed]@,
                forall|k: Seq<u8>|
                    #![trigger store@.contains_key(k)]
                    #![trigger store@[k]]
                    !written_by(prefix0, kids0, j as int, k) ==> ((store@.contains_key(k)
                        <==> store0.contains_key(k)) && (store0.contains_key(k) ==> store@[k]
                        == store0[k])),
            decreases n - j,
        {
            let ghost store_mid = store@;
            let ghost cj = kids0[j as int];
            let ghost cjp = str_key(prefix0, cj.key@);
            proof {
                assert(self.children@[j as int] == cj);
                assert(old(self).children@[j as int] == cj);
                assert(cj.list.fits());
                assert(cj.list.prefix@ == cjp);
            }
            self.children[j].list.flush(store);
            proof {
                assert forall|i: int|
                    #![trigger kids0[i]]
                    0 <= i < j + 1 implies store@.contains_key(str_key(prefix0, kids0[i].key@))
                    && store@[str_key(prefix0, kids0[i].key@)] == be8_of(
                    kids0[i].list.len_spec() as u64,
                ) by {
                    if i < j {
                        let ki = kids0[i].key@;
                        if str_key(prefix0, ki) == cjp {
                            lemma_str_key_injective(prefix0, ki, cj.key@);
                        }
                        assert forall|x: u64|
                            cj.list.committed <= x < cj.list.len_spec() implies str_key(prefix0, ki)
                            != #[trigger] index_key(cjp, x) by {
                            lemma_str_key_not_child_index(prefix0, ki, cj.key@, x);
                        }
                        assert(store_mid.contains_key(str_key(prefix0, ki)));
                        assert(store_mid[str_key(prefix0, ki)] == be8_of(
                            kids0[i].list.len_spec() as u64,
                        ));
                    }
                }
                assert forall|i: int, x: u64|
                    #![trigger kids0[i], index_key(str_key(prefix0, kids0[i].key@), x)]
                    0 <= i < j + 1 && kids0[i].list.committed <= x < kids0[i].list.len_spec()
                    implies store@.contains_key(index_key(str_key(prefix0, kids0[i].key@), x))
                    && store@[index_key(str_key(prefix0, kids0[i].key@), x)]
                    == kids0[i].list.pending@[x - kids0[i].list.committed]@ by {
                    if i < j {
                        let ki = kids0[i].key@;
                        let kk = index_key(str_key(prefix0, ki), x);
                        if kk == cjp {
                            lemma_str_key_not_child_index(prefix0, cj.key@, ki, x);
                        }
                        assert forall|y: u64|
                            cj.list.committed <= y < cj.list.len_spec() implies kk
                            != #[trigger] index_key(cjp, y) by {
                            if kk == index_key(cjp, y) {
                                lemma_child_index_injective(prefix0, ki, x, cj.key@, y);
                            }
                        }
                        assert(store_mid.contains_key(kk));
                        assert(store_mid[kk] == kids0[i].list.pending@[x
                            - kids0[i].list.committed]@);
                    }
                }
                assert forall|k: Seq<u8>|
                    #![trigger store@.contains_key(k)]
                    #![trigger store@[k]]
                    !written_by(prefix0, kids0, j + 1, k) implies ((store@.contains_key(k)
                        <==> store0.contains_key(k)) && (store0.contains_key(k) ==> store@[k]
                        == store0[k])) by {
                    assert(!written_by(prefix0, kids0, j as int, k)) by {
                        if written_by(prefix0, kids0, j as int, k) {
                            let i = choose|i: int|
                                0 <= i < j && (k == str_key(prefix0, (#[trigger] kids0[i]).key@)
                                    || (exists|x: u64|
                                    kids0[i].list.committed <= x < kids0[i].list.len_spec() && k
                                        == #[trigger] index_key(
                                        str_key(prefix0, kids0[i].key@),
                                        x,
                                    )));
                            assert(0 <= i < j + 1);
                        }
                    }
                    assert(k != cjp) by {
                        if k == cjp {
                            assert(k == str_key(prefix0, (kids0[j as int]).key@));
                        }
                    }
                    assert(!(exists|x: u64|
                        cj.list.committed <= x < cj.list.len_spec() && k == #[trigger] index_key(
                            cjp,
                            x,
                        ))) by {
                        if exists|x: u64|
                            cj.list.committed <= x < cj.list.len_spec() && k == #[trigger] index_key(
                                cjp,
                                x,
                            ) {
                            assert(written_by(prefix0, kids0, j + 1, k));
                        }
                    }
                    assert(store_mid.contains_key(k) <==> store0.contains_key(k));
                    if store0.contains_key(k) {
                        assert(store_mid[k] == store0[k]);
                    }
                }
            }
            j += 1;
        }
        self.children.clear();
        proof {
            let storef = store@;
            assert forall|k: Seq<u8>| !is_prefix_of(prefix0, k) implies ((
            #[trigger] store0.contains_key(k) <==> storef.contains_key(k)) && (store0.contains_key(
                k,
            ) ==> store0[k] == storef[k])) by {
                assert(!written_by(prefix0, kids0, n as int, k)) by {
                    if written_by(prefix0, kids0, n as int, k) {
                        let i = choose|i: int|
                            0 <= i < n && (k == str_key(prefix0, (#[trigger] kids0[i]).key@) || (
                            exists|x: u64|
                                kids0[i].list.committed <= x < kids0[i].list.len_spec() && k
                                    == #[trigger] index_key(str_key(prefix0, kids0[i].key@), x)));
                        lemma_keys_under_prefix(prefix0, 0, kids0[i].key@);
                        if k == str_key(prefix0, kids0[i].key@) {
                        } else {
                            let x = choose|x: u64|
                                kids0[i].list.committed <= x < kids0[i].list.len_spec() && k
                                    == #[trigger] index_key(str_key(prefix0, kids0[i].key@), x);
                            lemma_keys_under_prefix(str_key(prefix0, kids0[i].key@), x, kids0[i].key@);
                            lemma_prefix_transitive(
                                prefix0,
                                str_key(prefix0, kids0[i].key@),
                                index_key(str_key(prefix0, kids0[i].key@), x),
                            );
                        }
                    }
                }
                assert(storef.contains_key(k) <==> store0.contains_key(k));
                if store0.contains_key(k) {
                    assert(storef[k] == store0[k]);
                }
            }
            if old(self).wf(store0) {
                let m0 = *old(self);
                assert forall|k2: Seq<char>|
                    small_key(k2) && #[trigger] storef.contains_key(str_key(prefix0, k2)) implies {
                    let cp = str_key(prefix0, k2);
                    &&& storef[cp].len() == 8
                    &&& forall|x: u64|
                        x < be8_val(storef[cp]) ==> #[trigger] storef.contains_key(index_key(cp, x))
                            && valid_utf8(storef[index_key(cp, x)])
                } by {
                    let cp = str_key(prefix0, k2);
                    if exists|i: int| 0 <= i < n && (#[trigger] kids0[i]).key@ == k2 {
                        let i = choose|i: int| 0 <= i < n && (#[trigger] kids0[i]).key@ == k2;
                        let li = kids0[i].list;
                        assert(storef[cp] == be8_of(li.len_spec() as u64));
                        crate::codec::lemma_be8_roundtrip(li.len_spec() as u64);
                        assert forall|x: u64|
                            x < be8_val(storef[cp]) implies #[trigger] storef.contains_key(
                            index_key(cp, x),
                        ) && valid_utf8(storef[index_key(cp, x)]) by {
                            if x < li.committed {
                                assert forall|m: int|
                                    0 <= m < n implies ((#[trigger] kids0[m]).key@ != k2 || x
                                        < kids0[m].list.committed) by {
                                    if kids0[m].key@ == k2 && m != i {
                                        if m < i {
                                            assert(kids0[m].key@ != kids0[i].key@);
                                        } else {
                                            assert(kids0[i].key@ != kids0[m].key@);
                                        }
                                    }
                                }
                                lemma_elem_unwritten(prefix0, kids0, n as int, k2, x);
                                assert(li.wf(store0));
                                assert(store0.contains_key(index_key(cp, x)));
                                assert(valid_utf8(store0[index_key(cp, x)]));
                                assert(storef.contains_key(index_key(cp, x)));
                                assert(storef[index_key(cp, x)] == store0[index_key(cp, x)]);
                            } else {
                                assert(storef[index_key(cp, x)] == li.pending@[x - li.committed]@);
                                assert(valid_utf8(li.pending@[x - li.committed]@));
                            }
                        }
                    } else {
                        assert(forall|i: int| 0 <= i < n ==> (#[trigger] kids0[i]).key@ != k2);
                        lemma_meta_unwritten(prefix0, kids0, n as int, k2);
                        assert(store0.contains_key(cp));
                        assert(storef[cp] == store0[cp]);
                        assert(store0[cp].len() == 8);
                        assert forall|x: u64|
                            x < be8_val(storef[cp]) implies #[trigger] storef.contains_key(
                            index_key(cp, x),
                        ) && valid_utf8(storef[index_key(cp, x)]) by {
                            lemma_elem_unwritten(prefix0, kids0, n as int, k2, x);
                            assert(store0.contains_key(index_key(cp, x)));
                            assert(valid_utf8(store0[index_key(cp, x)]));
                            assert(storef[index_key(cp, x)] == store0[index_key(cp, x)]);
                        }
                    }
                }
                assert(self.wf(storef));
                assert forall|k2: Seq<char>| true implies #[trigger] self.contents(
                    storef,
                ).contains_key(k2) == m0.contents(store0).contains_key(k2) && (self.contents(
                    storef,
                ).contains_key(k2) ==> self.contents(storef)[k2] == m0.contents(store0)[k2]) by {
                    if small_key(k2) {
                        let cp = str_key(prefix0, k2);
                        if exists|i: int| 0 <= i < n && (#[trigger] kids0[i]).key@ == k2 {
                            let i = choose|i: int| 0 <= i < n && (#[trigger] kids0[i]).key@ == k2;
                            let li = kids0[i].list;
                            m0.lemma_child_at(i, k2);
                            assert(storef.contains_key(cp));
                            assert(storef[cp] == be8_of(li.len_spec() as u64));
                            crate::codec::lemma_be8_roundtrip(li.len_spec() as u64);
                            assert forall|m: int|
                                0 <= m < n implies ((#[trigger] kids0[m]).key@ != k2 || m == i) by {
                                if kids0[m].key@ == k2 && m != i {
                                    if m < i {
                                        assert(kids0[m].key@ != kids0[i].key@);
                                    } else {
                                        assert(kids0[i].key@ != kids0[m].key@);
                                    }
                                }
                            }
                            assert(self.committed_child(storef, k2) =~= str_contents(
                                li,
                                store0,
                            )) by {
                                assert forall|x: int|
                                    0 <= x < li.len_spec() implies self.committed_child(
                                    storef,
                                    k2,
                                )[x] == str_contents(li, store0)[x] by {
                                    let xu = x as u64;
                                    if x < li.committed {
                                        assert forall|m: int|
                                            0 <= m < n implies ((#[trigger] kids0[m]).key@ != k2
                                                || xu < kids0[m].list.committed) by {}
                                        lemma_elem_unwritten(prefix0, kids0, n as int, k2, xu);
                                        assert(storef[index_key(cp, xu)] == store0[index_key(
                                            cp,
                                            xu,
                                        )]);
                                    } else {
                                        assert(storef[index_key(cp, xu)] == li.pending@[x
                                            - li.committed]@);
                                    }
                                }
                            }
                        } else {
                            assert(forall|i: int|
                                0 <= i < n ==> (#[trigger] kids0[i]).key@ != k2);
                            lemma_meta_unwritten(prefix0, kids0, n as int, k2);
                            assert(storef.contains_key(cp) <==> store0.contains_key(cp));
                            if store0.contains_key(cp) {
                                assert(storef[cp] == store0[cp]);
                                assert(self.committed_child(storef, k2) =~= m0.committed_child(
                                    store0,
                                    k2,
                                )) by {
                                    assert forall|x: int|
                                        0 <= x < be8_val(store0[cp]) implies self.committed_child(
                                        storef,
                                        k2,
                                    )[x] == m0.committed_child(store0, k2)[x] by {
                                        let xu = x as u64;
                                        lemma_elem_unwritten(prefix0, kids0, n as int, k2, xu);
                                        assert(storef[index_key(cp, xu)] == store0[index_key(
                                            cp,
                                            xu,
                                        )]);
                                    }
                                }
                            }
                        }
                    }
                }
                assert(self.contents(storef) =~= m0.contents(store0));
            }
        }
    }
}

/// A nested map reads only keys under its prefix: stores that agree there
/// give it the same well-formedness and the same mapping.
pub proof fn lemma_nested_frame(nm: NestedMap, s1: Map<Seq<u8>, Seq<u8>>, s2: Map<Seq<u8>, Seq<u8>>)
    requires
        agree_under_prefix(nm.prefix@, s1, s2),
    ensures
        nm.wf(s1) == nm.wf(s2),
        nm.wf(s1) ==> nm.contents(s1) =~= nm.contents(s2),
{
    let p = nm.prefix@;
    assert forall|k: Seq<char>| true implies {
        let cp = #[trigger] str_key(p, k);
        &&& (s1.contains_key(cp) <==> s2.contains_key(cp))
        &&& (s1.contains_key(cp) ==> s1[cp] == s2[cp])
    } by {
        let cp = str_key(p, k);
        lemma_keys_under_prefix(p, 0, k);
        assert(s1.contains_key(cp) <==> s2.contains_key(cp));
        if s1.contains_key(cp) {
            assert(s1[cp] == s2[cp]);
        }
    }
    assert forall|k: Seq<char>, x: u64| true implies {
        let kk = #[trigger] index_key(str_key(p, k), x);
        &&& (s1.contains_key(kk) <==> s2.contains_key(kk))
        &&& (s1.contains_key(kk) ==> s1[kk] == s2[kk])
    } by {
        let cp = str_key(p, k);
        let kk = index_key(cp, x);
        lemma_keys_under_prefix(p, 0, k);
        lemma_keys_under_prefix(cp, x, k);
        lemma_prefix_transitive(p, cp, kk);
        assert(s1.contains_key(kk) <==> s2.contains_key(kk));
        if s1.contains_key(kk) {
            assert(s1[kk] == s2[kk]);
        }
    }
    assert forall|i: int| 0 <= i < nm.children@.len() && nm.children_wf() implies agree_under_prefix(
        (#[trigger] nm.children@[i]).list.prefix@,
        s1,
        s2,
    ) by {
        let lp = nm.children@[i].list.prefix@;
        assert forall|k: Seq<u8>| is_prefix_of(lp, k) implies ((#[trigger] s1.contains_key(k)
            <==> s2.contains_key(k)) && (s1.contains_key(k) ==> s1[k] == s2[k])) by {
            lemma_keys_under_prefix(p, 0, nm.children@[i].key@);
            lemma_prefix_transitive(p, lp, k);
            assert(s1.contains_key(k) <==> s2.contains_key(k));
            if s1.contains_key(k) {
                assert(s1[k] == s2[k]);
            }
        }
    }
    if nm.children_wf() {
        assert forall|i: int| 0 <= i < nm.children@.len() implies ((#[trigger] nm.children@[i]).list.wf(
            s1,
        ) == nm.children@[i].list.wf(s2)) by {
            lemma_list_frame(nm.children@[i].list, s1, s2);
        }
    }
    if nm.wf(s1) {
        assert(nm.wf(s2));
        assert forall|k2: Seq<char>| true implies #[trigger] nm.contents(s1).contains_key(k2)
            == nm.contents(s2).contains_key(k2) && (nm.contents(s1).contains_key(k2)
            ==> nm.contents(s1)[k2] == nm.contents(s2)[k2]) by {
            if nm.contents(s1).contains_key(k2) || nm.contents(s2).contains_key(k2) {
                let cp = str_key(p, k2);
                if nm.touched(k2) {
                    let i = choose|i: int|
                        0 <= i < nm.children@.len() && nm.children@[i].key@ == k2;
                    nm.lemma_child_at(i, k2);
                    let l = nm.children@[i].list;
                    lemma_list_frame(l, s1, s2);
                    assert(str_contents(l, s1) =~= str_contents(l, s2));
                } else {
                    assert(s1[cp] == s2[cp]);
                    assert(nm.committed_child(s1, k2) =~= nm.committed_child(s2, k2)) by {
                        assert forall|x: int|
                            0 <= x < be8_val(s1[cp]) implies s1[#[trigger] index_key(cp, x as u64)]
                            == s2[index_key(cp, x as u64)] by {
                            assert(s1.contains_key(index_key(cp, x as u64)));
                        }
                    }
                }
            }
        }
        assert(nm.contents(s1) =~= nm.contents(s2));
    } else {
        if nm.wf(s2) {
            assert(nm.wf(s1));
        }
    }
}

/// A key the first `j` children's flushes write: a child's counter entry or
/// one of its newly appended elements.
spec fn written_by(prefix: Seq<u8>, kids: Seq<NestedChild>, j: int, k: Seq<u8>) -> bool {
    exists|i: int|
        0 <= i < j && (k == str_key(prefix, (#[trigger] kids[i]).key@) || (exists|x: u64|
            kids[i].list.committed <= x < kids[i].list.len_spec() && k == #[trigger] index_key(
                str_key(prefix, kids[i].key@),
                x,
            )))
}

/// The counter entry of an untouched key is not among the written keys.
proof fn lemma_meta_unwritten(prefix: Seq<u8>, kids: Seq<NestedChild>, j: int, k2: Seq<char>)
    requires
        forall|i: int| 0 <= i < j ==> small_key((#[trigger] kids[i]).key@),
        small_key(k2),
        forall|i: int| 0 <= i < j ==> (#[trigger] kids[i]).key@ != k2,
    ensures
        !written_by(prefix, kids, j, str_key(prefix, k2)),
{
    if written_by(prefix, kids, j, str_key(prefix, k2)) {
        let i = choose|i: int|
            0 <= i < j && (str_key(prefix, k2) == str_key(prefix, (#[trigger] kids[i]).key@) || (
            exists|x: u64|
                kids[i].list.committed <= x < kids[i].list.len_spec() && str_key(prefix, k2)
                    == #[trigger] index_key(str_key(prefix, kids[i].key@), x)));
        if str_key(prefix, k2) == str_key(prefix, kids[i].key@) {
            lemma_str_key_injective(prefix, k2, kids[i].key@);
        } else {
            let x = choose|x: u64|
                kids[i].list.committed <= x < kids[i].list.len_spec() && str_key(prefix, k2)
                    == #[trigger] index_key(str_key(prefix, kids[i].key@), x);
            lemma_str_key_not_child_index(prefix, k2, kids[i].key@, x);
        }
    }
}

/// A committed element key that no child rewrites is not among the written
/// keys.
proof fn lemma_elem_unwritten(
    prefix: Seq<u8>,
    kids: Seq<NestedChild>,
    j: int,
    k2: Seq<char>,
    x: u64,
)
    requires
        forall|i: int| 0 <= i < j ==> small_key((#[trigger] kids[i]).key@),
        small_key(k2),
        forall|i: int|
            0 <= i < j ==> ((#[trigger] kids[i]).key@ != k2 || x < kids[i].list.committed),
    ensures
        !written_by(prefix, kids, j, index_key(str_key(prefix, k2), x)),
{
    let kk = index_key(str_key(prefix, k2), x);
    if written_by(prefix, kids, j, kk) {
        let i = choose|i: int|
            0 <= i < j && (kk == str_key(prefix, (#[trigger] kids[i]).key@) || (exists|y: u64|
                kids[i].list.committed <= y < kids[i].list.len_spec() && kk == #[trigger] index_key(
                    str_key(prefix, kids[i].key@),
                    y,
                )));
        if kk == str_key(prefix, kids[i].key@) {
            lemma_str_key_not_child_index(prefix, kids[i].key@, k2, x);
        } else {
            let y = choose|y: u64|
                kids[i].list.committed <= y < kids[i].list.len_spec() && kk == #[trigger] index_key(
                    str_key(prefix, kids[i].key@),
                    y,
                );
            lemma_child_index_injective(prefix, k2, x, kids[i].key@, y);
        }
    }
}

/// Reads a whole list back as strings, in order.
fn collect_strings(list: &RawList, store: &FlatStore) -> (r: Result<Vec<String>, StoreError>)
    requires
        list.fits(),
    ensures
        (list.wf(store@) && (forall|j: u64|
            j < list.committed ==> valid_utf8(#[trigger] store@[index_key(list.prefix@, j)])) && (
        forall|j: int| 0 <= j < list.pending@.len() ==> valid_utf8(#[trigger] list.pending@[j]@)))
            ==> (r matches Ok(v) && v@.len() == list.len_spec() && forall|q: int|
            0 <= q < v@.len() ==> (#[trigger] v@[q])@ == str_contents(*list, store@)[q]),
        r is Err ==> r == Err::<Vec<String>, StoreError>(StoreError::CorruptState),
{
    let ghost ok = list.wf(store@) && (forall|j: u64|
        j < list.committed ==> valid_utf8(#[trigger] store@[index_key(list.prefix@, j)])) && (
    forall|j: int| 0 <= j < list.pending@.len() ==> valid_utf8(#[trigger] list.pending@[j]@));
    let n = list.len();
    let mut out: Vec<String> = Vec::new();
    let mut j: u64 = 0;
    while j < n
        invariant
            j <= n,
            n == list.len_spec(),
            list.fits(),
            out@.len() == j,
            ok == (list.wf(store@) && (forall|q: u64|
                q < list.committed ==> valid_utf8(#[trigger] store@[index_key(list.prefix@, q)]))
                && (forall|q: int|
                0 <= q < list.pending@.len() ==> valid_utf8(#[trigger] list.pending@[q]@))),
            ok ==> forall|q: int|
                0 <= q < j ==> (#[trigger] out@[q])@ == str_contents(*list, store@)[q],
        decreases n - j,
    {
        match list.get(store, j) {
            Err(_) => {
                return Err(StoreError::CorruptState);
            },
            Ok(b) => match crate::codec::bytes_to_string(&b) {
                None => {
                    return Err(StoreError::CorruptState);
                },
                Some(s) => {
                    proof {
                        if ok {
                            assert(b@ == list.raw_contents(store@)[j as int]);
                            if j < list.committed {
                                assert(valid_utf8(store@[index_key(list.prefix@, j)]));
                            } else {
                                assert(b@ == list.pending@[j - list.committed]@);
                            }
                        }
                    }
                    out.push(s);
                },
            },
        }
        j += 1;
    }
    Ok(out)
}

} // verus!

