//! A key-addressed mapping persisted entry-by-entry.
//!
//! Entry `k` lives in the flat store under `str_key(prefix, k)`; no count is
//! persisted, existence is a store lookup. Insertions overwrite and sit in a
//! dirty cache until `flush`; a read consults the cache first, which gives
//! read-your-writes within one call, and otherwise issues one store read.

use crate::codec::{
    clone_bytes, is_prefix_of, lemma_keys_under_prefix, lemma_str_key_injective, make_str_key,
    small_key, str_key, str_to_bytes,
};
use crate::errs::StoreError;
use crate::list::{agree_under_prefix, agrees_off_prefix};
use crate::store::FlatStore;
use vstd::pervasive::VecAdditionalExecFns;
use vstd::prelude::*;
use vstd::utf8::{decode_utf8, encode_utf8, valid_utf8};

verus! {

/// One dirty cache slot: the value most recently inserted under `key`.
pub struct MapEntry {
    pub key: String,
    pub val: String,
}

/// The persistent string map.
pub struct KvMap {
    /// The byte prefix of this map's key space.
    pub prefix: Vec<u8>,
    /// Entries inserted during this call, dirty, unwritten until `flush`.
    pub cache: Vec<MapEntry>,
}

impl KvMap {
    /// The dirty cache holds `k`.
    pub open spec fn cache_has(self, k: Seq<char>) -> bool {
        exists|i: int| 0 <= i < self.cache@.len() && self.cache@[i].key@ == k
    }

    /// The cached value under `k`.
    pub open spec fn cache_at(self, k: Seq<char>) -> Seq<char> {
        self.cache@[choose|i: int|
            0 <= i < self.cache@.len() && self.cache@[i].key@ == k].val@
    }

    /// Cache keys are unique.
    pub open spec fn cache_wf(self) -> bool {
        forall|i: int, j: int|
            0 <= i < j < self.cache@.len() ==> (#[trigger] self.cache@[i].key@)
                != (#[trigger] self.cache@[j].key@)
    }

    /// Every committed entry under this prefix decodes to a string.
    pub open spec fn wf(self, store: Map<Seq<u8>, Seq<u8>>) -> bool {
        &&& self.cache_wf()
        &&& forall|k: Seq<char>|
            #[trigger] store.contains_key(str_key(self.prefix@, k)) ==> valid_utf8(
                store[str_key(self.prefix@, k)],
            )
    }

    /// The mapping as seen through store and cache together.
    pub open spec fn contents(self, store: Map<Seq<u8>, Seq<u8>>) -> Map<Seq<char>, Seq<char>> {
        Map::new(
            |k: Seq<char>| self.cache_has(k) || store.contains_key(str_key(self.prefix@, k)),
            |k: Seq<char>|
                if self.cache_has(k) {
                    self.cache_at(k)
                } else {
                    decode_utf8(store[str_key(self.prefix@, k)])
                },
        )
    }

    /// With unique keys, the slot holding `k` is the one `cache_at` reads.
    proof fn lemma_cache_at(self, i: int, k: Seq<char>)
        requires
            self.cache_wf(),
            0 <= i < self.cache@.len(),
            self.cache@[i].key@ == k,
        ensures
            self.cache_has(k),
            self.cache_at(k) == self.cache@[i].val@,
    {
        let w = choose|w: int| 0 <= w < self.cache@.len() && self.cache@[w].key@ == k;
        if w != i {
            if w < i {
                assert(self.cache@[w].key@ != self.cache@[i].key@);
            } else {
                assert(self.cache@[i].key@ != self.cache@[w].key@);
            }
        }
    }

    /// A fresh, empty map over `prefix`. Nothing is persisted until `flush`.
    pub fn new(prefix: Vec<u8>) -> (r: KvMap)
        ensures
            r.prefix == prefix,
            r.cache@.len() == 0,
            r.cache_wf(),
            forall|k: Seq<char>| !(#[trigger] r.cache_has(k)),
    {
        KvMap { prefix, cache: Vec::new() }
    }

    /// Inserts `value` under `key`, overwriting any prior value. Always
    /// succeeds; the entry stays dirty in the cache until `flush`.
    pub fn insert(&mut self, key: String, value: String)
        requires
            old(self).cache_wf(),
        ensures
            final(self).prefix == old(self).prefix,
            final(self).cache_wf(),
            forall|s: Map<Seq<u8>, Seq<u8>>| #[trigger]
                final(self).contents(s) == old(self).contents(s).insert(key@, value@),
    {
        let ghost key_v = key@;
        let ghost val_v = value@;
        let ghost cache0 = self.cache@;
        let found = self.find(&key);
        match found {
            Some(i) => {
                self.cache.set(i, MapEntry { key, val: value });
            },
            None => {
                self.cache.push(MapEntry { key, val: value });
            },
        }
        proof {
            let c2 = self.cache@;
            assert forall|q: int, r: int|
                0 <= q < r < c2.len() implies (#[trigger] c2[q].key@) != (#[trigger] c2[r].key@) by {
                match found {
                    Some(i) => {
                        assert(cache0[q].key@ == c2[q].key@ || q == i);
                        assert(cache0[r].key@ == c2[r].key@ || r == i);
                    },
                    None => {
                        if r == c2.len() - 1 {
                            assert(c2[q].key@ == cache0[q].key@);
                            assert(c2[r].key@ == key_v);
                            assert(!old(self).cache_has(key_v));
                        }
                    },
                }
            }
            let i_w: int = match found {
                Some(i) => i as int,
                None => c2.len() - 1,
            };
            assert(c2[i_w].key@ == key_v);
            assert(c2[i_w].val@ == val_v);
            self.lemma_cache_at(i_w, key_v);
            assert forall|k: Seq<char>| #[trigger]
                self.cache_has(k) <==> (old(self).cache_has(k) || k == key_v) by {
                if self.cache_has(k) && k != key_v {
                    let w = choose|w: int| 0 <= w < c2.len() && c2[w].key@ == k;
                    assert(w != i_w);
                    assert(cache0[w].key@ == k);
                }
                if old(self).cache_has(k) {
                    let w = choose|w: int| 0 <= w < cache0.len() && cache0[w].key@ == k;
                    if match found {
                        Some(i) => w != i as int,
                        None => true,
                    } {
                        assert(c2[w].key@ == k);
                    } else {
                        assert(k == key_v);
                    }
                }
            }
            assert forall|k: Seq<char>|
                k != key_v && #[trigger] self.cache_has(k) implies old(self).cache_has(k)
                && self.cache_at(k) == old(self).cache_at(k) by {
                let w = choose|w: int| 0 <= w < c2.len() && c2[w].key@ == k;
                assert(w != i_w);
                assert(c2[w] == cache0[w]);
                old(self).lemma_cache_at(w, k);
                self.lemma_cache_at(w, k);
            }
            assert forall|s: Map<Seq<u8>, Seq<u8>>| #[trigger]
                final(self).contents(s) == old(self).contents(s).insert(key_v, val_v) by {
                lemma_contents_after_write(*old(self), *self, key_v, val_v, s);
            }
        }
    }

    /// The cache slot holding `key`, if this call wrote one.
    fn find(&self, key: &String) -> (r: Option<usize>)
        ensures
            r matches Some(i) ==> i < self.cache@.len() && self.cache@[i as int].key@ == key@,
            r is None ==> !self.cache_has(key@),
            (r is Some) == self.cache_has(key@),
    {
        let mut i: usize = 0;
        let n: usize = self.cache.len();
        while i < n
            invariant
                i <= n,
                n == self.cache@.len(),
                forall|j: int| 0 <= j < i ==> self.cache@[j].key@ != key@,
            decreases n - i,
        {
            if self.cache[i].key == *key {
                return Some(i);
            }
            i += 1;
        }
        None
    }

    /// Reads the value under `key`: the cached one if this call wrote it, the
    /// committed one otherwise, and `None` when the key was never inserted.
    /// A committed entry that does not decode reports `CorruptState`.
    pub fn get(&self, store: &FlatStore, key: &String) -> (r: Result<Option<String>, StoreError>)
        requires
            self.cache_wf(),
        ensures
            self.cache_has(key@) ==> (r matches Ok(v) && v matches Some(s) && s@ == self.cache_at(
                key@,
            )),
            !self.cache_has(key@) && !store@.contains_key(str_key(self.prefix@, key@)) ==> r
                == Ok::<Option<String>, StoreError>(None),
            !self.cache_has(key@) && store@.contains_key(str_key(self.prefix@, key@))
                && valid_utf8(store@[str_key(self.prefix@, key@)]) ==> (r matches Ok(v)
                && v matches Some(s) && s@ == decode_utf8(store@[str_key(self.prefix@, key@)])),
            !self.cache_has(key@) && store@.contains_key(str_key(self.prefix@, key@))
                && !valid_utf8(store@[str_key(self.prefix@, key@)]) ==> r == Err::<
                Option<String>,
                StoreError,
            >(StoreError::CorruptState),
            self.wf(store@) && self.contents(store@).contains_key(key@) ==> (r matches Ok(v)
                && v matches Some(s) && s@ == self.contents(store@)[key@]),
            self.wf(store@) && !self.contents(store@).contains_key(key@) ==> r == Ok::<
                Option<String>,
                StoreError,
            >(None),
    {
        match self.find(key) {
            Some(i) => {
                proof {
                    self.lemma_cache_at(i as int, key@);
                }
                Ok(Some(self.cache[i].val.clone()))
            },
            None => {
                let sk = make_str_key(&self.prefix, key.as_str());
                match store.get(&sk) {
                    None => Ok(None),
                    Some(b) => match crate::codec::bytes_to_string(&b) {
                        Some(s) => Ok(Some(s)),
                        None => Err(StoreError::CorruptState),
                    },
                }
            },
        }
    }

    /// Tells whether `key` has a value, inserted this call or committed.
    pub fn contains(&self, store: &FlatStore, key: &String) -> (r: bool)
        requires
            self.cache_wf(),
        ensures
            r == (self.cache_has(key@) || store@.contains_key(str_key(self.prefix@, key@))),
            r == self.contents(store@).contains_key(key@),
    {
        if self.find(key).is_some() {
            true
        } else {
            let sk = make_str_key(&self.prefix, key.as_str());
            store.contains(&sk)
        }
    }

    /// Writes every dirty entry to the store and empties the cache. Only keys
    /// under this map's prefix change; the mapping itself is unchanged.
    pub fn flush(&mut self, store: &mut FlatStore)
        requires
            old(self).cache_wf(),
        ensures
            final(self).prefix == old(self).prefix,
            final(self).cache@.len() == 0,
            final(self).cache_wf(),
            forall|i: int|
                #![trigger old(self).cache@[i]]
                0 <= i < old(self).cache@.len() ==> final(store)@.contains_key(
                    str_key(old(self).prefix@, old(self).cache@[i].key@),
                ) && final(store)@[str_key(old(self).prefix@, old(self).cache@[i].key@)]
                    == encode_utf8(old(self).cache@[i].val@),
            forall|k: Seq<u8>|
                #![trigger final(store)@.contains_key(k)]
                #![trigger final(store)@[k]]
                (!(exists|i: int|
                    0 <= i < old(self).cache@.len() && k == str_key(
                        old(self).prefix@,
                        (#[trigger] old(self).cache@[i]).key@,
                    ))) ==> ((final(store)@.contains_key(k) <==> old(store)@.contains_key(k)) && (
                old(store)@.contains_key(k) ==> final(store)@[k] == old(store)@[k])),
            agrees_off_prefix(old(self).prefix@, old(store)@, final(store)@),
            old(self).wf(old(store)@) ==> final(self).wf(final(store)@),
            old(self).wf(old(store)@) ==> final(self).contents(final(store)@) == old(
                self,
            ).contents(old(store)@),
    {
        let ghost prefix0 = self.prefix@;
        let ghost cache0 = self.cache@;
        let ghost store0 = store@;
        let n: usize = self.cache.len();
        let mut j: usize = 0;
        while j < n
            invariant
                j <= n,
                n == self.cache@.len(),
                self.prefix@ == prefix0,
                self.cache@ == cache0,
                self.cache_wf(),
                forall|i: int| 0 <= i < j ==> small_key((#[trigger] cache0[i]).key@),
                forall|i: int|
                    #![trigger cache0[i]]
                    0 <= i < j ==> store@.contains_key(str_key(prefix0, cache0[i].key@))
                        && store@[str_key(prefix0, cache0[i].key@)] == encode_utf8(
                        cache0[i].val@,
                    ),
                forall|k: Seq<u8>|
                    #![trigger store@.contains_key(k)]
                    #![trigger store@[k]]
                    (!(exists|i: int|
                        0 <= i < j && k == str_key(prefix0, (#[trigger] cache0[i]).key@))) ==> ((
                    store@.contains_key(k) <==> store0.contains_key(k)) && (store0.contains_key(k)
                        ==> store@[k] == store0[k])),
            decreases n - j,
        {
            let sk = make_str_key(&self.prefix, self.cache[j].key.as_str());
            let vb = str_to_bytes(self.cache[j].val.as_str());
            let ghost snap = store@;
            store.set(&sk, &vb);
            proof {
                assert(store@ == snap.insert(str_key(prefix0, cache0[j as int].key@), encode_utf8(
                    cache0[j as int].val@,
                )));
                assert forall|i: int|
                    #![trigger cache0[i]]
                    0 <= i < j + 1 implies store@.contains_key(str_key(prefix0, cache0[i].key@))
                    && store@[str_key(prefix0, cache0[i].key@)] == encode_utf8(cache0[i].val@) by {
                    if i < j {
                        if str_key(prefix0, cache0[i].key@) == str_key(prefix0, cache0[j as int].key@) {
                            lemma_str_key_injective(
                                prefix0,
                                cache0[i].key@,
                                cache0[j as int].key@,
                            );
                        }
                        assert(snap.contains_key(str_key(prefix0, cache0[i].key@)));
                    }
                }
                assert forall|k: Seq<u8>|
                    #![trigger store@.contains_key(k)]
                    #![trigger store@[k]]
                    (!(exists|i: int|
                        0 <= i < j + 1 && k == str_key(prefix0, (#[trigger] cache0[i]).key@)))
                    implies ((store@.contains_key(k) <==> store0.contains_key(k)) && (
                store0.contains_key(k) ==> store@[k] == store0[k])) by {
                    assert(k != str_key(prefix0, cache0[j as int].key@));
                    assert(!(exists|i: int|
                        0 <= i < j && k == str_key(prefix0, (#[trigger] cache0[i]).key@)));
                    assert(snap.contains_key(k) <==> store0.contains_key(k));
                    if store0.contains_key(k) {
                        assert(snap[k] == store0[k]);
                    }
                }
            }
            j += 1;
        }
        self.cache.clear();
        proof {
            broadcast use vstd::utf8::encode_utf8_valid_utf8, vstd::utf8::encode_utf8_decode_utf8;

            assert forall|k: Seq<u8>| !is_prefix_of(prefix0, k) implies ((
            #[trigger] store0.contains_key(k) <==> store@.contains_key(k)) && (store0.contains_key(
                k,
            ) ==> store0[k] == store@[k])) by {
                assert forall|i: int|
                    0 <= i < n implies k != str_key(prefix0, (#[trigger] cache0[i]).key@) by {
                    lemma_keys_under_prefix(prefix0, 0, cache0[i].key@);
                }
                assert(store@.contains_key(k) <==> store0.contains_key(k));
                if store0.contains_key(k) {
                    assert(store@[k] == store0[k]);
                }
            }
            if old(self).wf(store0) {
                assert forall|k: Seq<char>| #[trigger]
                    store@.contains_key(str_key(prefix0, k)) implies valid_utf8(
                    store@[str_key(prefix0, k)],
                ) by {
                    if exists|i: int|
                        0 <= i < n && str_key(prefix0, k) == str_key(
                            prefix0,
                            (#[trigger] cache0[i]).key@,
                        ) {
                        let i = choose|i: int|
                            0 <= i < n && str_key(prefix0, k) == str_key(
                                prefix0,
                                (#[trigger] cache0[i]).key@,
                            );
                        lemma_str_key_injective(prefix0, k, cache0[i].key@);
                        assert(store@[str_key(prefix0, k)] == encode_utf8(cache0[i].val@));
                    } else {
                        assert(store0.contains_key(str_key(prefix0, k)));
                    }
                }
                assert forall|k: Seq<char>| true implies (#[trigger] self.contents(
                    store@,
                ).contains_key(k)) == old(self).contents(store0).contains_key(k) && (self.contents(
                    store@,
                ).contains_key(k) ==> self.contents(store@)[k] == old(self).contents(store0)[k]) by {
                    if exists|i: int| 0 <= i < n && (#[trigger] cache0[i]).key@ == k {
                        let i = choose|i: int| 0 <= i < n && (#[trigger] cache0[i]).key@ == k;
                        old(self).lemma_cache_at(i, k);
                        assert(store@.contains_key(str_key(prefix0, k)));
                        assert(store@[str_key(prefix0, k)] == encode_utf8(cache0[i].val@));
                        assert(decode_utf8(encode_utf8(cache0[i].val@)) == cache0[i].val@);
                    } else {
                        assert(!old(self).cache_has(k));
                        assert(!(exists|i: int|
                            0 <= i < n && str_key(prefix0, k) == str_key(
                                prefix0,
                                (#[trigger] cache0[i]).key@,
                            ))) by {
                            if exists|i: int|
                                0 <= i < n && str_key(prefix0, k) == str_key(
                                    prefix0,
                                    (#[trigger] cache0[i]).key@,
                                ) {
                                let i = choose|i: int|
                                    0 <= i < n && str_key(prefix0, k) == str_key(
                                        prefix0,
                                        (#[trigger] cache0[i]).key@,
                                    );
                                lemma_str_key_injective(prefix0, k, cache0[i].key@);
                            }
                        }
                        assert(store@.contains_key(str_key(prefix0, k)) <==> store0.contains_key(
                            str_key(prefix0, k),
                        ));
                        if store0.contains_key(str_key(prefix0, k)) {
                            assert(store@[str_key(prefix0, k)] == store0[str_key(prefix0, k)]);
                        }
                    }
                }
                assert(self.contents(store@) =~= old(self).contents(store0));
            }
        }
    }
}

/// A map reads only keys under its prefix: stores that agree there give it
/// the same well-formedness and the same mapping.
pub proof fn lemma_kvmap_frame(m: KvMap, s1: Map<Seq<u8>, Seq<u8>>, s2: Map<Seq<u8>, Seq<u8>>)
    requires
        agree_under_prefix(m.prefix@, s1, s2),
    ensures
        m.wf(s1) == m.wf(s2),
        m.contents(s1) =~= m.contents(s2),
{
    assert forall|k: Seq<char>| true implies (s1.contains_key(
        #[trigger] str_key(m.prefix@, k),
    ) <==> s2.contains_key(str_key(m.prefix@, k))) && (s1.contains_key(str_key(m.prefix@, k))
        ==> s1[str_key(m.prefix@, k)] == s2[str_key(m.prefix@, k)]) by {
        lemma_keys_under_prefix(m.prefix@, 0, k);
        assert(s1.contains_key(str_key(m.prefix@, k)) <==> s2.contains_key(str_key(m.prefix@, k)));
        if s1.contains_key(str_key(m.prefix@, k)) {
            assert(s1[str_key(m.prefix@, k)] == s2[str_key(m.prefix@, k)]);
        }
    }
}

/// After an overwriting cache update or append, the combined mapping is the
/// old one with `key` bound to `val`.
proof fn lemma_contents_after_write(
    m1: KvMap,
    m2: KvMap,
    key: Seq<char>,
    val: Seq<char>,
    s: Map<Seq<u8>, Seq<u8>>,
)
    requires
        m1.cache_wf(),
        m2.cache_wf(),
        m2.prefix@ == m1.prefix@,
        m2.cache_has(key),
        m2.cache_at(key) == val,
        forall|k: Seq<char>| #[trigger] m2.cache_has(k) <==> (m1.cache_has(k) || k == key),
        forall|k: Seq<char>|
            k != key && #[trigger] m2.cache_has(k) ==> m1.cache_has(k) && m2.cache_at(k)
                == m1.cache_at(k),
    ensures
        m2.contents(s) == m1.contents(s).insert(key, val),
{
    assert(m2.contents(s) =~= m1.contents(s).insert(key, val));
}

} // verus!
