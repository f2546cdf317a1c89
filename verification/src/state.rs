//! The persisted state of one contract instance.
//!
//! It owns one of each collection, each under its own single-byte prefix
//! registered against the prefix registry, plus the toy text value the
//! contract's methods read and write. A call boundary loads the persisted
//! metadata once at call start, works against the dirty caches, and flushes
//! everything back in one step at call end; an aborted call flushes nothing.

use crate::codec::{
    be8_of, be8_val, index_key, is_prefix_of, lemma_be8_roundtrip, parse_be8, small_key, str_key,
    str_to_bytes,
};
use crate::errs::StoreError;
use crate::json::strs_view;
use crate::kvmap::{lemma_kvmap_frame, KvMap};
use crate::list::{agree_under_prefix, agrees_off_prefix, lemma_list_frame, RawList};
use crate::nested::{lemma_nested_frame, NestedMap};
use crate::registry::CollectionRegistry;
use crate::store::FlatStore;
use vstd::prelude::*;
use vstd::utf8::{decode_utf8, encode_utf8, valid_utf8};

verus! {

/// The prefix of the number list.
pub open spec fn vec_prefix() -> Seq<u8> {
    seq![97u8]
}

/// The prefix of the string map.
pub open spec fn map_prefix() -> Seq<u8> {
    seq![98u8]
}

/// The prefix of the nested map.
pub open spec fn nested_prefix() -> Seq<u8> {
    seq![99u8]
}

/// The prefix of the doubly nested stub map.
pub open spec fn dn_prefix() -> Seq<u8> {
    seq![115u8]
}

/// The key of the persisted text value.
pub open spec fn text_key() -> Seq<u8> {
    seq![116u8]
}

/// A number list holds exactly eight bytes per element.
pub open spec fn u64_wf(l: RawList, store: Map<Seq<u8>, Seq<u8>>) -> bool {
    forall|i: int| 0 <= i < l.len_spec() ==> (#[trigger] l.raw_contents(store)[i]).len() == 8
}

/// The numbers a list holds, read out of their fixed-width bytes.
pub open spec fn u64_contents(l: RawList, store: Map<Seq<u8>, Seq<u8>>) -> Seq<u64> {
    Seq::new(l.len_spec() as nat, |i: int| be8_val(l.raw_contents(store)[i]))
}

/// The state a contract instance persists: the toy text and one collection
/// of each kind, each under its own registered prefix.
pub struct ContractState {
    /// The toy text value.
    pub string: String,
    /// The append-only number list.
    pub vector: RawList,
    /// The string-to-string map.
    pub unordered_map: KvMap,
    /// The map of per-key string lists.
    pub unordered_map_vec: NestedMap,
    /// The doubly nested map stub: constructible and independently prefixed,
    /// with no behavior beyond marking its keys.
    pub unordered_map_map: KvMap,
    /// The prefixes this instance has handed out.
    pub registry: CollectionRegistry,
}

impl ContractState {
    /// The handles are wired to their prefixes and their caches are sound.
    pub open spec fn handles_wf(self) -> bool {
        &&& self.vector.prefix@ == vec_prefix()
        &&& self.vector.fits()
        &&& self.unordered_map.prefix@ == map_prefix()
        &&& self.unordered_map.cache_wf()
        &&& self.unordered_map_vec.prefix@ == nested_prefix()
        &&& self.unordered_map_vec.children_wf()
        &&& self.unordered_map_map.prefix@ == dn_prefix()
        &&& self.unordered_map_map.cache_wf()
        &&& self.registry.wf()
    }

    /// The store holds every element the metadata names, in decodable form.
    pub open spec fn store_wf(self, store: Map<Seq<u8>, Seq<u8>>) -> bool {
        &&& self.vector.wf(store)
        &&& u64_wf(self.vector, store)
        &&& self.unordered_map.wf(store)
        &&& self.unordered_map_vec.wf(store)
        &&& self.unordered_map_map.wf(store)
        &&& store.contains_key(text_key()) ==> valid_utf8(store[text_key()])
    }

    /// The numbers of the list, cache and store together.
    pub open spec fn numbers(self, store: Map<Seq<u8>, Seq<u8>>) -> Seq<u64> {
        u64_contents(self.vector, store)
    }

    /// The string map's mapping, cache and store together.
    pub open spec fn accounts(self, store: Map<Seq<u8>, Seq<u8>>) -> Map<Seq<char>, Seq<char>> {
        self.unordered_map.contents(store)
    }

    /// The nested map's mapping, cache and store together.
    pub open spec fn ledgers(self, store: Map<Seq<u8>, Seq<u8>>) -> Map<Seq<char>, Seq<Seq<char>>> {
        self.unordered_map_vec.contents(store)
    }

    /// The stub map's marked keys.
    pub open spec fn groups(self, store: Map<Seq<u8>, Seq<u8>>) -> Map<Seq<char>, Seq<char>> {
        self.unordered_map_map.contents(store)
    }
}

/// A one-byte prefix as a vector.
fn byte_prefix(b: u8) -> (r: Vec<u8>)
    ensures
        r@ == seq![b],
{
    let mut v: Vec<u8> = Vec::new();
    v.push(b);
    proof {
        assert(v@ =~= seq![b]);
    }
    v
}

/// A single-byte prefix conflicts with no registry of other single bytes.
proof fn lemma_singleton_no_conflict(reg: CollectionRegistry, p: Seq<u8>)
    requires
        p.len() == 1,
        forall|i: int|
            0 <= i < reg.prefixes@.len() ==> ((#[trigger] reg.prefixes@[i])@.len() == 1
                && reg.prefixes@[i]@[0] != p[0]),
    ensures
        !reg.conflicts(p),
{
    if reg.conflicts(p) {
        let i = choose|i: int|
            0 <= i < reg.prefixes@.len() && (is_prefix_of((#[trigger] reg.prefixes@[i])@, p)
                || is_prefix_of(p, reg.prefixes@[i]@));
        let q = reg.prefixes@[i]@;
        if is_prefix_of(q, p) {
            assert(p.subrange(0, 1) =~= p);
            assert(q[0] == p[0]);
        } else {
            assert(q.subrange(0, 1) =~= q);
            assert(p[0] == q[0]);
        }
    }
}

impl ContractState {
    /// A state with the given text, every collection empty, and the five
    /// prefixes registered.
    fn fresh(string: String) -> (r: ContractState)
        ensures
            r.string == string,
            r.handles_wf(),
            r.vector.committed == 0,
            r.vector.pending@.len() == 0,
            r.unordered_map.cache@.len() == 0,
            r.unordered_map_vec.children@.len() == 0,
            r.unordered_map_map.cache@.len() == 0,
            r.registry.registered(vec_prefix()),
            r.registry.registered(map_prefix()),
            r.registry.registered(nested_prefix()),
            r.registry.registered(dn_prefix()),
            r.registry.registered(text_key()),
    {
        let mut registry = CollectionRegistry::new();
        let pa = byte_prefix(97);
        let pb = byte_prefix(98);
        let pc = byte_prefix(99);
        let pd = byte_prefix(115);
        let pt = byte_prefix(116);
        proof {
            lemma_singleton_no_conflict(registry, pa@);
        }
        let r1 = registry.register(byte_prefix(97));
        proof {
            assert(r1 is Ok);
            lemma_singleton_no_conflict(registry, pb@);
        }
        let r2 = registry.register(byte_prefix(98));
        proof {
            assert(r2 is Ok);
            lemma_singleton_no_conflict(registry, pc@);
        }
        let r3 = registry.register(byte_prefix(99));
        proof {
            assert(r3 is Ok);
            lemma_singleton_no_conflict(registry, pd@);
        }
        let r4 = registry.register(byte_prefix(115));
        proof {
            assert(r4 is Ok);
            lemma_singleton_no_conflict(registry, pt@);
        }
        let r5 = registry.register(byte_prefix(116));
        proof {
            assert(r5 is Ok);
            assert(registry.prefixes@[0]@ == vec_prefix());
            assert(registry.prefixes@[1]@ == map_prefix());
            assert(registry.prefixes@[2]@ == nested_prefix());
            assert(registry.prefixes@[3]@ == dn_prefix());
            assert(registry.prefixes@[4]@ == text_key());
            assert(registry.registered(vec_prefix()));
            assert(registry.registered(map_prefix()));
            assert(registry.registered(nested_prefix()));
            assert(registry.registered(dn_prefix()));
            assert(registry.registered(text_key()));
        }
        ContractState {
            string,
            vector: RawList::new(pa),
            unordered_map: KvMap::new(pb),
            unordered_map_vec: NestedMap::new(pc),
            unordered_map_map: KvMap::new(pd),
            registry,
        }
    }

    /// The deploy-time constructor: the given text, and the number list
    /// seeded with one value.
    pub fn init(string: String, first_value: u64) -> (r: ContractState)
        ensures
            r.string == string,
            r.handles_wf(),
            r.vector.committed == 0,
            r.unordered_map.cache@.len() == 0,
            r.unordered_map_vec.children@.len() == 0,
            r.unordered_map_map.cache@.len() == 0,
            forall|s: Map<Seq<u8>, Seq<u8>>| #[trigger] u64_contents(r.vector, s) =~= seq![
                first_value,
            ],
            forall|s: Map<Seq<u8>, Seq<u8>>| #[trigger] u64_wf(r.vector, s),
    {
        let mut r = ContractState::fresh(string);
        r.vector.push(crate::codec::be8(first_value));
        proof {
            lemma_be8_roundtrip(first_value);
            assert forall|s: Map<Seq<u8>, Seq<u8>>| #[trigger]
                u64_contents(r.vector, s) =~= seq![first_value] by {
                assert(r.vector.raw_contents(s)[0] == be8_of(first_value));
            }
            assert forall|s: Map<Seq<u8>, Seq<u8>>| #[trigger] u64_wf(r.vector, s) by {
                assert(r.vector.raw_contents(s)[0] == be8_of(first_value));
            }
        }
        r
    }

    /// Replaces the text and appends one number, in one call.
    pub fn change_string_vec(&mut self, string: String, number: u64)
        requires
            old(self).handles_wf(),
            old(self).vector.len_spec() < u64::MAX,
        ensures
            final(self).string == string,
            final(self).handles_wf(),
            final(self).vector.committed == old(self).vector.committed,
            final(self).unordered_map == old(self).unordered_map,
            final(self).unordered_map_vec == old(self).unordered_map_vec,
            final(self).unordered_map_map == old(self).unordered_map_map,
            forall|s: Map<Seq<u8>, Seq<u8>>| #[trigger]
                final(self).numbers(s) =~= old(self).numbers(s).push(number),
            forall|s: Map<Seq<u8>, Seq<u8>>|
                #![trigger final(self).vector.wf(s)]
                old(self).vector.wf(s) ==> final(self).vector.wf(s),
            forall|s: Map<Seq<u8>, Seq<u8>>|
                #![trigger u64_wf(final(self).vector, s)]
                u64_wf(old(self).vector, s) ==> u64_wf(final(self).vector, s),
    {
        self.string = string;
        self.vector_push(number);
    }

    /// Replaces the text alone.
    pub fn change_string(&mut self, string: String)
        ensures
            final(self).string == string,
            final(self).vector == old(self).vector,
            final(self).unordered_map == old(self).unordered_map,
            final(self).unordered_map_vec == old(self).unordered_map_vec,
            final(self).unordered_map_map == old(self).unordered_map_map,
            final(self).registry == old(self).registry,
    {
        self.string = string;
    }

    /// The current text.
    pub fn get_string(&self) -> (r: String)
        ensures
            r@ == self.string@,
    {
        self.string.clone()
    }

    /// Appends one number at the end of the list.
    pub fn vector_push(&mut self, number: u64)
        requires
            old(self).handles_wf(),
            old(self).vector.len_spec() < u64::MAX,
        ensures
            final(self).string == old(self).string,
            final(self).handles_wf(),
            final(self).vector.committed == old(self).vector.committed,
            final(self).vector.len_spec() == old(self).vector.len_spec() + 1,
            final(self).unordered_map == old(self).unordered_map,
            final(self).unordered_map_vec == old(self).unordered_map_vec,
            final(self).unordered_map_map == old(self).unordered_map_map,
            final(self).registry == old(self).registry,
            forall|s: Map<Seq<u8>, Seq<u8>>| #[trigger]
                final(self).numbers(s) =~= old(self).numbers(s).push(number),
            forall|s: Map<Seq<u8>, Seq<u8>>|
                #![trigger final(self).vector.wf(s)]
                old(self).vector.wf(s) ==> final(self).vector.wf(s),
            forall|s: Map<Seq<u8>, Seq<u8>>|
                #![trigger u64_wf(final(self).vector, s)]
                u64_wf(old(self).vector, s) ==> u64_wf(final(self).vector, s),
    {
        self.vector.push(crate::codec::be8(number));
        proof {
            lemma_be8_roundtrip(number);
            assert forall|s: Map<Seq<u8>, Seq<u8>>| #[trigger]
                final(self).numbers(s) =~= old(self).numbers(s).push(number) by {
                assert(self.vector.raw_contents(s) =~= old(self).vector.raw_contents(s).push(
                    be8_of(number),
                ));
            }
            assert forall|s: Map<Seq<u8>, Seq<u8>>|
                u64_wf(old(self).vector, s) implies #[trigger] u64_wf(final(self).vector, s) by {
                assert(self.vector.raw_contents(s) =~= old(self).vector.raw_contents(s).push(
                    be8_of(number),
                ));
                assert forall|i: int|
                    0 <= i < self.vector.len_spec() implies (#[trigger] self.vector.raw_contents(
                    s,
                )[i]).len() == 8 by {
                    if i < old(self).vector.len_spec() {
                        assert(self.vector.raw_contents(s)[i] == old(self).vector.raw_contents(
                            s,
                        )[i]);
                    } else {
                        assert(self.vector.raw_contents(s)[i] == be8_of(number));
                    }
                }
            }
        }
    }

    /// Reads the number at `index`, or reports the out-of-range access; a
    /// committed element the store cannot produce is the broken invariant
    /// `CorruptState`.
    pub fn get_vector_index(&self, store: &FlatStore, index: u64) -> (r: Result<u64, StoreError>)
        ensures
            index >= self.vector.len_spec() ==> r == Err::<u64, StoreError>(
                StoreError::IndexOutOfRange,
            ),
            self.vector.wf(store@) && u64_wf(self.vector, store@) && index
                < self.vector.len_spec() ==> r == Ok::<u64, StoreError>(
                self.numbers(store@)[index as int],
            ),
            r is Err ==> ((index >= self.vector.len_spec() && r == Err::<u64, StoreError>(
                StoreError::IndexOutOfRange,
            )) || r == Err::<u64, StoreError>(StoreError::CorruptState)),
    {
        match self.vector.get(store, index) {
            Err(e) => Err(e),
            Ok(b) => match parse_be8(&b) {
                None => Err(StoreError::CorruptState),
                Some(v) => Ok(v),
            },
        }
    }

    /// The number of elements of the list.
    pub fn vector_len(&self) -> (r: u64)
        requires
            self.vector.fits(),
        ensures
            r == self.vector.len_spec(),
    {
        self.vector.len()
    }

    /// Binds `value` to `key` in the string map, overwriting any prior value.
    pub fn unordered_map_insert(&mut self, key: String, value: String)
        requires
            old(self).handles_wf(),
        ensures
            final(self).string == old(self).string,
            final(self).handles_wf(),
            final(self).vector == old(self).vector,
            final(self).unordered_map_vec == old(self).unordered_map_vec,
            final(self).unordered_map_map == old(self).unordered_map_map,
            final(self).registry == old(self).registry,
            forall|s: Map<Seq<u8>, Seq<u8>>| #[trigger]
                final(self).accounts(s) == old(self).accounts(s).insert(key@, value@),
    {
        self.unordered_map.insert(key, value);
    }

    /// The value bound to `key` in the string map, `None` when the key was
    /// never inserted.
    pub fn get_unordered_map_value(&self, store: &FlatStore, key: &String) -> (r: Result<
        Option<String>,
        StoreError,
    >)
        requires
            self.handles_wf(),
        ensures
            self.unordered_map.wf(store@) && self.accounts(store@).contains_key(key@) ==> (
            r matches Ok(v) && v matches Some(s) && s@ == self.accounts(store@)[key@]),
            self.unordered_map.wf(store@) && !self.accounts(store@).contains_key(key@) ==> r
                == Ok::<Option<String>, StoreError>(None),
    {
        self.unordered_map.get(store, key)
    }

    /// Creates the empty list under `key` in the nested map; a key that
    /// already has one is refused.
    pub fn unordered_map_vec_init(&mut self, store: &FlatStore, key: String) -> (r: Result<
        (),
        StoreError,
    >)
        requires
            old(self).handles_wf(),
        ensures
            final(self).string == old(self).string,
            final(self).handles_wf(),
            final(self).vector == old(self).vector,
            final(self).unordered_map == old(self).unordered_map,
            final(self).unordered_map_map == old(self).unordered_map_map,
            final(self).registry == old(self).registry,
            old(self).ledgers(store@).contains_key(key@) ==> (r == Err::<(), StoreError>(
                StoreError::AlreadyInitialized,
            ) && *final(self) == *old(self)),
            !old(self).ledgers(store@).contains_key(key@) ==> (r == Ok::<(), StoreError>(())
                && final(self).ledgers(store@) == old(self).ledgers(store@).insert(
                key@,
                Seq::<Seq<char>>::empty(),
            )),
    {
        self.unordered_map_vec.init_nested(store, key)
    }

    /// Appends `value` to the nested list under `key`; the key must be
    /// initialized.
    pub fn unordered_map_vec_insert(&mut self, store: &FlatStore, key: String, value: String) -> (r:
        Result<(), StoreError>)
        requires
            old(self).handles_wf(),
            old(self).unordered_map_vec.touched(key@) ==> old(self).unordered_map_vec.child_at(
                key@,
            ).len_spec() < u64::MAX,
            !old(self).unordered_map_vec.touched(key@) && store@.contains_key(
                str_key(nested_prefix(), key@),
            ) ==> be8_val(store@[str_key(nested_prefix(), key@)]) < u64::MAX,
        ensures
            final(self).string == old(self).string,
            final(self).handles_wf(),
            final(self).vector == old(self).vector,
            final(self).unordered_map == old(self).unordered_map,
            final(self).unordered_map_map == old(self).unordered_map_map,
            final(self).registry == old(self).registry,
            !old(self).ledgers(store@).contains_key(key@) ==> (r == Err::<(), StoreError>(
                StoreError::NotInitialized,
            ) && *final(self) == *old(self)),
            old(self).unordered_map_vec.touched(key@) || (store@.contains_key(
                str_key(nested_prefix(), key@),
            ) && store@[str_key(nested_prefix(), key@)].len() == 8 && small_key(key@)) ==> (r
                == Ok::<(), StoreError>(()) && final(self).ledgers(store@) == old(self).ledgers(
                store@,
            ).insert(key@, old(self).ledgers(store@)[key@].push(value@))),
    {
        self.unordered_map_vec.push_into(store, key, value)
    }

    /// Appends every value, in order, to the nested list under `key`.
    pub fn unordered_map_vec_extend(
        &mut self,
        store: &FlatStore,
        key: String,
        values: Vec<String>,
    ) -> (r: Result<(), StoreError>)
        requires
            old(self).handles_wf(),
            old(self).unordered_map_vec.touched(key@) ==> old(self).unordered_map_vec.child_at(
                key@,
            ).len_spec() + values@.len() <= u64::MAX,
            !old(self).unordered_map_vec.touched(key@) && store@.contains_key(
                str_key(nested_prefix(), key@),
            ) ==> be8_val(store@[str_key(nested_prefix(), key@)]) + values@.len() <= u64::MAX,
        ensures
            final(self).string == old(self).string,
            final(self).handles_wf(),
            final(self).vector == old(self).vector,
            final(self).unordered_map == old(self).unordered_map,
            final(self).unordered_map_map == old(self).unordered_map_map,
            final(self).registry == old(self).registry,
            !old(self).ledgers(store@).contains_key(key@) ==> (r == Err::<(), StoreError>(
                StoreError::NotInitialized,
            ) && *final(self) == *old(self)),
            old(self).unordered_map_vec.touched(key@) || (store@.contains_key(
                str_key(nested_prefix(), key@),
            ) && store@[str_key(nested_prefix(), key@)].len() == 8 && small_key(key@)) ==> (r
                == Ok::<(), StoreError>(()) && final(self).ledgers(store@) == old(self).ledgers(
                store@,
            ).insert(key@, old(self).ledgers(store@)[key@] + strs_view(values@))),
    {
        self.unordered_map_vec.extend_into(store, key, values)
    }

    /// The nested list under `key`, rendered as a JSON array of strings.
    pub fn unordered_map_vec_get_ser(&self, store: &FlatStore, key: &String) -> (r: Result<
        String,
        StoreError,
    >)
        requires
            self.handles_wf(),
        ensures
            !self.ledgers(store@).contains_key(key@) ==> r == Err::<String, StoreError>(
                StoreError::NotInitialized,
            ),
            self.unordered_map_vec.wf(store@) && self.ledgers(store@).contains_key(key@) ==> (
            r matches Ok(s) && s@ == crate::json::json_array(self.ledgers(store@)[key@])),
    {
        self.unordered_map_vec.get_all_serialized(store, key)
    }

    /// The number of elements of the nested list under `key`.
    pub fn unordered_map_vec_len(&self, store: &FlatStore, key: &String) -> (r: Result<
        u64,
        StoreError,
    >)
        requires
            self.handles_wf(),
        ensures
            !self.ledgers(store@).contains_key(key@) ==> r == Err::<u64, StoreError>(
                StoreError::NotInitialized,
            ),
            self.unordered_map_vec.touched(key@) ==> r == Ok::<u64, StoreError>(
                self.unordered_map_vec.child_at(key@).len_spec() as u64,
            ),
    {
        self.unordered_map_vec.len_of(store, key)
    }

    /// Marks `key` in the doubly nested stub map.
    pub fn unordered_map_map_int(&mut self, key: String)
        requires
            old(self).handles_wf(),
        ensures
            final(self).string == old(self).string,
            final(self).handles_wf(),
            final(self).vector == old(self).vector,
            final(self).unordered_map == old(self).unordered_map,
            final(self).unordered_map_vec == old(self).unordered_map_vec,
            final(self).registry == old(self).registry,
            forall|s: Map<Seq<u8>, Seq<u8>>| #[trigger]
                final(self).groups(s) == old(self).groups(s).insert(key@, Seq::<char>::empty()),
    {
        self.unordered_map_map.insert(key, String::new());
    }

    /// Reconstructs the state a call works against from the persisted
    /// metadata alone: the text and the list's counter. Elements stay in the
    /// store and are pulled lazily. Fails with `CorruptState` when the
    /// metadata is missing or unreadable.
    pub fn load(store: &FlatStore) -> (r: Result<ContractState, StoreError>)
        ensures
            store@.contains_key(text_key()) && valid_utf8(store@[text_key()])
                && store@.contains_key(vec_prefix()) && store@[vec_prefix()].len() == 8 ==> (
            r matches Ok(st) && st.string@ == decode_utf8(store@[text_key()])
                && st.vector.committed == be8_val(store@[vec_prefix()])
                && st.vector.pending@.len() == 0 && st.unordered_map.cache@.len() == 0
                && st.unordered_map_vec.children@.len() == 0 && st.unordered_map_map.cache@.len()
                == 0 && st.handles_wf()),
            !(store@.contains_key(text_key()) && valid_utf8(store@[text_key()])
                && store@.contains_key(vec_prefix()) && store@[vec_prefix()].len() == 8) ==> r
                == Err::<ContractState, StoreError>(StoreError::CorruptState),
    {
        let tk = byte_prefix(116);
        let text = match store.get(&tk) {
            None => {
                return Err(StoreError::CorruptState);
            },
            Some(b) => match crate::codec::bytes_to_string(&b) {
                None => {
                    return Err(StoreError::CorruptState);
                },
                Some(t) => t,
            },
        };
        let pa = byte_prefix(97);
        let vector = match RawList::load(pa, store) {
            Err(_) => {
                return Err(StoreError::CorruptState);
            },
            Ok(l) => l,
        };
        let mut st = ContractState::fresh(text);
        st.vector = vector;
        Ok(st)
    }

    /// Writes the text, every collection's dirty cache, and every counter to
    /// the store, in one step. Contents are unchanged; a state whose caches
    /// are clean and whose metadata is already persisted rewrites the store
    /// byte for byte.
    pub fn flush(&mut self, store: &mut FlatStore)
        requires
            old(self).handles_wf(),
        ensures
            final(self).string == old(self).string,
            final(self).handles_wf(),
            final(self).vector.pending@.len() == 0,
            final(self).vector.committed == old(self).vector.len_spec(),
            final(self).unordered_map.cache@.len() == 0,
            final(self).unordered_map_vec.children@.len() == 0,
            final(self).unordered_map_map.cache@.len() == 0,
            final(store)@.contains_key(text_key()),
            final(store)@[text_key()] == encode_utf8(old(self).string@),
            final(store)@.contains_key(vec_prefix()),
            final(store)@[vec_prefix()] == be8_of(old(self).vector.len_spec() as u64),
            old(self).store_wf(old(store)@) ==> final(self).store_wf(final(store)@),
            old(self).store_wf(old(store)@) ==> final(self).numbers(final(store)@) =~= old(
                self,
            ).numbers(old(store)@),
            old(self).store_wf(old(store)@) ==> final(self).accounts(final(store)@) == old(
                self,
            ).accounts(old(store)@),
            old(self).store_wf(old(store)@) ==> final(self).ledgers(final(store)@) == old(
                self,
            ).ledgers(old(store)@),
            old(self).store_wf(old(store)@) ==> final(self).groups(final(store)@) == old(
                self,
            ).groups(old(store)@),
            (old(self).vector.pending@.len() == 0 && old(self).unordered_map.cache@.len() == 0
                && old(self).unordered_map_vec.children@.len() == 0
                && old(self).unordered_map_map.cache@.len() == 0 && old(store)@.contains_key(
                text_key(),
            ) && old(store)@[text_key()] == encode_utf8(old(self).string@)
                && old(store)@.contains_key(vec_prefix()) && old(store)@[vec_prefix()] == be8_of(
                old(self).vector.len_spec() as u64,
            )) ==> final(store)@ == old(store)@,
    {
        let ghost s0 = store@;
        let tb = str_to_bytes(self.string.as_str());
        let tk = byte_prefix(116);
        store.set(&tk, &tb);
        let ghost s1 = store@;
        self.vector.flush(store);
        let ghost s2 = store@;
        self.unordered_map.flush(store);
        let ghost s3 = store@;
        self.unordered_map_vec.flush(store);
        let ghost s4 = store@;
        self.unordered_map_map.flush(store);
        let ghost s5 = store@;
        proof {
            lemma_state_prefixes();
            // the text entry stands under no collection prefix
            assert(!is_prefix_of(vec_prefix(), text_key()));
            assert(!is_prefix_of(map_prefix(), text_key()));
            assert(!is_prefix_of(nested_prefix(), text_key()));
            assert(!is_prefix_of(dn_prefix(), text_key()));
            assert(s5.contains_key(text_key()) && s5[text_key()] == encode_utf8(
                old(self).string@,
            )) by {
                assert(s1[text_key()] == encode_utf8(old(self).string@));
                assert(s1.contains_key(text_key()));
                assert(s2.contains_key(text_key()) && s2[text_key()] == s1[text_key()]);
                assert(s3.contains_key(text_key()) && s3[text_key()] == s2[text_key()]);
                assert(s4.contains_key(text_key()) && s4[text_key()] == s3[text_key()]);
                assert(s5.contains_key(text_key()) && s5[text_key()] == s4[text_key()]);
            }
            assert(s5.contains_key(vec_prefix()) && s5[vec_prefix()] == be8_of(
                old(self).vector.len_spec() as u64,
            )) by {
                lemma_agree_off_to_under(map_prefix(), vec_prefix(), s2, s3);
                lemma_agree_off_to_under(nested_prefix(), vec_prefix(), s3, s4);
                lemma_agree_off_to_under(dn_prefix(), vec_prefix(), s4, s5);
                assert(crate::codec::is_prefix_of(vec_prefix(), vec_prefix())) by {
                    assert(vec_prefix().subrange(0, 1) =~= vec_prefix());
                }
                assert(s2.contains_key(vec_prefix()));
                assert(s3.contains_key(vec_prefix()) && s3[vec_prefix()] == s2[vec_prefix()]);
                assert(s4.contains_key(vec_prefix()) && s4[vec_prefix()] == s3[vec_prefix()]);
                assert(s5.contains_key(vec_prefix()) && s5[vec_prefix()] == s4[vec_prefix()]);
            }
            // agreement chains for each collection's key space
            lemma_insert_agree_under(vec_prefix(), text_key(), s0, s1);
            lemma_agree_off_to_under(map_prefix(), vec_prefix(), s2, s3);
            lemma_agree_off_to_under(nested_prefix(), vec_prefix(), s3, s4);
            lemma_agree_off_to_under(dn_prefix(), vec_prefix(), s4, s5);
            lemma_agree_under_trans(vec_prefix(), s2, s3, s4);
            lemma_agree_under_trans(vec_prefix(), s2, s4, s5);
            lemma_insert_agree_under(map_prefix(), text_key(), s0, s1);
            lemma_agree_off_to_under(vec_prefix(), map_prefix(), s1, s2);
            lemma_agree_under_trans(map_prefix(), s0, s1, s2);
            lemma_agree_off_to_under(nested_prefix(), map_prefix(), s3, s4);
            lemma_agree_off_to_under(dn_prefix(), map_prefix(), s4, s5);
            lemma_agree_under_trans(map_prefix(), s3, s4, s5);
            lemma_insert_agree_under(nested_prefix(), text_key(), s0, s1);
            lemma_agree_off_to_under(vec_prefix(), nested_prefix(), s1, s2);
            lemma_agree_off_to_under(map_prefix(), nested_prefix(), s2, s3);
            lemma_agree_under_trans(nested_prefix(), s0, s1, s2);
            lemma_agree_under_trans(nested_prefix(), s0, s2, s3);
            lemma_agree_off_to_under(dn_prefix(), nested_prefix(), s4, s5);
            lemma_insert_agree_under(dn_prefix(), text_key(), s0, s1);
            lemma_agree_off_to_under(vec_prefix(), dn_prefix(), s1, s2);
            lemma_agree_off_to_under(map_prefix(), dn_prefix(), s2, s3);
            lemma_agree_off_to_under(nested_prefix(), dn_prefix(), s3, s4);
            lemma_agree_under_trans(dn_prefix(), s0, s1, s2);
            lemma_agree_under_trans(dn_prefix(), s0, s2, s3);
            lemma_agree_under_trans(dn_prefix(), s0, s3, s4);
            if old(self).store_wf(s0) {
                // the number list: framed around its own flush
                lemma_list_frame(old(self).vector, s0, s1);
                assert(old(self).vector.wf(s1));
                assert(self.vector.wf(s2));
                assert(self.vector.raw_contents(s2) =~= old(self).vector.raw_contents(s1));
                lemma_list_frame(self.vector, s2, s3);
                lemma_list_frame(self.vector, s2, s4);
                lemma_list_frame(self.vector, s2, s5);
                assert(self.vector.raw_contents(s5) =~= self.vector.raw_contents(s2));
                assert(u64_wf(self.vector, s5)) by {
                    assert forall|i: int|
                        0 <= i < self.vector.len_spec() implies (
                    #[trigger] self.vector.raw_contents(s5)[i]).len() == 8 by {
                        assert(self.vector.raw_contents(s5)[i] == old(self).vector.raw_contents(
                            s0,
                        )[i]);
                    }
                }
                assert(self.numbers(s5) =~= old(self).numbers(s0)) by {
                    assert forall|i: int|
                        0 <= i < self.vector.len_spec() implies self.numbers(s5)[i] == old(
                        self,
                    ).numbers(s0)[i] by {
                        assert(self.vector.raw_contents(s5)[i] == old(self).vector.raw_contents(
                            s0,
                        )[i]);
                    }
                }
                // the string map
                lemma_kvmap_frame(old(self).unordered_map, s0, s2);
                assert(old(self).unordered_map.wf(s2));
                assert(self.unordered_map.wf(s3));
                assert(self.unordered_map.contents(s3) == old(self).unordered_map.contents(s2));
                lemma_kvmap_frame(self.unordered_map, s3, s5);
                assert(self.accounts(s5) == old(self).accounts(s0)) by {
                    assert(self.unordered_map.contents(s5) =~= self.unordered_map.contents(s3));
                    assert(old(self).unordered_map.contents(s2) =~= old(
                        self,
                    ).unordered_map.contents(s0));
                }
                // the nested map
                lemma_nested_frame(old(self).unordered_map_vec, s0, s3);
                assert(old(self).unordered_map_vec.wf(s3));
                assert(self.unordered_map_vec.wf(s4));
                assert(self.unordered_map_vec.contents(s4) == old(
                    self,
                ).unordered_map_vec.contents(s3));
                lemma_nested_frame(self.unordered_map_vec, s4, s5);
                assert(self.ledgers(s5) == old(self).ledgers(s0)) by {
                    assert(self.unordered_map_vec.contents(s5) =~= self.unordered_map_vec.contents(
                        s4,
                    ));
                    assert(old(self).unordered_map_vec.contents(s3) =~= old(
                        self,
                    ).unordered_map_vec.contents(s0));
                }
                // the stub map
                lemma_kvmap_frame(old(self).unordered_map_map, s0, s4);
                assert(old(self).unordered_map_map.wf(s4));
                assert(self.unordered_map_map.wf(s5));
                assert(self.groups(s5) == old(self).groups(s0)) by {
                    assert(self.unordered_map_map.contents(s5) == old(
                        self,
                    ).unordered_map_map.contents(s4));
                    assert(old(self).unordered_map_map.contents(s4) =~= old(
                        self,
                    ).unordered_map_map.contents(s0));
                }
                broadcast use vstd::utf8::encode_utf8_valid_utf8;

                assert(self.store_wf(s5));
            }
            if old(self).vector.pending@.len() == 0 && old(self).unordered_map.cache@.len() == 0
                && old(self).unordered_map_vec.children@.len() == 0
                && old(self).unordered_map_map.cache@.len() == 0 && s0.contains_key(text_key())
                && s0[text_key()] == encode_utf8(old(self).string@) && s0.contains_key(
                vec_prefix(),
            ) && s0[vec_prefix()] == be8_of(old(self).vector.len_spec() as u64) {
                assert(s1 =~= s0);
                assert(s2 =~= s1) by {
                    assert forall|k: Seq<u8>| true implies (#[trigger] s2.contains_key(k)
                        <==> s1.contains_key(k)) && (s1.contains_key(k) ==> s2[k] == s1[k]) by {
                        if k == old(self).vector.prefix@ {
                            assert(s2[k] == be8_of(old(self).vector.len_spec() as u64));
                        } else {
                            assert(!(exists|i: u64|
                                old(self).vector.committed <= i < old(self).vector.len_spec() && k
                                    == index_key(old(self).vector.prefix@, i)));
                        }
                    }
                }
                assert(s3 =~= s2) by {
                    assert forall|k: Seq<u8>| true implies (#[trigger] s3.contains_key(k)
                        <==> s2.contains_key(k)) && (s2.contains_key(k) ==> s3[k] == s2[k]) by {
                        assert(!(exists|i: int|
                            0 <= i < old(self).unordered_map.cache@.len() && k == str_key(
                                old(self).unordered_map.prefix@,
                                (#[trigger] old(self).unordered_map.cache@[i]).key@,
                            )));
                    }
                }
                assert(s4 =~= s3);
                assert(s5 =~= s4) by {
                    assert forall|k: Seq<u8>| true implies (#[trigger] s5.contains_key(k)
                        <==> s4.contains_key(k)) && (s4.contains_key(k) ==> s5[k] == s4[k]) by {
                        assert(!(exists|i: int|
                            0 <= i < old(self).unordered_map_map.cache@.len() && k == str_key(
                                old(self).unordered_map_map.prefix@,
                                (#[trigger] old(self).unordered_map_map.cache@[i]).key@,
                            )));
                    }
                }
                assert(s5 == s0);
            }
        }
    }
}

/// The five key spaces of one state are pairwise free of one another.
proof fn lemma_state_prefixes()
    ensures
        !is_prefix_of(vec_prefix(), map_prefix()),
        !is_prefix_of(map_prefix(), vec_prefix()),
        !is_prefix_of(vec_prefix(), nested_prefix()),
        !is_prefix_of(nested_prefix(), vec_prefix()),
        !is_prefix_of(vec_prefix(), dn_prefix()),
        !is_prefix_of(dn_prefix(), vec_prefix()),
        !is_prefix_of(map_prefix(), nested_prefix()),
        !is_prefix_of(nested_prefix(), map_prefix()),
        !is_prefix_of(map_prefix(), dn_prefix()),
        !is_prefix_of(dn_prefix(), map_prefix()),
        !is_prefix_of(nested_prefix(), dn_prefix()),
        !is_prefix_of(dn_prefix(), nested_prefix()),
        !is_prefix_of(vec_prefix(), text_key()),
        !is_prefix_of(map_prefix(), text_key()),
        !is_prefix_of(nested_prefix(), text_key()),
        !is_prefix_of(dn_prefix(), text_key()),
{
    lemma_one_byte_free(97, 98);
    lemma_one_byte_free(98, 97);
    lemma_one_byte_free(97, 99);
    lemma_one_byte_free(99, 97);
    lemma_one_byte_free(97, 115);
    lemma_one_byte_free(115, 97);
    lemma_one_byte_free(98, 99);
    lemma_one_byte_free(99, 98);
    lemma_one_byte_free(98, 115);
    lemma_one_byte_free(115, 98);
    lemma_one_byte_free(99, 115);
    lemma_one_byte_free(115, 99);
    lemma_one_byte_free(97, 116);
    lemma_one_byte_free(98, 116);
    lemma_one_byte_free(99, 116);
    lemma_one_byte_free(115, 116);
}

/// Distinct single bytes are prefix-free.
proof fn lemma_one_byte_free(a: u8, b: u8)
    requires
        a != b,
    ensures
        !is_prefix_of(seq![a], seq![b]),
{
    if is_prefix_of(seq![a], seq![b]) {
        assert(seq![b].subrange(0, 1) =~= seq![b]);
        assert(seq![b][0] == b);
        assert(seq![a][0] == a);
    }
}

/// Inserting a key that is not under `p` leaves the key space under `p`
/// untouched.
proof fn lemma_insert_agree_under(
    p: Seq<u8>,
    k: Seq<u8>,
    s1: Map<Seq<u8>, Seq<u8>>,
    s2: Map<Seq<u8>, Seq<u8>>,
)
    requires
        !is_prefix_of(p, k),
        forall|k2: Seq<u8>|
            k2 != k ==> ((#[trigger] s2.contains_key(k2) <==> s1.contains_key(k2)) && (
            s1.contains_key(k2) ==> s2[k2] == s1[k2])),
    ensures
        agree_under_prefix(p, s1, s2),
{
}

/// A flush that frames off one prefix keeps the key space of a prefix-free
/// other prefix intact.
proof fn lemma_agree_off_to_under(
    q: Seq<u8>,
    p: Seq<u8>,
    s1: Map<Seq<u8>, Seq<u8>>,
    s2: Map<Seq<u8>, Seq<u8>>,
)
    requires
        !is_prefix_of(p, q),
        !is_prefix_of(q, p),
        agrees_off_prefix(q, s1, s2),
    ensures
        agree_under_prefix(p, s1, s2),
{
    assert forall|k: Seq<u8>| is_prefix_of(p, k) implies ((#[trigger] s1.contains_key(k)
        <==> s2.contains_key(k)) && (s1.contains_key(k) ==> s1[k] == s2[k])) by {
        crate::codec::lemma_under_disjoint(p, q, k);
        assert(s1.contains_key(k) <==> s2.contains_key(k));
        if s1.contains_key(k) {
            assert(s1[k] == s2[k]);
        }
    }
}

/// Agreement under a prefix carries over a chain of stores.
proof fn lemma_agree_under_trans(
    p: Seq<u8>,
    s1: Map<Seq<u8>, Seq<u8>>,
    s2: Map<Seq<u8>, Seq<u8>>,
    s3: Map<Seq<u8>, Seq<u8>>,
)
    requires
        agree_under_prefix(p, s1, s2),
        agree_under_prefix(p, s2, s3),
    ensures
        agree_under_prefix(p, s1, s3),
{
    assert forall|k: Seq<u8>| is_prefix_of(p, k) implies ((#[trigger] s1.contains_key(k)
        <==> s3.contains_key(k)) && (s1.contains_key(k) ==> s1[k] == s3[k])) by {
        assert(s1.contains_key(k) <==> s2.contains_key(k));
        assert(s2.contains_key(k) <==> s3.contains_key(k));
        if s1.contains_key(k) {
            assert(s1[k] == s2[k]);
            assert(s2[k] == s3[k]);
        }
    }
}

impl Default for ContractState {
    /// The default state: the greeting text and every collection empty.
    fn default() -> (r: ContractState)
        ensures
            r.string@ == "Hello World"@,
            r.handles_wf(),
            r.vector.committed == 0,
            r.vector.pending@.len() == 0,
            r.unordered_map.cache@.len() == 0,
            r.unordered_map_vec.children@.len() == 0,
            r.unordered_map_map.cache@.len() == 0,
            forall|s: Map<Seq<u8>, Seq<u8>>| (#[trigger] r.numbers(s)).len() == 0,
            forall|s: Map<Seq<u8>, Seq<u8>>| #[trigger] u64_wf(r.vector, s),
    {
        let r = ContractState::fresh("Hello World".to_owned());
        proof {
            assert forall|s: Map<Seq<u8>, Seq<u8>>| (#[trigger] r.numbers(s)).len() == 0 by {}
            assert forall|s: Map<Seq<u8>, Seq<u8>>| #[trigger] u64_wf(r.vector, s) by {}
        }
        r
    }
}

} // verus!
