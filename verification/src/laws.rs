//! The laws of the collection layer, stated over the same spec functions the
//! operations' contracts use.

use crate::codec::{be8_of, be8_val, lemma_be8_of_val};
use crate::list::RawList;
use crate::state::{text_key, u64_contents, vec_prefix, ContractState};
use vstd::prelude::*;
use vstd::utf8::{decode_utf8, encode_utf8, valid_utf8};

verus! {

/// On a fresh list — one whose store-side part is empty — every read is
/// answered by the dirty cache: element `i` is the `i`-th value pushed during
/// this call, whatever the store holds. Together with `RawList::get`, whose
/// contract reports any index at or past the length as `IndexOutOfRange`,
/// this is the whole behaviour of a list built by pushes alone.
pub proof fn lemma_fresh_list_reads_its_writes(l: RawList, s: Map<Seq<u8>, Seq<u8>>, i: int)
    requires
        l.committed == 0,
        l.fits(),
        0 <= i < l.len_spec(),
    ensures
        l.raw_contents(s)[i] == l.pending@[i]@,
        u64_contents(l, s)[i] == be8_val(l.pending@[i]@),
{
}

/// Binding a key twice keeps the later value: the mapping after
/// `insert(k, v1); insert(k, v2)` — which `KvMap::insert` pins down as the
/// double functional insert — is the mapping after `insert(k, v2)` alone,
/// and reads `v2` at `k`.
pub proof fn lemma_last_write_wins(
    c: Map<Seq<char>, Seq<char>>,
    k: Seq<char>,
    v1: Seq<char>,
    v2: Seq<char>,
)
    ensures
        c.insert(k, v1).insert(k, v2) == c.insert(k, v2),
        c.insert(k, v1).insert(k, v2)[k] == v2,
{
    assert(c.insert(k, v1).insert(k, v2) =~= c.insert(k, v2));
}

/// A successful `init_nested(k)` leaves `k` bound, so a second
/// `init_nested(k)`, whose contract refuses every bound key with
/// `AlreadyInitialized`, fails: initialization is strict.
pub proof fn lemma_strict_reinit(c: Map<Seq<char>, Seq<Seq<char>>>, k: Seq<char>)
    ensures
        c.insert(k, Seq::<Seq<char>>::empty()).contains_key(k),
{
}

/// The round trip of a freshly initialized key: `init_nested(k)` binds the
/// empty list, `extend_into(k, vs)` appends exactly `vs` to it, and
/// `get_all_serialized(k)` then renders exactly `json_array(vs)` — each step
/// by the respective contract.
pub proof fn lemma_fresh_extend_round_trip(
    c: Map<Seq<char>, Seq<Seq<char>>>,
    k: Seq<char>,
    vs: Seq<Seq<char>>,
)
    ensures
        c.insert(k, Seq::<Seq<char>>::empty()).insert(
            k,
            Seq::<Seq<char>>::empty() + vs,
        ).contains_key(k),
        c.insert(k, Seq::<Seq<char>>::empty()).insert(k, Seq::<Seq<char>>::empty() + vs)[k] == vs,
{
    assert(Seq::<Seq<char>>::empty() + vs =~= vs);
}

/// A state as `ContractState::load` returns it — caches clean, text and
/// counter read from the store — satisfies the identity case of
/// `ContractState::flush`: re-persisting without a mutating call in between
/// writes back byte-identical metadata, leaving the store unchanged.
pub proof fn lemma_reload_then_flush_is_identity(st: ContractState, s: Map<Seq<u8>, Seq<u8>>)
    requires
        st.vector.pending@.len() == 0,
        s.contains_key(text_key()),
        valid_utf8(s[text_key()]),
        st.string@ == decode_utf8(s[text_key()]),
        s.contains_key(vec_prefix()),
        s[vec_prefix()].len() == 8,
        st.vector.committed == be8_val(s[vec_prefix()]),
    ensures
        encode_utf8(st.string@) == s[text_key()],
        be8_of(st.vector.len_spec() as u64) == s[vec_prefix()],
{
    broadcast use vstd::utf8::decode_utf8_encode_utf8;

    lemma_be8_of_val(s[vec_prefix()]);
}

} // verus!
