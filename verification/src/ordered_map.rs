//! The insertion-ordered height-to-hash table that a block-locator summary
//! holds, backed by `indexmap::IndexMap`.
//!
//! The table is modelled as the sequence of its entries in insertion order;
//! `entries_insert` states what one insert does to that sequence, and every
//! trusted wrapper below speaks of the model through `imap_entries`.

use crate::hash::BlockHash;
use vstd::prelude::*;

verus! {

/// The model of a table: its entries in order, each a height and the bytes
/// of its hash.
pub type Entries = Seq<(u32, Seq<u8>)>;

/// Whether some entry of `s` carries the key `k`.
pub open spec fn entries_has_key(s: Entries, k: u32) -> bool {
    exists|i: int| 0 <= i < s.len() && s[i].0 == k
}

/// The first index of `s` whose entry carries the key `k`.
pub open spec fn entries_key_index(s: Entries, k: u32) -> int
    decreases s.len(),
{
    if s.len() == 0 {
        0
    } else if s[0].0 == k {
        0
    } else {
        1 + entries_key_index(s.drop_first(), k)
    }
}

/// When `k` occurs in `s`, `entries_key_index` points at its first
/// occurrence.
pub proof fn lemma_entries_key_index(s: Entries, k: u32)
    requires
        entries_has_key(s, k),
    ensures
        0 <= entries_key_index(s, k) < s.len(),
        s[entries_key_index(s, k)].0 == k,
        forall|j: int| 0 <= j < entries_key_index(s, k) ==> s[j].0 != k,
    decreases s.len(),
{
    if s[0].0 == k {
    } else {
        let i = choose|i: int| 0 <= i < s.len() && s[i].0 == k;
        assert(s.drop_first()[i - 1].0 == k);
        lemma_entries_key_index(s.drop_first(), k);
        assert forall|j: int| 0 <= j < entries_key_index(s, k) implies s[j].0 != k by {
            if j >= 1 {
                assert(s[j] == s.drop_first()[j - 1]);
            }
        }
    }
}

/// What one insert does to the entry sequence: an existing key keeps its
/// place and has its value replaced; a fresh key is appended last.
pub open spec fn entries_insert(s: Entries, k: u32, v: Seq<u8>) -> Entries {
    if entries_has_key(s, k) {
        s.update(entries_key_index(s, k), (k, v))
    } else {
        s.push((k, v))
    }
}

/// No two entries of `s` carry the same key.
pub open spec fn entries_unique_keys(s: Entries) -> bool {
    forall|i: int, j: int| 0 <= i < j < s.len() ==> s[i].0 != s[j].0
}

/// `indexmap::IndexMap`, declared so that the codec's types can hold it.
#[verifier::external_type_specification]
#[verifier::external_body]
#[verifier::reject_recursive_types(K)]
#[verifier::reject_recursive_types(V)]
#[verifier::reject_recursive_types(S)]
pub struct ExIndexMap<K, V, S>(indexmap::IndexMap<K, V, S>);

/// The entries of a height-to-hash `IndexMap` in insertion order: the name
/// that every trusted wrapper below states its effect over.
pub uninterp spec fn imap_entries(m: indexmap::IndexMap<u32, BlockHash>) -> Entries;

/// Relies on `indexmap::IndexMap::new`: a new map holds no entries.
#[verifier::external_body]
pub(crate) fn imap_new() -> (r: indexmap::IndexMap<u32, BlockHash>)
    ensures
        imap_entries(r) == Seq::<(u32, Seq<u8>)>::empty(),
{
    indexmap::IndexMap::new()
}

/// Relies on `indexmap::IndexMap::len`: the number of entries.
#[verifier::external_body]
pub(crate) fn imap_len(m: &indexmap::IndexMap<u32, BlockHash>) -> (r: usize)
    ensures
        r == imap_entries(*m).len(),
{
    m.len()
}

/// Relies on `indexmap::IndexMap::insert`: an existing key retains its place
/// in the order and has its value updated; a fresh key is appended last.
/// Keys in a map are unique, so the retained place is the one index of the
/// entry sequence that carries the key.
#[verifier::external_body]
pub(crate) fn imap_insert(m: &mut indexmap::IndexMap<u32, BlockHash>, key: u32, value: BlockHash)
    ensures
        imap_entries(*final(m)) == entries_insert(imap_entries(*old(m)), key, value@),
{
    m.insert(key, value);
}

/// Relies on `indexmap::IndexMap::get_index`: the key-value pair at place
/// `i` in insertion order, `Some` exactly on indices below `len`.
#[verifier::external_body]
pub(crate) fn imap_get_index(m: &indexmap::IndexMap<u32, BlockHash>, i: usize) -> (r: (
    u32,
    BlockHash,
))
    requires
        i < imap_entries(*m).len(),
    ensures
        r.0 == imap_entries(*m)[i as int].0,
        r.1@ == imap_entries(*m)[i as int].1,
{
    let (k, v) = m.get_index(i).unwrap();
    (*k, v.clone())
}

} // verus!
