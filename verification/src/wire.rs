//! The exact byte layout of the ping message, as spec-level encode and
//! decode functions over the message model, together with the lemmas that
//! relate them.
//!
//! Layout, in order, all integers little-endian fixed-width: the 4-byte
//! version; the node type's canonical byte; one presence byte (`0` means no
//! locators follow and the message ends there); then, when present, for each
//! of the two tables a 4-byte entry count followed by that many
//! `(height, hash)` entries of `ENTRY_WIDTH` bytes each. The written count is
//! clamped to `u32::MAX`, and only that many entries are written. A decoder
//! reads the same fields in the same order, treats any nonzero presence byte
//! as "present", ignores bytes past the message, and lets a repeated height
//! overwrite the earlier hash for that key.

use crate::bytes_le::{lemma_u32_le_round_trip, u32_le_at, u32_le_bytes};
use crate::hash::HASH_WIDTH;
use crate::node_type::{node_type_byte, node_type_of_byte, NodeType};
use crate::ordered_map::{entries_has_key, entries_insert, entries_unique_keys, Entries};
use vstd::prelude::*;

verus! {

/// Number of bytes one table entry occupies: a 4-byte height, then the hash.
pub const ENTRY_WIDTH: usize = 4 + HASH_WIDTH;

/// Why a byte sequence fails to decode.
#[derive(Clone, Copy, Debug, PartialEq, Eq, Structural)]
pub enum DecodeError {
    /// The bytes ran out before the field being read was complete.
    UnexpectedEnd,
    /// The node-type byte names no node type.
    InvalidNodeType,
}

/// The model of a ping message.
#[verifier::ext_equal]
pub struct PingModel {
    pub version: u32,
    pub node_type: NodeType,
    pub block_locators: Option<crate::locators::LocatorsModel>,
}

// ---------------------------------------------------------------- encoding

/// The bytes of one table entry: the height, then the hash.
pub open spec fn entry_bytes(e: (u32, Seq<u8>)) -> Seq<u8> {
    u32_le_bytes(e.0) + e.1
}

/// The bytes of a run of table entries, in order.
pub open spec fn entries_bytes(es: Entries) -> Seq<u8>
    decreases es.len(),
{
    if es.len() == 0 {
        Seq::empty()
    } else {
        entry_bytes(es[0]) + entries_bytes(es.drop_first())
    }
}

/// The count written for a table of `n` entries: `n`, clamped to `u32::MAX`.
pub open spec fn count_value(n: nat) -> u32 {
    if n > u32::MAX as nat {
        u32::MAX
    } else {
        n as u32
    }
}

/// The bytes of one table section: the clamped count, then that many
/// entries.
pub open spec fn section_bytes(es: Entries) -> Seq<u8> {
    u32_le_bytes(count_value(es.len())) + entries_bytes(es.take(count_value(es.len()) as int))
}

/// The bytes of a whole ping message.
pub open spec fn encode_ping(m: PingModel) -> Seq<u8> {
    u32_le_bytes(m.version) + seq![node_type_byte(m.node_type)] + (match m.block_locators {
        None => seq![0u8],
        Some(l) => seq![1u8] + section_bytes(l.recents) + section_bytes(l.checkpoints),
    })
}

// ---------------------------------------------------------------- decoding

/// The raw entry stored at offset `off`: the height, then the hash bytes.
pub open spec fn pair_at(b: Seq<u8>, off: int) -> (u32, Seq<u8>)
    recommends
        0 <= off,
        off + ENTRY_WIDTH as int <= b.len(),
{
    (u32_le_at(b, off), b.subrange(off + 4, off + ENTRY_WIDTH as int))
}

/// The `n` raw entries stored from offset `off` on, in reading order, or
/// nothing if the bytes run out first.
pub open spec fn parse_pairs(b: Seq<u8>, off: int, n: nat) -> Option<Entries>
    decreases n,
{
    if n == 0 {
        Some(Seq::empty())
    } else if off + ENTRY_WIDTH as int <= b.len() {
        match parse_pairs(b, off + ENTRY_WIDTH as int, (n - 1) as nat) {
            Some(rest) => Some(seq![pair_at(b, off)] + rest),
            None => None,
        }
    } else {
        None
    }
}

/// The table a run of raw entries builds, inserting in reading order.
pub open spec fn fold_inserts(acc: Entries, pairs: Entries) -> Entries
    decreases pairs.len(),
{
    if pairs.len() == 0 {
        acc
    } else {
        fold_inserts(entries_insert(acc, pairs[0].0, pairs[0].1), pairs.drop_first())
    }
}

/// The message a byte sequence decodes to, or the error it fails with; bytes
/// past the message are ignored.
pub open spec fn decode_ping(b: Seq<u8>) -> Result<PingModel, DecodeError> {
    if b.len() < 4 {
        Err(DecodeError::UnexpectedEnd)
    } else {
        let version = u32_le_at(b, 0);
        if b.len() < 5 {
            Err(DecodeError::UnexpectedEnd)
        } else {
            match node_type_of_byte(b[4]) {
                None => Err(DecodeError::InvalidNodeType),
                Some(node_type) => {
                    if b.len() < 6 {
                        Err(DecodeError::UnexpectedEnd)
                    } else if b[5] == 0 {
                        Ok(PingModel { version, node_type, block_locators: None })
                    } else {
                        if b.len() < 10 {
                            Err(DecodeError::UnexpectedEnd)
                        } else {
                            let n1 = u32_le_at(b, 6);
                            match parse_pairs(b, 10, n1 as nat) {
                                None => Err(DecodeError::UnexpectedEnd),
                                Some(rpairs) => {
                                    let off2 = 10 + n1 as int * ENTRY_WIDTH as int;
                                    if b.len() < off2 + 4 {
                                        Err(DecodeError::UnexpectedEnd)
                                    } else {
                                        let n2 = u32_le_at(b, off2);
                                        match parse_pairs(b, off2 + 4, n2 as nat) {
                                            None => Err(DecodeError::UnexpectedEnd),
                                            Some(cpairs) => Ok(
                                                PingModel {
                                                    version,
                                                    node_type,
                                                    block_locators: Some(
                                                        crate::locators::LocatorsModel {
                                                            recents: fold_inserts(
                                                                Seq::empty(),
                                                                rpairs,
                                                            ),
                                                            checkpoints: fold_inserts(
                                                                Seq::empty(),
                                                                cpairs,
                                                            ),
                                                        },
                                                    ),
                                                },
                                            ),
                                        }
                                    }
                                },
                            }
                        }
                    }
                },
            }
        }
    }
}

// ------------------------------------------------------------------ lemmas

/// Every entry of `es` is well-formed: its hash has exactly `HASH_WIDTH`
/// bytes.
pub open spec fn wf_entries_hashes(es: Entries) -> bool {
    forall|i: int| 0 <= i < es.len() ==> (#[trigger] es[i]).1.len() == HASH_WIDTH
}

/// Well-formed entries occupy exactly `ENTRY_WIDTH` bytes each.
pub proof fn lemma_entries_bytes_len(es: Entries)
    requires
        wf_entries_hashes(es),
    ensures
        entries_bytes(es).len() == es.len() * ENTRY_WIDTH as int,
    decreases es.len(),
{
    if es.len() == 0 {
    } else {
        assert(wf_entries_hashes(es.drop_first())) by {
            assert(forall|i: int|
                0 <= i < es.drop_first().len() ==> (#[trigger] es.drop_first()[i]) == es[i + 1]);
        }
        lemma_entries_bytes_len(es.drop_first());
    }
}

/// Appending one entry appends its bytes.
pub proof fn lemma_entries_bytes_push(es: Entries, e: (u32, Seq<u8>))
    ensures
        entries_bytes(es.push(e)) == entries_bytes(es) + entry_bytes(e),
    decreases es.len(),
{
    if es.len() == 0 {
        assert(es.push(e).drop_first() =~= es);
        assert(es.push(e)[0] == e);
        assert(entries_bytes(es.push(e)) =~= entries_bytes(es) + entry_bytes(e));
    } else {
        assert(es.push(e).drop_first() =~= es.drop_first().push(e));
        lemma_entries_bytes_push(es.drop_first(), e);
        assert(entries_bytes(es.push(e)) =~= entries_bytes(es) + entry_bytes(e));
    }
}

/// A run of `n >= 1` entries parses exactly when the bytes reach to its end.
pub proof fn lemma_parse_pairs_some_iff(b: Seq<u8>, off: int, n: nat)
    requires
        0 <= off,
    ensures
        parse_pairs(b, off, n) is Some <==> (n == 0 || off + n * ENTRY_WIDTH as int <= b.len()),
    decreases n,
{
    if n > 0 {
        if off + ENTRY_WIDTH as int <= b.len() {
            lemma_parse_pairs_some_iff(b, off + ENTRY_WIDTH as int, (n - 1) as nat);
        }
    }
}

/// Parsing one more entry appends the pair stored at the run's end.
pub proof fn lemma_parse_pairs_snoc(b: Seq<u8>, off: int, n: nat)
    requires
        0 <= off,
        parse_pairs(b, off, n) is Some,
        off + n * ENTRY_WIDTH as int + ENTRY_WIDTH as int <= b.len(),
    ensures
        parse_pairs(b, off, n + 1) == Some(
            parse_pairs(b, off, n).unwrap().push(pair_at(b, off + n * ENTRY_WIDTH as int)),
        ),
    decreases n,
{
    let w = ENTRY_WIDTH as int;
    if n == 0 {
        assert(parse_pairs(b, off + w, 0) == Some(Seq::<(u32, Seq<u8>)>::empty()));
        assert(parse_pairs(b, off, 1) == Some(seq![pair_at(b, off)] + Seq::<(u32,
            Seq<u8>)>::empty()));
        assert(seq![pair_at(b, off)] + Seq::<(u32, Seq<u8>)>::empty() =~= Seq::<(u32,
            Seq<u8>)>::empty().push(pair_at(b, off)));
    } else {
        assert(off + w + (n - 1) * w == off + n * w) by (nonlinear_arith)
            requires
                n >= 1,
        ;
        let rest = parse_pairs(b, off + w, (n - 1) as nat).unwrap();
        lemma_parse_pairs_snoc(b, off + w, (n - 1) as nat);
        assert(seq![pair_at(b, off)] + rest.push(pair_at(b, off + n * w)) =~= (seq![pair_at(b, off)]
            + rest).push(pair_at(b, off + n * w)));
    }
}

/// Parsing reads nothing past the run's end: truncating the bytes anywhere
/// at or beyond it leaves the result unchanged.
pub proof fn lemma_parse_pairs_take(b: Seq<u8>, cut: int, off: int, n: nat)
    requires
        0 <= off,
        off + n * ENTRY_WIDTH as int <= cut <= b.len(),
    ensures
        parse_pairs(b.take(cut), off, n) == parse_pairs(b, off, n),
    decreases n,
{
    if n > 0 {
        let w = ENTRY_WIDTH as int;
        assert(off + w + (n - 1) * w == off + n * w && off + w <= off + n * w) by (nonlinear_arith)
            requires
                n >= 1 && w >= 0,
        ;
        lemma_parse_pairs_take(b, cut, off + ENTRY_WIDTH as int, (n - 1) as nat);
        assert(pair_at(b.take(cut), off) == pair_at(b, off)) by {
            assert(b.take(cut).subrange(off + 4, off + ENTRY_WIDTH as int) =~= b.subrange(
                off + 4,
                off + ENTRY_WIDTH as int,
            ));
        }
    }
}

/// The entry encoded at the end of `pre` reads back as itself.
proof fn lemma_pair_at_encoded(b: Seq<u8>, pre: Seq<u8>, e: (u32, Seq<u8>), suf: Seq<u8>)
    requires
        e.1.len() == HASH_WIDTH,
        b == pre + entry_bytes(e) + suf,
    ensures
        pair_at(b, pre.len() as int) == e,
{
    let off = pre.len() as int;
    let w = ENTRY_WIDTH as int;
    let ub = u32_le_bytes(e.0);
    assert(b =~= pre + ub + e.1 + suf);
    assert(b[off] == ub[0] && b[off + 1] == ub[1] && b[off + 2] == ub[2] && b[off + 3] == ub[3]);
    assert(u32_le_at(b, off) == u32_le_at(ub, 0));
    lemma_u32_le_round_trip(e.0);
    assert(b.subrange(off + 4, off + w) =~= e.1) by {
        assert(forall|j: int| 0 <= j < HASH_WIDTH ==> b[off + 4 + j] == e.1[j]);
    }
}

/// Parsing a run of encoded well-formed entries recovers the entries.
pub proof fn lemma_parse_encoded(b: Seq<u8>, pre: Seq<u8>, es: Entries, suf: Seq<u8>)
    requires
        wf_entries_hashes(es),
        b == pre + entries_bytes(es) + suf,
    ensures
        parse_pairs(b, pre.len() as int, es.len()) == Some(es),
    decreases es.len(),
{
    let w = ENTRY_WIDTH as int;
    let off = pre.len() as int;
    if es.len() == 0 {
        assert(es =~= Seq::<(u32, Seq<u8>)>::empty());
    } else {
        let e0 = es[0];
        let rest = es.drop_first();
        assert(e0.1.len() == HASH_WIDTH);
        assert(entries_bytes(es) == entry_bytes(e0) + entries_bytes(rest));
        assert(b =~= pre + entry_bytes(e0) + (entries_bytes(rest) + suf));
        lemma_pair_at_encoded(b, pre, e0, entries_bytes(rest) + suf);
        assert(wf_entries_hashes(rest)) by {
            assert(forall|i: int| 0 <= i < rest.len() ==> (#[trigger] rest[i]) == es[i + 1]);
        }
        let pre2 = pre + entry_bytes(e0);
        assert(pre2.len() == off + w);
        assert(b =~= pre2 + entries_bytes(rest) + suf);
        lemma_parse_encoded(b, pre2, rest, suf);
        assert(off + w <= b.len());
        assert(seq![e0] + rest =~= es);
    }
}

/// Folding in one more raw entry inserts it.
pub proof fn lemma_fold_inserts_snoc(acc: Entries, pairs: Entries, p: (u32, Seq<u8>))
    ensures
        fold_inserts(acc, pairs.push(p)) == entries_insert(fold_inserts(acc, pairs), p.0, p.1),
    decreases pairs.len(),
{
    if pairs.len() == 0 {
        assert(pairs.push(p)[0] == p);
        assert(pairs.push(p).drop_first() =~= Seq::<(u32, Seq<u8>)>::empty());
        assert(fold_inserts(entries_insert(acc, p.0, p.1), Seq::<(u32, Seq<u8>)>::empty())
            == entries_insert(acc, p.0, p.1));
        assert(fold_inserts(acc, pairs) == acc);
    } else {
        assert(pairs.push(p)[0] == pairs[0]);
        assert(pairs.push(p).drop_first() =~= pairs.drop_first().push(p));
        lemma_fold_inserts_snoc(entries_insert(acc, pairs[0].0, pairs[0].1), pairs.drop_first(), p);
    }
}

/// Folding raw entries whose keys are fresh and mutually distinct appends
/// them in order.
pub proof fn lemma_fold_inserts_fresh(acc: Entries, pairs: Entries)
    requires
        entries_unique_keys(pairs),
        forall|i: int| 0 <= i < pairs.len() ==> !entries_has_key(acc, (#[trigger] pairs[i]).0),
    ensures
        fold_inserts(acc, pairs) == acc + pairs,
    decreases pairs.len(),
{
    if pairs.len() == 0 {
        assert(fold_inserts(acc, pairs) =~= acc + pairs);
    } else {
        let p = pairs[0];
        assert(!entries_has_key(acc, p.0));
        let acc2 = entries_insert(acc, p.0, p.1);
        assert(acc2 == acc.push(p));
        let rest = pairs.drop_first();
        assert(entries_unique_keys(rest)) by {
            assert(forall|i: int| 0 <= i < rest.len() ==> (#[trigger] rest[i]) == pairs[i + 1]);
        }
        assert forall|i: int| 0 <= i < rest.len() implies !entries_has_key(
            acc2,
            (#[trigger] rest[i]).0,
        ) by {
            assert(rest[i] == pairs[i + 1]);
            assert(pairs[i + 1].0 != p.0);
            if entries_has_key(acc2, rest[i].0) {
                let w = choose|w: int| 0 <= w < acc2.len() && acc2[w].0 == rest[i].0;
                assert(w < acc.len() ==> acc[w].0 == rest[i].0);
            }
        }
        lemma_fold_inserts_fresh(acc2, rest);
        assert(acc.push(p) + rest =~= acc + pairs);
    }
}

} // verus!
