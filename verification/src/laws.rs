//! The laws of the codec: serialization and deserialization are inverse to
//! each other, an absent payload occupies exactly the fixed header, oversized
//! tables are clamped, truncated input never decodes, and a repeated height
//! overwrites the earlier hash.

use crate::bytes_le::{lemma_u32_le_round_trip, u32_le_at, u32_le_bytes};
use crate::locators::LocatorsModel;
use crate::node_type::{lemma_node_type_round_trip, node_type_byte};
use crate::ordered_map::{entries_has_key, entries_insert, entries_key_index,
    entries_unique_keys, Entries};
use crate::wire::{count_value, decode_ping, encode_ping, entries_bytes, fold_inserts, lemma_entries_bytes_len, lemma_fold_inserts_fresh, lemma_parse_encoded,
    lemma_parse_pairs_some_iff, lemma_parse_pairs_take, parse_pairs, section_bytes, DecodeError,
    PingModel, ENTRY_WIDTH};
use vstd::prelude::*;

verus! {

/// A well-formed table: it fits the 32-bit count field, every hash has the
/// fixed width, and no height occurs twice.
pub open spec fn wf_entries(es: Entries) -> bool {
    &&& es.len() <= u32::MAX
    &&& crate::wire::wf_entries_hashes(es)
    &&& entries_unique_keys(es)
}

/// A well-formed message: when locators are present, both tables are
/// well-formed. Every message the library itself builds or decodes is of
/// this shape.
pub open spec fn wf_ping(m: PingModel) -> bool {
    match m.block_locators {
        None => true,
        Some(l) => wf_entries(l.recents) && wf_entries(l.checkpoints),
    }
}

/// The bytes of a message without locators: the version, the node type's
/// byte, and a zero presence byte.
proof fn lemma_encode_none_shape(m: PingModel)
    requires
        m.block_locators is None,
    ensures
        encode_ping(m).len() == 6,
        u32_le_at(encode_ping(m), 0) == m.version,
        encode_ping(m)[4] == node_type_byte(m.node_type),
        encode_ping(m)[5] == 0,
{
    let b = encode_ping(m);
    let ub = u32_le_bytes(m.version);
    assert(b =~= ub + seq![node_type_byte(m.node_type)] + seq![0u8]);
    assert(b[0] == ub[0] && b[1] == ub[1] && b[2] == ub[2] && b[3] == ub[3]);
    assert(u32_le_at(b, 0) == u32_le_at(ub, 0));
    lemma_u32_le_round_trip(m.version);
}

/// The bytes of a message with locators: the fixed header, then each table's
/// count and entries; each field reads back as what was written.
proof fn lemma_encode_some_shape(m: PingModel, l: LocatorsModel)
    requires
        m.block_locators == Some(l),
        wf_entries(l.recents),
        wf_entries(l.checkpoints),
    ensures
        ({
            let b = encode_ping(m);
            let w = ENTRY_WIDTH as int;
            let off2 = 10 + l.recents.len() * w;
            &&& b.len() == off2 + 4 + l.checkpoints.len() * w
            &&& u32_le_at(b, 0) == m.version
            &&& b[4] == node_type_byte(m.node_type)
            &&& b[5] == 1
            &&& u32_le_at(b, 6) as int == l.recents.len()
            &&& parse_pairs(b, 10, l.recents.len()) == Some(l.recents)
            &&& u32_le_at(b, off2) as int == l.checkpoints.len()
            &&& parse_pairs(b, off2 + 4, l.checkpoints.len()) == Some(l.checkpoints)
        }),
{
    let b = encode_ping(m);
    let w = ENTRY_WIDTH as int;
    let r = l.recents;
    let c = l.checkpoints;
    let nr = count_value(r.len());
    let nc = count_value(c.len());
    assert(nr as int == r.len() && nc as int == c.len());
    assert(r.take(nr as int) =~= r);
    assert(c.take(nc as int) =~= c);
    assert(section_bytes(r) == u32_le_bytes(nr) + entries_bytes(r));
    assert(section_bytes(c) == u32_le_bytes(nc) + entries_bytes(c));
    lemma_entries_bytes_len(r);
    lemma_entries_bytes_len(c);
    let ub = u32_le_bytes(m.version);
    let head = ub + seq![node_type_byte(m.node_type)] + seq![1u8];
    let pre1 = head + u32_le_bytes(nr);
    let pre2 = pre1 + entries_bytes(r);
    let pre3 = pre2 + u32_le_bytes(nc);
    assert(b =~= pre3 + entries_bytes(c));
    let off2 = 10 + r.len() * w;
    assert(pre1.len() == 10 && pre2.len() == off2 && pre3.len() == off2 + 4);
    // the version
    assert(b[0] == ub[0] && b[1] == ub[1] && b[2] == ub[2] && b[3] == ub[3]);
    assert(u32_le_at(b, 0) == u32_le_at(ub, 0));
    lemma_u32_le_round_trip(m.version);
    // the recents count
    let ur = u32_le_bytes(nr);
    assert(b[6] == ur[0] && b[7] == ur[1] && b[8] == ur[2] && b[9] == ur[3]);
    assert(u32_le_at(b, 6) == u32_le_at(ur, 0));
    lemma_u32_le_round_trip(nr);
    // the recents entries
    assert(b =~= pre1 + entries_bytes(r) + (u32_le_bytes(nc) + entries_bytes(c)));
    lemma_parse_encoded(b, pre1, r, u32_le_bytes(nc) + entries_bytes(c));
    // the checkpoints count
    let uc = u32_le_bytes(nc);
    assert(b[off2] == uc[0] && b[off2 + 1] == uc[1] && b[off2 + 2] == uc[2] && b[off2 + 3]
        == uc[3]);
    assert(u32_le_at(b, off2) == u32_le_at(uc, 0));
    lemma_u32_le_round_trip(nc);
    // the checkpoints entries
    assert(b =~= pre3 + entries_bytes(c) + Seq::<u8>::empty());
    lemma_parse_encoded(b, pre3, c, Seq::<u8>::empty());
}

/// Round trip: decoding the bytes a well-formed message serializes to gives
/// that message back, whether or not locators are present.
#[verifier::rlimit(60)]
pub proof fn lemma_round_trip(m: PingModel)
    requires
        wf_ping(m),
    ensures
        decode_ping(encode_ping(m)) == Ok::<PingModel, DecodeError>(m),
{
    let b = encode_ping(m);
    lemma_node_type_round_trip(m.node_type);
    match m.block_locators {
        None => {
            lemma_encode_none_shape(m);
            assert(decode_ping(b) == Ok::<PingModel, DecodeError>(
                PingModel { version: m.version, node_type: m.node_type, block_locators: None },
            ));
            assert(PingModel { version: m.version, node_type: m.node_type, block_locators: None }
                =~= m);
        },
        Some(l) => {
            lemma_encode_some_shape(m, l);
            let w = ENTRY_WIDTH as int;
            let r = l.recents;
            let c = l.checkpoints;
            let off2 = 10 + r.len() * w;
            assert(r.len() * w >= 0 && c.len() * w >= 0) by (nonlinear_arith)
                requires
                    w >= 0,
            ;
            let n1 = u32_le_at(b, 6);
            assert(parse_pairs(b, 10, n1 as nat) == Some(r));
            let n2 = u32_le_at(b, off2);
            assert(10 + n1 as int * w == off2);
            assert(parse_pairs(b, off2 + 4, n2 as nat) == Some(c));
            lemma_fold_inserts_fresh(Seq::empty(), r);
            lemma_fold_inserts_fresh(Seq::empty(), c);
            assert(Seq::empty() + r =~= r);
            assert(Seq::empty() + c =~= c);
            assert(decode_ping(b) == Ok::<PingModel, DecodeError>(
                PingModel {
                    version: m.version,
                    node_type: m.node_type,
                    block_locators: Some(LocatorsModel { recents: r, checkpoints: c }),
                },
            ));
            assert(LocatorsModel { recents: r, checkpoints: c } =~= l);
            assert(PingModel {
                version: m.version,
                node_type: m.node_type,
                block_locators: Some(LocatorsModel { recents: r, checkpoints: c }),
            } =~= m);
        },
    }
}

/// Absent-payload shortcut: a message without locators serializes to exactly
/// the 4-byte version, the node type's byte and the presence byte, and those
/// bytes decode back to a message without locators.
pub proof fn lemma_absent_payload(m: PingModel)
    requires
        m.block_locators is None,
    ensures
        encode_ping(m).len() == 6,
        decode_ping(encode_ping(m)) == Ok::<PingModel, DecodeError>(m),
{
    lemma_encode_none_shape(m);
    lemma_round_trip(m);
}

/// Count truncation: a table with more entries than the 32-bit count field
/// can carry is written with the count clamped to `u32::MAX` and only that
/// many entries.
pub proof fn lemma_count_truncation(es: Entries)
    requires
        es.len() > u32::MAX,
    ensures
        section_bytes(es) == u32_le_bytes(u32::MAX) + entries_bytes(es.take(u32::MAX as int)),
{
    assert(count_value(es.len()) == u32::MAX);
}

/// Malformed input: cutting the serialized bytes of a well-formed message
/// anywhere short of its end makes decoding fail; no partial message is ever
/// produced.
#[verifier::rlimit(100)]
pub proof fn lemma_truncated_input_fails(m: PingModel, cut: int)
    requires
        wf_ping(m),
        0 <= cut < encode_ping(m).len(),
    ensures
        decode_ping(encode_ping(m).take(cut)) is Err,
{
    let b = encode_ping(m);
    let t = b.take(cut);
    lemma_node_type_round_trip(m.node_type);
    match m.block_locators {
        None => {
            lemma_encode_none_shape(m);
            if cut >= 5 {
                assert(t[4] == b[4]);
            }
        },
        Some(l) => {
            lemma_encode_some_shape(m, l);
            let w = ENTRY_WIDTH as int;
            let r = l.recents;
            let c = l.checkpoints;
            let off2 = 10 + r.len() * w;
            assert(r.len() * w >= 0 && c.len() * w >= 0) by (nonlinear_arith)
                requires
                    w >= 0,
            ;
            if cut < 6 {
                if cut >= 5 {
                    assert(t[4] == b[4]);
                }
            } else {
                assert(t[4] == b[4] && t[5] == b[5]);
                if cut < 10 {
                } else {
                    assert(t[6] == b[6] && t[7] == b[7] && t[8] == b[8] && t[9] == b[9]);
                    assert(u32_le_at(t, 6) == u32_le_at(b, 6));
                    let n1 = u32_le_at(t, 6);
                    if cut < off2 {
                        assert(n1 as int >= 1);
                        lemma_parse_pairs_some_iff(t, 10, n1 as nat);
                        assert(parse_pairs(t, 10, n1 as nat) is None);
                    } else {
                        lemma_parse_pairs_take(b, cut, 10, n1 as nat);
                        assert(parse_pairs(t, 10, n1 as nat) == Some(r));
                        if cut < off2 + 4 {
                        } else {
                            assert(t[off2] == b[off2] && t[off2 + 1] == b[off2 + 1] && t[off2 + 2]
                                == b[off2 + 2] && t[off2 + 3] == b[off2 + 3]);
                            assert(u32_le_at(t, off2) == u32_le_at(b, off2));
                            let n2 = u32_le_at(t, off2);
                            assert(n2 as int >= 1);
                            lemma_parse_pairs_some_iff(t, off2 + 4, n2 as nat);
                            assert(parse_pairs(t, off2 + 4, n2 as nat) is None);
                        }
                    }
                }
            }
        },
    }
}

/// One insert keeps the table's invariants: keys stay unique, the length
/// grows by at most one, and hash widths are kept when the new hash is
/// well-formed.
proof fn lemma_entries_insert_props(s: Entries, k: u32, v: Seq<u8>)
    ensures
        entries_unique_keys(s) ==> entries_unique_keys(entries_insert(s, k, v)),
        entries_insert(s, k, v).len() <= s.len() + 1,
        crate::wire::wf_entries_hashes(s) && v.len() == crate::hash::HASH_WIDTH
            ==> crate::wire::wf_entries_hashes(entries_insert(s, k, v)),
{
    let t = entries_insert(s, k, v);
    if entries_has_key(s, k) {
        crate::ordered_map::lemma_entries_key_index(s, k);
        let ki = entries_key_index(s, k);
        if entries_unique_keys(s) {
            assert forall|i: int, j: int| 0 <= i < j < t.len() implies t[i].0 != t[j].0 by {
                assert(t[i].0 == s[i].0 && t[j].0 == s[j].0);
            }
        }
    } else {
        if entries_unique_keys(s) {
            assert forall|i: int, j: int| 0 <= i < j < t.len() implies t[i].0 != t[j].0 by {
                if j == s.len() {
                    assert(t[i].0 == s[i].0);
                    if s[i].0 == k {
                        assert(entries_has_key(s, k));
                    }
                }
            }
        }
    }
}

/// Folding raw entries keeps the table's invariants.
proof fn lemma_fold_inserts_props(acc: Entries, pairs: Entries)
    requires
        entries_unique_keys(acc),
        crate::wire::wf_entries_hashes(acc),
        crate::wire::wf_entries_hashes(pairs),
    ensures
        entries_unique_keys(fold_inserts(acc, pairs)),
        fold_inserts(acc, pairs).len() <= acc.len() + pairs.len(),
        crate::wire::wf_entries_hashes(fold_inserts(acc, pairs)),
    decreases pairs.len(),
{
    if pairs.len() > 0 {
        let acc2 = entries_insert(acc, pairs[0].0, pairs[0].1);
        lemma_entries_insert_props(acc, pairs[0].0, pairs[0].1);
        let rest = pairs.drop_first();
        assert(crate::wire::wf_entries_hashes(rest)) by {
            assert(forall|i: int| 0 <= i < rest.len() ==> (#[trigger] rest[i]) == pairs[i + 1]);
        }
        lemma_fold_inserts_props(acc2, rest);
    }
}

/// Raw entries read off the wire are well-formed: there are `n` of them and
/// each hash has the fixed width.
proof fn lemma_parse_pairs_wf(b: Seq<u8>, off: int, n: nat)
    requires
        0 <= off,
        parse_pairs(b, off, n) is Some,
    ensures
        parse_pairs(b, off, n).unwrap().len() == n,
        crate::wire::wf_entries_hashes(parse_pairs(b, off, n).unwrap()),
    decreases n,
{
    if n > 0 {
        let w = ENTRY_WIDTH as int;
        lemma_parse_pairs_wf(b, off + w, (n - 1) as nat);
        let ps = parse_pairs(b, off, n).unwrap();
        let rest = parse_pairs(b, off + w, (n - 1) as nat).unwrap();
        assert(ps == seq![crate::wire::pair_at(b, off)] + rest);
        assert(crate::wire::pair_at(b, off).1.len() == crate::hash::HASH_WIDTH);
        assert(forall|i: int| 1 <= i < ps.len() ==> (#[trigger] ps[i]) == rest[i - 1]);
    }
}

/// Decoding only ever produces well-formed messages: when present, both
/// decoded tables carry unique heights, fixed-width hashes, and no more
/// entries than the 32-bit count field can carry. In particular every
/// decoded message satisfies the round-trip law's premise.
pub proof fn lemma_decoded_wf(b: Seq<u8>)
    ensures
        decode_ping(b) matches Ok(m) ==> wf_ping(m),
{
    if decode_ping(b) matches Ok(m) && m.block_locators is Some {
        let w = ENTRY_WIDTH as int;
        let n1 = u32_le_at(b, 6);
        let rpairs = parse_pairs(b, 10, n1 as nat).unwrap();
        let off2 = 10 + n1 as int * w;
        let n2 = u32_le_at(b, off2);
        let cpairs = parse_pairs(b, off2 + 4, n2 as nat).unwrap();
        lemma_parse_pairs_wf(b, 10, n1 as nat);
        lemma_parse_pairs_wf(b, off2 + 4, n2 as nat);
        lemma_fold_inserts_props(Seq::empty(), rpairs);
        lemma_fold_inserts_props(Seq::empty(), cpairs);
    }
}

/// Duplicate key: two raw entries that share a height fold into one table
/// entry holding the later hash; the earlier one is overwritten, not kept
/// and not an error.
pub proof fn lemma_duplicate_key_last_wins(k: u32, v1: Seq<u8>, v2: Seq<u8>)
    ensures
        fold_inserts(Seq::empty(), seq![(k, v1), (k, v2)]) == seq![(k, v2)],
{
    let s0 = Seq::<(u32, Seq<u8>)>::empty();
    let p = seq![(k, v1), (k, v2)];
    assert(!entries_has_key(s0, k));
    let s1 = entries_insert(s0, k, v1);
    assert(s1 =~= seq![(k, v1)]);
    assert(p.drop_first() =~= seq![(k, v2)]);
    assert(entries_has_key(s1, k)) by {
        assert(s1[0].0 == k);
    }
    assert(entries_key_index(s1, k) == 0);
    let s2 = entries_insert(s1, k, v2);
    assert(s2 =~= seq![(k, v2)]);
    assert(fold_inserts(s1, seq![(k, v2)]) == fold_inserts(s2, seq![(k, v2)].drop_first()));
    assert(seq![(k, v2)].drop_first() =~= s0);
    assert(fold_inserts(s2, s0) == s2);
    assert(fold_inserts(s0, p) == fold_inserts(s1, p.drop_first()));
}

} // verus!
