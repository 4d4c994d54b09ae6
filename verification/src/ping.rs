//! The ping message and its codec: construction, serialization and
//! deserialization, each proved against the byte layout of `wire`.

use crate::bytes_le::{push_u32_le, read_u32_le, u32_le_at, u32_le_bytes};
use crate::hash::{BlockHash, HASH_WIDTH};
use crate::locators::BlockLocators;
use crate::node_type::{decode_node_type, encode_node_type, NodeType};
use crate::ordered_map::{imap_entries, imap_get_index, imap_insert, imap_len, imap_new};
use crate::wire::{count_value, decode_ping, encode_ping, entries_bytes, entry_bytes, fold_inserts,
    lemma_entries_bytes_push, lemma_fold_inserts_snoc, lemma_parse_pairs_snoc,
    lemma_parse_pairs_some_iff, pair_at, parse_pairs, section_bytes, DecodeError, PingModel,
    ENTRY_WIDTH};
use vstd::prelude::*;
use vstd::slice::{slice_subrange, slice_to_vec};

verus! {

/// The protocol version a freshly constructed message is stamped with.
pub const PROTOCOL_VERSION: u32 = 1;

/// The liveness/sync message a node sends to a peer, optionally carrying a
/// block-locator summary.
pub struct Ping {
    pub version: u32,
    pub node_type: NodeType,
    pub block_locators: Option<BlockLocators>,
}

impl View for Ping {
    type V = PingModel;

    open spec fn view(&self) -> PingModel {
        PingModel {
            version: self.version,
            node_type: self.node_type,
            block_locators: match self.block_locators {
                None => None,
                Some(l) => Some(l@),
            },
        }
    }
}

/// Appends one table section: the clamped entry count, then that many
/// entries in insertion order.
fn write_section(out: &mut Vec<u8>, m: &indexmap::IndexMap<u32, BlockHash>)
    ensures
        final(out)@ == old(out)@ + section_bytes(imap_entries(*m)),
{
    let ghost out0 = out@;
    let ghost es = imap_entries(*m);
    let len = imap_len(m);
    let count: u32 = if len >= u32::MAX as usize {
        u32::MAX
    } else {
        len as u32
    };
    proof {
        assert(count == count_value(es.len()));
        assert(count as int <= es.len());
    }
    push_u32_le(out, count);
    let n = count as usize;
    let mut i: usize = 0;
    while i < n
        invariant
            i <= n,
            n == count as int,
            count == count_value(es.len()),
            n <= es.len(),
            es == imap_entries(*m),
            out@ == out0 + u32_le_bytes(count_value(es.len())) + entries_bytes(es.take(i as int)),
        decreases n - i,
    {
        let (k, h) = imap_get_index(m, i);
        push_u32_le(out, k);
        let mut hv = slice_to_vec(h.as_slice());
        out.append(&mut hv);
        proof {
            assert(entry_bytes(es[i as int]) == u32_le_bytes(k) + h@);
            assert(es.take(i + 1) =~= es.take(i as int).push(es[i as int]));
            lemma_entries_bytes_push(es.take(i as int), es[i as int]);
            assert(out@ =~= out0 + u32_le_bytes(count_value(es.len())) + entries_bytes(
                es.take(i + 1),
            ));
        }
        i += 1;
    }
    proof {
        assert(out@ =~= out0 + section_bytes(es));
    }
}

/// Reads one table section of `n` entries starting at `start`, building the
/// table in reading order; a repeated height overwrites the earlier hash.
/// Returns the table and the offset just past the section.
fn read_section(bytes: &[u8], start: usize, n: u32) -> (r: Result<
    (indexmap::IndexMap<u32, BlockHash>, usize),
    DecodeError,
>)
    requires
        start <= bytes@.len(),
    ensures
        match r {
            Ok(p) => {
                &&& parse_pairs(bytes@, start as int, n as nat) matches Some(ps)
                    && imap_entries(p.0) == fold_inserts(Seq::empty(), ps)
                &&& p.1 as int == start + n as int * ENTRY_WIDTH as int
                &&& p.1 <= bytes@.len()
            },
            Err(e) => {
                &&& e == DecodeError::UnexpectedEnd
                &&& parse_pairs(bytes@, start as int, n as nat) is None
            },
        },
{
    let ghost b = bytes@;
    let ghost w = ENTRY_WIDTH as int;
    let mut m = imap_new();
    let mut pos = start;
    let mut i: u32 = 0;
    while i < n
        invariant
            i <= n,
            start <= pos <= b.len(),
            b == bytes@,
            pos as int == start + i as int * w,
            w == ENTRY_WIDTH as int,
            parse_pairs(b, start as int, i as nat) matches Some(ps) && imap_entries(m)
                == fold_inserts(Seq::empty(), ps),
        decreases n - i,
    {
        let ghost ps = parse_pairs(b, start as int, i as nat).unwrap();
        if bytes.len() - pos < ENTRY_WIDTH {
            proof {
                lemma_parse_pairs_some_iff(b, start as int, n as nat);
                assert((n as int - i as int - 1) * w >= 0) by (nonlinear_arith)
                    requires
                        n as int > i as int && w >= 0,
                ;
                assert(start + n as int * w == pos + w + (n as int - i as int - 1) * w)
                    by (nonlinear_arith)
                    requires
                        pos as int == start + i as int * w,
                ;
            }
            return Err(DecodeError::UnexpectedEnd);
        }
        let k = read_u32_le(bytes, pos);
        let hv = slice_to_vec(slice_subrange(bytes, pos + 4, pos + ENTRY_WIDTH));
        proof {
            assert(hv@.len() == HASH_WIDTH);
        }
        let hash = BlockHash::from_bytes(hv).unwrap();
        proof {
            assert(pair_at(b, pos as int) == (k, hash@));
            lemma_parse_pairs_snoc(b, start as int, i as nat);
            lemma_fold_inserts_snoc(Seq::empty(), ps, pair_at(b, pos as int));
            assert((i as int + 1) * w == i as int * w + w) by (nonlinear_arith);
        }
        imap_insert(&mut m, k, hash);
        pos = pos + ENTRY_WIDTH;
        i = i + 1;
    }
    Ok((m, pos))
}

impl Ping {
    /// Builds a fresh message stamped with the current protocol version.
    pub fn new(node_type: NodeType, block_locators: Option<BlockLocators>) -> (r: Ping)
        ensures
            r.version == PROTOCOL_VERSION,
            r.node_type == node_type,
            r.block_locators == block_locators,
    {
        Ping { version: PROTOCOL_VERSION, node_type, block_locators }
    }

    /// The fixed name of this message kind.
    pub fn name(&self) -> (r: &'static str)
        ensures
            r@ == "Ping"@,
    {
        "Ping"
    }

    /// Serializes the message into the exact bytes of the wire layout.
    pub fn serialize(&self) -> (r: Vec<u8>)
        ensures
            r@ == encode_ping(self@),
    {
        let mut out: Vec<u8> = Vec::new();
        push_u32_le(&mut out, self.version);
        out.push(encode_node_type(self.node_type));
        match &self.block_locators {
            None => {
                out.push(0u8);
                proof {
                    assert(out@ =~= encode_ping(self@));
                }
            },
            Some(locators) => {
                out.push(1u8);
                write_section(&mut out, &locators.recents);
                write_section(&mut out, &locators.checkpoints);
                proof {
                    assert(out@ =~= encode_ping(self@));
                }
            },
        }
        out
    }

    /// Deserializes a byte sequence into a message, reading the wire layout
    /// field by field; bytes past the message are ignored.
    pub fn deserialize(bytes: &[u8]) -> (r: Result<Ping, DecodeError>)
        ensures
            match r {
                Ok(p) => decode_ping(bytes@) matches Ok(m) && p@ == m,
                Err(e) => decode_ping(bytes@) matches Err(e2) && e2 == e,
            },
    {
        let ghost b = bytes@;
        if bytes.len() < 4 {
            return Err(DecodeError::UnexpectedEnd);
        }
        let version = read_u32_le(bytes, 0);
        if bytes.len() < 5 {
            return Err(DecodeError::UnexpectedEnd);
        }
        let node_type = match decode_node_type(bytes[4]) {
            None => {
                return Err(DecodeError::InvalidNodeType);
            },
            Some(t) => t,
        };
        if bytes.len() < 6 {
            return Err(DecodeError::UnexpectedEnd);
        }
        if bytes[5] == 0 {
            return Ok(Ping { version, node_type, block_locators: None });
        }
        if bytes.len() < 10 {
            return Err(DecodeError::UnexpectedEnd);
        }
        let n1 = read_u32_le(bytes, 6);
        let (recents, pos) = match read_section(bytes, 10, n1) {
            Err(e) => {
                return Err(e);
            },
            Ok(p) => p,
        };
        if bytes.len() - pos < 4 {
            return Err(DecodeError::UnexpectedEnd);
        }
        let n2 = read_u32_le(bytes, pos);
        let (checkpoints, _end) = match read_section(bytes, pos + 4, n2) {
            Err(e) => {
                return Err(e);
            },
            Ok(p) => p,
        };
        Ok(Ping { version, node_type, block_locators: Some(BlockLocators { recents, checkpoints }) })
    }
}

impl PartialEq for Ping {
    /// Two messages are equal exactly when all three fields are.
    fn eq(&self, other: &Ping) -> (r: bool) {
        if self.version != other.version {
            return false;
        }
        if !(self.node_type == other.node_type) {
            return false;
        }
        match (&self.block_locators, &other.block_locators) {
            (None, None) => true,
            (Some(a), Some(c)) => a == c,
            _ => false,
        }
    }
}

impl vstd::std_specs::cmp::PartialEqSpecImpl for Ping {
    open spec fn obeys_eq_spec() -> bool {
        true
    }

    open spec fn eq_spec(&self, other: &Ping) -> bool {
        &&& self.version == other.version
        &&& self.node_type == other.node_type
        &&& match (self.block_locators, other.block_locators) {
            (None, None) => true,
            (Some(a), Some(c)) => a@ == c@,
            _ => false,
        }
    }
}

impl Eq for Ping {

}

} // verus!
