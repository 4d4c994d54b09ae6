//! The role a peer advertises about itself, with its canonical single-byte
//! wire encoding.

use vstd::prelude::*;

verus! {

/// The sender's role in the network.
#[derive(Clone, Copy, Debug, PartialEq, Eq, Structural)]
pub enum NodeType {
    Client,
    Prover,
    Validator,
}

/// The canonical byte that encodes `t`.
pub open spec fn node_type_byte(t: NodeType) -> u8 {
    match t {
        NodeType::Client => 0,
        NodeType::Prover => 1,
        NodeType::Validator => 2,
    }
}

/// The node type a byte decodes to; bytes outside the enumeration decode to
/// nothing.
pub open spec fn node_type_of_byte(b: u8) -> Option<NodeType> {
    if b == 0 {
        Some(NodeType::Client)
    } else if b == 1 {
        Some(NodeType::Prover)
    } else if b == 2 {
        Some(NodeType::Validator)
    } else {
        None
    }
}

/// Decoding the canonical byte of a node type gives that node type back.
pub proof fn lemma_node_type_round_trip(t: NodeType)
    ensures
        node_type_of_byte(node_type_byte(t)) == Some(t),
{
}

/// Encodes `t` as its canonical byte.
pub fn encode_node_type(t: NodeType) -> (r: u8)
    ensures
        r == node_type_byte(t),
{
    match t {
        NodeType::Client => 0,
        NodeType::Prover => 1,
        NodeType::Validator => 2,
    }
}

/// Decodes a byte into a node type, rejecting bytes outside the enumeration.
pub fn decode_node_type(b: u8) -> (r: Option<NodeType>)
    ensures
        r == node_type_of_byte(b),
{
    if b == 0 {
        Some(NodeType::Client)
    } else if b == 1 {
        Some(NodeType::Prover)
    } else if b == 2 {
        Some(NodeType::Validator)
    } else {
        None
    }
}

} // verus!
