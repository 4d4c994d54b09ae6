//! Wire codec for the liveness/sync ("ping") control message of a
//! peer-to-peer blockchain protocol.
//!
//! The message carries a protocol version, the sender's node type, and an
//! optional block-locator summary: two insertion-ordered height-to-hash
//! tables ("recent" blocks and "checkpoint" blocks). This crate defines the
//! exact byte layout, the serializer and the deserializer, and proves that
//! the two are inverse to each other.

pub mod bytes_le;
pub mod hash;
pub mod laws;
pub mod locators;
pub mod node_type;
pub mod ordered_map;
pub mod ping;
pub mod wire;

pub use crate::hash::BlockHash;
pub use crate::hash::HASH_WIDTH;
pub use crate::locators::BlockLocators;
pub use crate::node_type::NodeType;
pub use crate::ping::Ping;
pub use crate::ping::PROTOCOL_VERSION;
pub use crate::wire::DecodeError;
