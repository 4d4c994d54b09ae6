use indexmap::IndexMap;
use ping_codec::{BlockHash, BlockLocators, DecodeError, NodeType, Ping, HASH_WIDTH,
    PROTOCOL_VERSION};

fn hash_of(byte: u8) -> BlockHash {
    BlockHash::from_bytes(vec![byte; HASH_WIDTH]).unwrap()
}

fn summary(recents: Vec<(u32, u8)>, checkpoints: Vec<(u32, u8)>) -> BlockLocators {
    let mut r: IndexMap<u32, BlockHash> = IndexMap::new();
    for (height, byte) in recents {
        r.insert(height, hash_of(byte));
    }
    let mut c: IndexMap<u32, BlockHash> = IndexMap::new();
    for (height, byte) in checkpoints {
        c.insert(height, hash_of(byte));
    }
    BlockLocators { recents: r, checkpoints: c }
}

#[test]
fn name_is_ping() {
    let m = Ping { version: 1, node_type: NodeType::Client, block_locators: None };
    assert_eq!(m.name(), "Ping");
}

#[test]
fn new_stamps_current_version() {
    let m = Ping::new(NodeType::Prover, None);
    assert_eq!(m.version, PROTOCOL_VERSION);
    assert!(m.node_type == NodeType::Prover);
    assert!(m.block_locators.is_none());
}

#[test]
fn concrete_scenario_validator_no_locators() {
    let m = Ping { version: 1, node_type: NodeType::Validator, block_locators: None };
    let bytes = m.serialize();
    assert_eq!(bytes, vec![0x01, 0x00, 0x00, 0x00, 0x02, 0x00]);
    let d = Ping::deserialize(&bytes).unwrap();
    assert!(d == m);
}

#[test]
fn absent_payload_is_exactly_six_bytes() {
    let m = Ping { version: 0xDEAD_BEEF, node_type: NodeType::Client, block_locators: None };
    let bytes = m.serialize();
    assert_eq!(bytes.len(), 6);
    assert_eq!(bytes, vec![0xEF, 0xBE, 0xAD, 0xDE, 0x00, 0x00]);
    let d = Ping::deserialize(&bytes).unwrap();
    assert!(d.block_locators.is_none());
    assert!(d == m);
}

#[test]
fn round_trip_empty_summary() {
    let m = Ping {
        version: 3,
        node_type: NodeType::Prover,
        block_locators: Some(summary(vec![], vec![])),
    };
    let bytes = m.serialize();
    assert_eq!(bytes.len(), 14);
    let d = Ping::deserialize(&bytes).unwrap();
    assert!(d == m);
}

#[test]
fn round_trip_with_entries() {
    let m = Ping {
        version: 9,
        node_type: NodeType::Validator,
        block_locators: Some(summary(vec![(10, 0x11), (5, 0x22)], vec![(0, 0x33), (1000, 0x44)])),
    };
    let bytes = m.serialize();
    let d = Ping::deserialize(&bytes).unwrap();
    assert!(d == m);
}

#[test]
fn one_entry_exact_bytes() {
    let m = Ping {
        version: 1,
        node_type: NodeType::Validator,
        block_locators: Some(summary(vec![(5, 0x11)], vec![])),
    };
    let mut expected = vec![0x01, 0x00, 0x00, 0x00, 0x02, 0x01, 0x01, 0x00, 0x00, 0x00, 0x05,
        0x00, 0x00, 0x00];
    expected.extend(vec![0x11; HASH_WIDTH]);
    expected.extend(vec![0x00, 0x00, 0x00, 0x00]);
    assert_eq!(m.serialize(), expected);
}

#[test]
fn order_is_preserved_not_resorted() {
    let m = Ping {
        version: 2,
        node_type: NodeType::Client,
        block_locators: Some(summary(vec![(10, 0x11), (5, 0x22)], vec![])),
    };
    let bytes = m.serialize();
    let d = Ping::deserialize(&bytes).unwrap();
    let locators = d.block_locators.unwrap();
    assert_eq!(locators.recents.len(), 2);
    let (k0, v0) = locators.recents.get_index(0).unwrap();
    let (k1, v1) = locators.recents.get_index(1).unwrap();
    assert_eq!(*k0, 10);
    assert!(*v0 == hash_of(0x11));
    assert_eq!(*k1, 5);
    assert!(*v1 == hash_of(0x22));
}

#[test]
fn truncated_input_always_fails() {
    let m = Ping {
        version: 7,
        node_type: NodeType::Prover,
        block_locators: Some(summary(vec![(1, 0xAA), (2, 0xBB)], vec![(3, 0xCC)])),
    };
    let bytes = m.serialize();
    for cut in 0..bytes.len() {
        let r = Ping::deserialize(&bytes[..cut]);
        assert!(matches!(r, Err(DecodeError::UnexpectedEnd)));
    }
}

#[test]
fn duplicate_height_last_write_wins() {
    let mut bytes = vec![0x02, 0x00, 0x00, 0x00, 0x00, 0x01, 0x02, 0x00, 0x00, 0x00];
    bytes.extend(vec![0x07, 0x00, 0x00, 0x00]);
    bytes.extend(vec![0xAA; HASH_WIDTH]);
    bytes.extend(vec![0x07, 0x00, 0x00, 0x00]);
    bytes.extend(vec![0xBB; HASH_WIDTH]);
    bytes.extend(vec![0x00, 0x00, 0x00, 0x00]);
    let d = Ping::deserialize(&bytes).unwrap();
    let locators = d.block_locators.unwrap();
    assert_eq!(locators.recents.len(), 1);
    let (k0, v0) = locators.recents.get_index(0).unwrap();
    assert_eq!(*k0, 7);
    assert!(*v0 == hash_of(0xBB));
    assert_eq!(locators.checkpoints.len(), 0);
}

#[test]
fn invalid_node_type_byte_is_rejected() {
    let bytes = vec![0x00, 0x00, 0x00, 0x00, 0x09, 0x00];
    let r = Ping::deserialize(&bytes);
    assert!(matches!(r, Err(DecodeError::InvalidNodeType)));
}

#[test]
fn nonzero_presence_byte_means_present() {
    let bytes = vec![0x01, 0x00, 0x00, 0x00, 0x00, 0x07, 0x00, 0x00, 0x00, 0x00, 0x00, 0x00,
        0x00, 0x00];
    let d = Ping::deserialize(&bytes).unwrap();
    let locators = d.block_locators.unwrap();
    assert_eq!(locators.recents.len(), 0);
    assert_eq!(locators.checkpoints.len(), 0);
}

#[test]
fn trailing_bytes_are_ignored() {
    let m = Ping { version: 5, node_type: NodeType::Client, block_locators: None };
    let mut bytes = m.serialize();
    bytes.extend(vec![0xFF, 0xFF, 0xFF]);
    let d = Ping::deserialize(&bytes).unwrap();
    assert!(d == m);
}

#[test]
fn hash_width_is_enforced() {
    assert!(BlockHash::from_bytes(vec![0; HASH_WIDTH - 1]).is_none());
    assert!(BlockHash::from_bytes(vec![0; HASH_WIDTH]).is_some());
    assert!(BlockHash::from_bytes(vec![0; HASH_WIDTH + 1]).is_none());
}

#[test]
fn unequal_messages_compare_unequal() {
    let a = Ping {
        version: 1,
        node_type: NodeType::Client,
        block_locators: Some(summary(vec![(1, 0x01)], vec![])),
    };
    let b = Ping {
        version: 1,
        node_type: NodeType::Client,
        block_locators: Some(summary(vec![(1, 0x02)], vec![])),
    };
    assert!(!(a == b));
    let c = Ping { version: 2, node_type: NodeType::Client, block_locators: None };
    assert!(!(a == c));
}
