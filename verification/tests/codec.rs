//! Tests of the binary persistence format: round trips, header
//! validation, and rejection of malformed streams.

use chain::Chain;
use chain::ChainError;

static TEXT: &str = r#"Performance
Rust is blazingly fast and memory-efficient: with no runtime or garbage collector, it can power performance-critical services, run on embedded devices, and easily integrate with other languages.
Reliability
Rust’s rich type system and ownership model guarantee memory-safety and thread-safety — enabling you to eliminate many classes of bugs at compile-time.
Productivity
Rust has great documentation, a friendly compiler with useful error messages, and top-notch tooling — an integrated package manager and build tool, smart multi-editor support with auto-completion and type inspections, an auto-formatter, and more."#;

fn trained_chain_1() -> Chain {
    let mut c = Chain::new(1);
    for line in TEXT.lines() {
        c.feed_str(line.trim());
    }
    c
}

#[test]
fn test_serialization() {
    let chain_1 = trained_chain_1();

    let bytes = Chain::save_to_bytes(&chain_1).unwrap();
    assert_eq!(bytes.len(), 2777);

    let loaded_1 = Chain::load_from_bytes(&bytes, 1).unwrap();

    // The rebuilt model matches the original: identifiers are assigned in
    // the same first-sight order and nodes keep their insertion order, so
    // the reloaded model serializes to the identical stream.
    let bytes_again = loaded_1.save_to_bytes().unwrap();
    assert_eq!(bytes, bytes_again);
}

#[test]
fn order_mismatch_is_reported() {
    let mut c = Chain::new(2);
    c.feed_str("a b c");
    let bytes = c.save_to_bytes().unwrap();
    let r = Chain::load_from_bytes(&bytes, 3);
    assert_eq!(r.unwrap_err(), ChainError::OrderMismatch { expected: 3, found: 2 });
}

#[test]
fn truncation_is_rejected_everywhere() {
    let mut c = Chain::new(1);
    c.feed_str("a b a c");
    let bytes = c.save_to_bytes().unwrap();
    for cut in 0..bytes.len() {
        let prefix: Vec<u8> = bytes[..cut].to_vec();
        assert!(Chain::load_from_bytes(&prefix, 1).is_err(), "prefix of {} parsed", cut);
    }
    assert!(Chain::load_from_bytes(&bytes, 1).is_ok());
}

#[test]
fn trailing_bytes_are_ignored() {
    let mut c = Chain::new(1);
    c.feed_str("a b");
    let mut bytes = c.save_to_bytes().unwrap();
    bytes.push(0xAB);
    assert!(Chain::load_from_bytes(&bytes, 1).is_ok());
}

#[test]
fn any_supported_order_loads() {
    for order in 1..=3usize {
        let mut c = Chain::new(order);
        c.feed_str("a b c d");
        let bytes = c.save_to_bytes().unwrap();
        let back = chain::load_chain_of_any_supported_order_with_reader(&bytes).unwrap();
        assert_eq!(back.order(), order);
    }
}

#[test]
fn unsupported_order_is_an_error() {
    let mut c = Chain::new(4);
    c.feed_str("a b c d e");
    let bytes = c.save_to_bytes().unwrap();
    let r = chain::load_chain_of_any_supported_order_with_reader(&bytes);
    assert_eq!(r.unwrap_err(), ChainError::UnsupportedOrder { found: 4 });
}

#[test]
fn bad_magic_is_rejected() {
    let bytes = b"notit:\x01;".to_vec();
    assert_eq!(Chain::load_from_bytes(&bytes, 1).unwrap_err(), ChainError::BadMagic);
}

#[test]
fn short_stream_is_rejected() {
    let bytes = b"cha".to_vec();
    assert_eq!(Chain::load_from_bytes(&bytes, 1).unwrap_err(), ChainError::UnexpectedEof);
}

#[test]
fn bad_header_terminator_is_rejected() {
    let bytes = b"chain:\x01!".to_vec();
    assert_eq!(Chain::load_from_bytes(&bytes, 1).unwrap_err(), ChainError::BadHeader);
}

#[test]
fn header_metadata_is_read() {
    // chain: | order 1 | ':' | len 2 | "hi" | ';' | 0 words | 0 nodes
    let mut bytes = b"chain:\x01:".to_vec();
    bytes.extend_from_slice(&2u16.to_le_bytes());
    bytes.extend_from_slice(b"hi");
    bytes.push(b';');
    bytes.extend_from_slice(&0u64.to_le_bytes());
    bytes.extend_from_slice(&0u64.to_le_bytes());
    let c = Chain::load_from_bytes(&bytes, 1).unwrap();
    assert_eq!(c.model_meta_data(), "hi");
    assert_eq!(c.node_count(), 0);
}

#[test]
fn invalid_utf8_in_word_is_rejected() {
    let mut bytes = b"chain:\x01;".to_vec();
    bytes.extend_from_slice(&1u64.to_le_bytes());
    bytes.extend_from_slice(&2u16.to_le_bytes());
    bytes.extend_from_slice(&[0xFF, 0xFE]);
    bytes.extend_from_slice(&0u64.to_le_bytes());
    assert_eq!(Chain::load_from_bytes(&bytes, 1).unwrap_err(), ChainError::InvalidUtf8);
}

fn one_word_header() -> Vec<u8> {
    let mut bytes = b"chain:\x01;".to_vec();
    bytes.extend_from_slice(&1u64.to_le_bytes());
    bytes.extend_from_slice(&1u16.to_le_bytes());
    bytes.push(b'a');
    bytes
}

#[test]
fn unknown_symbol_tag_is_rejected() {
    let mut bytes = one_word_header();
    bytes.extend_from_slice(&1u64.to_le_bytes()); // one node
    bytes.push(2); // neither the word tag nor the boundary tag
    bytes.extend_from_slice(&0u32.to_le_bytes());
    bytes.extend_from_slice(&1u64.to_le_bytes());
    bytes.push(1);
    bytes.extend_from_slice(&1u64.to_le_bytes());
    assert_eq!(Chain::load_from_bytes(&bytes, 1).unwrap_err(), ChainError::BadSymbolTag);
}

#[test]
fn out_of_range_word_index_is_rejected() {
    let mut bytes = one_word_header();
    bytes.extend_from_slice(&1u64.to_le_bytes()); // one node
    bytes.push(0);
    bytes.extend_from_slice(&9u32.to_le_bytes()); // key symbol: word 9 of 1
    bytes.extend_from_slice(&1u64.to_le_bytes()); // one edge
    bytes.push(1); // boundary target
    bytes.extend_from_slice(&1u64.to_le_bytes()); // weight 1
    assert_eq!(Chain::load_from_bytes(&bytes, 1).unwrap_err(), ChainError::InvalidWordId);
}

#[test]
fn zero_weight_edge_is_rejected() {
    let mut bytes = one_word_header();
    bytes.extend_from_slice(&1u64.to_le_bytes());
    bytes.push(0);
    bytes.extend_from_slice(&0u32.to_le_bytes());
    bytes.extend_from_slice(&1u64.to_le_bytes());
    bytes.push(1);
    bytes.extend_from_slice(&0u64.to_le_bytes()); // weight 0
    assert_eq!(Chain::load_from_bytes(&bytes, 1).unwrap_err(), ChainError::InvalidEdgeTable);
}

#[test]
fn empty_edge_table_is_rejected() {
    let mut bytes = one_word_header();
    bytes.extend_from_slice(&1u64.to_le_bytes());
    bytes.push(0);
    bytes.extend_from_slice(&0u32.to_le_bytes());
    bytes.extend_from_slice(&0u64.to_le_bytes()); // zero edges
    assert_eq!(Chain::load_from_bytes(&bytes, 1).unwrap_err(), ChainError::InvalidEdgeTable);
}

#[test]
fn overflowing_edge_sum_is_rejected() {
    let mut bytes = one_word_header();
    bytes.extend_from_slice(&1u64.to_le_bytes());
    bytes.push(0);
    bytes.extend_from_slice(&0u32.to_le_bytes());
    bytes.extend_from_slice(&2u64.to_le_bytes()); // two edges
    bytes.push(1);
    bytes.extend_from_slice(&u64::MAX.to_le_bytes());
    bytes.push(0);
    bytes.extend_from_slice(&0u32.to_le_bytes());
    bytes.extend_from_slice(&1u64.to_le_bytes());
    assert_eq!(Chain::load_from_bytes(&bytes, 1).unwrap_err(), ChainError::SumOverflow);
}

#[test]
fn duplicate_context_key_is_rejected() {
    let mut bytes = one_word_header();
    bytes.extend_from_slice(&2u64.to_le_bytes()); // two nodes, same key
    for _ in 0..2 {
        bytes.push(1); // boundary key
        bytes.extend_from_slice(&1u64.to_le_bytes());
        bytes.push(1);
        bytes.extend_from_slice(&1u64.to_le_bytes());
    }
    assert_eq!(Chain::load_from_bytes(&bytes, 1).unwrap_err(), ChainError::DuplicateKey);
}

#[test]
fn oversize_string_cannot_be_saved() {
    let mut c = Chain::new(1);
    let long = "x".repeat(70_000);
    c.feed_str(&long);
    assert_eq!(c.save_to_bytes().unwrap_err(), ChainError::StringTooLong);
}
