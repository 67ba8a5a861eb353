use lz77::lz77::{CompressionSettings, Compressor, DecompressionSettings, Decompressor, Token};
use lz77::matchmap::MatchMap;

#[test]
fn matchmap_records_most_recent_position() {
    let mut m = MatchMap::new(100);
    assert_eq!(m.get_match(b"abcd"), None);
    m.add_prefix(b"abcd", 3);
    assert_eq!(m.get_match(b"abcd"), Some(3));
    m.add_prefix(b"wxyz", 5);
    m.add_prefix(b"abcd", 9);
    assert_eq!(m.get_match(b"abcd"), Some(9));
    assert_eq!(m.get_match(b"wxyz"), Some(5));
    assert_eq!(m.get_match(b"none"), None);
}

#[test]
fn matchmap_advance_expires_stale_positions() {
    let mut m = MatchMap::new(10);
    m.add_prefix(b"aaaa", 0);
    m.add_prefix(b"bbbb", 4);
    m.advance(12);
    // cull point is 12 - 10 = 2: position 0 expired, position 4 survives.
    assert_eq!(m.get_match(b"aaaa"), None);
    assert_eq!(m.get_match(b"bbbb"), Some(4));
}

#[test]
fn matchmap_expired_duplicate_keeps_fresh_mapping() {
    // A stale queue record for a reinserted key expires without taking the
    // fresher mapping with it.
    let mut m = MatchMap::new(10);
    m.add_prefix(b"aaaa", 0);
    m.add_prefix(b"aaaa", 8);
    m.advance(12);
    assert_eq!(m.get_match(b"aaaa"), Some(8));
}

#[test]
fn matchmap_advance_within_window_keeps_everything() {
    let mut m = MatchMap::new(100);
    m.add_prefix(b"aaaa", 0);
    m.add_prefix(b"bbbb", 1);
    m.advance(50);
    assert_eq!(m.get_match(b"aaaa"), Some(0));
    assert_eq!(m.get_match(b"bbbb"), Some(1));
}

#[test]
fn matchmap_reset_clears_everything() {
    let mut m = MatchMap::new(100);
    m.add_prefix(b"aaaa", 0);
    m.add_prefix(b"bbbb", 1);
    m.reset();
    assert_eq!(m.get_match(b"aaaa"), None);
    assert_eq!(m.get_match(b"bbbb"), None);
}

#[test]
fn compressor_next_drives_to_exhaustion() {
    let data = b"Abcdefgefgefg";
    let mut cmp = Compressor::new(data, CompressionSettings::test_default());
    let mut tokens: Vec<Token> = Vec::new();
    while let Some(t) = cmp.next() {
        tokens.push(t);
    }
    assert_eq!(cmp.next(), None);
    let out = Decompressor::new(tokens, DecompressionSettings::default())
        .decompress()
        .unwrap();
    assert_eq!(out, data.to_vec());
}

#[test]
fn compressor_reset_rewinds_cursor() {
    // Short inputs never register index entries, so rewinding and re-driving
    // yields the same tokens.
    let data = b"abc";
    let mut cmp = Compressor::new(data, CompressionSettings::lz4_default());
    let mut first: Vec<Token> = Vec::new();
    while let Some(t) = cmp.next() {
        first.push(t);
    }
    cmp.reset();
    let mut second: Vec<Token> = Vec::new();
    while let Some(t) = cmp.next() {
        second.push(t);
    }
    assert_eq!(first, second);
    assert_eq!(
        first,
        vec![Token::Literal(b'a'), Token::Literal(b'b'), Token::Literal(b'c')]
    );
}
