use lz77::lz77::{
    compress, decompress, CompressionSettings, DecompressionSettings, Error, Token,
    DEFAULT_MAX_OUTPUT,
};

#[test]
fn it_works() {
    assert_eq!(2 + 2, 4);
}

#[test]
fn simple_decompression() {
    let inp: Vec<Token> = vec![
        Token::literals("abcdef"),
        vec![Token::new_match(4, 8)],
        Token::literals("ABCD"),
        vec![Token::new_match(1, 4)],
    ]
    .into_iter()
    .flatten()
    .collect();

    let res = decompress(inp, DecompressionSettings::default());

    let decompressed = String::from_utf8(res.unwrap()).unwrap();

    assert_eq!(decompressed, "abcdefcdefcdefABCDDDDD");
}

#[test]
fn decompression_failure_offset() {
    let inp: Vec<Token> = vec![
        Token::literals("abcdef"),
        vec![Token::new_match(4, 8)],
        Token::literals("ABCD"),
        vec![Token::new_match(15000, 4)],
    ]
    .into_iter()
    .flatten()
    .collect();

    let res = decompress(inp, DecompressionSettings::default());

    let err = res.unwrap_err();

    assert!(matches!(err, Error::InvalidOffset { .. }))
}

#[test]
fn decompression_failure_too_big() {
    let inp: Vec<Token> = vec![
        Token::literals("abcdef"),
        vec![Token::new_match(4, 8)],
        Token::literals("ABCD"),
        vec![Token::new_match(1, 4)],
    ]
    .into_iter()
    .flatten()
    .collect();

    let res = decompress(inp, DecompressionSettings { max_output_len: 10 });

    let err = res.unwrap_err();

    assert!(matches!(err, Error::MaximumSizeExceeded))
}

#[test]
fn compression_test() {
    let inp = "Abcdefgefgefg";
    let res = compress(inp.as_bytes(), CompressionSettings::test_default());
    println!("{:?}", &res);
    let out = decompress(res, DecompressionSettings::default()).unwrap();

    assert_eq!(String::from_utf8(out).unwrap(), inp);
}

#[test]
fn compression_greedy_tokens_exact() {
    // The greedy pass over "Abcdefgefgefg": seven literals, then one match
    // back 3 bytes for the 6 remaining bytes of the e-f-g repetition.
    let res = compress("Abcdefgefgefg".as_bytes(), CompressionSettings::test_default());
    let expected = vec![
        Token::Literal(b'A'),
        Token::Literal(b'b'),
        Token::Literal(b'c'),
        Token::Literal(b'd'),
        Token::Literal(b'e'),
        Token::Literal(b'f'),
        Token::Literal(b'g'),
        Token::Match { offset: 3, length: 6 },
    ];
    assert_eq!(res, expected);
}

#[test]
fn round_trip_empty() {
    let tokens = compress(&[], CompressionSettings::lz4_default());
    assert!(tokens.is_empty());
    let out = decompress(tokens, DecompressionSettings::default()).unwrap();
    assert!(out.is_empty());
}

#[test]
fn round_trip_repetitive() {
    let data: Vec<u8> = b"abababababababababababab".to_vec();
    let tokens = compress(&data, CompressionSettings::test_default());
    let out = decompress(tokens, DecompressionSettings::default()).unwrap();
    assert_eq!(out, data);
}

#[test]
fn round_trip_all_equal_bytes() {
    let data: Vec<u8> = vec![7u8; 300];
    let tokens = compress(&data, CompressionSettings::test_default());
    assert!(tokens.len() < data.len());
    let out = decompress(tokens, DecompressionSettings::default()).unwrap();
    assert_eq!(out, data);
}

#[test]
fn round_trip_default_settings_keeps_end_literals() {
    let data: Vec<u8> = b"the rain in spain stays mainly in the plain".to_vec();
    let tokens = compress(&data, CompressionSettings::lz4_default());
    // No match is ever started within the last 12 bytes of the input.
    let mut pos = 0usize;
    for t in tokens.iter() {
        if pos + 12 > data.len() {
            assert!(matches!(t, Token::Literal(_)));
        }
        pos += t.token_len();
    }
    let out = decompress(tokens, DecompressionSettings::default()).unwrap();
    assert_eq!(out, data);
}

#[test]
fn round_trip_small_window() {
    // A window smaller than the data still round-trips; matches just reach
    // back less far.
    let data: Vec<u8> = b"abcdabcdabcdabcdabcdabcdabcdabcd".to_vec();
    let settings =
        CompressionSettings { max_match_offset: 8, min_match_len: 4, end_literals: 0 };
    let tokens = compress(&data, settings);
    let out = decompress(tokens, DecompressionSettings::default()).unwrap();
    assert_eq!(out, data);
}

#[test]
fn round_trip_zero_window_emits_only_literals() {
    // With no window at all every index record expires at once, so the pass
    // degenerates to literals and still round-trips.
    let data: Vec<u8> = b"abcdabcdabcd".to_vec();
    let settings =
        CompressionSettings { max_match_offset: 0, min_match_len: 4, end_literals: 0 };
    let tokens = compress(&data, settings);
    assert_eq!(tokens.len(), data.len());
    for t in tokens.iter() {
        assert!(matches!(t, Token::Literal(_)));
    }
    let out = decompress(tokens, DecompressionSettings::default()).unwrap();
    assert_eq!(out, data);
}

#[test]
fn round_trip_min_match_len_one() {
    let data: Vec<u8> = b"aaaaabbbbbaaaaabbbbb".to_vec();
    let settings =
        CompressionSettings { max_match_offset: 65536, min_match_len: 1, end_literals: 0 };
    let tokens = compress(&data, settings);
    let out = decompress(tokens, DecompressionSettings::default()).unwrap();
    assert_eq!(out, data);
}

#[test]
fn bad_offset_error_carries_position_and_offset() {
    let inp = vec![Token::Literal(b'x'), Token::Literal(b'y'), Token::new_match(3, 1)];
    let err = decompress(inp, DecompressionSettings::default()).unwrap_err();
    assert_eq!(err, Error::InvalidOffset { idx: 2, offset: 3 });
}

#[test]
fn bad_offset_fails_whatever_the_length() {
    let err = decompress(vec![Token::new_match(1, 0)], DecompressionSettings::default())
        .unwrap_err();
    assert_eq!(err, Error::InvalidOffset { idx: 0, offset: 1 });
    let err = decompress(
        vec![Token::new_match(1, 100)],
        DecompressionSettings { max_output_len: 10 },
    )
    .unwrap_err();
    assert_eq!(err, Error::InvalidOffset { idx: 0, offset: 1 });
}

#[test]
fn size_ceiling_is_exact_for_literals() {
    let five = Token::literals("abcde");
    let ok = decompress(five.clone(), DecompressionSettings { max_output_len: 5 });
    assert_eq!(ok.unwrap(), b"abcde".to_vec());
    let mut six = five;
    six.push(Token::Literal(b'f'));
    let err = decompress(six, DecompressionSettings { max_output_len: 5 }).unwrap_err();
    assert_eq!(err, Error::MaximumSizeExceeded);
}

#[test]
fn size_ceiling_is_exact_for_matches() {
    let mut fits = Token::literals("abc");
    fits.push(Token::new_match(2, 2));
    let ok = decompress(fits, DecompressionSettings { max_output_len: 5 });
    assert_eq!(ok.unwrap(), b"abcbc".to_vec());

    let mut spills = Token::literals("abc");
    spills.push(Token::new_match(2, 3));
    let err = decompress(spills, DecompressionSettings { max_output_len: 5 }).unwrap_err();
    assert_eq!(err, Error::MaximumSizeExceeded);
}

#[test]
fn overlapping_match_replicates_pattern() {
    let mut inp = Token::literals("a");
    inp.push(Token::new_match(1, 7));
    let out = decompress(inp, DecompressionSettings::default()).unwrap();
    assert_eq!(out, b"aaaaaaaa".to_vec());
}

#[test]
fn decompression_is_deterministic() {
    let make = || {
        let mut inp = Token::literals("abcd");
        inp.push(Token::new_match(4, 12));
        inp
    };
    let first = decompress(make(), DecompressionSettings::default()).unwrap();
    let second = decompress(make(), DecompressionSettings::default()).unwrap();
    assert_eq!(first, second);
    assert_eq!(first, b"abcdabcdabcdabcd".to_vec());
}

#[test]
fn token_len_values() {
    assert_eq!(Token::Literal(b'q').token_len(), 1);
    assert_eq!(Token::new_match(9, 17).token_len(), 17);
}

#[test]
fn literals_builds_one_token_per_byte() {
    let toks = Token::literals("hi!");
    assert_eq!(
        toks,
        vec![Token::Literal(b'h'), Token::Literal(b'i'), Token::Literal(b'!')]
    );
    assert!(Token::literals("").is_empty());
}

#[test]
fn default_settings_values() {
    let c = CompressionSettings::lz4_default();
    assert_eq!(c.max_match_offset, 65536);
    assert_eq!(c.min_match_len, 4);
    assert_eq!(c.end_literals, 12);
    let t = CompressionSettings::test_default();
    assert_eq!(t.end_literals, 0);
    let d = DecompressionSettings::default();
    assert_eq!(d.max_output_len, DEFAULT_MAX_OUTPUT);
    assert_eq!(DEFAULT_MAX_OUTPUT, 4 * 1024 * 1024);
}
