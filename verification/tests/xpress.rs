use memdecomp::xpress::{decompress, round_up_next, PAGE_SIZE};

#[test]
fn empty_input_is_clean_eof() {
    let d = decompress(&[], PAGE_SIZE);
    assert_eq!(d.data.len(), 0);
    assert_eq!(d.consumed, 0);
}

#[test]
fn truncated_flags_field_does_not_panic() {
    let d = decompress(&[0xFFu8], PAGE_SIZE);
    assert_eq!(d.data.len(), 0);
}

#[test]
fn all_literals_roundtrip() {
    // flags = 0 (all literals), 32 literal bytes follow.
    let mut input = vec![0u8, 0, 0, 0];
    let literals: Vec<u8> = (0..32).collect();
    input.extend_from_slice(&literals);
    let d = decompress(&input, PAGE_SIZE);
    assert_eq!(d.data, literals);
    assert_eq!(d.consumed, input.len());
}

#[test]
fn round_up_next_matches_reference_semantics() {
    assert_eq!(round_up_next(0, 16), 16);
    assert_eq!(round_up_next(16, 16), 32);
    assert_eq!(round_up_next(17, 16), 32);
    assert_eq!(round_up_next(31, 16), 32);
}

#[test]
fn bogus_backreference_stops_cleanly() {
    // All flag bits set: the first token is a match, with no prior output to
    // refer to.
    let input = vec![0xFFu8, 0xFF, 0xFF, 0xFF, 0x00, 0x00];
    let d = decompress(&input, PAGE_SIZE);
    assert!(d.data.len() <= PAGE_SIZE);
}

/// A stream of one literal `a` followed by one match token, whose bytes are
/// `token`.
fn literal_and_match(token: &[u8]) -> Vec<u8> {
    let mut input = vec![0u8, 0, 0, 0x40, b'a'];
    input.extend_from_slice(token);
    input
}

#[test]
fn short_match_repeats_the_last_byte() {
    let input = literal_and_match(&[2, 0]);
    let d = decompress(&input, PAGE_SIZE);
    assert_eq!(d.data, vec![b'a'; 6]);
    assert_eq!(d.consumed, 7);
}

#[test]
fn overlapping_match_repeats_a_pattern() {
    // Three literals, then a match of length 7 at distance 3.
    let input = vec![0u8, 0, 0, 0x10, b'x', b'y', b'z', (2 << 3) | 4, 0];
    let d = decompress(&input, PAGE_SIZE);
    assert_eq!(d.data, b"xyzxyzxyzx".to_vec());
    assert_eq!(d.consumed, 9);
}

#[test]
fn half_byte_length() {
    let d = decompress(&literal_and_match(&[7, 0, 0x03]), PAGE_SIZE);
    assert_eq!(d.data.len(), 1 + 3 + 7 + 3);
    assert_eq!(d.consumed, 8);
}

#[test]
fn two_matches_share_a_length_byte() {
    // A literal, a match, a literal, and a match that takes the upper half of
    // the first match's length byte.
    let input = vec![0u8, 0, 0, 0x50, b'a', 7, 0, 0x53, b'b', 7, 0];
    let d = decompress(&input, PAGE_SIZE);
    let mut expected = vec![b'a'; 1 + 13];
    expected.extend_from_slice(&[b'b'; 1 + 15]);
    assert_eq!(d.data, expected);
    assert_eq!(d.consumed, 11);
}

#[test]
fn upper_half_byte_of_fifteen_reads_on() {
    let input = vec![0u8, 0, 0, 0x60, b'a', 7, 0, 0xF0, 7, 0, 1];
    let d = decompress(&input, PAGE_SIZE);
    assert_eq!(d.data.len(), 1 + 10 + 26);
    assert_eq!(d.consumed, 11);
}

#[test]
fn third_extended_match_opens_a_new_length_byte() {
    let input = vec![0u8, 0, 0, 0x70, b'a', 7, 0, 0x21, 7, 0, 7, 0, 0x05];
    let d = decompress(&input, PAGE_SIZE);
    assert_eq!(d.data.len(), 1 + 11 + 12 + 15);
    assert_eq!(d.consumed, 13);
}

#[test]
fn byte_length() {
    let d = decompress(&literal_and_match(&[7, 0, 0x0F, 10]), PAGE_SIZE);
    assert_eq!(d.data.len(), 1 + 10 + 15 + 7 + 3);
    assert_eq!(d.consumed, 9);
    let d = decompress(&literal_and_match(&[7, 0, 0x0F, 254]), PAGE_SIZE);
    assert_eq!(d.data.len(), 1 + 254 + 15 + 7 + 3);
}

#[test]
fn word_length() {
    // 300 = 0x012C.
    let d = decompress(&literal_and_match(&[7, 0, 0x0F, 255, 0x2C, 0x01]), PAGE_SIZE);
    assert_eq!(d.data, vec![b'a'; 1 + 303]);
    assert_eq!(d.consumed, 11);
}

#[test]
fn longest_match() {
    let d = decompress(&literal_and_match(&[7, 0, 0x0F, 255, 0xFF, 0xFF]), 1 << 20);
    assert_eq!(d.data.len(), 1 + 0xFFFF + 3);
}

#[test]
fn word_length_under_its_minimum_is_bogus() {
    let d = decompress(&literal_and_match(&[7, 0, 0x0F, 255, 21, 0, 9]), PAGE_SIZE);
    assert_eq!(d.data, b"a".to_vec());
    assert_eq!(d.consumed, 11);
    let d = decompress(&literal_and_match(&[7, 0, 0x0F, 255, 22, 0]), PAGE_SIZE);
    assert_eq!(d.data.len(), 1 + 25);
    assert_eq!(d.consumed, 11);
}

#[test]
fn distance_before_the_output_is_bogus() {
    let d = decompress(&literal_and_match(&[8, 0, 1, 2, 3]), PAGE_SIZE);
    assert_eq!(d.data, b"a".to_vec());
    assert_eq!(d.consumed, 7);
    let d = decompress(&[0xFF, 0xFF, 0xFF, 0xFF, 0x00, 0x00], PAGE_SIZE);
    assert_eq!(d.data.len(), 0);
    assert_eq!(d.consumed, 6);
}

#[test]
fn largest_distance() {
    // 8192 literals, then a match of length 3 at distance 8192.
    let bytes: Vec<u8> = (0..8192u32).map(|i| (i % 251) as u8).collect();
    let mut input = literal_stream(&bytes);
    input.extend_from_slice(&[0, 0, 0, 0x80, 0xF8, 0xFF]);
    let d = decompress(&input, 10000);
    assert_eq!(d.data.len(), 8195);
    assert_eq!(d.data[8192..8195], bytes[0..3]);
    assert_eq!(d.consumed, input.len());
}

#[test]
fn end_of_stream_inside_a_token() {
    let stream = literal_and_match(&[7, 0, 0x0F, 255, 0x2C, 0x01]);
    // The number of bytes that are there, and of those that are consumed.
    let cases = [
        (0, 0),
        (1, 0),
        (3, 0),
        (4, 4),
        (5, 5),
        (6, 5),
        (7, 7),
        (8, 8),
        (9, 9),
        (10, 9),
    ];
    for (cut, consumed) in cases {
        let d = decompress(&stream[..cut], PAGE_SIZE);
        assert_eq!(d.data.len(), if cut >= 5 { 1 } else { 0 }, "cut at {}", cut);
        assert_eq!(d.consumed, consumed, "cut at {}", cut);
    }
}

#[test]
fn output_is_limited() {
    let stream = literal_and_match(&[7, 0, 0x0F, 255, 0x2C, 0x01]);
    for limit in 0..304 {
        let d = decompress(&stream, limit);
        assert_eq!(d.data, vec![b'a'; limit]);
    }
    assert_eq!(decompress(&stream, 0).consumed, 0);
    assert_eq!(decompress(&stream, 1).consumed, 5);
    assert_eq!(decompress(&stream, 2).consumed, 11);
}

/// `bytes` as literals: groups of up to 32, each behind a flag word of zero.
fn literal_stream(bytes: &[u8]) -> Vec<u8> {
    let mut stream = Vec::new();
    for group in bytes.chunks(32) {
        stream.extend_from_slice(&[0, 0, 0, 0]);
        stream.extend_from_slice(group);
    }
    stream
}

#[test]
fn literals_of_many_groups_roundtrip() {
    for n in [0, 1, 31, 32, 33, 64, 100, 3000] {
        let bytes: Vec<u8> = (0..n as u32).map(|i| (i * 7) as u8).collect();
        let stream = literal_stream(&bytes);
        let d = decompress(&stream, bytes.len());
        assert_eq!(d.data, bytes);
        assert_eq!(d.consumed, stream.len());
    }
}

/// Bytes without an evident pattern.
fn noise(n: usize) -> Vec<u8> {
    let mut state = 12345u32;
    (0..n)
        .map(|_| {
            state = state.wrapping_mul(1664525).wrapping_add(1013904223);
            (state >> 24) as u8
        })
        .collect()
}

/// A stream with literals and matches, all of which are sound.
fn mixed_stream() -> Vec<u8> {
    let mut stream = vec![0u8, 0, 0, 0];
    stream.extend_from_slice(&noise(32));
    // Match, literal, match, and so on.
    stream.extend_from_slice(&[0xAA, 0xAA, 0xAA, 0xAA]);
    for i in 0..16u8 {
        stream.extend_from_slice(&[(i << 3) | (i % 7), 0, i]);
    }
    stream
}

#[test]
fn truncated_stream_decodes_to_a_prefix() {
    let stream = mixed_stream();
    let whole = decompress(&stream, PAGE_SIZE);
    assert_eq!(whole.consumed, stream.len());
    for cut in 0..stream.len() {
        let part = decompress(&stream[..cut], PAGE_SIZE);
        assert!(whole.data.starts_with(&part.data));
        assert!(part.consumed <= cut);
    }
}

#[test]
fn bytes_behind_the_consumed_ones_do_not_matter() {
    let mut stream = literal_and_match(&[2, 0]);
    // A distance that reaches too far ends the decode.
    stream[3] = 0x60;
    stream.extend_from_slice(&[0xF8, 0xFF]);
    stream.extend_from_slice(&noise(50));
    let whole = decompress(&stream, PAGE_SIZE);
    assert_eq!(whole.consumed, 9);
    for cut in whole.consumed..stream.len() {
        let part = decompress(&stream[..cut], PAGE_SIZE);
        assert_eq!(part.data, whole.data);
        assert_eq!(part.consumed, whole.consumed);
    }
}

#[test]
fn smaller_limit_yields_a_prefix() {
    let stream = mixed_stream();
    let whole = decompress(&stream, PAGE_SIZE);
    for limit in 0..whole.data.len() {
        let part = decompress(&stream, limit);
        assert_eq!(part.data[..], whole.data[..limit]);
        assert!(part.consumed <= whole.consumed);
    }
}

#[test]
fn round_up_next_near_the_largest_number() {
    assert_eq!(round_up_next(5, 1), 6);
    assert_eq!(round_up_next(9, 10), 10);
    assert_eq!(round_up_next(usize::MAX - 16, 16), usize::MAX - 15);
}
