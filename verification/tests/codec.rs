use g2z::decoder::{decompress, DecompressError};
use g2z::encoder::{compress, CompressError};
use g2z::varint::{decode_varint, encode_varint};

fn enc(input: &[u8]) -> Vec<u8> {
    compress(&input.to_vec()).expect("encoder rejected input")
}

fn roundtrip(input: &[u8]) {
    let encoded = enc(input);
    let decoded = decompress(&encoded).expect("decoder failed");
    assert_eq!(decoded, input.to_vec());
}

#[test]
fn scenario_the_cat_sat() {
    // "the " repeats twice (both referencing offset 0), "cat " once
    // (referencing offset 4), and the final "ran" has no delimiter.
    let input = b"the cat sat on the mat the cat ran";
    let encoded = enc(input);
    let mut expected: Vec<u8> = Vec::new();
    expected.extend_from_slice(b"the cat sat on ");
    expected.extend_from_slice(&[0xFF, 0x00]);
    expected.extend_from_slice(b"mat ");
    expected.extend_from_slice(&[0xFF, 0x00]);
    expected.extend_from_slice(&[0xFF, 0x04]);
    expected.extend_from_slice(b"ran");
    assert_eq!(encoded, expected);
    let decoded = decompress(&encoded).expect("decoder failed");
    assert_eq!(decoded, input.to_vec());
}

#[test]
fn roundtrip_empty() {
    roundtrip(b"");
}

#[test]
fn roundtrip_single_token_no_delimiter() {
    roundtrip(b"hello");
}

#[test]
fn roundtrip_trailing_delimiter() {
    roundtrip(b"hello world hello ");
}

#[test]
fn roundtrip_final_token_without_delimiter_repeats_earlier() {
    // the final "cat" has no delimiter, so it differs from "cat " and is
    // emitted literally rather than as a reference
    let input = b"the cat the cat";
    let encoded = enc(input);
    let mut expected: Vec<u8> = Vec::new();
    expected.extend_from_slice(b"the cat ");
    expected.extend_from_slice(&[0xFF, 0x00]);
    expected.extend_from_slice(b"cat");
    assert_eq!(encoded, expected);
    roundtrip(input);
}

#[test]
fn short_tokens_stay_literal() {
    // two-byte tokens (delimiter included) are below the threshold and are
    // never replaced, however often they repeat
    let input = b"a a a a ";
    let encoded = enc(input);
    assert_eq!(encoded, input.to_vec());
    roundtrip(input);
}

#[test]
fn threshold_token_is_replaced() {
    // "ab " is exactly three bytes, which meets the threshold: the repeat
    // becomes a two-byte reference
    let input = b"ab ab ";
    let encoded = enc(input);
    let mut expected: Vec<u8> = Vec::new();
    expected.extend_from_slice(b"ab ");
    expected.extend_from_slice(&[0xFF, 0x00]);
    assert_eq!(encoded, expected);
    roundtrip(input);
}

#[test]
fn repeats_reference_first_occurrence_only() {
    // "aaaa " appears three times: one literal, two references, both to
    // offset 0 even though a nearer occurrence exists
    let input = b"aaaa aaaa aaaa ";
    let encoded = enc(input);
    let mut expected: Vec<u8> = Vec::new();
    expected.extend_from_slice(b"aaaa ");
    expected.extend_from_slice(&[0xFF, 0x00]);
    expected.extend_from_slice(&[0xFF, 0x00]);
    assert_eq!(encoded, expected);
    roundtrip(input);
}

#[test]
fn resync_offset_with_sentinel_byte_in_varint() {
    // 51 five-byte filler tokens put the first "zzzz " at offset 255,
    // whose varint encoding is [0xFF, 0x01]: the embedded 0xFF must not be
    // mistaken for a unit boundary
    let mut input: Vec<u8> = Vec::new();
    for i in 0..51u32 {
        input.extend_from_slice(format!("t{:03} ", i).as_bytes());
    }
    assert_eq!(input.len(), 255);
    input.extend_from_slice(b"zzzz ");
    input.extend_from_slice(b"end zzzz tail");
    let encoded = compress(&input).expect("encoder rejected input");
    // the reference unit for the repeated "zzzz " is 0xFF 0xFF 0x01
    let mut found = false;
    for w in encoded.windows(3) {
        if w == [0xFF, 0xFF, 0x01] {
            found = true;
        }
    }
    assert!(found);
    let decoded = decompress(&encoded).expect("decoder failed");
    assert_eq!(decoded, input);
}

#[test]
fn sentinel_in_long_token_is_rejected() {
    let input = b"ab\xFF cd".to_vec();
    assert_eq!(compress(&input), Err(CompressError::SentinelInInput));
}

#[test]
fn sentinel_in_repeated_word_is_rejected() {
    let input = b"the \xFFour the ".to_vec();
    assert_eq!(compress(&input), Err(CompressError::SentinelInInput));
}

#[test]
fn sentinel_in_short_token_is_rejected() {
    // even a token too short for the dictionary is scanned: any raw
    // sentinel byte is an input-format violation
    let input = b"\xFF ab".to_vec();
    assert_eq!(compress(&input), Err(CompressError::SentinelInInput));
    let trailing = b"a\xFF".to_vec();
    assert_eq!(compress(&trailing), Err(CompressError::SentinelInInput));
}

#[test]
fn truncated_varint_at_end_of_stream() {
    // after the first unit, a pending candidate of one continuation byte
    // never completes
    let input = b"abc \xFF\x80".to_vec();
    assert_eq!(decompress(&input), Err(DecompressError::TruncatedStream));
}

#[test]
fn stream_ending_on_unresolved_sentinel() {
    let input = b"abc \xFF\x80\xFF".to_vec();
    assert_eq!(decompress(&input), Err(DecompressError::TruncatedStream));
}

#[test]
fn reference_past_buffer_end() {
    let input = b"abc \xFF\x63xyz".to_vec();
    assert_eq!(decompress(&input), Err(DecompressError::OffsetOutOfRange));
}

#[test]
fn reference_reconstructs_token_with_delimiter() {
    // decoding a hand-built stream: the reference copies "the" from the
    // buffer and appends exactly one delimiter
    let input = b"the cat \xFF\x00".to_vec();
    let decoded = decompress(&input).expect("decoder failed");
    assert_eq!(decoded, b"the cat the ".to_vec());
}

#[test]
fn decoder_accepts_literal_only_stream() {
    let input = b"plain words only".to_vec();
    let decoded = decompress(&input).expect("decoder failed");
    assert_eq!(decoded, input);
}

#[test]
fn varint_known_encodings() {
    let cases: Vec<(u64, Vec<u8>)> = vec![
        (0, vec![0x00]),
        (1, vec![0x01]),
        (127, vec![0x7F]),
        (128, vec![0x80, 0x01]),
        (255, vec![0xFF, 0x01]),
        (300, vec![0xAC, 0x02]),
        (16384, vec![0x80, 0x80, 0x01]),
        (
            u64::MAX,
            vec![0xFF, 0xFF, 0xFF, 0xFF, 0xFF, 0xFF, 0xFF, 0xFF, 0xFF, 0x01],
        ),
    ];
    for (value, bytes) in cases {
        let mut out: Vec<u8> = Vec::new();
        encode_varint(value, &mut out);
        assert_eq!(out, bytes, "encoding of {}", value);
        assert_eq!(decode_varint(&out), Some((value, bytes.len())));
    }
}

#[test]
fn varint_decode_consumes_prefix_only() {
    let bytes = vec![0xAC, 0x02, 0x51, 0x52];
    assert_eq!(decode_varint(&bytes), Some((300, 2)));
}

#[test]
fn varint_decode_truncated() {
    assert_eq!(decode_varint(&vec![0x80]), None);
    assert_eq!(decode_varint(&vec![]), None);
    assert_eq!(decode_varint(&vec![0xFF, 0xFF]), None);
}

#[test]
fn varint_decode_non_canonical_zero() {
    assert_eq!(decode_varint(&vec![0x80, 0x00]), Some((0, 2)));
}

#[test]
fn varint_decode_overflow() {
    let mut bytes = vec![0xFF; 10];
    bytes.push(0x01);
    assert_eq!(decode_varint(&bytes), None);
}

#[test]
fn roundtrip_longer_text() {
    let input = b"it was the best of times it was the worst of times it was the age of wisdom it was the age of foolishness";
    let encoded = enc(input);
    assert!(encoded.len() < input.len());
    let decoded = decompress(&encoded).expect("decoder failed");
    assert_eq!(decoded, input.to_vec());
}

#[test]
fn roundtrip_consecutive_delimiters() {
    // an empty word between two delimiters forms a one-byte token
    roundtrip(b"the  the  the ");
}
