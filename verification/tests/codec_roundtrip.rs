use base64ct::Encoding;
use clovers::codec::{decode, encode};
use clovers::error::BoardError;

#[test]
fn round_trip_recovers_every_digest() {
    let ascending: Vec<u8> = (0u8..32).collect();
    let digest = clovers::tripcode::derive("s3cr3t", "bob");
    let zeros = vec![0u8; 32];
    let ones = vec![0xffu8; 32];
    for b in [ascending, digest, zeros, ones] {
        assert_eq!(decode(&encode(&b)), Ok(b));
    }
}

#[test]
fn encode_of_zeros_is_exactly_43_a_characters() {
    let encoded = encode(&vec![0u8; 32]);
    assert_eq!(encoded, "A".repeat(43));
}

#[test]
fn encode_matches_reference_encoder() {
    let digest = clovers::tripcode::derive("x", "bob");
    assert_eq!(encode(&digest), base64ct::Base64UrlUnpadded::encode_string(&digest));
}

#[test]
fn decode_rejects_characters_outside_the_alphabet() {
    assert_eq!(decode("not-valid-b64!!"), Err(BoardError::InvalidEncoding));
}

#[test]
fn decode_rejects_padding_and_bad_lengths() {
    assert_eq!(decode("QQ=="), Err(BoardError::InvalidEncoding));
    assert_eq!(decode("AAAAA"), Err(BoardError::InvalidEncoding));
}

#[test]
fn decode_rejects_non_canonical_trailing_bits() {
    // "QQ" is the canonical encoding of [0x41]; "QR" sets unused low bits.
    assert_eq!(decode("QQ"), Ok(vec![0x41u8]));
    assert_eq!(decode("QR"), Err(BoardError::InvalidEncoding));
}

#[test]
fn decode_of_empty_text_is_empty() {
    assert_eq!(decode(""), Ok(vec![]));
}
