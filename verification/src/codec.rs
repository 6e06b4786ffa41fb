//! Tripcode digests travel in URLs as unpadded URL-safe base64. `encode`
//! is total; `decode` accepts exactly the canonical encodings, so the two
//! round-trip: `decode(encode(b))` recovers `b` for every byte sequence.

use base64ct::Encoding;
use vstd::prelude::*;

use crate::error::BoardError;

verus! {

/// The error type of base64ct's decoders.
#[verifier::external_type_specification]
#[verifier::external_body]
pub struct ExBase64Error(base64ct::Error);

/// The URL-safe base64 alphabet, as the byte value of the character that
/// stands for a 6-bit group.
pub open spec fn b64url_byte(v: int) -> u8
    recommends
        0 <= v < 64,
{
    if v < 26 {
        (v + 65) as u8  // 'A'..='Z'
    } else if v < 52 {
        (v + 71) as u8  // 'a'..='z'
    } else if v < 62 {
        (v - 4) as u8  // '0'..='9'
    } else if v == 62 {
        45u8  // '-'
    } else {
        95u8  // '_'
    }
}

/// The alphabet character for a 6-bit group.
pub open spec fn b64url_char(v: int) -> char {
    b64url_byte(v) as char
}

/// Canonical unpadded URL-safe base64: groups of three bytes become four
/// characters; a final group of one or two bytes becomes two or three
/// characters whose unused low bits are zero.
pub open spec fn b64url_encode(bytes: Seq<u8>) -> Seq<char>
    decreases bytes.len(),
{
    if bytes.len() == 0 {
        Seq::empty()
    } else if bytes.len() == 1 {
        let b0 = bytes[0];
        seq![b64url_char((b0 >> 2) as int), b64url_char(((b0 & 3) << 4) as int)]
    } else if bytes.len() == 2 {
        let b0 = bytes[0];
        let b1 = bytes[1];
        seq![
            b64url_char((b0 >> 2) as int),
            b64url_char((((b0 & 3) << 4) | (b1 >> 4)) as int),
            b64url_char(((b1 & 15) << 2) as int),
        ]
    } else {
        let b0 = bytes[0];
        let b1 = bytes[1];
        let b2 = bytes[2];
        seq![
            b64url_char((b0 >> 2) as int),
            b64url_char((((b0 & 3) << 4) | (b1 >> 4)) as int),
            b64url_char((((b1 & 15) << 2) | (b2 >> 6)) as int),
            b64url_char((b2 & 63) as int),
        ] + b64url_encode(bytes.skip(3))
    }
}

/// Distinct 6-bit groups are shown by distinct alphabet characters.
proof fn lemma_b64url_char_injective(x: int, y: int)
    requires
        0 <= x < 64,
        0 <= y < 64,
        b64url_char(x) == b64url_char(y),
    ensures
        x == y,
{
}

/// Length of the encoding of `n` bytes: four characters per full group of
/// three, two or three characters for a final partial group.
pub open spec fn b64url_encoded_len(n: int) -> int
    decreases n,
{
    if n <= 0 {
        0
    } else if n == 1 {
        2
    } else if n == 2 {
        3
    } else {
        4 + b64url_encoded_len(n - 3)
    }
}

proof fn lemma_encoded_len(bytes: Seq<u8>)
    ensures
        b64url_encode(bytes).len() == b64url_encoded_len(bytes.len() as int),
    decreases bytes.len(),
{
    if bytes.len() >= 3 {
        lemma_encoded_len(bytes.skip(3));
    }
}

proof fn lemma_encoded_len_increasing(n1: int, n2: int)
    requires
        0 <= n1 < n2,
    ensures
        b64url_encoded_len(n1) < b64url_encoded_len(n2),
    decreases n2,
{
    if n1 >= 3 {
        lemma_encoded_len_increasing(n1 - 3, n2 - 3);
    } else if n2 >= 3 {
        if n2 - 3 > 0 {
            lemma_encoded_len_increasing(0, n2 - 3);
        }
    }
}

/// No two byte sequences share an encoding, so a decoder that accepts only
/// canonical encodings returns, for `encode(b)`, exactly `b`.
pub proof fn lemma_encode_injective(a: Seq<u8>, b: Seq<u8>)
    requires
        b64url_encode(a) == b64url_encode(b),
    ensures
        a == b,
    decreases a.len(),
{
    lemma_encoded_len(a);
    lemma_encoded_len(b);
    if a.len() < b.len() {
        lemma_encoded_len_increasing(a.len() as int, b.len() as int);
    }
    if b.len() < a.len() {
        lemma_encoded_len_increasing(b.len() as int, a.len() as int);
    }
    if a.len() == 0 {
        assert(a =~= b);
    } else if a.len() == 1 {
        let a0 = a[0];
        let b0 = b[0];
        assert(a0 >> 2 < 64 && (a0 & 3) << 4 < 64 && b0 >> 2 < 64 && (b0 & 3) << 4 < 64)
            by (bit_vector);
        lemma_b64url_char_injective((a0 >> 2) as int, (b0 >> 2) as int);
        lemma_b64url_char_injective(((a0 & 3) << 4) as int, ((b0 & 3) << 4) as int);
        assert(a0 == b0) by (bit_vector)
            requires
                a0 >> 2 == b0 >> 2,
                (a0 & 3) << 4 == (b0 & 3) << 4,
        ;
        assert(a =~= b);
    } else if a.len() == 2 {
        let a0 = a[0];
        let a1 = a[1];
        let b0 = b[0];
        let b1 = b[1];
        assert(a0 >> 2 < 64 && ((a0 & 3) << 4 | (a1 >> 4)) < 64 && (a1 & 15) << 2 < 64)
            by (bit_vector);
        assert(b0 >> 2 < 64 && ((b0 & 3) << 4 | (b1 >> 4)) < 64 && (b1 & 15) << 2 < 64)
            by (bit_vector);
        lemma_b64url_char_injective((a0 >> 2) as int, (b0 >> 2) as int);
        lemma_b64url_char_injective(
            (((a0 & 3) << 4) | (a1 >> 4)) as int,
            (((b0 & 3) << 4) | (b1 >> 4)) as int,
        );
        lemma_b64url_char_injective(((a1 & 15) << 2) as int, ((b1 & 15) << 2) as int);
        assert(a0 == b0 && a1 == b1) by (bit_vector)
            requires
                a0 >> 2 == b0 >> 2,
                ((a0 & 3) << 4) | (a1 >> 4) == ((b0 & 3) << 4) | (b1 >> 4),
                (a1 & 15) << 2 == (b1 & 15) << 2,
        ;
        assert(a =~= b);
    } else {
        let a0 = a[0];
        let a1 = a[1];
        let a2 = a[2];
        let b0 = b[0];
        let b1 = b[1];
        let b2 = b[2];
        assert(a0 >> 2 < 64 && ((a0 & 3) << 4 | (a1 >> 4)) < 64 && ((a1 & 15) << 2 | (a2 >> 6))
            < 64 && a2 & 63 < 64) by (bit_vector);
        assert(b0 >> 2 < 64 && ((b0 & 3) << 4 | (b1 >> 4)) < 64 && ((b1 & 15) << 2 | (b2 >> 6))
            < 64 && b2 & 63 < 64) by (bit_vector);
        assert forall|i: int| 0 <= i < 4 implies b64url_encode(a)[i] == b64url_encode(b)[i] by {}
        assert(b64url_encode(a)[0] == b64url_char((a0 >> 2) as int));
        assert(b64url_encode(a)[1] == b64url_char((((a0 & 3) << 4) | (a1 >> 4)) as int));
        assert(b64url_encode(a)[2] == b64url_char((((a1 & 15) << 2) | (a2 >> 6)) as int));
        assert(b64url_encode(a)[3] == b64url_char((a2 & 63) as int));
        assert(b64url_encode(b)[0] == b64url_char((b0 >> 2) as int));
        assert(b64url_encode(b)[1] == b64url_char((((b0 & 3) << 4) | (b1 >> 4)) as int));
        assert(b64url_encode(b)[2] == b64url_char((((b1 & 15) << 2) | (b2 >> 6)) as int));
        assert(b64url_encode(b)[3] == b64url_char((b2 & 63) as int));
        lemma_b64url_char_injective((a0 >> 2) as int, (b0 >> 2) as int);
        lemma_b64url_char_injective(
            (((a0 & 3) << 4) | (a1 >> 4)) as int,
            (((b0 & 3) << 4) | (b1 >> 4)) as int,
        );
        lemma_b64url_char_injective(
            (((a1 & 15) << 2) | (a2 >> 6)) as int,
            (((b1 & 15) << 2) | (b2 >> 6)) as int,
        );
        lemma_b64url_char_injective((a2 & 63) as int, (b2 & 63) as int);
        assert(a0 == b0 && a1 == b1 && a2 == b2) by (bit_vector)
            requires
                a0 >> 2 == b0 >> 2,
                ((a0 & 3) << 4) | (a1 >> 4) == ((b0 & 3) << 4) | (b1 >> 4),
                ((a1 & 15) << 2) | (a2 >> 6) == ((b1 & 15) << 2) | (b2 >> 6),
                a2 & 63 == b2 & 63,
        ;
        assert(b64url_encode(a.skip(3)) =~= b64url_encode(a).skip(4));
        assert(b64url_encode(b.skip(3)) =~= b64url_encode(b).skip(4));
        lemma_encode_injective(a.skip(3), b.skip(3));
        assert forall|i: int| 3 <= i < a.len() implies a[i] == b[i] by {
            assert(a[i] == a.skip(3)[i - 3]);
            assert(b[i] == b.skip(3)[i - 3]);
        }
        assert(a =~= b);
    }
}

/// Relies on base64ct's `Base64UrlUnpadded::encode_string`: the canonical
/// unpadded URL-safe base64 of the input, four characters per group of
/// three bytes (its `encode` writes exactly the alphabet characters of the
/// 6-bit groups). It panics on inputs longer than `usize::MAX / 4`, which
/// the precondition rules out.
#[verifier::external_body]
fn b64url_encode_exec(input: &[u8]) -> (r: String)
    requires
        input@.len() <= usize::MAX / 4,
    ensures
        r@ == b64url_encode(input@),
{
    base64ct::Base64UrlUnpadded::encode_string(input)
}

/// Relies on base64ct's `Base64UrlUnpadded::decode_vec`: it accepts exactly
/// the canonical unpadded encodings (`validate_last_block` re-encodes the
/// final group and rejects any text that does not round-trip), and returns
/// the bytes whose encoding the input is.
#[verifier::external_body]
fn b64url_decode_exec(text: &str) -> (r: Result<Vec<u8>, base64ct::Error>)
    ensures
        match r {
            Ok(v) => text@ == b64url_encode(v@),
            Err(_) => forall|b: Seq<u8>| text@ != b64url_encode(b),
        },
{
    base64ct::Base64UrlUnpadded::decode_vec(text)
}

/// The compact, URL-safe text form of a digest.
pub fn encode(digest: &[u8]) -> (r: String)
    requires
        digest@.len() <= usize::MAX / 4,
    ensures
        r@ == b64url_encode(digest@),
{
    b64url_encode_exec(digest)
}

/// Recover the bytes whose canonical encoding `text` is. Succeeds exactly
/// when such bytes exist — in particular on everything `encode` returns,
/// whose preimage it then recovers — and reports `InvalidEncoding` for
/// every other input.
pub fn decode(text: &str) -> (r: Result<Vec<u8>, BoardError>)
    ensures
        r matches Ok(v) ==> text@ == b64url_encode(v@),
        forall|b: Seq<u8>| text@ == b64url_encode(b) ==> (r matches Ok(v) && v@ == b),
        r matches Err(e) ==> e == BoardError::InvalidEncoding && (forall|b: Seq<u8>|
            text@ != b64url_encode(b)),
{
    match b64url_decode_exec(text) {
        Ok(v) => {
            proof {
                assert forall|b: Seq<u8>| text@ == b64url_encode(b) implies v@ == b by {
                    lemma_encode_injective(v@, b);
                }
            }
            Ok(v)
        },
        Err(_) => Err(BoardError::InvalidEncoding),
    }
}

} // verus!
