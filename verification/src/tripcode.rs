//! One-way tripcode derivation: a poster who knows a secret can prove the
//! same identity across posts without the secret ever being stored. The
//! digest is a BLAKE2s-256 hash of the secret, a fixed domain separator,
//! and the display name, in that order.

use blake2::Digest;
use vstd::prelude::*;
use vstd::utf8::encode_utf8;

verus! {

/// The fixed string mixed into every tripcode hash between the secret and
/// the name. It keeps a secret hashed here from colliding with the same
/// secret hashed in any other context, and is part of the wire contract:
/// changing it invalidates every previously issued tripcode.
pub open spec fn domain_separator() -> Seq<char> {
    "#clovers#"@
}

/// The 32-byte BLAKE2s-256 digest of a byte sequence. Left uninterpreted:
/// the hash's value is defined by the algorithm alone, and the contracts
/// only rely on it being a function of the input.
pub uninterp spec fn blake2s256_of(data: Seq<u8>) -> Seq<u8>;

/// Relies on blake2's `Blake2s256` through `Digest::digest`: a 32-byte
/// digest that is a function of the input bytes alone.
#[verifier::external_body]
fn blake2s256_exec(data: &[u8]) -> (r: Vec<u8>)
    ensures
        r@ == blake2s256_of(data@),
        r@.len() == 32,
{
    blake2::Blake2s256::digest(data).to_vec()
}

/// The digest `derive` computes: the hash of the secret's bytes, then the
/// domain separator's bytes, then the name's bytes, as one stream.
pub open spec fn derive_spec(secret: Seq<char>, name: Seq<char>) -> Seq<u8> {
    blake2s256_of(encode_utf8(secret) + encode_utf8(domain_separator()) + encode_utf8(name))
}

/// Derive the tripcode digest for a secret claimed under a display name.
/// Pure and deterministic; no inverse is exposed.
pub fn derive(secret: &str, name: &str) -> (r: Vec<u8>)
    ensures
        r@ == derive_spec(secret@, name@),
        r@.len() == 32,
{
    let mut input: Vec<u8> = Vec::new();
    input.extend_from_slice(secret.as_bytes());
    input.extend_from_slice("#clovers#".as_bytes());
    input.extend_from_slice(name.as_bytes());
    proof {
        assert(input@ =~= encode_utf8(secret@) + encode_utf8(domain_separator()) + encode_utf8(
            name@,
        ));
    }
    blake2s256_exec(input.as_slice())
}

/// Deriving twice from the same secret and name yields the same digest:
/// the digest is a function of those two strings and nothing else.
pub proof fn lemma_derive_deterministic(
    secret: Seq<char>,
    name: Seq<char>,
    d1: Seq<u8>,
    d2: Seq<u8>,
)
    requires
        d1 == derive_spec(secret, name),
        d2 == derive_spec(secret, name),
    ensures
        d1 == d2,
{
}

} // verus!
