use blake2::{Blake2s256, Digest};
use clovers::poster::Poster;

#[test]
fn parse_empty_is_anonymous() {
    let p = Poster::parse("");
    assert_eq!(p.name, "Anonymous");
    assert!(p.hash.is_none());
}

#[test]
fn parse_bare_name() {
    let p = Poster::parse("bob");
    assert_eq!(p.name, "bob");
    assert!(p.hash.is_none());
}

#[test]
fn parse_secret_only_uses_default_name() {
    let p = Poster::parse("#s3cr3t");
    assert_eq!(p.name, "Anonymous");
    assert_eq!(p.hash, Some(clovers::tripcode::derive("s3cr3t", "Anonymous")));
}

#[test]
fn parse_name_and_secret() {
    let p = Poster::parse("bob#s3cr3t");
    assert_eq!(p.name, "bob");
    assert_eq!(p.hash, Some(clovers::tripcode::derive("s3cr3t", "bob")));
}

#[test]
fn parse_empty_secret_is_still_a_secret() {
    let p = Poster::parse("bob#");
    assert_eq!(p.name, "bob");
    assert_eq!(p.hash, Some(clovers::tripcode::derive("", "bob")));
}

#[test]
fn parse_splits_at_first_hash_only() {
    let p = Poster::parse("bob#a#b");
    assert_eq!(p.name, "bob");
    assert_eq!(p.hash, Some(clovers::tripcode::derive("a#b", "bob")));
}

#[test]
fn constructors_match_parse() {
    let a = Poster::new();
    assert_eq!(a.name, "Anonymous");
    assert!(a.hash.is_none());
    let b = Poster::with_name("carol");
    assert_eq!(b.name, "carol");
    assert!(b.hash.is_none());
    let c = Poster::with_secret("s");
    assert_eq!(c.name, "Anonymous");
    assert_eq!(c.hash, Some(clovers::tripcode::derive("s", "Anonymous")));
    let d = Poster::with_name_and_secret("carol", "s");
    assert_eq!(d.name, "carol");
    assert_eq!(d.hash, Some(clovers::tripcode::derive("s", "carol")));
}

#[test]
fn derive_is_deterministic() {
    assert_eq!(clovers::tripcode::derive("s", "bob"), clovers::tripcode::derive("s", "bob"));
    assert_eq!(clovers::tripcode::derive("", "Anonymous"), clovers::tripcode::derive("", "Anonymous"));
}

#[test]
fn derive_is_sensitive_to_secret_and_name() {
    assert_ne!(clovers::tripcode::derive("a", "bob"), clovers::tripcode::derive("b", "bob"));
    assert_ne!(clovers::tripcode::derive("s", "bob"), clovers::tripcode::derive("s", "alice"));
}

#[test]
fn derive_matches_streaming_blake2s_with_separator() {
    let expected = Blake2s256::new()
        .chain_update("s3cr3t")
        .chain_update("#clovers#")
        .chain_update("bob")
        .finalize()
        .to_vec();
    assert_eq!(clovers::tripcode::derive("s3cr3t", "bob"), expected);
    assert_eq!(expected.len(), 32);
}
