use clovers::board::Board;
use clovers::policy::{decide, ReplyLoad, LAZY_LIMIT};

#[test]
fn at_the_threshold_replies_load_eagerly() {
    assert_eq!(decide(4), ReplyLoad::Eager);
}

#[test]
fn above_the_threshold_loading_is_deferred_with_the_exact_count() {
    assert_eq!(decide(5), ReplyLoad::Deferred(5));
    assert_eq!(decide(1000), ReplyLoad::Deferred(1000));
}

#[test]
fn small_counts_load_eagerly() {
    assert_eq!(decide(0), ReplyLoad::Eager);
    assert_eq!(decide(1), ReplyLoad::Eager);
    assert_eq!(LAZY_LIMIT, 4);
}

#[test]
fn reply_load_follows_the_stored_reply_count() {
    let mut b = Board::new();
    let root = b.submit("alice", "root".to_string(), None, 0).unwrap().unwrap();
    for i in 0..4u64 {
        b.submit("bob", format!("reply {}", i), Some(root), i).unwrap().unwrap();
    }
    assert_eq!(b.reply_load(root), ReplyLoad::Eager);
    b.submit("bob", "one more".to_string(), Some(root), 9).unwrap().unwrap();
    assert_eq!(b.reply_load(root), ReplyLoad::Deferred(5));
}
