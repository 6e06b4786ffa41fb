use clovers::board::Board;
use clovers::codec::encode;
use clovers::error::BoardError;

fn post(board: &mut Board, poster: &str, content: &str, parent: Option<u64>) -> u64 {
    board
        .submit(poster, content.to_string(), parent, 0)
        .expect("parent exists")
        .expect("content is not empty")
}

#[test]
fn recent_roots_are_newest_first_and_capped_at_three() {
    let mut b = Board::new();
    let r1 = post(&mut b, "alice", "one", None);
    let r2 = post(&mut b, "alice", "two", None);
    let r3 = post(&mut b, "alice", "three", None);
    assert_eq!((r1, r2, r3), (1, 2, 3));
    assert_eq!(b.recent_roots(), vec![3, 2, 1]);
    assert_eq!(b.all_roots(), vec![3, 2, 1]);
    let r4 = post(&mut b, "alice", "four", None);
    assert_eq!(b.recent_roots(), vec![r4, 3, 2]);
    assert_eq!(b.all_roots(), vec![r4, 3, 2, 1]);
}

#[test]
fn thread_replies_are_oldest_first_and_skip_other_threads() {
    let mut b = Board::new();
    let ra = post(&mut b, "alice", "thread a", None);
    let rb = post(&mut b, "alice", "thread b", None);
    let a1 = post(&mut b, "bob", "first on a", Some(ra));
    let b1 = post(&mut b, "bob", "first on b", Some(rb));
    let a2 = post(&mut b, "bob", "second on a", Some(ra));
    assert_eq!(b.thread(ra), Ok(vec![a1, a2]));
    assert_eq!(b.thread(rb), Ok(vec![b1]));
    // Replies do not show up among roots.
    assert_eq!(b.all_roots(), vec![rb, ra]);
}

#[test]
fn thread_of_missing_id_is_not_found() {
    let mut b = Board::new();
    post(&mut b, "alice", "one", None);
    assert_eq!(b.thread(77), Err(BoardError::NotFound(77)));
}

#[test]
fn reply_to_missing_parent_is_not_found() {
    let mut b = Board::new();
    assert_eq!(b.submit("bob", "hi".to_string(), Some(9), 0), Err(BoardError::NotFound(9)));
    assert_eq!(b.all_roots(), Vec::<u64>::new());
}

#[test]
fn empty_content_is_a_silent_no_op() {
    let mut b = Board::new();
    post(&mut b, "alice", "one", None);
    assert_eq!(b.submit("bob", String::new(), None, 0), Ok(None));
    assert_eq!(b.all_roots(), vec![1]);
}

#[test]
fn reply_counts_follow_direct_replies_only() {
    let mut b = Board::new();
    let root = post(&mut b, "alice", "root", None);
    let child = post(&mut b, "bob", "child", Some(root));
    post(&mut b, "carol", "grandchild", Some(child));
    assert_eq!(b.reply_count(root), 1);
    assert_eq!(b.reply_count(child), 1);
    assert_eq!(b.reply_count(77), 0);
}

#[test]
fn deleting_a_root_cascades_over_nested_replies() {
    let mut b = Board::new();
    let r = post(&mut b, "alice", "root", None);
    let a = post(&mut b, "bob", "reply a", Some(r));
    let bb = post(&mut b, "carol", "reply b on a", Some(a));
    let other = post(&mut b, "dave", "unrelated root", None);
    let other_reply = post(&mut b, "erin", "unrelated reply", Some(other));
    assert_eq!(b.delete(r), Ok(()));
    assert!(b.find_by_id(r).is_none());
    assert!(b.find_by_id(a).is_none());
    assert!(b.find_by_id(bb).is_none());
    assert!(b.find_by_id(other).is_some());
    assert!(b.find_by_id(other_reply).is_some());
    assert_eq!(b.thread(other), Ok(vec![other_reply]));
    // Deleted ids are never reissued.
    let next = post(&mut b, "alice", "after the delete", None);
    assert_eq!(next, other_reply + 1);
}

#[test]
fn deleting_a_missing_id_is_not_found() {
    let mut b = Board::new();
    post(&mut b, "alice", "one", None);
    assert_eq!(b.delete(9), Err(BoardError::NotFound(9)));
    assert_eq!(b.all_roots(), vec![1]);
}

#[test]
fn search_by_name_and_by_claimed_identity() {
    let mut b = Board::new();
    let p1 = post(&mut b, "bob#x", "claimed x", None);
    let p2 = post(&mut b, "bob#y", "claimed y", None);
    let p3 = post(&mut b, "bob", "unclaimed", None);
    post(&mut b, "alice", "someone else", None);
    // A bare name search returns every post under that name.
    assert_eq!(b.search("bob", None), vec![p3, p2, p1]);
    // The matching digest narrows it to one claimed identity.
    let dx = clovers::tripcode::derive("x", "bob");
    assert_eq!(b.search("bob", Some(&dx)), vec![p1]);
    // A different valid digest matches nothing.
    let other = clovers::tripcode::derive("x", "alice");
    assert_eq!(b.search("bob", Some(&other)), Vec::<u64>::new());
}

#[test]
fn search_user_decodes_the_digest_or_rejects_the_request() {
    let mut b = Board::new();
    let p1 = post(&mut b, "bob#x", "claimed x", None);
    post(&mut b, "bob", "unclaimed", None);
    let encoded = encode(&clovers::tripcode::derive("x", "bob"));
    assert_eq!(b.search_user("bob", Some(&encoded)), Ok(vec![p1]));
    assert_eq!(b.search_user("bob", None), Ok(vec![2, p1]));
    assert_eq!(b.search_user("bob", Some("!!!")), Err(BoardError::InvalidEncoding));
}

#[test]
fn stored_posts_snapshot_the_parsed_identity() {
    let mut b = Board::new();
    let id = post(&mut b, "#s3cr3t", "anonymous but claimed", None);
    let stored = b.find_by_id(id).expect("stored");
    assert_eq!(stored.name, "Anonymous");
    assert_eq!(stored.hash, Some(clovers::tripcode::derive("s3cr3t", "Anonymous")));
    assert_eq!(stored.content, "anonymous but claimed");
    assert_eq!(stored.parent_post_id, None);
}
