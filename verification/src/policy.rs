//! Lazy reply disclosure: small reply lists load automatically, large
//! ones wait behind a user-actuated control that shows the exact count.

use vstd::prelude::*;

verus! {

/// Largest reply count that is still loaded eagerly.
pub const LAZY_LIMIT: u64 = 4;

/// How a post's replies should be loaded when the post is rendered.
#[derive(Clone, Copy, Debug, PartialEq, Eq, Structural)]
pub enum ReplyLoad {
    /// Load the replies as soon as the post becomes visible.
    Eager,
    /// Wait for the reader to ask; the control shows the count carried here.
    Deferred(u64),
}

/// The decision `decide` makes for a given reply count.
pub open spec fn decide_spec(reply_count: u64) -> ReplyLoad {
    if reply_count > LAZY_LIMIT {
        ReplyLoad::Deferred(reply_count)
    } else {
        ReplyLoad::Eager
    }
}

/// Pick between eager and deferred loading for `reply_count` replies.
pub fn decide(reply_count: u64) -> (r: ReplyLoad)
    ensures
        r == decide_spec(reply_count),
{
    if reply_count > LAZY_LIMIT {
        ReplyLoad::Deferred(reply_count)
    } else {
        ReplyLoad::Eager
    }
}

} // verus!
