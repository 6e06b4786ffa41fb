//! Client-visible failure conditions of the board core.

use vstd::prelude::*;

verus! {

/// Everything the core can refuse: a thread lookup for an id that no post
/// carries, or a digest parameter that is not canonical URL-safe base64.
#[derive(Clone, Copy, Debug, PartialEq, Eq, Structural)]
pub enum BoardError {
    /// No post carries the given id.
    NotFound(u64),
    /// The supplied digest text is not a canonical encoding.
    InvalidEncoding,
}

} // verus!
