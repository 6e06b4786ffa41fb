//! The identity a submission claims. The raw poster string is split at the
//! first `#`: what precedes it is the display name (empty means the default
//! name), what follows it — possibly the empty string — is a secret that is
//! consumed at once to derive a tripcode digest and never kept. Parsing is
//! total: every string, including the empty one, yields an identity.

use vstd::prelude::*;

use crate::tripcode;
use crate::tripcode::derive_spec;

verus! {

/// The display name used when the submission names none.
pub open spec fn default_name() -> Seq<char> {
    "Anonymous"@
}

/// Index of the first `#` in `s`, or `s.len()` when there is none.
pub open spec fn split_index(s: Seq<char>) -> int
    decreases s.len(),
{
    if s.len() == 0 {
        0
    } else if s[0] == '#' {
        0
    } else {
        1 + split_index(s.drop_first())
    }
}

pub proof fn lemma_split_index(s: Seq<char>)
    ensures
        0 <= split_index(s) <= s.len(),
        forall|j: int| 0 <= j < split_index(s) ==> s[j] != '#',
        split_index(s) < s.len() ==> s[split_index(s)] == '#',
    decreases s.len(),
{
    if s.len() > 0 && s[0] != '#' {
        lemma_split_index(s.drop_first());
        assert forall|j: int| 0 <= j < split_index(s) implies s[j] != '#' by {
            if j > 0 {
                assert(s.drop_first()[j - 1] != '#');
            }
        }
    }
}

/// The name part of a raw poster string: everything before the first `#`,
/// before the default is substituted.
pub open spec fn raw_name(s: Seq<char>) -> Seq<char> {
    s.subrange(0, split_index(s))
}

/// The secret part of a raw poster string: everything after the first `#`
/// (possibly empty — a secret all the same), or nothing when no `#` occurs.
pub open spec fn raw_secret(s: Seq<char>) -> Option<Seq<char>> {
    if split_index(s) < s.len() {
        Some(s.subrange(split_index(s) + 1, s.len() as int))
    } else {
        None
    }
}

/// The display name after default substitution. The substitution happens
/// before tripcode derivation, so an unnamed poster's tripcode is derived
/// from the default name, not from the empty string.
pub open spec fn parsed_name(s: Seq<char>) -> Seq<char> {
    if raw_name(s).len() == 0 {
        default_name()
    } else {
        raw_name(s)
    }
}

/// The mathematical value of a `Poster`.
pub ghost struct PosterView {
    pub name: Seq<char>,
    pub hash: Option<Seq<u8>>,
}

/// The identity `parse` yields for a raw poster string: the parsed name,
/// and a digest exactly when a secret was supplied.
pub open spec fn spec_parse(raw: Seq<char>) -> PosterView {
    PosterView {
        name: parsed_name(raw),
        hash: match raw_secret(raw) {
            Some(sec) => Some(derive_spec(sec, parsed_name(raw))),
            None => None,
        },
    }
}

/// A poster's identity at submission time: a display name and, when a
/// secret was claimed, its tripcode digest. The secret itself is gone by
/// the time a `Poster` exists.
pub struct Poster {
    pub name: String,
    pub hash: Option<Vec<u8>>,
}

impl View for Poster {
    type V = PosterView;

    open spec fn view(&self) -> PosterView {
        PosterView {
            name: self.name@,
            hash: match self.hash {
                Some(h) => Some(h@),
                None => None,
            },
        }
    }
}

impl Poster {
    /// The anonymous identity: the default name and no tripcode.
    pub fn new() -> (r: Poster)
        ensures
            r@.name == default_name(),
            r@.hash is None,
    {
        Poster::with_name("Anonymous")
    }

    /// A named identity without a tripcode.
    pub fn with_name(name: &str) -> (r: Poster)
        ensures
            r@.name == name@,
            r@.hash is None,
    {
        Poster { name: name.to_owned(), hash: None }
    }

    /// The default name claiming a secret: the tripcode is derived from
    /// the default name, since that is the name shown.
    pub fn with_secret(secret: &str) -> (r: Poster)
        ensures
            r@.name == default_name(),
            r@.hash == Some(derive_spec(secret@, default_name())),
            r@.hash matches Some(h) && h.len() == 32,
    {
        Poster::with_name_and_secret("Anonymous", secret)
    }

    /// A named identity claiming a secret.
    pub fn with_name_and_secret(name: &str, secret: &str) -> (r: Poster)
        ensures
            r@.name == name@,
            r@.hash == Some(derive_spec(secret@, name@)),
            r@.hash matches Some(h) && h.len() == 32,
    {
        let hash = tripcode::derive(secret, name);
        Poster { name: name.to_owned(), hash: Some(hash) }
    }

    /// Split a raw poster string at the first `#` and build the identity
    /// it claims. Total: never fails, whatever the input.
    pub fn parse(raw: &str) -> (r: Poster)
        ensures
            r@ == spec_parse(raw@),
            r@.hash matches Some(h) ==> h.len() == 32,
    {
        proof {
            lemma_split_index(raw@);
        }
        let n = raw.unicode_len();
        let mut i: usize = 0;
        while i < n
            invariant_except_break
                n == raw@.len(),
                0 <= i <= n,
                forall|j: int| 0 <= j < i ==> raw@[j] != '#',
            ensures
                n == raw@.len(),
                0 <= i <= n,
                forall|j: int| 0 <= j < i ==> raw@[j] != '#',
                i < n ==> raw@[i as int] == '#',
            decreases n - i,
        {
            if raw.get_char(i) == '#' {
                break ;
            }
            i = i + 1;
        }
        proof {
            lemma_split_index(raw@);
            assert(split_index(raw@) == i);
        }
        if i < n {
            let secret = raw.substring_char(i + 1, n);
            if i == 0 {
                Poster::with_secret(secret)
            } else {
                let name = raw.substring_char(0, i);
                Poster::with_name_and_secret(name, secret)
            }
        } else {
            if i == 0 {
                Poster::new()
            } else {
                proof {
                    assert(raw_name(raw@) =~= raw@);
                }
                Poster::with_name(raw)
            }
        }
    }
}

} // verus!
