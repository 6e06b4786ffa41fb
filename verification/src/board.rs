//! The post hierarchy: root posts and replies that chain back to a root,
//! held in creation order with store-assigned, strictly increasing ids.
//! The canonical queries — recent roots, all roots, a thread's replies,
//! user search, reply counts — and the cascade that deleting a post
//! triggers are all defined and verified against this model.

use vstd::prelude::*;

use crate::codec;
use crate::error::BoardError;
use crate::poster::{spec_parse, Poster};

verus! {

/// How many roots the landing page shows.
pub const RECENT_ROOTS_LIMIT: usize = 3;

/// One stored post: a snapshot of the poster's identity, the content, and
/// an optional link to the post it replies to. Immutable once created.
pub struct Post {
    pub id: u64,
    pub name: String,
    pub hash: Option<Vec<u8>>,
    pub content: String,
    pub parent_post_id: Option<u64>,
    pub created_at: u64,
}

/// The mathematical value of a `Post`.
pub ghost struct PostView {
    pub id: u64,
    pub name: Seq<char>,
    pub hash: Option<Seq<u8>>,
    pub content: Seq<char>,
    pub parent_post_id: Option<u64>,
    pub created_at: u64,
}

impl View for Post {
    type V = PostView;

    open spec fn view(&self) -> PostView {
        PostView {
            id: self.id,
            name: self.name@,
            hash: self.hash.deep_view(),
            content: self.content@,
            parent_post_id: self.parent_post_id,
            created_at: self.created_at,
        }
    }
}

impl DeepView for Post {
    type V = PostView;

    open spec fn deep_view(&self) -> PostView {
        self.view()
    }
}

/// Whether some post in `s` carries `id`.
pub open spec fn contains_id(s: Seq<PostView>, id: u64) -> bool {
    exists|i: int| 0 <= i < s.len() && s[i].id == id
}

/// The store invariant: ids are at least 1, strictly increasing in
/// creation order and all below the next id to assign (so an id is never
/// reused); every reply's parent was created before it; content is never
/// empty; a digest, when present, is 32 bytes.
pub open spec fn wf_posts(s: Seq<PostView>, next_id: u64) -> bool {
    &&& next_id >= 1
    &&& forall|i: int| 0 <= i < s.len() ==> 1 <= (#[trigger] s[i]).id < next_id
    &&& forall|i: int, j: int|
        #![trigger s[i].id, s[j].id]
        0 <= i < j < s.len() ==> s[i].id < s[j].id
    &&& forall|i: int|
        0 <= i < s.len() ==> ((#[trigger] s[i]).parent_post_id matches Some(p)
            ==> exists|j: int| 0 <= j < i && s[j].id == p)
    &&& forall|i: int| 0 <= i < s.len() ==> (#[trigger] s[i]).content.len() > 0
    &&& forall|i: int|
        0 <= i < s.len() ==> ((#[trigger] s[i]).hash matches Some(h) ==> h.len() == 32)
}

/// Ids of the root posts in `s`, newest first.
pub open spec fn roots_desc(s: Seq<PostView>) -> Seq<u64>
    decreases s.len(),
{
    if s.len() == 0 {
        Seq::empty()
    } else if s.last().parent_post_id is None {
        seq![s.last().id] + roots_desc(s.drop_last())
    } else {
        roots_desc(s.drop_last())
    }
}

/// The landing page's roots: the newest, at most `RECENT_ROOTS_LIMIT` many.
pub open spec fn recent_roots_spec(s: Seq<PostView>) -> Seq<u64> {
    let roots = roots_desc(s);
    if roots.len() <= RECENT_ROOTS_LIMIT {
        roots
    } else {
        roots.take(RECENT_ROOTS_LIMIT as int)
    }
}

/// Ids of the direct replies to post `id` in `s`, oldest first: the
/// chronological conversation order of a thread view. Roots are shown
/// newest first but replies oldest first; the asymmetry is deliberate.
pub open spec fn replies_asc(s: Seq<PostView>, id: u64) -> Seq<u64>
    decreases s.len(),
{
    if s.len() == 0 {
        Seq::empty()
    } else if s.last().parent_post_id == Some(id) {
        replies_asc(s.drop_last(), id).push(s.last().id)
    } else {
        replies_asc(s.drop_last(), id)
    }
}

/// Whether a post matches a user search: the name must agree, and, only
/// when a digest was supplied, the digest must agree as well. A bare name
/// search is deliberately ambiguous across everyone sharing the name;
/// the digest narrows it to one claimed identity.
pub open spec fn matches_search(p: PostView, name: Seq<char>, hash: Option<Seq<u8>>) -> bool {
    &&& p.name == name
    &&& (hash matches Some(h) ==> p.hash == Some(h))
}

/// Ids of the posts matching a user search, newest first.
pub open spec fn search_desc(s: Seq<PostView>, name: Seq<char>, hash: Option<Seq<u8>>) -> Seq<u64>
    decreases s.len(),
{
    if s.len() == 0 {
        Seq::empty()
    } else if matches_search(s.last(), name, hash) {
        seq![s.last().id] + search_desc(s.drop_last(), name, hash)
    } else {
        search_desc(s.drop_last(), name, hash)
    }
}

/// What the root listings hold: exactly the ids of the parentless posts.
pub proof fn lemma_roots_desc_membership(s: Seq<PostView>)
    ensures
        forall|x: u64|
            #[trigger] roots_desc(s).contains(x) <==> (exists|i: int|
                0 <= i < s.len() && s[i].id == x && s[i].parent_post_id is None),
    decreases s.len(),
{
    if s.len() > 0 {
        let prefix = s.drop_last();
        let p = s.last();
        lemma_roots_desc_membership(prefix);
        assert(forall|i: int| 0 <= i < prefix.len() ==> prefix[i] == s[i]);
        assert forall|x: u64|
            #[trigger] roots_desc(s).contains(x) <==> (exists|i: int|
                0 <= i < s.len() && s[i].id == x && s[i].parent_post_id is None) by {
            if roots_desc(s).contains(x) {
                let k = choose|k: int| 0 <= k < roots_desc(s).len() && roots_desc(s)[k] == x;
                if p.parent_post_id is None {
                    if k == 0 {
                        assert(s[s.len() - 1].id == x && s[s.len() - 1].parent_post_id is None);
                    } else {
                        assert(roots_desc(prefix)[k - 1] == x);
                        assert(roots_desc(prefix).contains(x));
                    }
                } else {
                    assert(roots_desc(prefix).contains(x));
                }
            }
            if exists|i: int| 0 <= i < s.len() && s[i].id == x && s[i].parent_post_id is None {
                let i = choose|i: int|
                    0 <= i < s.len() && s[i].id == x && s[i].parent_post_id is None;
                if i == s.len() - 1 {
                    assert(roots_desc(s)[0] == x);
                } else {
                    assert(prefix[i].id == x && prefix[i].parent_post_id is None);
                    assert(roots_desc(prefix).contains(x));
                    let k = choose|k: int|
                        0 <= k < roots_desc(prefix).len() && roots_desc(prefix)[k] == x;
                    if p.parent_post_id is None {
                        assert(roots_desc(s)[k + 1] == x);
                    } else {
                        assert(roots_desc(s)[k] == x);
                    }
                }
            }
        }
    }
}

/// Root listings are strictly newest-first: along `roots_desc` the ids
/// strictly decrease.
pub proof fn lemma_roots_desc_ordered(s: Seq<PostView>, next_id: u64)
    requires
        wf_posts(s, next_id),
    ensures
        forall|k: int, l: int|
            #![trigger roots_desc(s)[k], roots_desc(s)[l]]
            0 <= k < l < roots_desc(s).len() ==> roots_desc(s)[k] > roots_desc(s)[l],
    decreases s.len(),
{
    if s.len() > 0 {
        let prefix = s.drop_last();
        let p = s.last();
        lemma_wf_drop_last(s, next_id);
        lemma_roots_desc_ordered(prefix, next_id);
        lemma_roots_desc_membership(prefix);
        assert(forall|i: int| 0 <= i < prefix.len() ==> prefix[i] == s[i]);
        assert forall|k: int, l: int|
            #![trigger roots_desc(s)[k], roots_desc(s)[l]]
            0 <= k < l < roots_desc(s).len() implies roots_desc(s)[k] > roots_desc(s)[l] by {
            if p.parent_post_id is None {
                if k == 0 {
                    assert(roots_desc(s)[l] == roots_desc(prefix)[l - 1]);
                    assert(roots_desc(prefix).contains(roots_desc(prefix)[l - 1]));
                    let i = choose|i: int|
                        0 <= i < prefix.len() && prefix[i].id == roots_desc(prefix)[l - 1]
                            && prefix[i].parent_post_id is None;
                    assert(s[i].id < s[s.len() - 1].id);
                } else {
                    assert(roots_desc(s)[k] == roots_desc(prefix)[k - 1]);
                    assert(roots_desc(s)[l] == roots_desc(prefix)[l - 1]);
                }
            } else {
                assert(roots_desc(s)[k] == roots_desc(prefix)[k]);
                assert(roots_desc(s)[l] == roots_desc(prefix)[l]);
            }
        }
    }
}

/// What a thread view holds: exactly the ids of the direct replies.
pub proof fn lemma_replies_asc_membership(s: Seq<PostView>, id: u64)
    ensures
        forall|x: u64|
            #[trigger] replies_asc(s, id).contains(x) <==> (exists|i: int|
                0 <= i < s.len() && s[i].id == x && s[i].parent_post_id == Some(id)),
    decreases s.len(),
{
    if s.len() > 0 {
        let prefix = s.drop_last();
        let p = s.last();
        lemma_replies_asc_membership(prefix, id);
        assert(forall|i: int| 0 <= i < prefix.len() ==> prefix[i] == s[i]);
        assert forall|x: u64|
            #[trigger] replies_asc(s, id).contains(x) <==> (exists|i: int|
                0 <= i < s.len() && s[i].id == x && s[i].parent_post_id == Some(id)) by {
            let rs = replies_asc(s, id);
            let rp = replies_asc(prefix, id);
            if rs.contains(x) {
                let k = choose|k: int| 0 <= k < rs.len() && rs[k] == x;
                if p.parent_post_id == Some(id) && k == rs.len() - 1 {
                    assert(s[s.len() - 1].id == x);
                } else {
                    assert(rp[k] == x);
                    assert(rp.contains(x));
                }
            }
            if exists|i: int| 0 <= i < s.len() && s[i].id == x && s[i].parent_post_id == Some(id) {
                let i = choose|i: int|
                    0 <= i < s.len() && s[i].id == x && s[i].parent_post_id == Some(id);
                if i == s.len() - 1 {
                    assert(rs[rs.len() - 1] == x);
                } else {
                    assert(prefix[i].id == x && prefix[i].parent_post_id == Some(id));
                    assert(rp.contains(x));
                    let k = choose|k: int| 0 <= k < rp.len() && rp[k] == x;
                    assert(rs[k] == x);
                }
            }
        }
    }
}

/// Thread views are strictly oldest-first: along `replies_asc` the ids
/// strictly increase. Together with `lemma_roots_desc_ordered` this is
/// the deliberate asymmetry between root and reply listings.
pub proof fn lemma_replies_asc_ordered(s: Seq<PostView>, id: u64, next_id: u64)
    requires
        wf_posts(s, next_id),
    ensures
        forall|k: int, l: int|
            #![trigger replies_asc(s, id)[k], replies_asc(s, id)[l]]
            0 <= k < l < replies_asc(s, id).len() ==> replies_asc(s, id)[k] < replies_asc(
                s,
                id,
            )[l],
    decreases s.len(),
{
    if s.len() > 0 {
        let prefix = s.drop_last();
        let p = s.last();
        lemma_wf_drop_last(s, next_id);
        lemma_replies_asc_ordered(prefix, id, next_id);
        lemma_replies_asc_membership(prefix, id);
        assert(forall|i: int| 0 <= i < prefix.len() ==> prefix[i] == s[i]);
        let rs = replies_asc(s, id);
        let rp = replies_asc(prefix, id);
        assert forall|k: int, l: int|
            #![trigger rs[k], rs[l]]
            0 <= k < l < rs.len() implies rs[k] < rs[l] by {
            if p.parent_post_id == Some(id) && l == rs.len() - 1 {
                assert(rs[k] == rp[k]);
                assert(rp.contains(rp[k]));
                let i = choose|i: int|
                    0 <= i < prefix.len() && prefix[i].id == rp[k] && prefix[i].parent_post_id
                        == Some(id);
                assert(s[i].id < s[s.len() - 1].id);
            } else {
                assert(rs[k] == rp[k]);
                assert(rs[l] == rp[l]);
            }
        }
    }
}

/// Ids of post `root_id` together with every post that transitively
/// replies to it: the subtree a deletion cascades over. A post joins the
/// subtree when it is the root itself or replies to a post already in it;
/// parents precede their replies, so one forward pass settles membership.
pub open spec fn subtree_ids(s: Seq<PostView>, root_id: u64) -> Set<u64>
    decreases s.len(),
{
    if s.len() == 0 {
        Set::empty()
    } else {
        let prefix = subtree_ids(s.drop_last(), root_id);
        let p = s.last();
        if p.id == root_id || (p.parent_post_id matches Some(par) && prefix.contains(par)) {
            prefix.insert(p.id)
        } else {
            prefix
        }
    }
}

/// The posts left after deleting `root_id` and its reply subtree, in
/// their original order.
pub open spec fn surviving(s: Seq<PostView>, root_id: u64) -> Seq<PostView>
    decreases s.len(),
{
    if s.len() == 0 {
        s
    } else {
        let rest = surviving(s.drop_last(), root_id);
        let p = s.last();
        if p.id == root_id || (p.parent_post_id matches Some(par) && subtree_ids(
            s.drop_last(),
            root_id,
        ).contains(par)) {
            rest
        } else {
            rest.push(p)
        }
    }
}

/// Dropping the newest post preserves the store invariant.
proof fn lemma_wf_drop_last(s: Seq<PostView>, next_id: u64)
    requires
        wf_posts(s, next_id),
        s.len() > 0,
    ensures
        wf_posts(s.drop_last(), next_id),
{
    let prefix = s.drop_last();
    assert(forall|i: int| 0 <= i < prefix.len() ==> prefix[i] == s[i]);
}

/// Every id in a subtree is carried by some post.
proof fn lemma_subtree_ids_contained(s: Seq<PostView>, root_id: u64)
    ensures
        forall|x: u64| subtree_ids(s, root_id).contains(x) ==> contains_id(s, x),
    decreases s.len(),
{
    if s.len() > 0 {
        let prefix = s.drop_last();
        lemma_subtree_ids_contained(prefix, root_id);
        assert forall|x: u64| subtree_ids(s, root_id).contains(x) implies contains_id(s, x) by {
            if subtree_ids(prefix, root_id).contains(x) {
                assert(contains_id(prefix, x));
                let i = choose|i: int| 0 <= i < prefix.len() && prefix[i].id == x;
                assert(prefix[i] == s[i]);
                assert(s[i].id == x);
            } else {
                assert(s[s.len() - 1].id == x);
            }
        }
    }
}

/// The cascade invariant: deleting a post removes exactly it and its
/// transitive replies — a post survives if and only if it was stored and
/// its id is outside the deleted subtree — and the survivors, in their
/// unchanged order, still satisfy the store invariant: in particular no
/// surviving reply is left pointing at a deleted parent.
pub proof fn lemma_surviving_props(s: Seq<PostView>, root_id: u64, next_id: u64)
    requires
        wf_posts(s, next_id),
    ensures
        wf_posts(surviving(s, root_id), next_id),
        forall|x: u64|
            contains_id(surviving(s, root_id), x) <==> (contains_id(s, x) && !subtree_ids(
                s,
                root_id,
            ).contains(x)),
    decreases s.len(),
{
    let survs = surviving(s, root_id);
    let subs = subtree_ids(s, root_id);
    if s.len() == 0 {
        assert forall|x: u64| contains_id(survs, x) <==> (contains_id(s, x) && !subs.contains(
            x,
        )) by {}
    } else {
        let prefix = s.drop_last();
        let p = s.last();
        lemma_wf_drop_last(s, next_id);
        lemma_surviving_props(prefix, root_id, next_id);
        lemma_subtree_ids_contained(prefix, root_id);
        let survp = surviving(prefix, root_id);
        let subp = subtree_ids(prefix, root_id);
        assert(forall|i: int| 0 <= i < prefix.len() ==> prefix[i] == s[i]);
        // The newest post's id is fresh among the earlier ones.
        assert forall|i: int| 0 <= i < prefix.len() implies (#[trigger] prefix[i]).id != p.id by {
            assert(s[i].id < s[s.len() - 1].id);
        }
        assert(!contains_id(prefix, p.id));
        assert(!subp.contains(p.id));
        let deleted = p.id == root_id || (p.parent_post_id matches Some(par) && subp.contains(
            par,
        ));
        if deleted {
            assert(survs == survp);
            assert(subs == subp.insert(p.id));
            assert forall|x: u64| contains_id(survs, x) <==> (contains_id(s, x) && !subs.contains(
                x,
            )) by {
                if x == p.id {
                    assert(!contains_id(survp, p.id));
                    assert(subs.contains(p.id));
                } else {
                    assert(contains_id(s, x) <==> contains_id(prefix, x)) by {
                        if contains_id(s, x) {
                            let i = choose|i: int| 0 <= i < s.len() && s[i].id == x;
                            assert(i < prefix.len() && prefix[i].id == x);
                        }
                        if contains_id(prefix, x) {
                            let i = choose|i: int| 0 <= i < prefix.len() && prefix[i].id == x;
                            assert(s[i].id == x);
                        }
                    }
                    assert(subs.contains(x) == subp.contains(x));
                }
            }
        } else {
            assert(survs == survp.push(p));
            assert(subs == subp);
            // Every earlier survivor keeps an id below the newest post's.
            assert forall|k: int| 0 <= k < survp.len() implies (#[trigger] survp[k]).id < p.id by {
                assert(contains_id(survp, survp[k].id));
                assert(contains_id(prefix, survp[k].id));
                let i = choose|i: int| 0 <= i < prefix.len() && prefix[i].id == survp[k].id;
                assert(s[i].id < s[s.len() - 1].id);
            }
            assert forall|k: int| 0 <= k < survs.len() implies 1 <= (#[trigger] survs[k]).id
                < next_id by {
                if k < survp.len() {
                    assert(survs[k] == survp[k]);
                } else {
                    assert(survs[k] == p);
                    assert(s[s.len() - 1].id >= 1);
                }
            }
            assert forall|k: int, l: int|
                #![trigger survs[k].id, survs[l].id]
                0 <= k < l < survs.len() implies survs[k].id < survs[l].id by {
                if l < survp.len() {
                    assert(survp[k].id < survp[l].id);
                } else {
                    assert(survs[k] == survp[k]);
                    assert(survs[l] == p);
                }
            }
            assert forall|k: int|
                0 <= k < survs.len() implies ((#[trigger] survs[k]).parent_post_id matches Some(
                par,
            ) ==> exists|j: int| 0 <= j < k && survs[j].id == par) by {
                if k < survp.len() {
                    assert(survs[k] == survp[k]);
                    if let Some(par) = survp[k].parent_post_id {
                        let j = choose|j: int| 0 <= j < k && survp[j].id == par;
                        assert(survs[j].id == par);
                    }
                } else {
                    assert(survs[k] == p);
                    if let Some(par) = p.parent_post_id {
                        assert(!subp.contains(par));
                        assert(exists|j: int| 0 <= j < s.len() - 1 && s[j].id == par);
                        assert(contains_id(prefix, par));
                        assert(contains_id(survp, par));
                        let j = choose|j: int| 0 <= j < survp.len() && survp[j].id == par;
                        assert(survs[j].id == par);
                    }
                }
            }
            assert forall|k: int| 0 <= k < survs.len() implies (#[trigger] survs[k]).content.len()
                > 0 by {
                if k < survp.len() {
                    assert(survs[k] == survp[k]);
                } else {
                    assert(survs[k] == p);
                    assert(s[s.len() - 1].content.len() > 0);
                }
            }
            assert forall|k: int|
                0 <= k < survs.len() implies ((#[trigger] survs[k]).hash matches Some(h)
                ==> h.len() == 32) by {
                if k < survp.len() {
                    assert(survs[k] == survp[k]);
                } else {
                    assert(survs[k] == p);
                    assert(s[s.len() - 1].hash matches Some(h) ==> h.len() == 32);
                }
            }
            assert(wf_posts(survs, next_id));
            assert forall|x: u64| contains_id(survs, x) <==> (contains_id(s, x) && !subs.contains(
                x,
            )) by {
                if x == p.id {
                    assert(survs[survs.len() - 1].id == x);
                    assert(contains_id(survs, x));
                    assert(s[s.len() - 1].id == x);
                    assert(!subs.contains(x));
                } else {
                    assert(contains_id(survs, x) <==> contains_id(survp, x)) by {
                        if contains_id(survs, x) {
                            let k = choose|k: int| 0 <= k < survs.len() && survs[k].id == x;
                            assert(k < survp.len() && survp[k].id == x);
                        }
                        if contains_id(survp, x) {
                            let k = choose|k: int| 0 <= k < survp.len() && survp[k].id == x;
                            assert(survs[k].id == x);
                        }
                    }
                    assert(contains_id(s, x) <==> contains_id(prefix, x)) by {
                        if contains_id(s, x) {
                            let i = choose|i: int| 0 <= i < s.len() && s[i].id == x;
                            assert(i < prefix.len() && prefix[i].id == x);
                        }
                        if contains_id(prefix, x) {
                            let i = choose|i: int| 0 <= i < prefix.len() && prefix[i].id == x;
                            assert(s[i].id == x);
                        }
                    }
                }
            }
        }
    }
}

fn contains_u64(v: &Vec<u64>, x: u64) -> (r: bool)
    ensures
        r == v@.contains(x),
{
    let n = v.len();
    let mut i: usize = 0;
    while i < n
        invariant
            n == v@.len(),
            0 <= i <= n,
            forall|j: int| 0 <= j < i ==> v@[j] != x,
        decreases n - i,
    {
        if v[i] == x {
            return true;
        }
        i = i + 1;
    }
    false
}

fn bytes_equal(a: &[u8], b: &[u8]) -> (r: bool)
    ensures
        r == (a@ == b@),
{
    let n = a.len();
    if n != b.len() {
        return false;
    }
    let mut i: usize = 0;
    while i < n
        invariant
            n == a@.len(),
            n == b@.len(),
            0 <= i <= n,
            forall|j: int| 0 <= j < i ==> a@[j] == b@[j],
        decreases n - i,
    {
        if a[i] != b[i] {
            return false;
        }
        i = i + 1;
    }
    proof {
        assert(a@ =~= b@);
    }
    true
}

fn str_equal(a: &str, b: &str) -> (r: bool)
    ensures
        r == (a@ == b@),
{
    let r = bytes_equal(a.as_bytes(), b.as_bytes());
    proof {
        if vstd::utf8::encode_utf8(a@) == vstd::utf8::encode_utf8(b@) {
            vstd::utf8::encode_utf8_decode_utf8(a@);
            vstd::utf8::encode_utf8_decode_utf8(b@);
        }
    }
    r
}

/// The post store model. What the surrounding application persists is
/// exactly this, post for post and in this order.
pub struct Board {
    posts: Vec<Post>,
    next_id: u64,
}

impl View for Board {
    type V = Seq<PostView>;

    closed spec fn view(&self) -> Seq<PostView> {
        self.posts.deep_view()
    }
}

impl Board {
    /// The id the next insertion will be assigned.
    pub closed spec fn spec_next_id(&self) -> u64 {
        self.next_id
    }

    pub open spec fn wf(&self) -> bool {
        wf_posts(self@, self.spec_next_id())
    }

    /// The id the next stored post will receive.
    pub fn next_id(&self) -> (r: u64)
        ensures
            r == self.spec_next_id(),
    {
        self.next_id
    }

    /// How many posts are stored.
    pub fn len(&self) -> (r: usize)
        ensures
            r == self@.len(),
    {
        self.posts.len()
    }

    /// An empty board; ids start at 1.
    pub fn new() -> (r: Board)
        ensures
            r@ == Seq::<PostView>::empty(),
            r.wf(),
            r.spec_next_id() == 1,
    {
        let r = Board { posts: Vec::new(), next_id: 1 };
        proof {
            assert(r@ =~= Seq::<PostView>::empty());
        }
        r
    }

    /// Whether some stored post carries `id`.
    pub fn contains_post_id(&self, id: u64) -> (r: bool)
        ensures
            r == contains_id(self@, id),
    {
        let n = self.posts.len();
        let mut i: usize = 0;
        while i < n
            invariant
                n == self.posts@.len(),
                self@.len() == n,
                0 <= i <= n,
                forall|j: int| 0 <= j < i ==> self@[j].id != id,
                forall|j: int| 0 <= j < n ==> self@[j] == self.posts@[j]@,
            decreases n - i,
        {
            if self.posts[i].id == id {
                proof {
                    assert(self@[i as int].id == id);
                }
                return true;
            }
            i = i + 1;
        }
        false
    }

    /// Ids of all root posts, newest first: the index view.
    pub fn all_roots(&self) -> (r: Vec<u64>)
        ensures
            r@ == roots_desc(self@),
    {
        let n = self.posts.len();
        let mut r: Vec<u64> = Vec::new();
        let mut i: usize = n;
        proof {
            assert(self@.take(n as int) =~= self@);
        }
        while i > 0
            invariant
                n == self.posts@.len(),
                self@.len() == n,
                0 <= i <= n,
                forall|j: int| 0 <= j < n ==> self@[j] == self.posts@[j]@,
                roots_desc(self@) =~= r@ + roots_desc(self@.take(i as int)),
            decreases i,
        {
            i = i - 1;
            proof {
                assert(self@.take(i + 1 as int).drop_last() =~= self@.take(i as int));
                assert(self@.take(i + 1 as int).last() == self@[i as int]);
            }
            if self.posts[i].parent_post_id.is_none() {
                r.push(self.posts[i].id);
                proof {
                    assert(roots_desc(self@.take(i + 1 as int)) =~= seq![self@[i as int].id]
                        + roots_desc(self@.take(i as int)));
                    assert(r@ + roots_desc(self@.take(i as int)) =~= roots_desc(self@));
                }
            }
        }
        proof {
            assert(self@.take(0) =~= Seq::<PostView>::empty());
            assert(r@ =~= roots_desc(self@));
        }
        r
    }

    /// The newest roots for the landing page, at most `RECENT_ROOTS_LIMIT`.
    pub fn recent_roots(&self) -> (r: Vec<u64>)
        ensures
            r@ == recent_roots_spec(self@),
    {
        let mut r = self.all_roots();
        r.truncate(RECENT_ROOTS_LIMIT);
        proof {
            if roots_desc(self@).len() > RECENT_ROOTS_LIMIT {
                assert(r@ =~= roots_desc(self@).take(RECENT_ROOTS_LIMIT as int));
            }
        }
        r
    }

    /// Ids of the direct replies to post `id`, oldest first.
    pub fn replies(&self, id: u64) -> (r: Vec<u64>)
        ensures
            r@ == replies_asc(self@, id),
    {
        let n = self.posts.len();
        let mut r: Vec<u64> = Vec::new();
        let mut i: usize = 0;
        proof {
            assert(self@.take(0) =~= Seq::<PostView>::empty());
        }
        while i < n
            invariant
                n == self.posts@.len(),
                self@.len() == n,
                0 <= i <= n,
                forall|j: int| 0 <= j < n ==> self@[j] == self.posts@[j]@,
                r@ =~= replies_asc(self@.take(i as int), id),
            decreases n - i,
        {
            proof {
                assert(self@.take(i + 1 as int).drop_last() =~= self@.take(i as int));
                assert(self@.take(i + 1 as int).last() == self@[i as int]);
            }
            let parent = self.posts[i].parent_post_id;
            if parent.is_some() && parent.unwrap() == id {
                r.push(self.posts[i].id);
            }
            i = i + 1;
        }
        proof {
            assert(self@.take(n as int) =~= self@);
        }
        r
    }

    /// How many direct replies post `id` has.
    pub fn reply_count(&self, id: u64) -> (r: u64)
        ensures
            r == replies_asc(self@, id).len(),
    {
        let replies = self.replies(id);
        replies.len() as u64
    }

    /// The loading decision a thread view makes for post `id`: eager for
    /// small reply lists, deferred behind a control that shows the exact
    /// count once the count exceeds the threshold.
    pub fn reply_load(&self, id: u64) -> (r: crate::policy::ReplyLoad)
        ensures
            r == crate::policy::decide_spec(replies_asc(self@, id).len() as u64),
    {
        crate::policy::decide(self.reply_count(id))
    }

    /// The post carrying `id`, if any. With a well-formed board at most
    /// one post qualifies.
    pub fn find_by_id(&self, id: u64) -> (r: Option<&Post>)
        ensures
            (match r {
                Some(p) => {
                    &&& contains_id(self@, id)
                    &&& p@.id == id
                    &&& exists|i: int| 0 <= i < self@.len() && self@[i] == p@
                },
                None => !contains_id(self@, id),
            }),
    {
        let n = self.posts.len();
        let mut i: usize = 0;
        while i < n
            invariant
                n == self.posts@.len(),
                self@.len() == n,
                0 <= i <= n,
                forall|j: int| 0 <= j < i ==> self@[j].id != id,
                forall|j: int| 0 <= j < n ==> self@[j] == self.posts@[j]@,
            decreases n - i,
        {
            if self.posts[i].id == id {
                proof {
                    assert(self@[i as int].id == id);
                }
                return Some(&self.posts[i]);
            }
            i = i + 1;
        }
        None
    }

    /// The thread view for post `id`: its direct replies, oldest first,
    /// or `NotFound` when no post carries `id`.
    pub fn thread(&self, id: u64) -> (r: Result<Vec<u64>, BoardError>)
        ensures
            contains_id(self@, id) ==> (r matches Ok(v) && v@ == replies_asc(self@, id)),
            !contains_id(self@, id) ==> r == Err::<Vec<u64>, BoardError>(BoardError::NotFound(id)),
    {
        if !self.contains_post_id(id) {
            return Err(BoardError::NotFound(id));
        }
        Ok(self.replies(id))
    }

    /// Ids of the posts by `name`, newest first; when a digest is given,
    /// only posts claiming exactly that identity.
    pub fn search(&self, name: &str, hash: Option<&Vec<u8>>) -> (r: Vec<u64>)
        ensures
            hash is None ==> r@ == search_desc(self@, name@, None),
            hash matches Some(h) ==> r@ == search_desc(self@, name@, Some(h@)),
    {
        let ghost target: Option<Seq<u8>> = (match hash {
            Some(h) => Some(h@),
            None => None,
        });
        let n = self.posts.len();
        let mut r: Vec<u64> = Vec::new();
        let mut i: usize = n;
        proof {
            assert(self@.take(n as int) =~= self@);
        }
        while i > 0
            invariant
                n == self.posts@.len(),
                self@.len() == n,
                0 <= i <= n,
                forall|j: int| 0 <= j < n ==> self@[j] == self.posts@[j]@,
                target == (match hash {
                    Some(h) => Some(h@),
                    None => None,
                }),
                search_desc(self@, name@, target) =~= r@ + search_desc(
                    self@.take(i as int),
                    name@,
                    target,
                ),
            decreases i,
        {
            i = i - 1;
            proof {
                assert(self@.take(i + 1 as int).drop_last() =~= self@.take(i as int));
                assert(self@.take(i + 1 as int).last() == self@[i as int]);
            }
            let p = &self.posts[i];
            proof {
                assert(p@ == self@[i as int]);
            }
            let name_matches = str_equal(p.name.as_str(), name);
            let hash_matches = match hash {
                None => true,
                Some(h) => match &p.hash {
                    Some(ph) => bytes_equal(ph.as_slice(), h.as_slice()),
                    None => false,
                },
            };
            proof {
                if let Some(ph) = &p.hash {
                    assert(ph.deep_view() =~= ph@);
                }
            }
            if name_matches && hash_matches {
                r.push(p.id);
                proof {
                    assert(matches_search(self@[i as int], name@, target));
                    assert(search_desc(self@.take(i + 1 as int), name@, target) =~= seq![
                        self@[i as int].id,
                    ] + search_desc(self@.take(i as int), name@, target));
                    assert(r@ + search_desc(self@.take(i as int), name@, target) =~= search_desc(
                        self@,
                        name@,
                        target,
                    ));
                }
            } else {
                proof {
                    assert(!matches_search(self@[i as int], name@, target));
                }
            }
        }
        proof {
            assert(self@.take(0) =~= Seq::<PostView>::empty());
            assert(r@ =~= search_desc(self@, name@, target));
        }
        r
    }

    /// A user search as the request hands it over: the digest, when
    /// supplied, arrives in its encoded text form and must decode, or the
    /// search is rejected without touching the store.
    pub fn search_user(&self, name: &str, encoded_hash: Option<&str>) -> (r: Result<
        Vec<u64>,
        BoardError,
    >)
        ensures
            encoded_hash is None ==> (r matches Ok(v) && v@ == search_desc(self@, name@, None)),
            (match encoded_hash {
                Some(t) => {
                    &&& (forall|b: Seq<u8>| t@ != codec::b64url_encode(b)) ==> r == Err::<
                        Vec<u64>,
                        BoardError,
                    >(BoardError::InvalidEncoding)
                    &&& forall|b: Seq<u8>|
                        t@ == codec::b64url_encode(b) ==> (r matches Ok(v) && v@ == search_desc(
                            self@,
                            name@,
                            Some(b),
                        ))
                },
                None => true,
            }),
    {
        match encoded_hash {
            None => Ok(self.search(name, None)),
            Some(t) => match codec::decode(t) {
                Ok(bytes) => Ok(self.search(name, Some(&bytes))),
                Err(_) => Err(BoardError::InvalidEncoding),
            },
        }
    }

    /// Store a post. Fails only when the named parent does not exist; on
    /// success the post is appended with the next id, and that id — which
    /// no post has ever carried — is returned.
    pub fn insert(
        &mut self,
        name: String,
        hash: Option<Vec<u8>>,
        content: String,
        parent_post_id: Option<u64>,
        created_at: u64,
    ) -> (r: Result<u64, BoardError>)
        requires
            old(self).wf(),
            old(self).spec_next_id() < u64::MAX,
            content@.len() > 0,
            hash matches Some(h) ==> h@.len() == 32,
        ensures
            final(self).wf(),
            (match parent_post_id {
                Some(p) => !contains_id(old(self)@, p) ==> {
                    &&& r == Err::<u64, BoardError>(BoardError::NotFound(p))
                    &&& final(self)@ == old(self)@
                    &&& final(self).spec_next_id() == old(self).spec_next_id()
                },
                None => true,
            }),
            (match parent_post_id {
                Some(p) => contains_id(old(self)@, p),
                None => true,
            }) ==> {
                &&& r == Ok::<u64, BoardError>(old(self).spec_next_id())
                &&& !contains_id(old(self)@, old(self).spec_next_id())
                &&& final(self)@ == old(self)@.push(
                    (PostView {
                        id: old(self).spec_next_id(),
                        name: name@,
                        hash: hash.deep_view(),
                        content: content@,
                        parent_post_id: parent_post_id,
                        created_at: created_at,
                    }),
                )
                &&& final(self).spec_next_id() == old(self).spec_next_id() + 1
            },
    {
        if let Some(p) = parent_post_id {
            if !self.contains_post_id(p) {
                return Err(BoardError::NotFound(p));
            }
        }
        let id = self.next_id;
        let post = Post { id, name, hash, content, parent_post_id, created_at };
        let ghost pushed = post@;
        self.posts.push(post);
        self.next_id = self.next_id + 1;
        proof {
            let s = self@;
            let prev = old(self)@;
            assert(s =~= prev.push(pushed));
            assert forall|i: int| 0 <= i < s.len() implies 1 <= (#[trigger] s[i]).id
                < self.next_id by {
                if i < prev.len() {
                    assert(s[i] == prev[i]);
                }
            }
            assert forall|i: int, j: int|
                #![trigger s[i].id, s[j].id]
                0 <= i < j < s.len() implies s[i].id < s[j].id by {
                if j < prev.len() {
                    assert(prev[i].id < prev[j].id);
                } else {
                    assert(s[i] == prev[i]);
                    assert(prev[i].id < id);
                }
            }
            assert forall|i: int|
                0 <= i < s.len() implies ((#[trigger] s[i]).parent_post_id matches Some(p)
                ==> exists|j: int| 0 <= j < i && s[j].id == p) by {
                if i < prev.len() {
                    assert(s[i] == prev[i]);
                    if let Some(p) = prev[i].parent_post_id {
                        let j = choose|j: int| 0 <= j < i && prev[j].id == p;
                        assert(s[j].id == p);
                    }
                } else {
                    if let Some(p) = pushed.parent_post_id {
                        let j = choose|j: int| 0 <= j < prev.len() && prev[j].id == p;
                        assert(s[j].id == p);
                    }
                }
            }
            assert(self.wf());
        }
        Ok(id)
    }

    /// The whole submission path in one step: empty content is a silent
    /// no-op, anything else is parsed for an identity — deriving a
    /// tripcode when a secret was claimed — and stored.
    pub fn submit(
        &mut self,
        raw_poster: &str,
        content: String,
        parent_post_id: Option<u64>,
        created_at: u64,
    ) -> (r: Result<Option<u64>, BoardError>)
        requires
            old(self).wf(),
            old(self).spec_next_id() < u64::MAX,
        ensures
            final(self).wf(),
            content@.len() == 0 ==> {
                &&& r == Ok::<Option<u64>, BoardError>(None)
                &&& final(self)@ == old(self)@
                &&& final(self).spec_next_id() == old(self).spec_next_id()
            },
            content@.len() > 0 ==> (match parent_post_id {
                Some(p) => !contains_id(old(self)@, p) ==> {
                    &&& r == Err::<Option<u64>, BoardError>(BoardError::NotFound(p))
                    &&& final(self)@ == old(self)@
                    &&& final(self).spec_next_id() == old(self).spec_next_id()
                },
                None => true,
            }),
            content@.len() > 0 && (match parent_post_id {
                Some(p) => contains_id(old(self)@, p),
                None => true,
            }) ==> {
                &&& r == Ok::<Option<u64>, BoardError>(Some(old(self).spec_next_id()))
                &&& final(self)@ == old(self)@.push(
                    (PostView {
                        id: old(self).spec_next_id(),
                        name: spec_parse(raw_poster@).name,
                        hash: spec_parse(raw_poster@).hash,
                        content: content@,
                        parent_post_id: parent_post_id,
                        created_at: created_at,
                    }),
                )
                &&& final(self).spec_next_id() == old(self).spec_next_id() + 1
            },
    {
        if content.as_str().is_empty() {
            return Ok(None);
        }
        let poster = Poster::parse(raw_poster);
        let Poster { name, hash } = poster;
        proof {
            if let Some(h) = &hash {
                assert(h.deep_view() =~= h@);
            }
            assert(hash.deep_view() == spec_parse(raw_poster@).hash);
        }
        match self.insert(name, hash, content, parent_post_id, created_at) {
            Ok(id) => Ok(Some(id)),
            Err(e) => Err(e),
        }
    }

    /// Delete post `id` and, by cascade, its whole reply subtree: the
    /// survivors are exactly the posts outside the subtree, in unchanged
    /// order, and the next id never moves backwards, so deleted ids are
    /// never reissued.
    pub fn delete(&mut self, id: u64) -> (r: Result<(), BoardError>)
        requires
            old(self).wf(),
        ensures
            final(self).wf(),
            final(self).spec_next_id() == old(self).spec_next_id(),
            contains_id(old(self)@, id) ==> r == Ok::<(), BoardError>(()) && final(self)@
                == surviving(old(self)@, id),
            !contains_id(old(self)@, id) ==> r == Err::<(), BoardError>(BoardError::NotFound(id))
                && final(self)@ == old(self)@,
    {
        if !self.contains_post_id(id) {
            return Err(BoardError::NotFound(id));
        }
        let ghost s0 = self@;
        let mut old_posts: Vec<Post> = Vec::new();
        core::mem::swap(&mut self.posts, &mut old_posts);
        let n = old_posts.len();
        let mut kept: Vec<Post> = Vec::new();
        let mut removed: Vec<u64> = Vec::new();
        let mut i: usize = 0;
        proof {
            assert(old_posts.deep_view() =~= s0.skip(0));
            assert(kept.deep_view() =~= surviving(s0.take(0), id));
            assert(s0.take(0) =~= Seq::<PostView>::empty());
        }
        while i < n
            invariant
                n == s0.len(),
                0 <= i <= n,
                old_posts@.len() == n - i,
                old_posts.deep_view() =~= s0.skip(i as int),
                kept.deep_view() =~= surviving(s0.take(i as int), id),
                forall|x: u64|
                    removed@.contains(x) <==> subtree_ids(s0.take(i as int), id).contains(x),
            decreases n - i,
        {
            let ghost prev_op = old_posts.deep_view();
            let p = old_posts.remove(0);
            proof {
                assert(old_posts.deep_view() =~= prev_op.remove(0));
                assert(old_posts.deep_view() =~= s0.skip(i + 1 as int));
                assert(p@ == prev_op[0]);
                assert(p@ == s0[i as int]);
                assert(s0.take(i + 1 as int).drop_last() =~= s0.take(i as int));
                assert(s0.take(i + 1 as int).last() == s0[i as int]);
            }
            let in_subtree = if p.id == id {
                true
            } else {
                match p.parent_post_id {
                    Some(par) => contains_u64(&removed, par),
                    None => false,
                }
            };
            if in_subtree {
                let ghost prev_removed = removed@;
                removed.push(p.id);
                proof {
                    assert(subtree_ids(s0.take(i + 1 as int), id) =~= subtree_ids(
                        s0.take(i as int),
                        id,
                    ).insert(p@.id));
                    assert(surviving(s0.take(i + 1 as int), id) == surviving(s0.take(i as int), id));
                    assert forall|x: u64|
                        removed@.contains(x) <==> subtree_ids(
                            s0.take(i + 1 as int),
                            id,
                        ).contains(x) by {
                        assert(removed@ == prev_removed.push(p@.id));
                        if x == p@.id {
                            assert(removed@[removed@.len() - 1] == x);
                        } else {
                            if removed@.contains(x) {
                                let k = choose|k: int| 0 <= k < removed@.len() && removed@[k] == x;
                                assert(prev_removed[k] == x);
                            }
                            if prev_removed.contains(x) {
                                let k = choose|k: int|
                                    0 <= k < prev_removed.len() && prev_removed[k] == x;
                                assert(removed@[k] == x);
                            }
                        }
                    }
                }
            } else {
                let ghost prev_kept = kept.deep_view();
                kept.push(p);
                proof {
                    assert(kept.deep_view() =~= prev_kept.push(s0[i as int]));
                    assert(surviving(s0.take(i + 1 as int), id) == surviving(
                        s0.take(i as int),
                        id,
                    ).push(s0[i as int]));
                    assert(subtree_ids(s0.take(i + 1 as int), id) == subtree_ids(
                        s0.take(i as int),
                        id,
                    ));
                }
            }
            i = i + 1;
        }
        self.posts = kept;
        proof {
            assert(s0.take(n as int) =~= s0);
            assert(self@ == surviving(s0, id));
            lemma_surviving_props(s0, id, self.next_id);
        }
        Ok(())
    }
}

} // verus!
