//! The web session: what one authenticated HTTP session knows of its user,
//! request routing by path, the canonical-path guard that blocks
//! path-injection, and the text form of a static asset's URL.

use vstd::prelude::*;

verus! {

use vstd::string::StringExecFns;
use vstd::string::StrSliceExecFns;
use crate::identity::{hex_of, hex_encode};

/// One web session's view of its user: whether the write permission (bit
/// zero of the permission set) is granted, and the user's identity id as
/// hexadecimal text, where one is known.
pub struct WebSession {
    pub can_write: bool,
    pub identity_id: Option<String>,
}

impl WebSession {
    pub fn new(permissions: &Vec<bool>, identity_id: Option<&[u8]>) -> (r: WebSession)
        ensures
            r.can_write == (permissions@.len() > 0 && permissions@[0]),
            identity_id is None ==> r.identity_id is None,
            identity_id matches Some(id) ==> (r.identity_id matches Some(s) && s@ == hex_of(id@)),
    {
        let can_write = permissions.len() > 0 && permissions[0];
        let identity_id = match identity_id {
            None => None,
            Some(id) => Some(hex_encode(id)),
        };
        WebSession { can_write, identity_id }
    }
}

/// Relies on str's equality: true exactly when the two texts hold the
/// same characters.
#[verifier::external_body]
pub(crate) fn str_eq(a: &str, b: &str) -> (r: bool)
    ensures
        r == (a@ == b@),
{
    a == b
}

pub open spec fn is_dot(c: Seq<char>) -> bool {
    c.len() == 1 && c[0] == '.'
}

pub open spec fn is_dot_dot(c: Seq<char>) -> bool {
    c.len() == 2 && c[0] == '.' && c[1] == '.'
}

/// Scanning the rest of a path, `idx` components already closed and `cur`
/// the open component: every component closed by a slash must be neither
/// `.` nor `..` nor empty (a leading empty component excepted), and the
/// final component must be neither `.` nor `..` (an empty final component
/// is a trailing slash and allowed).
pub open spec fn canonical_from(s: Seq<char>, idx: int, cur: Seq<char>) -> bool
    decreases s.len(),
{
    if s.len() == 0 {
        !is_dot(cur) && !is_dot_dot(cur)
    } else if s[0] == '/' {
        &&& !is_dot(cur)
        &&& !is_dot_dot(cur)
        &&& !(cur.len() == 0 && idx > 0)
        &&& canonical_from(s.skip(1), idx + 1, Seq::empty())
    } else {
        canonical_from(s.skip(1), idx, cur.push(s[0]))
    }
}

/// A path is canonical when none of its slash-separated components is `.`,
/// `..`, or empty other than at the very start or very end.
pub open spec fn is_canonical_path(s: Seq<char>) -> bool {
    canonical_from(s, 0, Seq::empty())
}

/// Reject a request path that could escape its directory: no `.` or `..`
/// components and no consecutive slashes.
pub fn require_canonical_path(path: &str) -> (r: Result<(), String>)
    ensures
        r is Ok <==> is_canonical_path(path@),
{
    let n = path.unicode_len();
    let mut i: usize = 0;
    let mut idx: u64 = 0;
    let mut cur_len: u64 = 0;
    let mut dots_only: bool = true;
    let ghost mut cur: Seq<char> = Seq::empty();
    proof {
        assert(path@.skip(0) =~= path@);
    }
    while i < n
        invariant
            n == path@.len(),
            i <= n,
            cur_len == cur.len(),
            dots_only == (forall|k: int| 0 <= k < cur.len() ==> cur[k] == '.'),
            idx <= i,
            cur_len <= i,
            is_canonical_path(path@) == canonical_from(path@.skip(i as int), idx as int, cur),
        decreases n - i,
    {
        let c = path.get_char(i);
        proof {
            assert(path@.skip(i as int)[0] == path@[i as int]);
            assert(path@.skip(i as int).skip(1) =~= path@.skip(i as int + 1));
        }
        if c == '/' {
            let bad_dot = dots_only && (cur_len == 1 || cur_len == 2);
            let bad_empty = cur_len == 0 && idx > 0;
            if bad_dot || bad_empty {
                proof {
                    if cur_len == 1 {
                        assert(cur =~= seq!['.']);
                    }
                    if cur_len == 2 {
                        assert(cur =~= seq!['.', '.']);
                    }
                }
                return Err(String::from_str("non-canonical path"));
            }
            proof {
                assert(!is_dot(cur) && !is_dot_dot(cur));
            }
            idx = idx + 1;
            cur_len = 0;
            dots_only = true;
            proof {
                cur = Seq::empty();
            }
        } else {
            let ghost prev: Seq<char> = cur;
            let prev_dots = dots_only;
            cur_len = cur_len + 1;
            dots_only = dots_only && c == '.';
            proof {
                cur = cur.push(c);
                if prev_dots && c == '.' {
                    assert(forall|k: int| 0 <= k < cur.len() ==> cur[k] == '.');
                } else {
                    if prev_dots {
                        assert(cur[cur.len() - 1] == c);
                    } else {
                        let k = choose|k: int| 0 <= k < prev.len() && prev[k] != '.';
                        assert(cur[k] == prev[k]);
                    }
                }
            }
        }
        i = i + 1;
    }
    proof {
        assert(path@.skip(n as int) =~= Seq::<char>::empty());
    }
    let bad_dot = dots_only && (cur_len == 1 || cur_len == 2);
    if bad_dot {
        proof {
            if cur_len == 1 {
                assert(cur =~= seq!['.']);
            }
            if cur_len == 2 {
                assert(cur =~= seq!['.', '.']);
            }
        }
        Err(String::from_str("non-canonical path"))
    } else {
        proof {
            assert(!is_dot(cur) && !is_dot_dot(cur));
        }
        Ok(())
    }
}

/// Whether `p` is a prefix of `s`.
pub open spec fn has_prefix(s: Seq<char>, p: Seq<char>) -> bool {
    s.len() >= p.len() && s.take(p.len() as int) == p
}

/// Whether `s` starts with the characters of `p`.
fn char_prefix(s: &str, p: &str) -> (r: bool)
    ensures
        r == has_prefix(s@, p@),
{
    let n = s.unicode_len();
    let m = p.unicode_len();
    if n < m {
        assert(!has_prefix(s@, p@));
        return false;
    }
    let mut i: usize = 0;
    while i < m
        invariant
            m <= n,
            n == s@.len(),
            m == p@.len(),
            i <= m,
            forall|k: int| 0 <= k < i ==> s@[k] == p@[k],
        decreases m - i,
    {
        if s.get_char(i) != p.get_char(i) {
            assert(s@.take(m as int)[i as int] != p@[i as int]);
            return false;
        }
        i = i + 1;
    }
    assert(s@.take(m as int) =~= p@);
    true
}

/// Where a read request goes: the landing page, one of the two static
/// assets, or nowhere.
#[derive(Clone, Copy, Debug, PartialEq, Eq, Structural)]
pub enum GetRoute {
    Home,
    Script,
    Style,
    NotFound,
}

pub open spec fn spec_route_get(s: Seq<char>) -> GetRoute {
    if s == Seq::<char>::empty() {
        GetRoute::Home
    } else if s == "script.js"@ {
        GetRoute::Script
    } else if s == "style.css"@ {
        GetRoute::Style
    } else {
        GetRoute::NotFound
    }
}

/// Dispatch a read request by its path.
pub fn route_get(path: &str) -> (r: GetRoute)
    ensures
        r == spec_route_get(path@),
{
    if path.unicode_len() == 0 {
        assert(path@ =~= Seq::<char>::empty());
        GetRoute::Home
    } else if str_eq(path, "script.js") {
        GetRoute::Script
    } else if str_eq(path, "style.css") {
        GetRoute::Style
    } else {
        assert(path@.len() != 0);
        GetRoute::NotFound
    }
}

/// Where a write request goes: receiving a request token, offering a saved
/// view, refreshing its view info, or nowhere.  The carried text is what
/// follows the prefix.
#[derive(Debug)]
pub enum PostRoute {
    Token(String),
    Offer(String),
    Refresh(String),
    NotFound,
}

/// The abstract value of a write route.
#[verifier::ext_equal]
pub enum PostRouteV {
    Token(Seq<char>),
    Offer(Seq<char>),
    Refresh(Seq<char>),
    NotFound,
}

impl View for PostRoute {
    type V = PostRouteV;

    open spec fn view(&self) -> PostRouteV {
        match self {
            PostRoute::Token(t) => PostRouteV::Token(t@),
            PostRoute::Offer(t) => PostRouteV::Offer(t@),
            PostRoute::Refresh(t) => PostRouteV::Refresh(t@),
            PostRoute::NotFound => PostRouteV::NotFound,
        }
    }
}

pub open spec fn spec_route_post(s: Seq<char>) -> PostRouteV {
    if has_prefix(s, "token/"@) {
        PostRouteV::Token(s.skip("token/"@.len() as int))
    } else if has_prefix(s, "offer/"@) {
        PostRouteV::Offer(s.skip("offer/"@.len() as int))
    } else if has_prefix(s, "refresh/"@) {
        PostRouteV::Refresh(s.skip("refresh/"@.len() as int))
    } else {
        PostRouteV::NotFound
    }
}

/// Dispatch a write request by its path prefix.
pub fn route_post(path: &str) -> (r: PostRoute)
    ensures
        r@ == spec_route_post(path@),
{
    let n = path.unicode_len();
    proof {
        reveal_strlit("token/");
        reveal_strlit("offer/");
        reveal_strlit("refresh/");
    }
    if char_prefix(path, "token/") {
        PostRoute::Token(path.substring_char(6, n).to_owned())
    } else if char_prefix(path, "offer/") {
        PostRoute::Offer(path.substring_char(6, n).to_owned())
    } else if char_prefix(path, "refresh/") {
        PostRoute::Refresh(path.substring_char(8, n).to_owned())
    } else {
        PostRoute::NotFound
    }
}

/// Where an update request goes: only the description text can be
/// replaced.
#[derive(Clone, Copy, Debug, PartialEq, Eq, Structural)]
pub enum PutRoute {
    Description,
    NotFound,
}

pub open spec fn spec_route_put(s: Seq<char>) -> PutRoute {
    if s == "description"@ {
        PutRoute::Description
    } else {
        PutRoute::NotFound
    }
}

/// Dispatch an update request by its path.
pub fn route_put(path: &str) -> (r: PutRoute)
    ensures
        r == spec_route_put(path@),
{
    if str_eq(path, "description") {
        PutRoute::Description
    } else {
        PutRoute::NotFound
    }
}

/// Where a delete request goes: only saved views under their prefix can be
/// deleted.
#[derive(Debug)]
pub enum DeleteRoute {
    Sturdyref(String),
    Unsupported,
}

/// The abstract value of a delete route.
#[verifier::ext_equal]
pub enum DeleteRouteV {
    Sturdyref(Seq<char>),
    Unsupported,
}

impl View for DeleteRoute {
    type V = DeleteRouteV;

    open spec fn view(&self) -> DeleteRouteV {
        match self {
            DeleteRoute::Sturdyref(t) => DeleteRouteV::Sturdyref(t@),
            DeleteRoute::Unsupported => DeleteRouteV::Unsupported,
        }
    }
}

pub open spec fn spec_route_delete(s: Seq<char>) -> DeleteRouteV {
    if has_prefix(s, "sturdyref/"@) {
        DeleteRouteV::Sturdyref(s.skip("sturdyref/"@.len() as int))
    } else {
        DeleteRouteV::Unsupported
    }
}

/// Dispatch a delete request by its path prefix.
pub fn route_delete(path: &str) -> (r: DeleteRoute)
    ensures
        r@ == spec_route_delete(path@),
{
    let n = path.unicode_len();
    proof {
        reveal_strlit("sturdyref/");
    }
    if char_prefix(path, "sturdyref/") {
        DeleteRoute::Sturdyref(path.substring_char(10, n).to_owned())
    } else {
        DeleteRoute::Unsupported
    }
}

/// The text of a static asset's URL from its protocol flag and host path.
pub fn static_asset_url(https: bool, host_path: &str) -> (r: String)
    ensures
        r@ == (if https {
            "https"@
        } else {
            "http"@
        }) + "://"@ + host_path@,
{
    let mut out = if https {
        String::from_str("https")
    } else {
        String::from_str("http")
    };
    out.append("://");
    out.append(host_path);
    out
}

} // verus!
