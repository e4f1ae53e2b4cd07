use crate::text::{is_prefix, starts_with, text_eq};
use vstd::prelude::*;

verus! {

/// What an admin API request asks for, once its method and path are matched.
#[derive(Clone, Copy, Debug, PartialEq, Eq)]
pub enum RouteKind {
    StatsStream,
    ListUpstreams,
    AddUpstream,
    Stats,
    Reload,
    GetModelRoutes,
    PutModelRoutes,
    Requests,
    Metrics,
    CreateBillingKey,
    GetBalance,
    AdjustBalance,
    UpdateUpstream,
    DeleteUpstream,
    RefreshModels,
    AddKeys,
    ReplaceKeys,
    DeleteKeys,
    ListKeys,
    /// A dynamic route without its key or upstream id.
    MissingId,
    MethodNotAllowed,
    NotFound,
}

/// A matched admin route and the billing key or upstream id it names (empty
/// for the routes that name none).
#[derive(Debug, PartialEq, Eq)]
pub struct AdminRoute {
    pub kind: RouteKind,
    pub target: String,
}

pub open spec fn billing_prefix() -> Seq<char> {
    "/admin/api/v1/billing/keys/"@
}

pub open spec fn upstream_prefix() -> Seq<char> {
    "/admin/api/v1/upstreams/"@
}

/// The route for a billing-key path remainder.
pub open spec fn billing_route(get: bool, post: bool, rest: Seq<char>) -> (RouteKind, Seq<char>) {
    let key = head_seg(rest);
    let action = head_seg(tail_segs(rest));
    if key.len() == 0 {
        (RouteKind::MissingId, Seq::empty())
    } else if action.len() == 0 {
        if get { (RouteKind::GetBalance, key) } else { (RouteKind::MethodNotAllowed, Seq::empty()) }
    } else if action == "adjust"@ {
        if post { (RouteKind::AdjustBalance, key) } else { (RouteKind::MethodNotAllowed, Seq::empty()) }
    } else {
        (RouteKind::NotFound, Seq::empty())
    }
}

/// The route for an upstream path remainder.
pub open spec fn upstream_route(get: bool, post: bool, put: bool, delete: bool, rest: Seq<char>) -> (RouteKind, Seq<char>) {
    let id = head_seg(rest);
    let more = tail_segs(rest);
    let sub = head_seg(more);
    if id.len() == 0 {
        (RouteKind::MissingId, Seq::empty())
    } else if sub.len() == 0 {
        if put {
            (RouteKind::UpdateUpstream, id)
        } else if delete {
            (RouteKind::DeleteUpstream, id)
        } else {
            (RouteKind::MethodNotAllowed, Seq::empty())
        }
    } else if sub == "models"@ {
        if head_seg(tail_segs(more)) == "refresh"@ {
            if post { (RouteKind::RefreshModels, id) } else { (RouteKind::MethodNotAllowed, Seq::empty()) }
        } else {
            (RouteKind::NotFound, Seq::empty())
        }
    } else if sub != "keys"@ {
        (RouteKind::NotFound, Seq::empty())
    } else if post {
        (RouteKind::AddKeys, id)
    } else if put {
        (RouteKind::ReplaceKeys, id)
    } else if delete {
        (RouteKind::DeleteKeys, id)
    } else if get {
        (RouteKind::ListKeys, id)
    } else {
        (RouteKind::MethodNotAllowed, Seq::empty())
    }
}

/// The admin route for a method and a path.
pub open spec fn route_spec(m: Seq<char>, p: Seq<char>) -> (RouteKind, Seq<char>) {
    let get = m == "GET"@;
    let post = m == "POST"@;
    let put = m == "PUT"@;
    let delete = m == "DELETE"@;
    let none = Seq::<char>::empty();
    if get && p == "/admin/api/v1/stats/stream"@ {
        (RouteKind::StatsStream, none)
    } else if p == "/admin/api/v1/upstreams"@ && get {
        (RouteKind::ListUpstreams, none)
    } else if p == "/admin/api/v1/upstreams"@ && post {
        (RouteKind::AddUpstream, none)
    } else if get && p == "/admin/api/v1/stats"@ {
        (RouteKind::Stats, none)
    } else if post && p == "/admin/api/v1/reload"@ {
        (RouteKind::Reload, none)
    } else if p == "/admin/api/v1/models/routes"@ && get {
        (RouteKind::GetModelRoutes, none)
    } else if p == "/admin/api/v1/models/routes"@ && put {
        (RouteKind::PutModelRoutes, none)
    } else if get && p == "/admin/api/v1/requests"@ {
        (RouteKind::Requests, none)
    } else if get && p == "/admin/api/v1/metrics"@ {
        (RouteKind::Metrics, none)
    } else if post && p == "/admin/api/v1/billing/keys"@ {
        (RouteKind::CreateBillingKey, none)
    } else if is_prefix(billing_prefix(), p) {
        billing_route(get, post, p.subrange(billing_prefix().len() as int, p.len() as int))
    } else if is_prefix(upstream_prefix(), p) {
        upstream_route(get, post, put, delete, p.subrange(upstream_prefix().len() as int, p.len() as int))
    } else {
        (RouteKind::NotFound, none)
    }
}

/// Length of the first `/`-separated segment.
pub open spec fn seg_len(s: Seq<char>) -> int
    decreases s.len(),
{
    if s.len() == 0 || s[0] == '/' {
        0
    } else {
        1 + seg_len(s.drop_first())
    }
}

proof fn lemma_seg_len_bound(s: Seq<char>)
    ensures
        0 <= seg_len(s) <= s.len(),
        seg_len(s) < s.len() ==> s[seg_len(s)] == '/',
        forall|i: int| 0 <= i < seg_len(s) ==> s[i] != '/',
    decreases s.len(),
{
    if s.len() > 0 && s[0] != '/' {
        lemma_seg_len_bound(s.drop_first());
        assert forall|i: int| 0 <= i < seg_len(s) implies s[i] != '/' by {
            if i > 0 {
                assert(s[i] == s.drop_first()[i - 1]);
            }
        }
    }
}

/// The first segment of a path remainder.
pub open spec fn head_seg(s: Seq<char>) -> Seq<char> {
    s.subrange(0, seg_len(s))
}

/// What follows the first segment and its `/`.
pub open spec fn tail_segs(s: Seq<char>) -> Seq<char> {
    if seg_len(s) < s.len() {
        s.subrange(seg_len(s) + 1, s.len() as int)
    } else {
        Seq::empty()
    }
}

fn split_segment(s: &str) -> (r: (String, String))
    ensures
        r.0@ == head_seg(s@),
        r.1@ == tail_segs(s@),
{
    let n = s.unicode_len();
    let mut i: usize = 0;
    proof {
        lemma_seg_len_bound(s@);
        assert(s@.subrange(0, n as int) =~= s@);
    }
    while i < n && s.get_char(i) != '/'
        invariant
            i <= n,
            n == s@.len(),
            seg_len(s@) == i + seg_len(s@.subrange(i as int, n as int)),
        decreases n - i,
    {
        assert(s@.subrange(i as int, n as int).drop_first() =~= s@.subrange(i + 1, n as int));
        i = i + 1;
    }
    proof {
        if i < n {
            assert(s@.subrange(i as int, n as int)[0] == '/');
        }
        assert(seg_len(s@.subrange(i as int, n as int)) == 0);
    }
    let head = s.substring_char(0, i).to_owned();
    let tail = if i < n { s.substring_char(i + 1, n).to_owned() } else { String::new() };
    (head, tail)
}

fn strip(s: &str, prefix: &str) -> (r: Option<String>)
    ensures
        match r {
            Some(t) => is_prefix(prefix@, s@) && t@ == s@.subrange(prefix@.len() as int, s@.len() as int),
            None => !is_prefix(prefix@, s@),
        },
{
    if starts_with(s, prefix) {
        Some(s.substring_char(prefix.unicode_len(), s.unicode_len()).to_owned())
    } else {
        None
    }
}



fn route(kind: RouteKind, target: String) -> (r: AdminRoute)
    ensures
        r.kind == kind,
        r.target == target,
{
    AdminRoute { kind, target }
}

fn bare(kind: RouteKind) -> (r: AdminRoute)
    ensures
        r.kind == kind,
        r.target@ == Seq::<char>::empty(),
{
    AdminRoute { kind, target: String::new() }
}

/// Matches the method and path of an admin API request.
pub fn route_admin(method: &str, path: &str) -> (r: AdminRoute)
    ensures
        (r.kind, r.target@) == route_spec(method@, path@),
{
    let get = text_eq(method, "GET");
    let post = text_eq(method, "POST");
    let put = text_eq(method, "PUT");
    let delete = text_eq(method, "DELETE");
    if get && text_eq(path, "/admin/api/v1/stats/stream") {
        return bare(RouteKind::StatsStream);
    }
    let ups = text_eq(path, "/admin/api/v1/upstreams");
    if ups && get {
        return bare(RouteKind::ListUpstreams);
    }
    if ups && post {
        return bare(RouteKind::AddUpstream);
    }
    if get && text_eq(path, "/admin/api/v1/stats") {
        return bare(RouteKind::Stats);
    }
    if post && text_eq(path, "/admin/api/v1/reload") {
        return bare(RouteKind::Reload);
    }
    let routes = text_eq(path, "/admin/api/v1/models/routes");
    if routes && get {
        return bare(RouteKind::GetModelRoutes);
    }
    if routes && put {
        return bare(RouteKind::PutModelRoutes);
    }
    if get && text_eq(path, "/admin/api/v1/requests") {
        return bare(RouteKind::Requests);
    }
    if get && text_eq(path, "/admin/api/v1/metrics") {
        return bare(RouteKind::Metrics);
    }
    if post && text_eq(path, "/admin/api/v1/billing/keys") {
        return bare(RouteKind::CreateBillingKey);
    }
    if let Some(rest) = strip(path, "/admin/api/v1/billing/keys/") {
        let (key, more) = split_segment(rest.as_str());
        if key.as_str().unicode_len() == 0 {
            return bare(RouteKind::MissingId);
        }
        let (action, _) = split_segment(more.as_str());
        if action.as_str().unicode_len() == 0 {
            return if get { route(RouteKind::GetBalance, key) } else { bare(RouteKind::MethodNotAllowed) };
        }
        if text_eq(action.as_str(), "adjust") {
            return if post { route(RouteKind::AdjustBalance, key) } else { bare(RouteKind::MethodNotAllowed) };
        }
        return bare(RouteKind::NotFound);
    }
    if let Some(rest) = strip(path, "/admin/api/v1/upstreams/") {
        let (id, more) = split_segment(rest.as_str());
        if id.as_str().unicode_len() == 0 {
            return bare(RouteKind::MissingId);
        }
        let (sub, more2) = split_segment(more.as_str());
        if sub.as_str().unicode_len() == 0 {
            return if put {
                route(RouteKind::UpdateUpstream, id)
            } else if delete {
                route(RouteKind::DeleteUpstream, id)
            } else {
                bare(RouteKind::MethodNotAllowed)
            };
        }
        if text_eq(sub.as_str(), "models") {
            let (action, _) = split_segment(more2.as_str());
            if text_eq(action.as_str(), "refresh") {
                return if post { route(RouteKind::RefreshModels, id) } else { bare(RouteKind::MethodNotAllowed) };
            }
            return bare(RouteKind::NotFound);
        }
        if !text_eq(sub.as_str(), "keys") {
            return bare(RouteKind::NotFound);
        }
        return if post {
            route(RouteKind::AddKeys, id)
        } else if put {
            route(RouteKind::ReplaceKeys, id)
        } else if delete {
            route(RouteKind::DeleteKeys, id)
        } else if get {
            route(RouteKind::ListKeys, id)
        } else {
            bare(RouteKind::MethodNotAllowed)
        };
    }
    bare(RouteKind::NotFound)
}

/// Position of the first `c` in `s`, or its length.
pub open spec fn first_of(s: Seq<char>, c: char) -> int
    decreases s.len(),
{
    if s.len() == 0 || s[0] == c {
        0
    } else {
        1 + first_of(s.drop_first(), c)
    }
}

proof fn lemma_first_of_bound(s: Seq<char>, c: char)
    ensures
        0 <= first_of(s, c) <= s.len(),
        first_of(s, c) < s.len() ==> s[first_of(s, c)] == c,
    decreases s.len(),
{
    if s.len() > 0 && s[0] != c {
        lemma_first_of_bound(s.drop_first(), c);
    }
}

/// The value of `key` in an `a=b&c=d` query: the text after the first `=`
/// of the first pair whose name is `key`; `None` when no pair has that name
/// or that pair has no `=`.
pub open spec fn query_value(q: Seq<char>, key: Seq<char>) -> Option<Seq<char>>
    decreases q.len(),
{
    let a = first_of(q, '&');
    let part = q.subrange(0, a);
    let e = first_of(part, '=');
    if 0 <= a <= q.len() && 0 <= e <= part.len() && part.subrange(0, e) == key {
        if e < part.len() {
            Some(part.subrange(e + 1, part.len() as int))
        } else {
            None
        }
    } else if 0 <= a < q.len() {
        query_value(q.subrange(a + 1, q.len() as int), key)
    } else {
        None
    }
}

/// Splits `s` at the first `c`: what precedes it, and what follows it when
/// there is one.
fn split_first(s: &str, c: char) -> (r: (String, Option<String>))
    ensures
        r.0@ == s@.subrange(0, first_of(s@, c)),
        0 <= first_of(s@, c) <= s@.len(),
        match r.1 {
            Some(t) => first_of(s@, c) < s@.len() && t@ == s@.subrange(first_of(s@, c) + 1, s@.len() as int),
            None => first_of(s@, c) == s@.len(),
        },
{
    let n = s.unicode_len();
    let mut i: usize = 0;
    proof {
        lemma_first_of_bound(s@, c);
        assert(s@.subrange(0, n as int) =~= s@);
    }
    while i < n && s.get_char(i) != c
        invariant
            i <= n,
            n == s@.len(),
            first_of(s@, c) == i + first_of(s@.subrange(i as int, n as int), c),
        decreases n - i,
    {
        assert(s@.subrange(i as int, n as int).drop_first() =~= s@.subrange(i + 1, n as int));
        i = i + 1;
    }
    proof {
        if i < n {
            assert(s@.subrange(i as int, n as int)[0] == c);
        }
    }
    let head = s.substring_char(0, i).to_owned();
    if i < n {
        (head, Some(s.substring_char(i + 1, n).to_owned()))
    } else {
        (head, None)
    }
}

/// The value of `key` in a `a=b&c=d` query, without percent-decoding.
pub fn query_get(query: &str, key: &str) -> (r: Option<String>)
    ensures
        match r {
            Some(v) => query_value(query@, key@) == Some(v@),
            None => query_value(query@, key@) is None,
        },
    decreases query@.len(),
{
    let (part, rest) = split_first(query, '&');
    let (name, value) = split_first(part.as_str(), '=');
    if text_eq(name.as_str(), key) {
        return value;
    }
    match rest {
        Some(r) => query_get(r.as_str(), key),
        None => None,
    }
}

/// A numeric query parameter: `default` when absent or malformed, clamped
/// to `lo..=hi`.
pub fn clamp_param(parsed: Option<usize>, default: usize, lo: usize, hi: usize) -> (r: usize)
    requires
        lo <= hi,
    ensures
        lo <= r <= hi,
        ({
            let v = match parsed {
                Some(p) => p,
                None => default,
            };
            r == if v < lo {
                lo
            } else if v > hi {
                hi
            } else {
                v
            }
        }),
{
    let v = match parsed {
        Some(p) => p,
        None => default,
    };
    if v < lo {
        lo
    } else if v > hi {
        hi
    } else {
        v
    }
}

/// `1` or `true` (any case) turns a flag on.
pub fn flag_on(v: &str) -> (r: bool)
    ensures
        r == (v@ == "1"@ || (v@.len() == 4 && (v@[0] == 't' || v@[0] == 'T') && (v@[1] == 'r'
            || v@[1] == 'R') && (v@[2] == 'u' || v@[2] == 'U') && (v@[3] == 'e' || v@[3] == 'E'))),
{
    if text_eq(v, "1") {
        return true;
    }
    let n = v.unicode_len();
    if n != 4 {
        return false;
    }
    let a = v.get_char(0);
    let b = v.get_char(1);
    let c = v.get_char(2);
    let d = v.get_char(3);
    (a == 't' || a == 'T') && (b == 'r' || b == 'R') && (c == 'u' || c == 'U') && (d == 'e' || d == 'E')
}

} // verus!
