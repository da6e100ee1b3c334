//! The static route table: what a route is, and which one a path picks.

use crate::bytes::{bytes_eq, eq_ascii_ci, lit, same_ci, text};
use vstd::prelude::*;
use vstd::slice::slice_subrange;

verus! {

/// Routes a server can hold.
pub const MAX_ROUTES: usize = 8;
/// Longest request path kept.
pub const MAX_PATH: usize = 200;
/// Longest configured content type.
pub const MAX_CONTENT_TYPE: usize = 48;
/// Longest filesystem path behind a route.
pub const MAX_FS_PATH: usize = 128;
/// Longest extension filter of a listing route.
pub const MAX_FS_FILTER: usize = 64;

pub const HANDLER_STATIC: u8 = 0;
pub const HANDLER_TEMPLATE: u8 = 1;
pub const HANDLER_FILE: u8 = 2;
pub const HANDLER_STREAM: u8 = 3;
pub const HANDLER_PROXY: u8 = 4;
pub const HANDLER_WEBSOCKET: u8 = 5;
pub const HANDLER_WEBSOCKET_FANOUT: u8 = 6;
pub const HANDLER_FS_FILE: u8 = 7;
pub const HANDLER_FS_LIST: u8 = 8;
pub const HANDLER_WEBSOCKET_SESSION: u8 = 9;
pub const HANDLER_APP: u8 = 10;
pub const HANDLER_GRPC: u8 = 11;

/// One configured route.
pub struct Route {
    pub path: Vec<u8>,
    pub handler: u8,
    /// Where the body lies in the body pool.
    pub body_offset: u32,
    pub body_len: u32,
    /// File index behind the route's body, or negative when the body is inline.
    pub source_index: i16,
    pub proxy_ip: u32,
    pub proxy_port: u16,
    pub content_type: Vec<u8>,
    /// File or directory served through the filesystem provider.
    pub fs_path: Vec<u8>,
    /// Comma-separated extensions a listing keeps.
    pub fs_filter: Vec<u8>,
}

impl Route {
    pub fn new() -> (r: Route)
        ensures
            r.path@.len() == 0,
            r.handler == HANDLER_STATIC,
            r.body_offset == 0,
            r.body_len == 0,
            r.source_index == -1,
            r.proxy_ip == 0,
            r.proxy_port == 0,
            r.content_type@.len() == 0,
            r.fs_path@.len() == 0,
            r.fs_filter@.len() == 0,
    {
        Route {
            path: Vec::new(),
            handler: HANDLER_STATIC,
            body_offset: 0,
            body_len: 0,
            source_index: -1,
            proxy_ip: 0,
            proxy_port: 0,
            content_type: Vec::new(),
            fs_path: Vec::new(),
            fs_filter: Vec::new(),
        }
    }
}

/// Whether `p` begins `s`.
pub open spec fn begins(s: Seq<u8>, p: Seq<u8>) -> bool {
    p.len() <= s.len() && s.take(p.len() as int) == p
}

/// Whether a route is a prefix route for this path: the path is strictly longer,
/// and the route's own path ends in `/`, or it is a listing route and the path
/// goes on with `/`.
pub open spec fn prefix_matches(r: Route, path: Seq<u8>) -> bool {
    &&& r.path@.len() > 0
    &&& path.len() > r.path@.len()
    &&& begins(path, r.path@)
    &&& r.path@.last() == 0x2f || (r.handler == HANDLER_FS_LIST && path[r.path@.len() as int]
        == 0x2f)
}

/// Whether route `i` is the one a path picks: an exact match if there is any, and
/// otherwise the longest prefix route; the earlier of two equals.
pub open spec fn picks(routes: Seq<Route>, path: Seq<u8>, i: int) -> bool {
    &&& 0 <= i < routes.len()
    &&& if exists|k: int| 0 <= k < routes.len() && (#[trigger] routes[k]).path@ == path {
        &&& routes[i].path@ == path
        &&& forall|k: int| 0 <= k < i ==> (#[trigger] routes[k]).path@ != path
    } else {
        &&& prefix_matches(routes[i], path)
        &&& forall|k: int|
            0 <= k < routes.len() && prefix_matches(#[trigger] routes[k], path)
                ==> routes[k].path@.len() <= routes[i].path@.len()
        &&& forall|k: int|
            0 <= k < i && prefix_matches(#[trigger] routes[k], path) ==> routes[k].path@.len()
                < routes[i].path@.len()
    }
}

/// Two routes cannot both be the one a path picks.
pub proof fn law_route_choice_is_unique(routes: Seq<Route>, path: Seq<u8>, i: int, j: int)
    requires
        picks(routes, path, i),
        picks(routes, path, j),
    ensures
        i == j,
{
    if i < j {
        assert(routes[i].path@.len() <= routes[j].path@.len());
    } else if j < i {
        assert(routes[j].path@.len() <= routes[i].path@.len());
    }
}

/// The route a path picks.
pub open spec fn route_for(routes: Seq<Route>, path: Seq<u8>) -> Option<int> {
    if exists|i: int| picks(routes, path, i) {
        Some(choose|i: int| picks(routes, path, i))
    } else {
        None
    }
}

/// A route that fits the rule is the one picked.
pub proof fn lemma_route_for(routes: Seq<Route>, path: Seq<u8>, i: int)
    requires
        picks(routes, path, i),
    ensures
        route_for(routes, path) == Some(i),
{
    law_route_choice_is_unique(routes, path, i, choose|k: int| picks(routes, path, k));
}

fn is_prefix_route(r: &Route, path: &[u8]) -> (b: bool)
    ensures
        b == prefix_matches(*r, path@),
{
    let n: usize = r.path.len();
    if n == 0 || path.len() <= n {
        return false;
    }
    let head = slice_subrange(path, 0, n);
    assert(head@ =~= path@.take(n as int));
    if !bytes_eq(head, r.path.as_slice()) {
        return false;
    }
    r.path[n - 1] == 0x2f || (r.handler == HANDLER_FS_LIST && path[n] == 0x2f)
}

/// The route `path` picks, if any.
pub fn match_route_path(routes: &Vec<Route>, path: &[u8]) -> (r: Option<usize>)
    ensures
        match r {
            Some(i) => route_for(routes@, path@) == Some(i as int) && i < routes@.len() && picks(
                routes@,
                path@,
                i as int,
            ),
            None => route_for(routes@, path@) is None,
        },
{
    let mut i: usize = 0;
    while i < routes.len()
        invariant
            i <= routes.len(),
            forall|k: int| 0 <= k < i ==> (#[trigger] routes@[k]).path@ != path@,
        decreases routes.len() - i,
    {
        if bytes_eq(routes[i].path.as_slice(), path) {
            proof {
                assert(routes@[i as int].path@ == path@);
                lemma_route_for(routes@, path@, i as int);
            }
            return Some(i);
        }
        i += 1;
    }
    let mut best: Option<usize> = None;
    let mut i: usize = 0;
    while i < routes.len()
        invariant
            i <= routes.len(),
            forall|k: int| 0 <= k < routes.len() ==> (#[trigger] routes@[k]).path@ != path@,
            match best {
                Some(b) => {
                    &&& b < i
                    &&& prefix_matches(routes@[b as int], path@)
                    &&& forall|k: int|
                        0 <= k < i && prefix_matches(#[trigger] routes@[k], path@)
                            ==> routes@[k].path@.len() <= routes@[b as int].path@.len()
                    &&& forall|k: int|
                        0 <= k < b && prefix_matches(#[trigger] routes@[k], path@)
                            ==> routes@[k].path@.len() < routes@[b as int].path@.len()
                },
                None => forall|k: int|
                    0 <= k < i ==> !prefix_matches(#[trigger] routes@[k], path@),
            },
        decreases routes.len() - i,
    {
        if is_prefix_route(&routes[i], path) {
            let better: bool = match best {
                Some(b) => routes[i].path.len() > routes[b].path.len(),
                None => true,
            };
            if better {
                best = Some(i);
            }
        }
        i += 1;
    }
    proof {
        if let Some(b) = best {
            lemma_route_for(routes@, path@, b as int);
        }
    }
    best
}

// ── Content types ───────────────────────────────────────────────────────

/// Content types by file extension.
pub const CONTENT_TYPES: [(&'static str, &'static str); 17] = [
    ("html", "text/html"),
    ("htm", "text/html"),
    ("css", "text/css"),
    ("js", "text/javascript"),
    ("json", "application/json"),
    ("txt", "text/plain"),
    ("png", "image/png"),
    ("jpg", "image/jpeg"),
    ("jpeg", "image/jpeg"),
    ("gif", "image/gif"),
    ("svg", "image/svg+xml"),
    ("webp", "image/webp"),
    ("mp4", "video/mp4"),
    ("mp3", "audio/mpeg"),
    ("wav", "audio/wav"),
    ("wasm", "application/wasm"),
    ("pdf", "application/pdf"),
];

/// Where the extension of a path begins: behind the last dot of its last segment, or
/// `None` when it has none.
pub open spec fn ext_start(path: Seq<u8>, to: int) -> Option<int>
    decreases to,
{
    if to <= 0 || path[to - 1] == 0x2f {
        None
    } else if path[to - 1] == 0x2e {
        Some(to)
    } else {
        ext_start(path, to - 1)
    }
}

/// The content type of an extension, from row `from` of the table on.
pub open spec fn type_of_ext(ext: Seq<u8>, from: int) -> Option<Seq<u8>>
    decreases 17 - from,
{
    if from < 0 || from >= 17 {
        None
    } else if same_ci(ext, text(CONTENT_TYPES@[from].0)) {
        Some(text(CONTENT_TYPES@[from].1))
    } else {
        type_of_ext(ext, from + 1)
    }
}

/// The content type a path's extension names, if it is a known one.
pub open spec fn type_of_path(path: Seq<u8>) -> Option<Seq<u8>> {
    match ext_start(path, path.len() as int) {
        None => None,
        Some(i) => type_of_ext(path.skip(i), 0),
    }
}

/// Find the content type of a path by its extension.
pub fn content_type_from_path(path: &[u8]) -> (r: Option<&'static [u8]>)
    ensures
        match r {
            Some(t) => type_of_path(path@) == Some(t@),
            None => type_of_path(path@) is None,
        },
{
    let mut to: usize = path.len();
    while to > 0 && path[to - 1] != 0x2f && path[to - 1] != 0x2e
        invariant
            to <= path@.len(),
            ext_start(path@, to as int) == ext_start(path@, path@.len() as int),
        decreases to,
    {
        to -= 1;
    }
    if to == 0 || path[to - 1] == 0x2f {
        return None;
    }
    let ext = slice_subrange(path, to, path.len());
    assert(ext@ =~= path@.skip(to as int));
    let mut i: usize = 0;
    while i < 17
        invariant
            i <= 17,
            type_of_ext(ext@, i as int) == type_of_ext(ext@, 0),
            ext@ == path@.skip(to as int),
            ext_start(path@, path@.len() as int) == Some(to as int),
        decreases 17 - i,
    {
        if eq_ascii_ci(ext, lit(CONTENT_TYPES[i].0)) {
            return Some(lit(CONTENT_TYPES[i].1));
        }
        i += 1;
    }
    None
}

// ── Laws ────────────────────────────────────────────────────────────────

/// Whether a path lies below a route: the route's path and more, the route's path ending in
/// a slash or, for a listing, a slash following it.
pub open spec fn lies_below(r: Route, path: Seq<u8>) -> bool {
    exists|more: Seq<u8>| #[trigger] goes_on(r, path, more)
}

/// Whether a path is a route's own and then `more`, parted by a slash.
pub open spec fn goes_on(r: Route, path: Seq<u8>, more: Seq<u8>) -> bool {
    &&& r.path@.len() > 0 && more.len() > 0 && path == r.path@ + more
    &&& r.path@[r.path@.len() - 1] == 0x2f || (r.handler == HANDLER_FS_LIST && more[0] == 0x2f)
}

proof fn lemma_lies_below(r: Route, path: Seq<u8>)
    ensures
        prefix_matches(r, path) <==> lies_below(r, path),
{
    if prefix_matches(r, path) {
        let more = path.skip(r.path@.len() as int);
        assert(path =~= r.path@ + more);
        assert(goes_on(r, path, more));
    }
    if lies_below(r, path) {
        let more = choose|more: Seq<u8>| #[trigger] goes_on(r, path, more);
        assert(path.take(r.path@.len() as int) =~= r.path@);
    }
}

proof fn lemma_first_exact(routes: Seq<Route>, path: Seq<u8>, k: int) -> (i: int)
    requires
        0 <= k < routes.len(),
        routes[k].path@ == path,
    ensures
        0 <= i <= k,
        routes[i].path@ == path,
        forall|j: int| 0 <= j < i ==> (#[trigger] routes[j]).path@ != path,
    decreases k,
{
    if exists|j: int| 0 <= j < k && (#[trigger] routes[j]).path@ == path {
        let j = choose|j: int| 0 <= j < k && (#[trigger] routes[j]).path@ == path;
        lemma_first_exact(routes, path, j)
    } else {
        k
    }
}

/// The best of the first `n` routes that a path lies below: the longest, and the first of
/// two as long.
proof fn lemma_best_below(routes: Seq<Route>, path: Seq<u8>, n: int) -> (i: int)
    requires
        0 <= n <= routes.len(),
        exists|k: int| 0 <= k < n && prefix_matches(#[trigger] routes[k], path),
    ensures
        0 <= i < n,
        prefix_matches(routes[i], path),
        forall|k: int|
            0 <= k < n && prefix_matches(#[trigger] routes[k], path) ==> routes[k].path@.len()
                <= routes[i].path@.len(),
        forall|k: int|
            0 <= k < i && prefix_matches(#[trigger] routes[k], path) ==> routes[k].path@.len()
                < routes[i].path@.len(),
    decreases n,
{
    if exists|k: int| 0 <= k < n - 1 && prefix_matches(#[trigger] routes[k], path) {
        let i = lemma_best_below(routes, path, n - 1);
        if prefix_matches(routes[n - 1], path) && routes[n - 1].path@.len()
            > routes[i].path@.len() {
            n - 1
        } else {
            i
        }
    } else {
        n - 1
    }
}

/// A route whose path is the request's own is picked before any other, the first of several.
pub proof fn law_exact_route_is_picked(routes: Seq<Route>, path: Seq<u8>, i: int)
    requires
        0 <= i < routes.len(),
        routes[i].path@ == path,
        forall|k: int| 0 <= k < i ==> (#[trigger] routes[k]).path@ != path,
    ensures
        route_for(routes, path) == Some(i),
{
    lemma_route_for(routes, path, i);
}

/// Where no route's path is the request's own, the longest of the routes that the path lies
/// below is picked, the first of several as long.
pub proof fn law_longest_prefix_is_picked(routes: Seq<Route>, path: Seq<u8>, i: int)
    requires
        0 <= i < routes.len(),
        forall|k: int| 0 <= k < routes.len() ==> (#[trigger] routes[k]).path@ != path,
        lies_below(routes[i], path),
        forall|k: int|
            0 <= k < routes.len() && k != i && lies_below(#[trigger] routes[k], path)
                ==> routes[k].path@.len() < routes[i].path@.len() || (routes[k].path@.len()
                == routes[i].path@.len() && i < k),
    ensures
        route_for(routes, path) == Some(i),
{
    assert forall|k: int| 0 <= k < routes.len() implies prefix_matches(#[trigger] routes[k], path)
        == lies_below(routes[k], path) by {
        lemma_lies_below(routes[k], path);
    }
    lemma_route_for(routes, path, i);
}

/// A path picks no route exactly where it is no route's own and lies below none.
pub proof fn law_unserved_path_picks_nothing(routes: Seq<Route>, path: Seq<u8>)
    ensures
        route_for(routes, path) is None <==> forall|k: int|
            0 <= k < routes.len() ==> (#[trigger] routes[k]).path@ != path && !lies_below(
                routes[k],
                path,
            ),
{
    assert forall|k: int| 0 <= k < routes.len() implies prefix_matches(#[trigger] routes[k], path)
        == lies_below(routes[k], path) by {
        lemma_lies_below(routes[k], path);
    }
    if exists|k: int| 0 <= k < routes.len() && (#[trigger] routes[k]).path@ == path {
        let k = choose|k: int| 0 <= k < routes.len() && (#[trigger] routes[k]).path@ == path;
        let i = lemma_first_exact(routes, path, k);
        lemma_route_for(routes, path, i);
    } else if exists|k: int| 0 <= k < routes.len() && prefix_matches(#[trigger] routes[k], path) {
        let i = lemma_best_below(routes, path, routes.len() as int);
        lemma_route_for(routes, path, i);
    }
}

/// The extension of a path is what stands behind its last dot, if no slash follows that: it
/// alone decides the content type, whatever stands before it.
pub proof fn law_type_goes_by_the_extension(front: Seq<u8>, ext: Seq<u8>)
    requires
        forall|i: int| 0 <= i < ext.len() ==> #[trigger] ext[i] != 0x2e && ext[i] != 0x2f,
    ensures
        type_of_path(front + seq![0x2eu8] + ext) == type_of_ext(ext, 0),
{
    let path = front + seq![0x2eu8] + ext;
    let at = front.len() + 1;
    assert(path.skip(at as int) =~= ext);
    assert forall|i: int| at <= i < path.len() implies #[trigger] path[i] != 0x2e && path[i]
        != 0x2f by {
        assert(path[i] == ext[i - at]);
    }
    lemma_ext_start(path, at as int, path.len() as int);
}

proof fn lemma_ext_start(path: Seq<u8>, at: int, to: int)
    requires
        0 < at <= to <= path.len(),
        path[at - 1] == 0x2e,
        forall|i: int| at <= i < to ==> #[trigger] path[i] != 0x2e && path[i] != 0x2f,
    ensures
        ext_start(path, to) == Some(at),
    decreases to,
{
    if at < to {
        lemma_ext_start(path, at, to - 1);
    }
}

/// A last segment without a dot has no extension and no content type by it.
pub proof fn law_no_extension_no_type(front: Seq<u8>, name: Seq<u8>)
    requires
        forall|i: int| 0 <= i < name.len() ==> #[trigger] name[i] != 0x2e && name[i] != 0x2f,
    ensures
        type_of_path(front + seq![0x2fu8] + name) is None,
{
    let path = front + seq![0x2fu8] + name;
    let at = front.len() + 1;
    assert forall|i: int| at <= i < path.len() implies #[trigger] path[i] != 0x2e && path[i]
        != 0x2f by {
        assert(path[i] == name[i - at]);
    }
    lemma_no_ext(path, at as int, path.len() as int);
}

proof fn lemma_no_ext(path: Seq<u8>, at: int, to: int)
    requires
        0 < at <= to <= path.len(),
        path[at - 1] == 0x2f,
        forall|i: int| at <= i < to ==> #[trigger] path[i] != 0x2e && path[i] != 0x2f,
    ensures
        ext_start(path, to) is None,
    decreases to,
{
    if at < to {
        lemma_no_ext(path, at, to - 1);
    }
}

/// The case of an extension's letters does not matter.
pub proof fn law_extension_case_does_not_matter(a: Seq<u8>, b: Seq<u8>, from: int)
    requires
        a.len() == b.len(),
        forall|i: int|
            0 <= i < a.len() ==> #[trigger] a[i] == b[i] || (0x41 <= a[i] <= 0x5a && b[i] == a[i]
                + 0x20),
    ensures
        type_of_ext(a, from) == type_of_ext(b, from),
    decreases 17 - from,
{
    if 0 <= from < 17 {
        law_extension_case_does_not_matter(a, b, from + 1);
        let t = text(CONTENT_TYPES@[from].0);
        assert(forall|i: int|
            0 <= i < a.len() ==> crate::bytes::lower(#[trigger] a[i]) == crate::bytes::lower(b[i]));
        if same_ci(a, t) {
            assert forall|i: int| 0 <= i < b.len() implies crate::bytes::lower(#[trigger] b[i])
                == crate::bytes::lower(t[i]) by {
                assert(crate::bytes::lower(a[i]) == crate::bytes::lower(t[i]));
            }
        }
        if same_ci(b, t) {
            assert forall|i: int| 0 <= i < a.len() implies crate::bytes::lower(#[trigger] a[i])
                == crate::bytes::lower(t[i]) by {
                assert(crate::bytes::lower(b[i]) == crate::bytes::lower(t[i]));
            }
        }
    }
}

} // verus!
