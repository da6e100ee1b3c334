//! Routes, their bodies, the cache, and configuration.

use http_server::body::{
    file_number, parse_file_index, render_index_into, render_static_into, render_template_route_into, FileIndex,
};
use http_server::cache::{
    cache_try_or_fetch, fetch_action, fetch_settle, CacheEntry, CacheLookup, CacheStepResult, ContentCache,
    FetchAction, FileLock, VarTable, MAX_VARS, MAX_VAR_VALUE,
};
use http_server::fields::{dyn_field, dyn_u32, hex_val, starts_with};
use http_server::method::{
    method_expects_request_body, method_from_token, method_is_dispatchable, method_sends_response_body,
    METHOD_CONNECT, METHOD_DELETE, METHOD_GET, METHOD_HEAD, METHOD_NONE, METHOD_OPTIONS, METHOD_PATCH, METHOD_POST,
    METHOD_PUT,
};
use http_server::params::{test_route_body_extent, test_stage_route_body, Fallback, SiteConfig};
use http_server::routes::{
    content_type_from_path, match_route_path, Route, HANDLER_FS_FILE, HANDLER_FS_LIST, HANDLER_PROXY, HANDLER_STATIC,
    MAX_ROUTES,
};

fn route(path: &str) -> Route {
    let mut r = Route::new();
    r.path = path.as_bytes().to_vec();
    r
}

#[test]
fn an_exact_route_wins_over_a_prefix() {
    let routes = vec![route("/"), route("/files/"), route("/files/a"), route("/x")];
    assert_eq!(match_route_path(&routes, b"/"), Some(0));
    assert_eq!(match_route_path(&routes, b"/files/a"), Some(2));
    assert_eq!(match_route_path(&routes, b"/x"), Some(3));
}

#[test]
fn the_longest_prefix_wins() {
    let routes = vec![route("/"), route("/files/"), route("/files/deep/")];
    assert_eq!(match_route_path(&routes, b"/files/deep/one"), Some(2));
    assert_eq!(match_route_path(&routes, b"/files/one"), Some(1));
    assert_eq!(match_route_path(&routes, b"/other"), Some(0));
    assert_eq!(match_route_path(&vec![route("/a")], b"/ab"), None);
}

#[test]
fn content_types_follow_the_extension() {
    assert_eq!(content_type_from_path(b"/a/b.html"), Some(&b"text/html"[..]));
    assert_eq!(content_type_from_path(b"/a/b.css"), Some(&b"text/css"[..]));
    assert_eq!(content_type_from_path(b"/a/b"), None);
    assert_eq!(content_type_from_path(b"/a.d/b"), None);
}

#[test]
fn methods_have_their_own_codes() {
    let all: [(&[u8], u8); 8] = [
        (b"GET", METHOD_GET),
        (b"HEAD", METHOD_HEAD),
        (b"POST", METHOD_POST),
        (b"PUT", METHOD_PUT),
        (b"PATCH", METHOD_PATCH),
        (b"DELETE", METHOD_DELETE),
        (b"OPTIONS", METHOD_OPTIONS),
        (b"CONNECT", METHOD_CONNECT),
    ];
    for (token, code) in all {
        assert_eq!(method_from_token(token), code);
    }
    assert_eq!(method_from_token(b"get"), METHOD_NONE);
    assert_eq!(method_from_token(b"BREW"), METHOD_NONE);
    assert!(!method_sends_response_body(METHOD_HEAD));
    assert!(method_sends_response_body(METHOD_GET));
    assert!(method_expects_request_body(METHOD_POST));
    assert!(!method_expects_request_body(METHOD_GET));
    assert!(method_is_dispatchable(METHOD_DELETE));
    assert!(!method_is_dispatchable(METHOD_CONNECT));
    assert!(!method_is_dispatchable(METHOD_NONE));
}

#[test]
fn static_bodies_come_in_pieces() {
    let mut pos = 0;
    let (a, more) = render_static_into(b"abcdefg", &mut pos, 3);
    assert_eq!((a.as_slice(), more, pos), (&b"abc"[..], true, 3));
    let (b, more) = render_static_into(b"abcdefg", &mut pos, 10);
    assert_eq!((b.as_slice(), more, pos), (&b"defg"[..], false, 7));
    let (c, more) = render_static_into(b"abcdefg", &mut pos, 10);
    assert_eq!((c.as_slice(), more), (&b""[..], false));
}

fn fnv1a(name: &[u8]) -> u32 {
    let mut h: u32 = 0x811c9dc5;
    for b in name {
        h = (h ^ (*b as u32)).wrapping_mul(0x01000193);
    }
    h
}

#[test]
fn templates_put_values_in_place_of_names() {
    let mut vars = VarTable::new();
    vars.store(fnv1a(b"name"), b"world");
    let body = b"Hello {{name}}!";
    let mut pos = 0;
    let (out, more) = render_template_route_into(body, &vars, &mut pos, 100);
    assert_eq!(out, b"Hello world!");
    assert!(!more);
}

#[test]
fn template_pieces_make_the_whole() {
    let mut vars = VarTable::new();
    vars.store(fnv1a(b"a"), b"123456");
    let body = b"x{{a}}y{{a}}z{{none}}w";
    let mut whole_pos = 0;
    let (whole, _) = render_template_route_into(body, &vars, &mut whole_pos, 1000);
    assert_eq!(whole, b"x123456y123456zw");
    let mut pos = 0;
    let mut pieces = Vec::new();
    loop {
        let (p, more) = render_template_route_into(body, &vars, &mut pos, 8);
        assert!(p.len() <= 8);
        pieces.extend_from_slice(&p);
        if !more {
            break;
        }
    }
    assert_eq!(pieces, whole);
}

#[test]
fn index_lines_are_numbers() {
    let mut i = 0;
    let (out, more) = render_index_into(&mut i, 12, 4096, 7);
    assert_eq!(out, b"0\n1\n2\n3\n4\n5\n6\n7\n8\n9\n10\n11\n");
    assert!(!more);
    let mut i = 0;
    let (out, more) = render_index_into(&mut i, 12, 12, 7);
    assert_eq!(out, b"0\n1\n2\n");
    assert!(more);
    assert_eq!(i, 3);
}

#[test]
fn file_numbers_are_short_runs_of_digits() {
    assert_eq!(file_number(b"0"), Some(0));
    assert_eq!(file_number(b"32767"), Some(32767));
    assert_eq!(file_number(b"32768"), None);
    assert_eq!(file_number(b"1x"), None);
    assert!(matches!(parse_file_index(b"/files", 6), FileIndex::Listing));
    assert!(matches!(parse_file_index(b"/files/", 6), FileIndex::Listing));
    assert!(matches!(parse_file_index(b"/files/17", 6), FileIndex::File(17)));
    assert!(matches!(parse_file_index(b"/files/abc", 6), FileIndex::Bad));
}

#[test]
fn variables_are_replaced_and_bounded() {
    let mut t = VarTable::new();
    t.store(1, b"one");
    t.store(1, b"uno");
    assert_eq!(t.lookup_var(1), Some(&b"uno"[..]));
    assert_eq!(t.lookup_var(2), None);
    t.store(2, &[7u8; MAX_VAR_VALUE + 5]);
    assert_eq!(t.lookup_var(2).unwrap().len(), MAX_VAR_VALUE);
    for h in 3..(MAX_VARS as u32 + 1) {
        t.store(h, b"v");
    }
    t.store(999, b"late");
    assert_eq!(t.lookup_var(999), None);
    assert_eq!(t.vars.len(), MAX_VARS);
}

fn entry(route: u8, complete: bool, retain: u8) -> CacheEntry {
    let mut e = CacheEntry::new();
    e.route_index = route;
    e.valid = true;
    e.complete = complete;
    e.retain = retain;
    e.arena_offset = 10;
    e.length = 5;
    e
}

#[test]
fn a_cached_body_is_held_while_it_is_read() {
    let mut c = ContentCache::new();
    c.entries.push(entry(3, true, 0));
    assert!(c.cache_evictable());
    c.cache_retain_for_route(3);
    assert!(!c.cache_evictable());
    c.cache_release_for_route(3);
    assert!(c.cache_evictable());
    c.cache_release_for_route(3);
    assert_eq!(c.entries[0].retain, 0);
    assert_eq!(c.cache_lookup(3), Some(0));
    assert_eq!(c.cache_lookup(2), None);
}

#[test]
fn an_unfinished_entry_is_not_a_hit() {
    let mut c = ContentCache::new();
    c.entries.push(entry(3, false, 0));
    assert_eq!(c.cache_lookup(3), None);
    assert_eq!(c.cache_lookup_any(3), Some(0));
}

#[test]
fn the_cache_hits_fetches_and_waits() {
    let mut routes = vec![route("/a"), route("/b")];
    routes[1].source_index = 4;
    let mut c = ContentCache::new();
    let mut lock = FileLock::new();
    assert!(matches!(cache_try_or_fetch(&mut c, &mut lock, &mut routes, 0, 7, true), CacheLookup::NoSource));
    assert!(matches!(cache_try_or_fetch(&mut c, &mut lock, &mut routes, 1, 7, false), CacheLookup::NoSource));
    assert!(matches!(cache_try_or_fetch(&mut c, &mut lock, &mut routes, 1, 7, true), CacheLookup::Pending));
    assert_eq!(lock.owner, Some(7));
    assert_eq!((c.entries.len(), c.entries[0].route_index, c.entries[0].complete), (1, 1, false));
    assert!(matches!(cache_try_or_fetch(&mut c, &mut lock, &mut routes, 1, 8, true), CacheLookup::Busy));
    assert_eq!(lock.owner, Some(7));
    // Some bytes, then the end.
    assert!(matches!(
        fetch_action(&c, true, true, false, 1000),
        FetchAction::Read { at: 0, max: 1000 }
    ));
    assert!(matches!(fetch_action(&c, true, false, false, 1000), FetchAction::Wait));
    assert!(matches!(fetch_action(&c, false, true, false, 1000), FetchAction::Fail));
    assert!(matches!(fetch_settle(&mut c, &mut routes, 12, true, true, 1000), CacheStepResult::Pending));
    assert!(matches!(fetch_settle(&mut c, &mut routes, 3, false, true, 1000), CacheStepResult::Ready));
    assert_eq!((routes[1].body_offset, routes[1].body_len), (0, 15));
    assert_eq!((c.entries[0].complete, c.entries[0].retain), (true, 1));
    lock.release(7);
    assert!(matches!(cache_try_or_fetch(&mut c, &mut lock, &mut routes, 1, 8, true), CacheLookup::Hit));
    assert_eq!(c.entries[0].retain, 2);
}

#[test]
fn a_full_pool_ends_a_fetch() {
    let mut routes = vec![route("/b")];
    routes[0].source_index = 0;
    let mut c = ContentCache::new();
    let mut lock = FileLock::new();
    assert!(matches!(cache_try_or_fetch(&mut c, &mut lock, &mut routes, 0, 1, true), CacheLookup::Pending));
    assert!(matches!(fetch_settle(&mut c, &mut routes, 64, true, false, 64), CacheStepResult::Ready));
}

#[test]
fn the_file_channel_has_one_holder() {
    let mut l = FileLock::new();
    assert!(l.try_acquire(1));
    assert!(l.try_acquire(1));
    assert!(!l.try_acquire(2));
    l.release(2);
    assert_eq!(l.owner, Some(1));
    l.release(1);
    assert!(l.try_acquire(2));
}

#[test]
fn configuration_makes_a_site() {
    let mut c = SiteConfig::new();
    c.parse_route_path(0, b"/hello");
    c.set_route_handler(0, &[HANDLER_STATIC]);
    c.parse_route_body(0, b"hi there", true);
    c.parse_route_content_type(0, b"text/plain");
    c.parse_route_path(1, b"/proxy");
    c.set_route_handler(1, &[HANDLER_PROXY]);
    let site = c.finish();
    assert_eq!(site.body(0), b"hi there");
    assert_eq!(site.routes[0].path, b"/hello");
    assert_eq!(site.routes[0].content_type, b"text/plain");
    assert_eq!(site.routes[1].handler, HANDLER_PROXY);
}

#[test]
fn route_bodies_do_not_run_into_each_other() {
    let mut c = SiteConfig::new();
    test_stage_route_body(&mut c, 0, b"first body");
    test_stage_route_body(&mut c, 1, b"second");
    let (o0, l0, _) = test_route_body_extent(&c, 0);
    let (o1, l1, _) = test_route_body_extent(&c, 1);
    assert_eq!((l0, l1), (10, 6));
    assert!(o0 + l0 <= o1 || o1 + l1 <= o0);
    assert_eq!(&c.pool[o0 as usize..(o0 + l0) as usize], b"first body");
    assert_eq!(&c.pool[o1 as usize..(o1 + l1) as usize], b"second");
}

#[test]
fn a_site_without_routes_has_a_fallback() {
    let mut c = SiteConfig::new();
    assert!(matches!(c.settle(true), Fallback::Files));
    let mut c = SiteConfig::new();
    test_stage_route_body(&mut c, 0, b"page");
    assert!(matches!(c.settle(false), Fallback::Page));
    let mut c = SiteConfig::new();
    c.parse_route_path(0, b"/a");
    assert!(matches!(c.settle(true), Fallback::Routes));
}

#[test]
fn a_filesystem_route_names_its_handler() {
    let mut c = SiteConfig::new();
    c.parse_route_path(0, b"/f/");
    c.set_route_fs_path(0, b"/srv");
    c.parse_route_path(1, b"/l");
    c.set_route_fs_list(1, b"/srv/list");
    let site = c.finish();
    assert_eq!((site.routes[0].handler, site.routes[0].fs_path.as_slice()), (HANDLER_FS_FILE, &b"/srv"[..]));
    assert_eq!(site.routes[1].handler, HANDLER_FS_LIST);
    assert!(site.routes.len() <= MAX_ROUTES);
}

#[test]
fn table_values_are_fields_with_tags() {
    assert_eq!(dyn_field(b"ip=1;port=80", b"port="), Some(&b"80"[..]));
    assert_eq!(dyn_field(b"ip=1;port=80", b"tls="), None);
    assert_eq!(dyn_u32(b"80"), 80);
    assert_eq!(hex_val(b'f'), Some(15));
    assert_eq!(hex_val(b'g'), None);
    assert!(starts_with(b"abc", b"ab"));
    assert!(!starts_with(b"a", b"ab"));
}
