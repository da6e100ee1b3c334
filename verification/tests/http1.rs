//! HTTP/1.1 requests, bodies and responses.

use http_server::body::FileIndex;
use http_server::cache::{ContentCache, FileLock, VarTable};
use http_server::conn::{BodyMode, ConnSlot, Inbox, Phase};
use http_server::h1::{dispatch, end_if_peer_gone, step_await_app, step_proxy_send, step_proxy_wait, AwaitStep, DialStep, ForwardStep};
use http_server::h1_dispatch::{begin_index, dispatch_file, file_opened, step_legacy_file_dispatch, Dispatch};
use http_server::h1_fs::{
    compose_file_path, fs_content_type, fs_opened, fs_sought, stage_listing, step_fs_stat, FilePath, Listing,
    StatStep, FS_EAGAIN, FS_STAT_PROBE_TIMEOUT_TICKS,
};
use http_server::h1_recv::{head_asked, interim_pending, parse_traceparent, step_body, step_recv_request, RecvStep};
use http_server::h1_send::{
    fs_read_done, fs_round_goes_on, head_sent, note_fs_sent, note_static_sent, step_drain_send, step_send_fs_file,
    step_send_index, step_send_static, step_send_template, ChunkStep, DrainStep, FsRead, FsStep, StaticStep,
};
use http_server::h1_wire::{
    body_framing, expects_continue, find_head_end, find_header, parse_chunk_header, parse_hex, parse_range_header,
    parse_request_line, request_keeps_alive, BodyFraming, ChunkHeader, RangeParse,
};
use http_server::method::{METHOD_GET, METHOD_HEAD, METHOD_POST};
use http_server::proxy::{
    begin_proxy, proxy_build_forward_head, proxy_connect_failed, proxy_dial, set_client_ip, try_begin_dyn_proxy,
    ProxyCounters,
};
use http_server::reqbody::{plan_body, step_recv_body, BodyPlan, BodyStep};
use http_server::response::{
    build_error, build_error_416, build_header, build_header_fs_full, build_header_fs_partial, build_header_with_len,
    is_framing_header,
};
use http_server::routes::{
    Route, HANDLER_FILE, HANDLER_PROXY, HANDLER_STATIC, HANDLER_TEMPLATE,
};
use http_server::slots::ShedMetrics;

fn slot_with(bytes: &[u8]) -> ConnSlot {
    let mut s = ConnSlot::blank();
    s.conn_id = Some(9);
    s.phase = Phase::RecvRequest;
    s.rx.buf = bytes.to_vec();
    s
}

fn route(path: &str, handler: u8) -> Route {
    let mut r = Route::new();
    r.path = path.as_bytes().to_vec();
    r.handler = handler;
    r
}

fn staged(s: &ConnSlot) -> String {
    String::from_utf8(s.tx.buf.clone()).unwrap()
}

// ── Heads ───────────────────────────────────────────────────────────────

#[test]
fn a_head_ends_at_its_blank_line() {
    assert_eq!(find_head_end(b"GET / HTTP/1.1\r\nA: b\r\n\r\nrest"), Some(24));
    assert_eq!(find_head_end(b"GET / HTTP/1.1\r\nA: b\r\n"), None);
}

#[test]
fn fields_are_found_whatever_their_case() {
    let h = b"GET / HTTP/1.1\r\nHost: example\r\nX-A:  padded \r\n\r\n";
    assert_eq!(find_header(h, b"host"), Some(b"example".to_vec()));
    assert_eq!(find_header(h, b"x-a"), Some(b"padded".to_vec()));
    assert_eq!(find_header(h, b"missing"), None);
}

#[test]
fn request_lines_have_three_words() {
    assert_eq!(parse_request_line(b"GET /a/b HTTP/1.1\r\n\r\n"), Some((METHOD_GET, b"/a/b".to_vec())));
    assert_eq!(parse_request_line(b"GET\r\n\r\n"), None);
}

#[test]
fn framing_is_chunked_or_a_length() {
    assert!(matches!(body_framing(b"GET / HTTP/1.1\r\n\r\n"), BodyFraming::Unframed));
    assert!(matches!(body_framing(b"P / HTTP/1.1\r\nContent-Length: 12\r\n\r\n"), BodyFraming::Length(12)));
    assert!(matches!(body_framing(b"P / HTTP/1.1\r\nTransfer-Encoding: chunked\r\n\r\n"), BodyFraming::Chunked));
}

#[test]
fn contradictory_framing_is_invalid() {
    assert!(matches!(
        body_framing(b"P / HTTP/1.1\r\nContent-Length: 12\r\nTransfer-Encoding: chunked\r\n\r\n"),
        BodyFraming::Invalid
    ));
    assert!(matches!(
        body_framing(b"P / HTTP/1.1\r\nContent-Length: 12\r\nContent-Length: 13\r\n\r\n"),
        BodyFraming::Invalid
    ));
    assert!(matches!(
        body_framing(b"P / HTTP/1.1\r\nContent-Length: 12\r\nContent-Length: 12\r\n\r\n"),
        BodyFraming::Length(12)
    ));
    assert!(matches!(body_framing(b"P / HTTP/1.1\r\nContent-Length: x\r\n\r\n"), BodyFraming::Invalid));
    assert!(matches!(body_framing(b"P / HTTP/1.1\r\nTransfer-Encoding: gzip\r\n\r\n"), BodyFraming::Invalid));
}

#[test]
fn connections_persist_by_version_and_field() {
    assert!(request_keeps_alive(b"GET / HTTP/1.1\r\n\r\n"));
    assert!(!request_keeps_alive(b"GET / HTTP/1.1\r\nConnection: close\r\n\r\n"));
    assert!(!request_keeps_alive(b"GET / HTTP/1.0\r\n\r\n"));
    assert!(request_keeps_alive(b"GET / HTTP/1.0\r\nConnection: keep-alive\r\n\r\n"));
    assert!(!request_keeps_alive(b"GET / HTTP/1.1\r\nConnection: x, Close\r\n\r\n"));
    assert!(expects_continue(b"P / HTTP/1.1\r\nExpect: 100-continue\r\n\r\n"));
}

#[test]
fn ranges_lie_inside_the_resource() {
    assert!(matches!(parse_range_header(b"bytes=0-99", 1000), RangeParse::Satisfiable { start: 0, end: 99 }));
    assert!(matches!(parse_range_header(b"bytes=900-2000", 1000), RangeParse::Satisfiable { start: 900, end: 999 }));
    assert!(matches!(parse_range_header(b"bytes=-10", 1000), RangeParse::Satisfiable { start: 990, end: 999 }));
    assert!(matches!(parse_range_header(b"bytes=990-", 1000), RangeParse::Satisfiable { start: 990, end: 999 }));
    assert!(matches!(parse_range_header(b"bytes=1000-", 1000), RangeParse::Unsatisfiable));
    assert!(matches!(parse_range_header(b"bytes=-0", 1000), RangeParse::Unsatisfiable));
    assert!(matches!(parse_range_header(b"bytes=9-3", 1000), RangeParse::Whole));
    assert!(matches!(parse_range_header(b"lines=0-1", 1000), RangeParse::Whole));
}

#[test]
fn chunk_sizes_are_hexadecimal() {
    assert_eq!(parse_hex(b"1aF"), Some(0x1af));
    assert_eq!(parse_hex(b"g"), None);
    assert!(matches!(parse_chunk_header(b"5\r\nhello"), ChunkHeader::Chunk { size: 5, consumed: 3 }));
    assert!(matches!(parse_chunk_header(b"a;ext=1\r\n"), ChunkHeader::Chunk { size: 10, consumed: 9 }));
    assert!(matches!(parse_chunk_header(b"5"), ChunkHeader::Need));
    assert!(matches!(parse_chunk_header(b"zz\r\n"), ChunkHeader::Bad));
    assert!(matches!(parse_chunk_header(b"\r\n"), ChunkHeader::Bad));
}

#[test]
fn trace_contexts_are_read() {
    let t = parse_traceparent(b"00-0af7651916cd43dd8448eb211c80319c-b7ad6b7169203331-01").unwrap();
    assert_eq!(t.trace_hi, 0x0af7651916cd43dd);
    assert_eq!(t.trace_lo, 0x8448eb211c80319c);
    assert_eq!(t.parent, 0xb7ad6b7169203331);
    assert_eq!(t.flags, 1);
    assert!(parse_traceparent(b"00-xx").is_none());
}

// ── Receiving ───────────────────────────────────────────────────────────

#[test]
fn a_whole_head_is_ready() {
    let routes = vec![route("/a", HANDLER_STATIC)];
    let mut s = slot_with(b"GET /a HTTP/1.1\r\nHost: x\r\n\r\n");
    assert!(matches!(step_recv_request(&mut s, 0, &routes, false, 5), RecvStep::Ready));
    assert_eq!(s.phase, Phase::DispatchRoute);
    assert_eq!(s.req.path, b"/a");
    assert_eq!(s.req.method, METHOD_GET);
    assert!(s.keepalive);
}

#[test]
fn a_head_in_pieces_is_taken_like_a_whole_one() {
    let routes = vec![route("/a", HANDLER_STATIC)];
    let all = b"GET /a HTTP/1.1\r\nHost: x\r\n\r\n";
    let mut s = slot_with(&all[..3]);
    assert!(matches!(step_recv_request(&mut s, 0, &routes, false, 5), RecvStep::Idle));
    s.rx.buf = all[..20].to_vec();
    assert!(matches!(step_recv_request(&mut s, 0, &routes, false, 5), RecvStep::Idle));
    s.rx.buf = all.to_vec();
    assert!(matches!(step_recv_request(&mut s, 0, &routes, false, 5), RecvStep::Ready));
    assert_eq!((s.phase, s.req.path.as_slice()), (Phase::DispatchRoute, &b"/a"[..]));
}

#[test]
fn the_preface_of_http2_is_told_apart() {
    let routes = vec![route("/a", HANDLER_STATIC)];
    let mut s = slot_with(b"PRI * HTTP/2.0\r\n\r\nSM\r\n\r\n");
    assert!(matches!(step_recv_request(&mut s, 0, &routes, false, 5), RecvStep::Http2));
    let mut s = slot_with(b"PRI * HT");
    assert!(matches!(step_recv_request(&mut s, 0, &routes, false, 5), RecvStep::Idle));
    // Too few bytes to tell, whatever follows the first.
    let mut s = slot_with(b"PUT /a HTTP/1.1\r\n\r\n");
    assert!(matches!(step_recv_request(&mut s, 0, &routes, false, 5), RecvStep::Idle));
    assert!(!s.req.parsed);
    assert_eq!(head_asked(&s), None);
    let mut s = slot_with(b"POST /a HTTP/1.1\r\nA: b\r\nContent-Length: 0\r\n\r\n");
    assert!(!matches!(step_recv_request(&mut s, 1000, &routes, false, 5), RecvStep::Idle));
}

#[test]
fn bad_requests_are_refused() {
    let routes = vec![route("/a", HANDLER_STATIC)];
    let cases: [(&[u8], &str); 6] = [
        (b"nonsense\r\n\r\n", "HTTP/1.1 400 Bad Request\r\n"),
        (b"BREW /a HTTP/1.1\r\n\r\n", "HTTP/1.1 501 Not Implemented\r\n"),
        (b"POST /a HTTP/1.1\r\nHost: x\r\n\r\n", "HTTP/1.1 411 Length Required\r\n"),
        (b"POST /a HTTP/1.1\r\nContent-Length: 999999999\r\n\r\n", "HTTP/1.1 413 Content Too Large\r\n"),
        (
            b"POST /a HTTP/1.1\r\nContent-Length: 3\r\nTransfer-Encoding: chunked\r\n\r\n",
            "HTTP/1.1 400 Bad Request\r\n",
        ),
        (b"POST /a HTTP/1.1\r\nContent-Length: 3\r\nContent-Length: 4\r\n\r\n", "HTTP/1.1 400 Bad Request\r\n"),
    ];
    for (bytes, head) in cases {
        let mut s = slot_with(bytes);
        assert!(matches!(step_recv_request(&mut s, 1000, &routes, false, 5), RecvStep::Refused));
        assert_eq!(s.phase, Phase::DrainSend);
        assert!(!s.keepalive);
        assert!(staged(&s).starts_with(head), "{}", staged(&s));
    }
}

#[test]
fn a_head_too_long_is_refused() {
    let routes = vec![route("/a", HANDLER_STATIC)];
    let mut bytes = b"GET /a HTTP/1.1\r\nX: ".to_vec();
    bytes.resize(4096, b'y');
    let mut s = slot_with(&bytes);
    let r = step_recv_request(&mut s, 0, &routes, false, 5);
    assert!(!matches!(r, RecvStep::Ready));
}

#[test]
fn a_waiting_client_gets_an_interim_response() {
    let routes = vec![route("/a", HANDLER_STATIC)];
    let mut s = slot_with(b"POST /a HTTP/1.1\r\nContent-Length: 3\r\nExpect: 100-continue\r\n\r\n");
    assert!(matches!(step_recv_request(&mut s, 1000, &routes, false, 5), RecvStep::Ready));
    assert_eq!(staged(&s), "HTTP/1.1 100 Continue\r\n\r\n");
    assert_eq!(s.phase, Phase::RecvBody);
    assert!(interim_pending(&mut s));
    let n = s.tx.buf.len();
    s.tx.note_sent(n);
    assert!(!interim_pending(&mut s));
}

#[test]
fn a_relayed_body_is_left_unread() {
    let routes = vec![route("/p", HANDLER_PROXY)];
    let mut s = slot_with(b"POST /p HTTP/1.1\r\nContent-Length: 3\r\n\r\nabc");
    assert!(matches!(step_recv_request(&mut s, 1000, &routes, false, 5), RecvStep::Ready));
    assert_eq!(s.phase, Phase::DispatchRoute);
    assert_eq!(s.body.mode, BodyMode::Absent);
}

// ── Bodies ──────────────────────────────────────────────────────────────

#[test]
fn a_body_for_an_unserved_path_is_read() {
    let routes = vec![route("/a", HANDLER_STATIC)];
    let bytes = b"POST /b HTTP/1.1\r\nHost: h\r\nTransfer-Encoding: chunked\r\n\r\nzz\r\n";
    let mut s = slot_with(bytes);
    assert_eq!(head_asked(&s), Some((b"h".to_vec(), b"/b".to_vec())));
    assert!(matches!(step_recv_request(&mut s, 1000, &routes, false, 5), RecvStep::Ready));
    assert_eq!(s.phase, Phase::RecvBody);
    assert!(matches!(step_body(&mut s, 1000), BodyStep::Bad));
    assert!(staged(&s).starts_with("HTTP/1.1 400 "));
    // A dynamic route takes it as it comes.
    let mut s = slot_with(bytes);
    assert!(matches!(step_recv_request(&mut s, 1000, &routes, true, 5), RecvStep::Ready));
    assert_eq!((s.phase, s.body.mode), (Phase::DispatchRoute, BodyMode::Absent));
    // A configured route comes first.
    let mut s = slot_with(b"POST /a HTTP/1.1\r\nContent-Length: 3\r\n\r\n");
    assert!(matches!(step_recv_request(&mut s, 1000, &routes, true, 5), RecvStep::Ready));
    assert_eq!(s.phase, Phase::RecvBody);
    assert_eq!(head_asked(&slot_with(b"GET /a HTTP/1.1\r\nHost: h\r\n")), None);
    assert_eq!(head_asked(&slot_with(b"PRI * HTTP/2.0\r\n\r\nSM\r\n\r\n")), None);
}

#[test]
fn a_body_of_stated_length_is_exact() {
    let routes = vec![route("/a", HANDLER_STATIC)];
    let mut s = slot_with(b"POST /a HTTP/1.1\r\nContent-Length: 5\r\n\r\nhel");
    assert!(matches!(step_recv_request(&mut s, 1000, &routes, false, 5), RecvStep::Ready));
    assert!(matches!(step_body(&mut s, 1000), BodyStep::NeedMore));
    s.rx.buf.extend_from_slice(b"loNEXT");
    assert!(matches!(step_body(&mut s, 1000), BodyStep::Done));
    assert_eq!(s.body.data, b"hello");
    assert_eq!(s.phase, Phase::DispatchRoute);
    assert!(s.rx.buf.ends_with(b"NEXT"));
}

fn read_chunked(pieces: &[&[u8]], limit: u32) -> (BodyStep, Vec<u8>) {
    let mut rx = Inbox::blank();
    let mut s = ConnSlot::blank();
    let head = b"POST / HTTP/1.1\r\nTransfer-Encoding: chunked\r\n\r\n";
    let plan = plan_body(&mut s.body, METHOD_POST, head, limit);
    assert!(matches!(plan, BodyPlan::Read { continue_first: false }));
    let mut last = BodyStep::NeedMore;
    for p in pieces {
        rx.buf.extend_from_slice(p);
        last = step_recv_body(&mut rx, &mut s.body, limit);
        if !matches!(last, BodyStep::NeedMore) {
            break;
        }
    }
    (last, s.body.data)
}

#[test]
fn a_chunked_body_reads_back() {
    let (r, body) = read_chunked(&[b"5\r\nhello\r\n6\r\n world\r\n0\r\n\r\n"], 1000);
    assert!(matches!(r, BodyStep::Done));
    assert_eq!(body, b"hello world");
}

#[test]
fn a_chunked_body_may_be_split_anywhere() {
    let all = b"5\r\nhello\r\n6;x=y\r\n world\r\n0\r\nTrailer: a\r\n\r\n";
    for cut in 1..all.len() {
        let (r, body) = read_chunked(&[&all[..cut], &all[cut..]], 1000);
        assert!(matches!(r, BodyStep::Done));
        assert_eq!(body, b"hello world");
    }
}

#[test]
fn a_chunked_body_has_a_limit_and_a_form() {
    let (r, _) = read_chunked(&[b"5\r\nhello\r\n6\r\n world\r\n0\r\n\r\n"], 10);
    assert!(matches!(r, BodyStep::TooLarge));
    let (r, _) = read_chunked(&[b"5\r\nhelloXX6\r\n"], 1000);
    assert!(matches!(r, BodyStep::Bad));
    let (r, _) = read_chunked(&[b"q\r\n"], 1000);
    assert!(matches!(r, BodyStep::Bad));
}

// ── Responses ───────────────────────────────────────────────────────────

#[test]
fn heads_have_their_exact_text() {
    let mut s = slot_with(b"");
    s.keepalive = true;
    build_header_with_len(&mut s, b"200 OK", b"text/html", 12);
    assert_eq!(
        staged(&s),
        "HTTP/1.1 200 OK\r\nConnection: keep-alive\r\nContent-Type: text/html\r\nContent-Length: 12\r\n\r\n"
    );
    assert!(s.keepalive);
    build_header(&mut s, b"200 OK", b"text/html");
    assert_eq!(staged(&s), "HTTP/1.1 200 OK\r\nConnection: close\r\nContent-Type: text/html\r\n\r\n");
    assert!(!s.keepalive);
    build_error(&mut s, b"404 Not Found", b"Not Found\n");
    assert_eq!(staged(&s), "HTTP/1.1 404 Not Found\r\nConnection: close\r\nContent-Type: text/plain\r\n\r\nNot Found\n");
}

#[test]
fn file_heads_state_ranges() {
    let mut s = slot_with(b"");
    build_header_fs_full(&mut s, b"200 OK", b"text/css", 7);
    assert_eq!(
        staged(&s),
        "HTTP/1.1 200 OK\r\nConnection: close\r\nContent-Type: text/css\r\nAccept-Ranges: bytes\r\nContent-Length: 7\r\n\r\n"
    );
    build_header_fs_partial(&mut s, b"text/css", 2, 5, 100);
    assert_eq!(
        staged(&s),
        "HTTP/1.1 206 Partial Content\r\nConnection: close\r\nContent-Type: text/css\r\nAccept-Ranges: bytes\r\nContent-Range: bytes 2-5/100\r\nContent-Length: 4\r\n\r\n"
    );
    build_error_416(&mut s, 100);
    assert_eq!(
        staged(&s),
        "HTTP/1.1 416 Range Not Satisfiable\r\nConnection: close\r\nContent-Range: bytes */100\r\nContent-Length: 22\r\n\r\nRange Not Satisfiable\n"
    );
}

#[test]
fn framing_fields_are_the_servers_own() {
    assert!(is_framing_header(b"Content-Length: 3"));
    assert!(is_framing_header(b"transfer-encoding: chunked"));
    assert!(is_framing_header(b"Connection: close"));
    assert!(!is_framing_header(b"X-Own: 3"));
}

#[test]
fn a_static_body_is_sent_and_the_connection_kept() {
    let mut s = slot_with(b"");
    s.keepalive = true;
    s.phase = Phase::SendBody;
    s.req.route = Some(4);
    s.cache_retained = true;
    assert!(matches!(step_send_static(&mut s, b"hello"), StaticStep::Piece(p) if p == b"hello"));
    note_static_sent(&mut s, 2);
    assert!(matches!(step_send_static(&mut s, b"hello"), StaticStep::Piece(p) if p == b"llo"));
    note_static_sent(&mut s, 3);
    // A cached body is let go when its emission ends.
    assert!(matches!(step_send_static(&mut s, b"hello"), StaticStep::Finished(Some(4))));
    assert!(!s.cache_retained);
    assert_eq!(s.phase, Phase::RecvRequest);
}

#[test]
fn a_closing_response_ends_the_connection() {
    let mut s = slot_with(b"");
    s.keepalive = false;
    s.phase = Phase::SendBody;
    assert!(matches!(step_send_static(&mut s, b""), StaticStep::Finished(None)));
    assert_eq!(s.phase, Phase::CloseConn);
}

#[test]
fn a_head_request_gets_no_body() {
    let mut s = slot_with(b"");
    s.keepalive = true;
    s.req.method = METHOD_HEAD;
    s.phase = Phase::SendHeaders;
    head_sent(&mut s, HANDLER_STATIC);
    assert_ne!(s.phase, Phase::SendBody);
    let mut s = slot_with(b"");
    s.req.method = METHOD_GET;
    s.phase = Phase::SendHeaders;
    head_sent(&mut s, HANDLER_STATIC);
    assert_eq!(s.phase, Phase::SendBody);
}

#[test]
fn a_template_is_sent_in_pieces() {
    let mut s = slot_with(b"");
    s.phase = Phase::SendBody;
    let vars = VarTable::new();
    assert!(matches!(step_send_template(&mut s, b"plain", &vars), ChunkStep::Staged { more: false }));
    assert_eq!(s.tx.buf, b"plain");
    assert!(matches!(step_send_template(&mut s, b"plain", &vars), ChunkStep::Flush));
    s.tx.note_sent(5);
    assert!(matches!(step_send_template(&mut s, b"plain", &vars), ChunkStep::Ended));
    assert_eq!(s.phase, Phase::CloseConn);
}

#[test]
fn an_index_is_sent_to_its_end() {
    let mut s = slot_with(b"");
    begin_index(&mut s, Some(3), true);
    assert_eq!((s.render.file_count, s.render.index_pos), (3, 0));
    s.tx.clear();
    assert!(step_send_index(&mut s));
    assert_eq!(s.tx.buf, b"0\n1\n2\n");
    s.tx.note_sent(6);
    assert!(!step_send_index(&mut s));
    assert_eq!(s.phase, Phase::CloseConn);
}

#[test]
fn what_is_staged_is_drained_first() {
    let mut s = slot_with(b"");
    s.phase = Phase::DrainSend;
    s.keepalive = true;
    s.tx.stage(b"abc".to_vec());
    s.req.route = Some(2);
    s.cache_retained = true;
    assert!(matches!(step_drain_send(&mut s), (DrainStep::Send, Some(2))));
    s.tx.note_sent(3);
    assert!(matches!(step_drain_send(&mut s), (DrainStep::Finished, None)));
    assert_eq!(s.phase, Phase::RecvRequest);
}

// ── Files ───────────────────────────────────────────────────────────────

#[test]
fn served_files_stay_below_their_directory() {
    assert!(matches!(compose_file_path(b"/srv", b"/a/b.txt"), FilePath::Open(p) if p == b"/srv/a/b.txt"));
    assert!(matches!(compose_file_path(b"/srv", b"/a%20b"), FilePath::Open(p) if p == b"/srv/a b"));
    assert!(matches!(compose_file_path(b"/srv", b"/../etc"), FilePath::Climbs));
    assert!(matches!(compose_file_path(b"/srv", b"/%2e%2e/etc"), FilePath::Climbs));
    assert!(matches!(compose_file_path(b"/srv", b"/a%00b"), FilePath::BadByte));
    assert!(matches!(compose_file_path(b"/srv", &[b'a'; 4000]), FilePath::TooLong));
}

#[test]
fn a_listing_is_an_array_of_names() {
    let mut l = Listing::new();
    l.add_item(b"a.txt");
    l.add_item(b"q\"uote");
    let out = l.finish();
    let text = String::from_utf8(out.clone()).unwrap();
    assert_eq!(text, "{\"items\":[\"a.txt\",\"q\\\"uote\"]}");
    let mut s = slot_with(b"");
    s.keepalive = true;
    stage_listing(&mut s, &out);
    assert!(s.tx.buf.ends_with(&out));
}

#[test]
fn file_types_come_from_the_route_or_the_name() {
    assert_eq!(fs_content_type(b"x/y", b"/a.html"), b"x/y");
    assert_eq!(fs_content_type(b"", b"/a.html"), b"text/html");
    assert_eq!(fs_content_type(b"", b"/a"), b"application/octet-stream");
}

#[test]
fn a_file_is_served_whole_or_in_part() {
    let mut s = slot_with(b"GET /f HTTP/1.1\r\nHost: x\r\n\r\n");
    s.rx.head_end = s.rx.buf.len();
    s.req.method = METHOD_GET;
    fs_opened(&mut s, 5);
    assert_eq!((s.phase, s.render.fd), (Phase::AwaitFsStat, 5));
    let _ = step_fs_stat(&mut s, 0, 100, b"text/plain");
    assert_eq!(s.phase, Phase::SendHeaders);
    assert!(staged(&s).contains("Content-Length: 100\r\n"));

    let mut s = slot_with(b"GET /f HTTP/1.1\r\nRange: bytes=10-19\r\n\r\n");
    s.rx.head_end = s.rx.buf.len();
    s.req.method = METHOD_GET;
    fs_opened(&mut s, 5);
    let r = step_fs_stat(&mut s, 0, 100, b"text/plain");
    assert!(matches!(r, StatStep::Seek { start: 10, end: 19, size: 100 }));
    fs_sought(&mut s, true, 10, 19, 100, b"text/plain");
    assert!(staged(&s).contains("Content-Range: bytes 10-19/100\r\n"));

    let mut s = slot_with(b"GET /f HTTP/1.1\r\nRange: bytes=500-\r\n\r\n");
    s.rx.head_end = s.rx.buf.len();
    s.req.method = METHOD_GET;
    fs_opened(&mut s, 5);
    let r = step_fs_stat(&mut s, 0, 100, b"text/plain");
    assert!(matches!(r, StatStep::CloseFile(5)));
    assert!(staged(&s).starts_with("HTTP/1.1 416"));
}

#[test]
fn a_file_of_unknown_length_is_waited_for() {
    let mut s = slot_with(b"GET /f HTTP/1.1\r\n\r\n");
    s.rx.head_end = s.rx.buf.len();
    fs_opened(&mut s, 5);
    assert!(matches!(step_fs_stat(&mut s, FS_EAGAIN, 0, b""), StatStep::Again));
    assert_eq!(s.phase, Phase::AwaitFsStat);
    s.render.stat_ticks = FS_STAT_PROBE_TIMEOUT_TICKS;
    let _ = step_fs_stat(&mut s, FS_EAGAIN, 0, b"");
    assert_ne!(s.phase, Phase::AwaitFsStat);
}

#[test]
fn no_more_than_the_length_is_read() {
    let mut s = slot_with(b"");
    s.phase = Phase::SendBody;
    s.render.fd = 3;
    s.render.total = 10;
    s.render.sent = 4;
    assert!(matches!(step_send_fs_file(&mut s), FsStep::Read { fd: 3, max: 6 }));
    assert!(matches!(fs_read_done(&mut s, 6, b"abcdef".to_vec()), FsRead::Staged));
    note_fs_sent(&mut s, 6);
    assert_eq!(s.render.sent, 10);
    assert!(matches!(step_send_fs_file(&mut s), FsStep::Complete(3)));
    assert!(fs_round_goes_on(5, 5));
    assert!(!fs_round_goes_on(5, 4));
}

// ── Dispatch ────────────────────────────────────────────────────────────

fn run_dispatch(path: &[u8], mut routes: Vec<Route>, files: bool) -> (ConnSlot, Dispatch) {
    let mut s = slot_with(b"GET / HTTP/1.1\r\n\r\n");
    s.rx.head_end = s.rx.buf.len();
    s.phase = Phase::DispatchRoute;
    s.req.parsed = true;
    s.req.method = METHOD_GET;
    s.req.path = path.to_vec();
    let mut cache = ContentCache::new();
    let mut lock = FileLock::new();
    let mut proxy = ProxyCounters { retries: 0, fives: 0 };
    let d = dispatch(&mut s, &mut routes, &mut cache, &mut lock, &mut proxy, 0, files);
    (s, d)
}

#[test]
fn requests_go_to_their_route() {
    let mut page = route("/", HANDLER_STATIC);
    page.body_len = 4;
    let (s, d) = run_dispatch(b"/", vec![page], false);
    assert!(matches!(d, Dispatch::Done));
    assert_eq!(s.phase, Phase::SendHeaders);
    assert!(staged(&s).contains("Content-Length: 4\r\n"));
    assert_eq!(s.req.route, Some(0));
    let (_, d) = run_dispatch(b"/none", vec![route("/a", HANDLER_STATIC)], false);
    assert!(matches!(d, Dispatch::NoRoute));
    let (s, d) = run_dispatch(b"/t", vec![route("/t", HANDLER_TEMPLATE)], false);
    assert!(matches!(d, Dispatch::Done));
    assert!(!staged(&s).contains("Content-Length"));
}

#[test]
fn file_requests_ask_the_channel() {
    let (_, d) = run_dispatch(b"/f/7", vec![route("/f/", HANDLER_FILE)], true);
    assert!(matches!(d, Dispatch::OpenIndexed { index: 7 }));
    let (s, d) = run_dispatch(b"/f/7", vec![route("/f/", HANDLER_FILE)], false);
    assert!(matches!(d, Dispatch::Done));
    assert!(staged(&s).starts_with("HTTP/1.1 404"));
    let (s, _) = run_dispatch(b"/f/x", vec![route("/f/", HANDLER_FILE)], true);
    assert!(staged(&s).starts_with("HTTP/1.1 400"));
    let mut s = slot_with(b"");
    let mut lock = FileLock::new();
    assert!(lock.try_acquire(4));
    assert!(matches!(dispatch_file(&mut s, 0, FileIndex::File(1), &mut lock, true), Dispatch::Retry));
    file_opened(&mut s, false);
    assert!(staged(&s).starts_with("HTTP/1.1 404"));
}

#[test]
fn without_routes_paths_are_file_numbers() {
    let mut s = slot_with(b"");
    s.req.path = b"/3".to_vec();
    let mut lock = FileLock::new();
    assert!(matches!(step_legacy_file_dispatch(&mut s, &mut lock, 0, true), Dispatch::OpenIndexed { index: 3 }));
    let mut s = slot_with(b"");
    s.req.path = b"/zzz".to_vec();
    let mut lock = FileLock::new();
    assert!(matches!(step_legacy_file_dispatch(&mut s, &mut lock, 0, true), Dispatch::Done));
    assert!(staged(&s).starts_with("HTTP/1.1 400 Bad Request"));
}

#[test]
fn a_gone_peer_ends_its_connection() {
    let mut s = slot_with(b"");
    s.phase = Phase::SendBody;
    s.peer_closed = true;
    let _ = end_if_peer_gone(&mut s);
    assert_eq!(s.phase, Phase::CloseConn);
}

#[test]
fn an_application_that_does_not_answer_is_given_up() {
    let mut shed = ShedMetrics::zero();
    let mut s = slot_with(b"");
    s.phase = Phase::AwaitApp;
    s.app.pending = true;
    s.app.deadline_ms = 100;
    assert!(matches!(step_await_app(&mut s, 99, &mut shed), AwaitStep::Wait));
    assert!(matches!(step_await_app(&mut s, 100, &mut shed), AwaitStep::TimedOut));
    assert!(staged(&s).starts_with("HTTP/1.1 504 Gateway Timeout\r\n"));
    assert_eq!(shed.app_timeouts, 1);
    // Once a response has begun it is cut, not answered again.
    let mut s = slot_with(b"");
    s.phase = Phase::AwaitApp;
    s.app.pending = true;
    s.app.streaming = true;
    s.app.deadline_ms = 100;
    assert!(matches!(step_await_app(&mut s, 100, &mut shed), AwaitStep::Cut));
    assert!(s.tx.buf.is_empty());
    assert_eq!(s.phase, Phase::CloseConn);
}

// ── Proxying ────────────────────────────────────────────────────────────

#[test]
fn a_forwarded_head_names_the_client() {
    let mut s = slot_with(b"GET /p HTTP/1.1\r\nHost: x\r\n\r\n");
    s.rx.head_end = s.rx.buf.len();
    set_client_ip(&mut s, 0x0a000001);
    proxy_build_forward_head(&mut s);
    assert_eq!(staged(&s), "GET /p HTTP/1.1\r\nHost: x\r\nX-Forwarded-For: 10.0.0.1\r\n\r\n");
}

#[test]
fn a_backend_that_refuses_is_tried_once_more() {
    let mut c = ProxyCounters { retries: 0, fives: 0 };
    let mut s = slot_with(b"GET /p HTTP/1.1\r\n\r\n");
    begin_proxy(&mut s, 1, 80, Some(2));
    assert_eq!(s.phase, Phase::ProxyConnect);
    proxy_connect_failed(&mut s, Some((2, 81)), &mut c);
    assert_eq!((s.proxy.ip, s.proxy.port, s.phase), (2, 81, Phase::ProxyConnect));
    proxy_connect_failed(&mut s, Some((3, 82)), &mut c);
    assert!(staged(&s).starts_with("HTTP/1.1 502"));
    assert_eq!((c.retries, c.fives), (1, 1));
}

#[test]
fn a_dial_is_waited_for_and_times_out() {
    let mut s = slot_with(b"");
    begin_proxy(&mut s, 1, 80, None);
    s.phase = Phase::ProxyWaitConnect;
    s.proxy.connect_start_ms = 1000;
    assert!(matches!(step_proxy_wait(&mut s, 10999), DialStep::Wait));
    assert!(matches!(step_proxy_wait(&mut s, 11000), DialStep::Failed));
    s.proxy.connect_failed = false;
    s.proxy.connected = true;
    assert!(matches!(step_proxy_wait(&mut s, 2000), DialStep::Connected));
    assert!(!proxy_dial(s.proxy, 7).is_empty());
}

#[test]
fn a_head_is_forwarded_then_relayed() {
    let mut s = slot_with(b"GET /p HTTP/1.1\r\n\r\n");
    s.rx.head_end = s.rx.buf.len();
    s.phase = Phase::ProxySendRequest;
    s.proxy.conn = Some(77);
    proxy_build_forward_head(&mut s);
    assert!(matches!(step_proxy_send(&mut s), ForwardStep::Send(77)));
    let n = s.tx.buf.len();
    s.tx.note_sent(n);
    assert!(matches!(step_proxy_send(&mut s), ForwardStep::Relaying));
    assert_eq!(s.phase, Phase::ProxyRelayBody);
}

#[test]
fn a_known_host_without_backend_is_answered() {
    let mut c = ProxyCounters { retries: 0, fives: 0 };
    let mut s = slot_with(b"GET /p HTTP/1.1\r\n\r\n");
    s.rx.head_end = s.rx.buf.len();
    assert!(!try_begin_dyn_proxy(&mut s, None, None, &mut c));
    assert!(try_begin_dyn_proxy(&mut s, Some(1), None, &mut c));
    assert!(staged(&s).starts_with("HTTP/1.1 502 Bad Gateway\r\n"));
    assert!(staged(&s).ends_with("\r\n\r\nNo ready backend\n"));
    assert_eq!((c.fives, s.phase), (1, Phase::DrainSend));
    let mut s = slot_with(b"GET /p HTTP/1.1\r\n\r\n");
    s.rx.head_end = s.rx.buf.len();
    assert!(try_begin_dyn_proxy(&mut s, Some(1), Some((5, 90)), &mut c));
    assert_eq!((s.proxy.ip, s.proxy.port, s.phase), (5, 90, Phase::ProxyConnect));
}
