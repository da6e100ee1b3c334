//! The smaller parts, one by one.

use http_server::bytes::{
    bytes_eq, copy_into, extend, find_byte, get_u16, get_u32, get_u64, is_text, lit, put_u32_decimal, to_lower,
};
use http_server::cache::{ContentCache, FileLock};
use http_server::conn::{BodyReader, ConnSlot, Phase, Rendering, TraceCtx};
use http_server::h1::note_dialled;
use http_server::h1_dispatch::{
    begin_websocket, dir_opened, dispatch_fs_file, dispatch_fs_list, dispatch_page, dispatch_proxy, dispatch_stream,
    emit_settled, not_found, stage_counters, stream_opened, Dispatch,
};
use http_server::h1_fs::{refuse, Listing};
use http_server::h1_send::{
    abandon, begin_page, emit_request_span, file_read, finish_response, release_cached, serving_of, slot_handler,
    step_fetch_content, Serving,
};
use http_server::h1_wire::{find_byte_from, find_crlf, header_values, status_fields_vec, trim};
use http_server::app::EmitResult;
use http_server::h2::{lower_window, raise_window, H2State, StreamSlot, StreamState, Sub};
use http_server::h2_dispatch::note_files_counted;
use http_server::h2_request::FrameDone;
use http_server::h2_send::Turn;
use http_server::h2_response::{answer_head_vec, emit_slot_headers, response_block_vec};
use http_server::h2_wire::{
    get_be16, get_be32, put_be32, write_data, write_headers, write_rst_stream, FrameHead, ERR_FLOW_CONTROL_ERROR,
    ERR_INTERNAL_ERROR, FLAG_END_HEADERS, FLAG_END_STREAM, FRAME_DATA, FRAME_HEADERS, FRAME_SETTINGS,
    FRAME_WINDOW_UPDATE,
};
use http_server::h3::{H3Session, H3State, H3StreamSlot, UniRole, H3_CLOSED_CRITICAL_STREAM, H3_STREAM_CREATION_ERROR};
use http_server::h3_control::{
    control_frame, decode_varint_prefix, local_uni_opened, preamble_done, preamble_open_outstanding,
    uni_control_ingest, uni_ingest,
};
use http_server::h3_dispatch::{dispatch_request_bounded, dispatch_vec, test_decode_and_dispatch_bounded, H3Dispatch};
use http_server::h3_egress::{commit_out, commit_session, session_drain_out, session_preamble_out, stage_next_out, SessCommit};
use http_server::h3_pump::{begin_drain, pump_stream_in, retry_gated_streams, session_has_live_stream};
use http_server::h3_request::{
    decode_request_headers, is_control_stream_frame, is_request_stream_frame, H3Request,
};
use http_server::h3_response::{encode_response_headers, response_vec};
use http_server::h3_stream::H3StreamOutcome;
use http_server::h3_tables::{peer_uni_alloc, peer_uni_slot, session_alloc, session_slot, stream_slot};
use http_server::h3_wire::frame_header_vec;
use http_server::hpack::encode_header;
use http_server::lifecycle::is_past_accept;
use http_server::listeners::{bump, BindStep, DynListeners};
use http_server::method::{METHOD_GET, METHOD_POST};
use http_server::mux::{CMD_MUX_SESSION_CLOSE, CMD_MUX_STREAM_OPEN};
use http_server::net::{record_len, NET_BUF_SIZE};
use http_server::params::SiteConfig;
use http_server::proxy::{
    begin_proxy, dyn_host, is_proxy_relay_phase, note_relayed, note_returned, relay_settle, relay_upstream,
    wants_retry, ProxyCounters,
};
use http_server::qpack::field_vec;
use http_server::reqbody::{body_cap, doubled_to, ensure_capacity, reset_body, BODY_FIRST_CAP, DEFAULT_MAX_BODY};
use http_server::response::{build_app_header, build_app_header_open_ended, status_digits_vec};
use http_server::routes::{
    Route, HANDLER_FILE, HANDLER_FS_LIST, HANDLER_PROXY, HANDLER_STATIC, HANDLER_TEMPLATE, HANDLER_WEBSOCKET, HANDLER_WEBSOCKET_FANOUT,
    HANDLER_WEBSOCKET_SESSION,
};
use http_server::server::Server;
use http_server::site::Site;
use http_server::slots::{ShedMetrics, SlotTable};
use http_server::ws_wire::{write_frame, OP_PING, OP_PONG, OP_TEXT};

fn slot() -> ConnSlot {
    let mut s = ConnSlot::blank();
    s.conn_id = Some(9);
    s.phase = Phase::DispatchRoute;
    s.req.method = METHOD_GET;
    s
}

fn staged(s: &ConnSlot) -> String {
    String::from_utf8(s.tx.buf.clone()).unwrap()
}

// ── Bytes ───────────────────────────────────────────────────────────────

#[test]
fn bytes_are_compared_and_read() {
    assert_eq!(lit("ab"), b"ab");
    assert!(bytes_eq(b"ab", b"ab") && !bytes_eq(b"ab", b"ac") && !bytes_eq(b"a", b"ab"));
    assert!(is_text(b"GET", "GET") && !is_text(b"get", "GET"));
    assert_eq!((to_lower(b'A'), to_lower(b'['), to_lower(b'z')), (b'a', b'[', b'z'));
    assert_eq!(find_byte(b"abc", b'c'), Some(2));
    assert_eq!(find_byte(b"abc", b'd'), None);
    assert_eq!(find_byte_from(b"abca", b'a', 1), 3);
    assert_eq!(find_byte_from(b"abca", b'x', 1), 4);
    let v = [1, 2, 3, 4, 5, 6, 7, 8];
    assert_eq!(get_u16(&v, 1), 0x0302);
    assert_eq!(get_u32(&v, 0), 0x04030201);
    assert_eq!(get_u64(&v, 0), 0x0807060504030201);
    assert_eq!(get_be16(&v, 1), 0x0203);
    assert_eq!(get_be32(&v, 0), 0x01020304);
    let mut out = [0u8; 4];
    copy_into(&mut out, 1, b"xy");
    assert_eq!(&out, b"\0xy\0");
    let mut w = b"a".to_vec();
    extend(&mut w, b"bc");
    put_be32(&mut w, 5);
    assert_eq!(w, b"abc\0\0\0\x05");
    let mut d = Vec::new();
    put_u32_decimal(&mut d, 10, 4096);
    assert_eq!(d, b"4096");
}

#[test]
fn lines_and_values_are_found() {
    assert_eq!(find_crlf(b"ab\r\ncd", 0), 2);
    assert_eq!(find_crlf(b"ab\r", 0), 3);
    assert_eq!(trim(b" \tx y\t "), b"x y");
    let v = header_values(b"GET / HTTP/1.1\r\nA: 1\r\na:2\r\n\r\n", b"a");
    assert_eq!(v, vec![b"1".to_vec(), b"2".to_vec()]);
    assert_eq!(
        status_fields_vec(b"200 OK", b"x/y", true),
        b"HTTP/1.1 200 OK\r\nConnection: keep-alive\r\nContent-Type: x/y"
    );
    assert_eq!(status_digits_vec(42), b"042");
    assert_eq!(status_digits_vec(1000), b"999");
}

// ── Slots ───────────────────────────────────────────────────────────────

#[test]
fn free_slots_are_told_from_used_ones() {
    let s = ConnSlot::blank();
    assert!(s.is_free());
    assert!(!slot().is_free());
    assert!(!is_past_accept(Phase::WaitAccept));
    assert!(is_past_accept(Phase::RecvRequest));
    assert!(!TraceCtx::none().propagated());
    let mut t = SlotTable::new();
    let mut shed = ShedMetrics::zero();
    let a = t.alloc_free_slot(4, true, &mut shed).unwrap();
    t.slots[a].proxy.conn = Some(70);
    t.slots[a].phase = Phase::ProxyRelayBody;
    assert_eq!(t.find_slot_by_backend_conn(70), Some(a));
    assert_eq!(t.find_sentinel_ws_fanout_slot(), None);
    t.slots[a].ws.fan_out = true;
    t.slots[a].phase = Phase::WsActive;
    assert_eq!(t.find_sentinel_ws_fanout_slot(), Some(a));
    assert!(t.claim_dial(a));
    let b = t.alloc_free_slot(5, true, &mut shed).unwrap();
    assert!(!t.claim_dial(b));
    t.release_dial(a);
    assert!(t.claim_dial(b));
}

#[test]
fn data_is_delivered_as_far_as_there_is_room() {
    let mut t = SlotTable::new();
    let mut shed = ShedMetrics::zero();
    let a = t.alloc_free_slot(4, true, &mut shed).unwrap();
    assert_eq!(t.deliver(4, b"abc"), 3);
    assert_eq!(t.slots[a].rx.buf, b"abc");
    t.slots[a].rx.buf = vec![0; 4095];
    assert_eq!(t.deliver(4, b"abc"), 1);
    assert_eq!(t.deliver(5, b"abc"), 0);
}

#[test]
fn bytes_of_the_file_channel_are_counted() {
    let mut s = Server::new(1, false);
    s.note_file_read(7);
    s.note_file_read(5);
    assert_eq!((s.core.bytes_in, s.core.bytes_out), (12, 0));
    s.core.bytes_in = u32::MAX;
    s.note_file_read(2);
    assert_eq!(s.core.bytes_in, 1);
}

#[test]
fn an_identity_is_counted() {
    let mut s = Server::new(1, false);
    assert!(s.note_peer(3, Some(b"id")));
    assert!(!s.note_peer(4, None));
    assert_eq!((s.core.peers_bound, s.core.peers_unbound), (1, 1));
    s.note_short_identity();
    assert_eq!((s.core.peers_bound, s.core.peers_unbound), (1, 2));
    assert_eq!(s.peers.peer_svid(3), Some(b"id".to_vec()));
}

// ── Cache and bodies ────────────────────────────────────────────────────

#[test]
fn the_pool_begins_behind_the_inline_bodies() {
    let mut a = Route::new();
    a.body_offset = 0;
    a.body_len = 30;
    let mut b = Route::new();
    b.body_offset = 30;
    b.body_len = 12;
    let routes = vec![a, b];
    let mut c = ContentCache::new();
    assert!(c.cache_alloc(&routes, 1));
    assert_eq!((c.entries[0].route_index, c.entries[0].length), (1, 0));
    assert_eq!(c.entries[0].arena_offset, 42);
    c.cache_retain_for_route(1);
    assert!(!c.cache_alloc(&routes, 0));
    assert_eq!(c.cache_evict_all(&routes), 42);
    assert!(c.entries.is_empty());
}

#[test]
fn bodies_grow_by_doubling() {
    assert_eq!(body_cap(0), DEFAULT_MAX_BODY);
    assert_eq!(body_cap(7), 7);
    assert_eq!(doubled_to(1024, 5000), 8192);
    let mut b = BodyReader::blank();
    assert!(ensure_capacity(&mut b, 10, 100000));
    assert_eq!(b.reserved, BODY_FIRST_CAP);
    assert!(ensure_capacity(&mut b, 5000, 6000));
    assert_eq!(b.reserved, 6000);
    assert!(!ensure_capacity(&mut b, 6001, 6000));
    b.data = b"abc".to_vec();
    reset_body(&mut b);
    assert!(b.data.is_empty());
}

#[test]
fn pages_begin_with_their_head() {
    let mut s = slot();
    s.keepalive = true;
    begin_page(&mut s, HANDLER_STATIC, b"", 5, true);
    assert!(staged(&s).contains("Content-Type: text/html\r\nContent-Length: 5\r\n"));
    assert!(s.cache_retained);
    assert_eq!(s.phase, Phase::SendHeaders);
    s.req.route = Some(3);
    assert_eq!(release_cached(&mut s), Some(3));
    assert_eq!(release_cached(&mut s), None);
    let mut s = slot();
    begin_page(&mut s, HANDLER_TEMPLATE, b"a/b", 5, false);
    assert!(!staged(&s).contains("Content-Length"));
    assert!(!s.cache_retained);
}

#[test]
fn a_finished_response_leaves_a_fresh_slot() {
    let mut s = slot();
    s.keepalive = true;
    s.req.path = b"/a".to_vec();
    s.req.parsed = true;
    s.body.data = b"old".to_vec();
    s.rx.buf = b"HEADNEXT".to_vec();
    s.rx.head_end = 4;
    finish_response(&mut s);
    assert_eq!((s.phase, s.rx.buf.as_slice()), (Phase::RecvRequest, &b"NEXT"[..]));
    assert!(!s.req.parsed && s.req.path.is_empty() && s.body.data.is_empty());
}

#[test]
fn spans_are_reported_once() {
    let mut s = slot();
    s.span.start_us = 100;
    let r = emit_request_span(&mut s.span, true, true, 90).unwrap();
    assert_eq!((r.start_us, r.end_us, r.ctx.flags), (100, 100, 1));
    assert!(emit_request_span(&mut s.span, true, true, 200).is_none());
    // A caller that decided against it.
    s.span.start_us = 100;
    s.span.ctx.trace_lo = 7;
    s.span.ctx.flags = 0;
    assert!(emit_request_span(&mut s.span, true, true, 200).is_none());
    assert_eq!(s.span.start_us, 0);
}

#[test]
fn fetched_bodies_need_a_channel() {
    let mut s = slot();
    s.phase = Phase::FetchContent;
    assert!(!step_fetch_content(&mut s, true, false));
    assert_eq!(s.phase, Phase::FetchContent);
    assert!(step_fetch_content(&mut s, true, true));
    assert_eq!(s.phase, Phase::CacheStream);
    let mut s = slot();
    assert!(!step_fetch_content(&mut s, false, true));
    assert!(staged(&s).starts_with("HTTP/1.1 500 Internal Server Error\r\n"));
    abandon(&mut s);
    assert_eq!(s.phase, Phase::CloseConn);
}

#[test]
fn a_file_is_read_to_its_end() {
    let mut s = slot();
    s.phase = Phase::SendBody;
    assert!(file_read(&mut s, b"abc".to_vec(), false));
    assert_eq!(s.tx.buf, b"abc");
    s.tx.note_sent(3);
    assert!(!file_read(&mut s, Vec::new(), false));
    assert_eq!(s.phase, Phase::SendBody);
    assert!(!file_read(&mut s, Vec::new(), true));
    assert_ne!(s.phase, Phase::SendBody);
}

#[test]
fn bodies_come_from_where_the_handler_says() {
    let mut s = slot();
    let mut routes = vec![Route::new()];
    assert_eq!(slot_handler(&s, &routes), HANDLER_FILE);
    s.render.file_index = -1;
    assert_eq!(serving_of(&s, &routes), Serving::Index);
    s.render.file_index = 2;
    assert_eq!(serving_of(&s, &routes), Serving::Channel);
    s.req.route = Some(0);
    routes[0].handler = HANDLER_STATIC;
    assert_eq!(serving_of(&s, &routes), Serving::Static(0));
    routes[0].handler = HANDLER_TEMPLATE;
    assert_eq!(serving_of(&s, &routes), Serving::Template(0));
    routes[0].handler = HANDLER_FS_LIST;
    assert_eq!(serving_of(&s, &routes), Serving::File);
    routes[0].handler = HANDLER_PROXY;
    assert_eq!(serving_of(&s, &routes), Serving::Nothing);
}

#[test]
fn records_are_as_long_as_they_say() {
    assert_eq!(record_len(&[1, 5]), None);
    assert_eq!(record_len(&[1, 5, 0]), Some(8));
    assert_eq!(record_len(&[1, 255, 255]), Some(NET_BUF_SIZE));
}

// ── Dispatch ────────────────────────────────────────────────────────────

#[test]
fn each_handler_has_its_answer() {
    let mut s = slot();
    refuse(&mut s, "418 Teapot", "short\n");
    assert_eq!(staged(&s), "HTTP/1.1 418 Teapot\r\nConnection: close\r\nContent-Type: text/plain\r\n\r\nshort\n");
    assert_eq!(s.phase, Phase::DrainSend);
    let mut s = slot();
    not_found(&mut s);
    assert!(staged(&s).starts_with("HTTP/1.1 404 Not Found\r\n"));
    let mut s = slot();
    stage_counters(&mut s, b"pumps 1");
    assert!(staged(&s).ends_with("\r\n\r\npumps 1"));
    let mut s = slot();
    let mut lock = FileLock::new();
    assert!(matches!(dispatch_stream(&mut s, 0, 5, &mut lock, true), Dispatch::OpenStream { source: 5 }));
    stream_opened(&mut s, true, b"");
    assert!(staged(&s).contains("Content-Type: application/octet-stream\r\n"));
    let mut s = slot();
    assert!(matches!(dispatch_stream(&mut s, 0, -1, &mut lock, true), Dispatch::Done));
    assert!(staged(&s).starts_with("HTTP/1.1 500"));
    let mut s = slot();
    stream_opened(&mut s, false, b"");
    assert!(staged(&s).contains("Stream NOTIFY failed"));
}

#[test]
fn filesystem_routes_open_and_list() {
    let mut s = slot();
    assert!(matches!(dispatch_fs_file(&mut s, b"/srv/a"), Dispatch::OpenFile(p) if p == b"/srv/a"));
    let mut s = slot();
    assert!(matches!(dispatch_fs_file(&mut s, b""), Dispatch::Done));
    assert!(staged(&s).contains("FS route missing path"));
    let mut s = slot();
    s.req.path = b"/list".to_vec();
    assert!(matches!(dispatch_fs_list(&mut s, 5, b"/srv"), Dispatch::ListDir(p) if p == b"/srv"));
    let mut s = slot();
    s.req.path = b"/list/a.txt".to_vec();
    assert!(matches!(dispatch_fs_list(&mut s, 5, b"/srv"), Dispatch::OpenFile(p) if p == b"/srv/a.txt"));
    let mut s = slot();
    dir_opened(&mut s, false);
    assert_eq!(s.phase, Phase::DrainSend);
    // A batch of two entries, one of which the filter keeps.
    let mut l = Listing::new();
    let mut batch = vec![2, 0];
    for name in [&b"a.png"[..], &b"b.txt"[..]] {
        batch.push(name.len() as u8);
        batch.push(0);
        batch.extend_from_slice(name);
    }
    let _ = l.add_batch(&batch, b"");
    assert!(!l.add_batch(&[0, 0], b""));
    assert!(l.finish().ends_with(b"]}"));
}

#[test]
fn pages_and_proxies_are_dispatched() {
    let mut s = slot();
    let mut routes = vec![Route::new()];
    routes[0].path = b"/".to_vec();
    let mut cache = ContentCache::new();
    let mut lock = FileLock::new();
    assert!(matches!(dispatch_page(&mut s, 0, 0, &mut routes, &mut cache, &mut lock, true), Dispatch::Done));
    routes[0].source_index = 6;
    let mut s = slot();
    assert!(matches!(
        dispatch_page(&mut s, 0, 0, &mut routes, &mut cache, &mut lock, true),
        Dispatch::Fetch { source: 6 }
    ));
    assert_eq!(s.phase, Phase::FetchContent);
    let mut c = ProxyCounters { retries: 0, fives: 0 };
    let mut s = slot();
    dispatch_proxy(&mut s, 1, 8080, &mut c);
    assert_eq!(s.phase, Phase::ProxyConnect);
    note_dialled(&mut s, 77);
    assert_eq!((s.phase, s.proxy.connect_start_ms), (Phase::ProxyWaitConnect, 77));
    let mut s = slot();
    dispatch_proxy(&mut s, 0, 0, &mut c);
    assert_ne!(s.phase, Phase::ProxyConnect);
}

#[test]
fn applications_that_cannot_be_reached_are_named() {
    let mut s = slot();
    emit_settled(&mut s, EmitResult::Unwired);
    assert!(staged(&s).contains("No application wired to req_out"));
    let mut s = slot();
    emit_settled(&mut s, EmitResult::TooLarge);
    assert!(staged(&s).contains("Request exceeds the req_out ring"));
    let mut s = slot();
    emit_settled(&mut s, EmitResult::Full);
    assert!(s.tx.buf.is_empty());
}

#[test]
fn websocket_kinds_differ() {
    let mut s = slot();
    begin_websocket(&mut s, HANDLER_WEBSOCKET);
    assert!(!s.ws.fan_out && s.phase == Phase::WsHandshake);
    let mut s = slot();
    begin_websocket(&mut s, HANDLER_WEBSOCKET_FANOUT);
    assert!(s.ws.fan_out && !s.ws.replay_done);
    let mut s = slot();
    begin_websocket(&mut s, HANDLER_WEBSOCKET_SESSION);
    assert!(s.ws.fan_out && s.ws.replay_done);
}

#[test]
fn application_heads_state_one_length() {
    let mut s = slot();
    s.keepalive = true;
    build_app_header(&mut s, 200, b"a/b", 7, b"Content-Length: 99\r\nX-Y: z\r\n");
    assert_eq!(
        staged(&s),
        "HTTP/1.1 200\r\nConnection: keep-alive\r\nContent-Type: a/b\r\nContent-Length: 7\r\nX-Y: z\r\n\r\n"
    );
    let mut s = slot();
    build_app_header_open_ended(&mut s, 200, b"a/b", b"X-Y: z\r\n");
    assert_eq!(staged(&s), "HTTP/1.1 200\r\nConnection: close\r\nContent-Type: a/b\r\nX-Y: z\r\n\r\n");
}

// ── Proxy ───────────────────────────────────────────────────────────────

#[test]
fn bytes_are_relayed_both_ways() {
    let mut s = slot();
    begin_proxy(&mut s, 1, 80, Some(0));
    s.phase = Phase::ProxyRelayBody;
    s.proxy.conn = Some(77);
    s.rx.buf = b"upload".to_vec();
    s.proxy.relayed = 0;
    assert_eq!(relay_upstream(&s), Some((77, b"upload".to_vec())));
    note_relayed(&mut s, 2);
    assert_eq!(relay_upstream(&s), Some((77, b"load".to_vec())));
    note_relayed(&mut s, 4);
    assert!(s.rx.buf.is_empty());
    assert_eq!(relay_upstream(&s), None);
    s.tx.stage(b"down".to_vec());
    note_returned(&mut s, 1);
    assert_eq!(s.tx.to_send(), b"own");
    s.proxy.closed = true;
    relay_settle(&mut s);
    assert_eq!(s.phase, Phase::ProxyRelayBody);
    note_returned(&mut s, 3);
    assert_eq!(s.tx.send_remaining(), 0);
    relay_settle(&mut s);
    assert_eq!(s.phase, Phase::CloseConn);
    assert!(is_proxy_relay_phase(Phase::ProxyRelayHeaders) && !is_proxy_relay_phase(Phase::SendBody));
    assert!(wants_retry(s.proxy));
}

#[test]
fn the_host_picks_a_dynamic_route() {
    let mut s = slot();
    s.rx.buf = b"GET / HTTP/1.1\r\nHost: api.example\r\n\r\n".to_vec();
    assert_eq!(dyn_host(&s), None);
    s.rx.head_end = s.rx.buf.len();
    assert_eq!(dyn_host(&s), Some(b"api.example".to_vec()));
}

// ── Configuration ───────────────────────────────────────────────────────

#[test]
fn parameters_reach_their_route() {
    let mut c = SiteConfig::new();
    c.set_routes_prefix(b"routes/");
    c.parse_route_path(0, b"/p");
    c.set_route_handler(0, &[HANDLER_PROXY]);
    c.set_route_proxy_ip(0, &[1, 0, 0, 10]);
    c.set_route_proxy_port(0, &[0x90, 0x1f]);
    c.set_route_source(0, &[0xff, 0xff]);
    c.set_route_fs_filter(0, b".png");
    assert_eq!(c.routes_prefix, b"routes/");
    let site = c.finish();
    let r = &site.routes[0];
    assert_eq!((r.proxy_ip, r.proxy_port, r.source_index), (0x0a000001, 8080, -1));
    assert_eq!(r.fs_filter, b".png");
}

#[test]
fn a_relist_replaces_the_rows_and_keeps_what_is_bound() {
    let mut l = DynListeners::new();
    l.upsert(b"l/8080", b"tls=0", false);
    assert!(matches!(l.bind_step(0, 80), BindStep::Bind { .. }));
    assert!(l.port_is_bound(8080) || l.bound_slot_for(8080).is_some());
    l.clear_shadow();
    l.upsert(b"l/9090", b"tls=0", true);
    l.swap_shadow();
    assert!(l.bound_slot_for(8080).is_some());
    assert!(matches!(l.bind_step(0, 80), BindStep::Bind { port: 9090, .. }));
    let i = l.bound_slot_for(9090).unwrap();
    l.bind_failed(i);
    assert!(l.bound_slot_for(9090).is_none());
    l.remove(b"l/9090", false);
    assert!(matches!(l.bind_step(0, 80), BindStep::Skip));
    assert_eq!((bump(3), bump(u32::MAX)), (4, 0));
}

// ── HTTP/2 ──────────────────────────────────────────────────────────────

#[test]
fn windows_do_not_overflow() {
    assert_eq!(lower_window(10, 20), -10);
    assert_eq!(lower_window(i32::MIN, 1), i32::MIN);
    assert_eq!(raise_window(i32::MAX, 1), i32::MAX);
    assert_eq!(raise_window(5, -10), -5);
}

#[test]
fn streams_are_opened_found_and_ended() {
    let mut h = H2State::zeroed();
    assert_eq!(h.find_state(StreamState::Idle, 0), Some(0));
    h.alloc_slot(0, 7);
    assert_eq!(h.find_state(StreamState::Open, 0), Some(0));
    assert_eq!(h.last_stream_id, 7);
    h.arm_slot_for_emission(0, HANDLER_STATIC, -1, 2, true);
    assert_eq!(h.data_room(0), 4087);
    let f = h.free_stream(0);
    assert_eq!((f.file, f.route), (false, Some(2)));
    assert_eq!(h.find_state(StreamState::Sending, 0), None);
    h.sub = Sub::SendingBody;
    h.rest();
    assert_eq!(h.sub, Sub::Active);
    assert_eq!(StreamSlot::opened(3, StreamState::Open, 9).send_window, 9);
}

#[test]
fn files_are_sent_until_the_channel_hangs_up() {
    let mut h = H2State::zeroed();
    h.alloc_slot(0, 7);
    h.arm_slot_for_emission(0, HANDLER_FILE, 3, 0, false);
    assert_eq!(h.resume_room(0), Some(4087));
    assert!(h.send_file_piece(0, b"", false).out.is_empty());
    assert_eq!(h.send_file_piece(0, b"ab", true).out, write_data(7, b"ab", false));
    assert_eq!(h.send_file_piece(0, b"", true).out, write_data(7, b"", true));
    assert_eq!(h.resume_room(0), None);
    let mut r = Rendering::none();
    r.index_pos = 4;
    note_files_counted(&mut r, Some(9));
    assert_eq!((r.file_count, r.index_pos), (9, 0));
    note_files_counted(&mut r, None);
    assert_eq!(r.file_count, 9);
}

#[test]
fn held_bodies_are_listed_when_a_connection_ends() {
    let mut h = H2State::zeroed();
    h.alloc_slot(0, 7);
    h.arm_slot_for_emission(0, HANDLER_STATIC, -1, 5, true);
    h.alloc_slot(1, 9);
    h.arm_slot_for_emission(1, HANDLER_STATIC, -1, 6, false);
    assert_eq!(h.held_routes(), vec![5]);
    let mut s = Server::new(1, false);
    s.note_stream(true, false);
    s.note_stream(true, true);
    assert_eq!((s.shed.h2_streams_refused, s.shed.app_timeouts), (2, 1));
}

#[test]
fn windows_are_counted_and_refilled() {
    let mut h = H2State::zeroed();
    h.alloc_slot(1, 7);
    h.apply_initial_window_size(1000);
    assert_eq!((h.peer_window, h.streams[1].send_window), (1000, 1000));
    assert_eq!(h.apply_settings(&[0, 4, 0, 0, 0, 9]), None);
    assert_eq!(h.streams[1].send_window, 9);
    assert_eq!(h.apply_settings(&[0, 4, 0x80, 0, 0, 0]), Some(ERR_FLOW_CONTROL_ERROR));
    h.raise_send_window(7, 5);
    assert_eq!(h.streams[1].send_window, 14);
    assert!(h.queue_window_update().is_empty());
}

#[test]
fn handlers_take_their_frames() {
    let mut h = H2State::zeroed();
    let routes = Vec::new();
    let mut block = encode_header(b":method", b"POST");
    block.extend_from_slice(&encode_header(b":path", b"/"));
    let head = FrameHead {
        length: block.len() as u32,
        kind: FRAME_HEADERS,
        flags: FLAG_END_HEADERS,
        stream_id: 1,
    };
    assert!(h.handle_headers(head, &block, &routes).error.is_none());
    assert_eq!(h.streams[0].method, METHOD_POST);
    let d = FrameHead { length: 2, kind: FRAME_DATA, flags: FLAG_END_STREAM, stream_id: 1 };
    assert!(h.handle_data(d, b"ab", 10).dispatch);
    let w = FrameHead { length: 4, kind: FRAME_WINDOW_UPDATE, flags: 0, stream_id: 0 };
    assert!(h.handle_window_update(w, &[0, 0, 0, 1]).error.is_none());
    assert_eq!(h.send_window, 65536);
    let s = FrameHead { length: 0, kind: FRAME_SETTINGS, flags: 1, stream_id: 0 };
    assert!(h.handle_settings(s, &[]).out.is_empty());
    let done = h.end_with(0, b"bye".to_vec());
    assert_eq!(done.out, b"bye");
    assert!(h.handle_rst_stream(1).out.is_empty());
    assert_eq!(FrameDone::failed(3).error, Some(3));
}

#[test]
fn upgrades_and_tunnels_on_their_own() {
    let mut h = H2State::zeroed();
    h.alloc_slot(0, 1);
    h.streams[0].path = b"/ws".to_vec();
    let mut r = Route::new();
    r.path = b"/ws".to_vec();
    r.handler = HANDLER_WEBSOCKET;
    assert!(!h.accept_ws_upgrade(0, &vec![r]).out.is_empty());
    assert_eq!(h.ws_stream, Some(1));
    let (out, _) = h.ws_handle_data(&[0x81, 0x81]);
    assert!(out.is_empty());
    let (out, _) = h.ws_handle_data(&[0, 0, 0, 0, b'x']);
    assert_eq!(out, write_data(1, &write_frame(true, OP_TEXT, b"x"), false));
    let (out, _) = h.ws_drain_buf();
    assert!(out.is_empty());
}

#[test]
fn responses_are_framed() {
    let block = response_block_vec(b"200", b"a/b", Some(3));
    let mut want = write_headers(5, &block, false);
    want.extend_from_slice(&write_data(5, b"abc", true));
    assert_eq!(answer_head_vec(5, b"200", b"a/b", b"abc", true), write_headers(5, &block, false));
    let open = || {
        let mut h = H2State::zeroed();
        h.alloc_slot(0, 5);
        h
    };
    assert_eq!(open().emit_response_framed(0, b"200", b"a/b", b"abc", true, true).out, want);
    assert_eq!(
        open().emit_response_framed(0, b"200", b"a/b", &[0u8; 5000], true, true).out,
        write_rst_stream(5, ERR_INTERNAL_ERROR)
    );
    assert!(open().emit_response(0, "404", "gone\n", false).out.ends_with(&write_data(5, b"", true)));
    assert_eq!(open().emit_data_chunk(0, b"x", true).out, write_data(5, b"x", true));
    assert_eq!(open().emit_data_chunk(0, &[0u8; 5000], true).out, write_rst_stream(5, ERR_INTERNAL_ERROR));
    let mut b = encode_header(b":status", b"200");
    b.extend_from_slice(&encode_header(b"content-type", b"text/html"));
    assert_eq!(emit_slot_headers(5, HANDLER_STATIC, -1, false), write_headers(5, &b, false));
    let g = open().emit_grpc_response(0, b"m", 0).out;
    assert!(g.ends_with(&write_headers(5, &encode_header(b"grpc-status", b"0"), true)));
}

#[test]
fn an_answer_waits_for_the_windows() {
    let mut h = H2State::zeroed();
    h.alloc_slot(0, 5);
    h.streams[0].send_window = 2;
    let d = h.emit_response(0, "404", "gone\n", true);
    assert!(d.out.ends_with(&write_data(5, b"go", false)));
    assert_eq!((h.send_window, h.streams[0].send_window), (65533, 0));
    assert_eq!(h.streams[0].rest, b"ne\n");
    assert_eq!(h.streams[0].state, StreamState::Sending);
    assert_eq!(h.resume_room(0), None);
    assert!(matches!(h.step_sending_body(0), Turn::Stalled { stream: 0 }));
    h.streams[0].send_window = 1;
    match h.step_sending_body(0) {
        Turn::Held(d) => assert_eq!(d.out, write_data(5, b"n", false)),
        _ => panic!("a piece expected"),
    }
    h.streams[0].send_window = 9;
    match h.step_sending_body(0) {
        Turn::Held(d) => assert_eq!(d.out, write_data(5, b"e\n", true)),
        _ => panic!("the end expected"),
    }
    assert_eq!(h.send_window, 65530);
    assert!(h.slot_for_id(5).is_none());
}

#[test]
fn a_closed_window_lets_out_headers_alone() {
    let mut h = H2State::zeroed();
    h.alloc_slot(0, 5);
    h.send_window = 0;
    let d = h.emit_grpc_response(0, b"m", 0);
    let block = response_block_vec(b"200", b"application/grpc", None);
    assert_eq!(d.out, write_headers(5, &block, false));
    h.send_window = 100;
    let d = h.send_held(0, 0);
    let mut want = write_data(5, b"m", false);
    want.extend_from_slice(&write_headers(5, &encode_header(b"grpc-status", b"0"), true));
    assert_eq!(d.out, want);
    assert_eq!(h.send_window, 99);
    assert!(h.slot_for_id(5).is_none());
}

#[test]
fn a_tunnel_waits_for_the_windows() {
    let mut h = H2State::zeroed();
    h.alloc_slot(0, 1);
    h.streams[0].path = b"/ws".to_vec();
    let mut r = Route::new();
    r.path = b"/ws".to_vec();
    r.handler = HANDLER_WEBSOCKET;
    h.accept_ws_upgrade(0, &vec![r]);
    h.streams[0].send_window = 2;
    let (out, _) = h.ws_handle_data(&[0x81, 0x81, 0, 0, 0, 0, b'x']);
    assert!(out.is_empty());
    h.streams[0].send_window = 4;
    let (out, _) = h.ws_drain_buf();
    assert_eq!(out, write_data(1, &write_frame(true, OP_TEXT, b"x"), false));
    assert_eq!((h.send_window, h.streams[0].send_window), (65532, 1));
    // No room for the close of a bad tunnel.
    let (out, _) = h.ws_handle_data(&[0x81, 0x01, b'x']);
    assert_eq!(out, write_rst_stream(1, ERR_INTERNAL_ERROR));
    assert_eq!(h.ws_stream, None);
}

// ── HTTP/3 ──────────────────────────────────────────────────────────────

fn site() -> Site {
    let mut s = Site::new();
    let mut a = Route::new();
    a.path = b"/".to_vec();
    a.handler = HANDLER_STATIC;
    a.body_len = 5;
    s.routes.push(a);
    s.pool = b"hello".to_vec();
    s
}

fn block(fields: &[(&str, &str)]) -> Vec<u8> {
    let mut v = vec![0, 0];
    for (n, x) in fields {
        v.extend_from_slice(&field_vec(n.as_bytes(), x.as_bytes()));
    }
    v
}

fn get() -> Vec<u8> {
    block(&[(":method", "GET"), (":scheme", "https"), (":authority", "a"), (":path", "/")])
}

fn framed(kind: u64, payload: &[u8]) -> Vec<u8> {
    let mut v = frame_header_vec(kind, payload.len() as u64);
    v.extend_from_slice(payload);
    v
}

#[test]
fn frame_kinds_have_their_streams() {
    assert!(is_request_stream_frame(0) && is_request_stream_frame(1) && is_request_stream_frame(0x40));
    assert!(!is_request_stream_frame(4));
    assert!(is_control_stream_frame(4) && is_control_stream_frame(7) && !is_control_stream_frame(0));
    assert_eq!(decode_varint_prefix(&[0x40, 0x25]), Some((37, 2)));
    assert_eq!(decode_varint_prefix(&[0x40]), None);
}

#[test]
fn control_streams_are_read() {
    let mut s = H3Session::empty();
    s.is_h3 = true;
    assert_eq!(peer_uni_alloc(&mut s, 30), Some(0));
    assert_eq!(peer_uni_slot(&s, 30), Some(0));
    assert_eq!(peer_uni_slot(&s, 31), None);
    assert_eq!(uni_ingest(&mut s, 0, &[0x00]), None);
    assert_eq!(s.peer_uni[0].role, UniRole::Control);
    assert_eq!(uni_control_ingest(&mut s, 0, &framed(4, &[])), None);
    assert!(s.peer_settings_seen);
    assert_eq!(control_frame(&mut s, 7, &[8]), None);
    assert!(s.peer_goaway && s.peer_goaway_id == 8);
    assert!(control_frame(&mut s, 7, &[12]).is_some());
    // A second control stream.
    assert_eq!(peer_uni_alloc(&mut s, 31), Some(1));
    assert_eq!(uni_ingest(&mut s, 1, &[0x00]), Some(H3_STREAM_CREATION_ERROR));
    assert!(H3_CLOSED_CRITICAL_STREAM != H3_STREAM_CREATION_ERROR);
}

#[test]
fn a_session_opens_its_streams_in_turn() {
    let mut s = H3Session::empty();
    s.allocated = true;
    s.session_id = 1;
    s.is_h3 = true;
    assert!(!preamble_done(&s) && !preamble_open_outstanding(&s));
    let mut out = [0u8; 64];
    let (n, what) = session_preamble_out(&s, &mut out).unwrap();
    assert_eq!((out[0], what), (CMD_MUX_STREAM_OPEN, SessCommit::UniOpening(0)));
    assert!(n > 3);
    commit_session(&mut s, what);
    assert!(preamble_open_outstanding(&s));
    assert!(session_preamble_out(&s, &mut out).is_none());
    local_uni_opened(&mut s, 40, 0);
    assert_eq!(s.ctrl.handle, 40);
    assert!(!preamble_open_outstanding(&s));
    let mut fresh = H3Session::empty();
    fresh.allocated = true;
    fresh.session_id = 1;
    let (_, what) = session_drain_out(&fresh, &mut out).unwrap();
    assert_eq!((out[0], what), (CMD_MUX_SESSION_CLOSE, SessCommit::Closed));
}

#[test]
fn tables_hold_sessions_and_streams() {
    let mut st = H3State::new();
    assert_eq!(session_alloc(&mut st, 5), Some(0));
    assert_eq!(session_alloc(&mut st, 6), Some(1));
    assert_eq!(session_alloc(&mut st, 7), None);
    assert_eq!(session_slot(&st, 6), Some(1));
    assert_eq!(session_slot(&st, 9), None);
    assert_eq!(st.slot_for(5, 100), Some(0));
    assert_eq!(st.slot_for(6, 100), Some(1));
    assert_eq!(st.slot_for(5, 100), Some(0));
    assert_eq!(stream_slot(&st, 6, 100), Some(1));
    assert!(session_has_live_stream(&st, 1));
    st.slots[1].release();
    assert!(!session_has_live_stream(&st, 1));
    assert_eq!(st.slots[0].pending_out(), 0);
}

#[test]
fn headers_and_responses_are_written_whole() {
    let mut out = [0u8; 64];
    let n = encode_response_headers(b"200", &[(b"a", b"b")], &mut out);
    assert!(n > 2);
    let mut small = [0u8; 3];
    assert_eq!(encode_response_headers(b"200", &[(b"a", b"b")], &mut small), 0);
    assert_eq!(small, [0, 0, 0]);
    assert!(response_vec(b"200", &[], b"body", 64).is_some());
    assert!(response_vec(b"200", &[], b"body", 4).is_none());
}

#[test]
fn dispatch_is_bounded() {
    let s = site();
    let mut req = H3Request::empty();
    decode_request_headers(&get(), &mut req).unwrap();
    let (what, bytes) = dispatch_vec(&s, &req, 500, 500, u32::MAX);
    assert!(matches!(what, H3Dispatch::Response(n) if n == bytes.len()));
    let mut out = [0u8; 500];
    assert!(matches!(dispatch_request_bounded(&s, &req, &mut out, 500, u32::MAX), H3Dispatch::Response(_)));
    assert!(matches!(dispatch_request_bounded(&s, &req, &mut out[..8], 500, u32::MAX), H3Dispatch::TooLarge));
    assert!(matches!(
        test_decode_and_dispatch_bounded(&s, &get(), &mut out, 500, u32::MAX),
        Ok(H3Dispatch::Response(_))
    ));
}

#[test]
fn a_stream_on_its_own() {
    let s = site();
    let mut x = H3StreamSlot::empty();
    x.allocated = true;
    let f = framed(1, &get());
    assert_eq!(x.request_in(&s, &f[..4], false, u32::MAX), H3StreamOutcome::Buffered);
    assert!(matches!(x.request_in(&s, &f[4..], false, u32::MAX), H3StreamOutcome::Responded(_)));
    assert!(x.pending_out() > 0);
    let mut w = H3StreamSlot::empty();
    w.allocated = true;
    w.ws_active = true;
    w.ws_queue_frame(OP_TEXT, b"hi");
    assert_eq!(w.send_buf, framed(0, &write_frame(true, OP_TEXT, b"hi")));
    let mut w = H3StreamSlot::empty();
    w.allocated = true;
    w.ws_active = true;
    assert_eq!(w.ws_drain_payload(&[0x89, 0x80, 0, 0, 0, 0]), None);
    assert_eq!(w.send_buf, framed(0, &write_frame(true, OP_PONG, b"")));
    assert!(OP_PING != OP_PONG);
    let mut w = H3StreamSlot::empty();
    w.allocated = true;
    w.ws_active = true;
    assert!(matches!(w.ws_queue_close(1000), H3StreamOutcome::WebSocketClosed(1000)));
    let mut w = H3StreamSlot::empty();
    w.allocated = true;
    w.ws_active = true;
    let d = framed(0, &[0x81, 0x81, 0, 0, 0, 0, b'x']);
    assert!(matches!(w.ws_stream_in(&d), H3StreamOutcome::WebSocketFrame(_)));
}

#[test]
fn streams_are_pumped_and_drained() {
    let s = site();
    let mut st = H3State::new();
    session_alloc(&mut st, 5);
    st.sessions[0].is_h3 = true;
    st.sessions[0].peer_settings_seen = true;
    st.sessions[0].peer_max_field_section = u32::MAX;
    let f = framed(1, &get());
    assert!(matches!(pump_stream_in(&mut st, &s, 5, 9, &f), H3StreamOutcome::Responded(_)));
    assert_eq!(retry_gated_streams(&mut st, &s), None);
    st.draining = true;
    begin_drain(&mut st);
    let mut out = [0u8; 2048];
    let (n, what) = stage_next_out(&st, &mut out).unwrap();
    assert!(n > 0);
    commit_out(&mut st, what);
}
