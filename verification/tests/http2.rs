//! HTTP/2 connections.

use http_server::cache::{CacheLookup, ContentCache, FileLock, VarTable};
use http_server::conn::Rendering;
use http_server::h2::{H2State, StreamState, Sub, MAX_STREAMS};
use http_server::h2_app::AwaitingStream;
use http_server::h2_dispatch::H2Act;
use http_server::h2_frames::{handle_ping, peek_frame_complete, FrameStatus};
use http_server::h2_request::{decode_request, FrameDone};
use http_server::h2_send::{H2Step, Piece, Turn};
use http_server::h2_wire::{
    h2_frame_vec, parse_header, write_data, write_goaway, write_headers, write_rst_stream, write_settings,
    write_settings_ack, write_window_update, FrameHead, ERR_COMPRESSION_ERROR, ERR_ENHANCE_YOUR_CALM,
    ERR_FLOW_CONTROL_ERROR, ERR_FRAME_SIZE_ERROR, ERR_INTERNAL_ERROR, ERR_PROTOCOL_ERROR, ERR_REFUSED_STREAM,
    ERR_STREAM_CLOSED, FLAG_ACK, FLAG_END_STREAM, FRAME_CONTINUATION, FRAME_DATA, FRAME_GOAWAY, FRAME_HEADERS,
    FRAME_PING, FRAME_PRIORITY, FRAME_PUSH_PROMISE, FRAME_SETTINGS, SETTINGS_INITIAL_WINDOW_SIZE,
};
use http_server::hpack::{decode_entry, encode_header};
use http_server::method::{METHOD_GET, METHOD_POST};
use http_server::app::EmitResult;
use http_server::routes::{
    Route, HANDLER_APP, HANDLER_FILE, HANDLER_GRPC, HANDLER_PROXY, HANDLER_STATIC, HANDLER_WEBSOCKET,
};
use http_server::site::Site;
use http_server::ws_wire::{write_frame, OP_CLOSE, OP_PING, OP_PONG, OP_TEXT};

fn route(path: &str, handler: u8) -> Route {
    let mut r = Route::new();
    r.path = path.as_bytes().to_vec();
    r.handler = handler;
    r
}

fn routes() -> Vec<Route> {
    vec![
        route("/", HANDLER_STATIC),
        route("/app", HANDLER_APP),
        route("/grpc", HANDLER_GRPC),
        route("/ws", HANDLER_WEBSOCKET),
        route("/files/", HANDLER_FILE),
        route("/proxy", HANDLER_PROXY),
    ]
}

fn block(fields: &[(&str, &str)]) -> Vec<u8> {
    let mut v = Vec::new();
    for (n, x) in fields {
        v.extend_from_slice(&encode_header(n.as_bytes(), x.as_bytes()));
    }
    v
}

fn request(id: u32, method: &str, path: &str, end: bool) -> Vec<u8> {
    write_headers(id, &block(&[(":method", method), (":path", path), ("x-field", "one")]), end)
}

fn active() -> H2State {
    let mut h = H2State::zeroed();
    match h.step(0, false) {
        H2Step::Send { done, .. } => assert!(!done.out.is_empty()),
        _ => panic!("settings expected"),
    }
    h
}

fn feed(h: &mut H2State, bytes: &[u8]) -> FrameDone {
    let mut rx = bytes.to_vec();
    let d = h.process_one_frame(&mut rx, &routes(), 100).unwrap();
    assert!(rx.is_empty());
    d
}

fn headers_of(frame: &[u8]) -> Vec<(Vec<u8>, Vec<u8>)> {
    let h = parse_header(frame).unwrap();
    assert_eq!(h.kind, FRAME_HEADERS);
    let mut at = 9;
    let end = 9 + h.length as usize;
    let mut v = Vec::new();
    while at < end {
        let (f, n) = decode_entry(&frame[at..end]).unwrap();
        if let Some(f) = f {
            v.push((f.name, f.value));
        }
        at += n;
    }
    v
}

fn status_of(frame: &[u8]) -> Vec<u8> {
    headers_of(frame)[0].1.clone()
}

#[test]
fn settings_come_first() {
    let mut h = H2State::zeroed();
    assert_eq!(h.sub, Sub::SendSettings);
    match h.step(0, false) {
        H2Step::Send { done, timed_out } => {
            assert!(!timed_out);
            assert_eq!(done.out, write_settings(&[(2, 0), (3, 4), (1, 0), (8, 1)]));
        },
        _ => panic!("settings expected"),
    }
    assert_eq!(h.sub, Sub::Active);
    assert!(matches!(h.step(0, true), H2Step::Read));
}

#[test]
fn settings_are_acknowledged_and_checked() {
    let mut h = active();
    let d = feed(&mut h, &write_settings(&[(SETTINGS_INITIAL_WINDOW_SIZE, 1000)]));
    assert_eq!(d.out, write_settings_ack());
    assert_eq!(h.peer_window, 1000);
    let d = feed(&mut h, &write_settings_ack());
    assert!(d.out.is_empty() && d.error.is_none());
    assert!(h.settings_acked);

    let mut h = active();
    let d = feed(&mut h, &write_settings(&[(SETTINGS_INITIAL_WINDOW_SIZE, 0x8000_0000)]));
    assert_eq!(d.error, Some(ERR_FLOW_CONTROL_ERROR));
    let mut h = active();
    let d = feed(&mut h, &h2_frame_vec(FRAME_SETTINGS, 0, 0, b"12345"));
    assert_eq!(d.error, Some(ERR_FRAME_SIZE_ERROR));
    let mut h = active();
    let d = feed(&mut h, &h2_frame_vec(FRAME_SETTINGS, FLAG_ACK, 0, b"123456"));
    assert_eq!(d.error, Some(ERR_FRAME_SIZE_ERROR));
    let mut h = active();
    let d = feed(&mut h, &h2_frame_vec(FRAME_SETTINGS, 0, 1, b""));
    assert_eq!(d.error, Some(ERR_PROTOCOL_ERROR));
}

#[test]
fn a_new_initial_window_moves_open_streams() {
    let mut h = active();
    feed(&mut h, &request(1, "POST", "/", false));
    let i = h.slot_for_id(1).unwrap();
    assert_eq!(h.streams[i].send_window, 65535);
    feed(&mut h, &write_settings(&[(SETTINGS_INITIAL_WINDOW_SIZE, 100)]));
    assert_eq!(h.streams[i].send_window, 100);
    feed(&mut h, &write_settings(&[(SETTINGS_INITIAL_WINDOW_SIZE, 65535)]));
    assert_eq!(h.streams[i].send_window, 65535);
}

#[test]
fn pings_are_answered() {
    let mut h = active();
    let d = feed(&mut h, &h2_frame_vec(FRAME_PING, 0, 0, b"abcdefgh"));
    assert_eq!(d.out, h2_frame_vec(FRAME_PING, FLAG_ACK, 0, b"abcdefgh"));
    let d = feed(&mut h, &h2_frame_vec(FRAME_PING, FLAG_ACK, 0, b"abcdefgh"));
    assert!(d.out.is_empty());
    let d = handle_ping(FrameHead { length: 3, kind: FRAME_PING, flags: 0, stream_id: 0 }, b"abc");
    assert_eq!(d.error, Some(ERR_PROTOCOL_ERROR));
}

#[test]
fn a_connection_error_is_told_and_ends_it() {
    let mut h = active();
    feed(&mut h, &request(1, "GET", "/", true));
    for kind in [FRAME_PUSH_PROMISE, FRAME_CONTINUATION] {
        let mut k = active();
        let d = feed(&mut k, &h2_frame_vec(kind, 0, 1, b""));
        assert_eq!(d.error, Some(ERR_PROTOCOL_ERROR));
    }
    let d = feed(&mut h, &h2_frame_vec(FRAME_DATA, 0, 0, b"x"));
    assert_eq!(d.error, Some(ERR_PROTOCOL_ERROR));
    assert_eq!(d.out, write_goaway(1, ERR_PROTOCOL_ERROR));
    assert_eq!(h.sub, Sub::Closing);
    assert!(matches!(h.step(0, true), H2Step::Done));
}

#[test]
fn frames_may_arrive_in_pieces() {
    let all = request(1, "GET", "/", true);
    for cut in 0..all.len() {
        let mut h = active();
        let mut rx = all[..cut].to_vec();
        assert!(h.process_one_frame(&mut rx, &routes(), 100).is_none());
        rx.extend_from_slice(&all[cut..]);
        rx.extend_from_slice(b"tail");
        let d = h.process_one_frame(&mut rx, &routes(), 100).unwrap();
        assert!(d.dispatch);
        assert_eq!(rx, b"tail");
    }
}

#[test]
fn frames_without_an_answer_are_read_on() {
    let mut h = active();
    let mut rx = write_settings_ack();
    rx.extend_from_slice(&write_window_update(0, 5));
    rx.extend_from_slice(&h2_frame_vec(FRAME_PING, 0, 0, b"abcdefgh"));
    rx.extend_from_slice(&request(1, "GET", "/", true));
    let d = h.read_frames(&mut rx, &routes(), 100);
    assert_eq!(d.out, h2_frame_vec(FRAME_PING, FLAG_ACK, 0, b"abcdefgh"));
    assert_eq!((h.settings_acked, h.send_window), (true, 65540));
    let d = h.active(&mut rx, &routes(), 100);
    assert!(d.dispatch && d.is_something());
    assert!(rx.is_empty());
    assert!(!h.active(&mut rx, &routes(), 100).is_something());
    h.consume_recv_window(40000);
    rx.extend_from_slice(&request(3, "GET", "/", true));
    let d = h.active(&mut rx, &routes(), 100);
    assert_eq!(d.out, write_window_update(0, 40000));
    assert!(!rx.is_empty());
}

#[test]
fn a_frame_too_big_to_hold_ends_the_connection() {
    let rx = vec![0x00, 0x40, 0x00, 0, 0, 0, 0, 0, 1];
    assert_eq!(peek_frame_complete(&rx), FrameStatus::TooBig);
    let mut h = active();
    let mut buf = rx;
    let d = h.process_one_frame(&mut buf, &routes(), 100).unwrap();
    assert_eq!(d.error, Some(ERR_FRAME_SIZE_ERROR));
}

#[test]
fn unknown_frames_and_priorities_are_ignored() {
    let mut h = active();
    for kind in [FRAME_PRIORITY, 0x77] {
        let d = feed(&mut h, &h2_frame_vec(kind, 0, 1, b"12345"));
        assert!(d.error.is_none() && d.out.is_empty());
    }
}

#[test]
fn a_request_is_read_from_its_block() {
    let q = decode_request(&block(&[
        (":method", "POST"),
        (":path", "/x"),
        (":scheme", "https"),
        ("a", "1"),
        ("b", "2"),
    ]))
    .unwrap();
    assert_eq!(q.method, Some(METHOD_POST));
    assert_eq!(q.path, b"/x");
    assert!(!q.websocket);
    // No pseudo-header among the fields an application sees.
    assert_eq!(q.fields, b"a: 1\r\nb: 2\r\n");
    assert!(decode_request(&[0x80]).is_none());
}

#[test]
fn a_request_without_a_body_is_ready() {
    let mut h = active();
    let d = feed(&mut h, &request(1, "GET", "/", true));
    assert!(d.dispatch);
    let i = h.slot_for_id(1).unwrap();
    assert_eq!(h.streams[i].state, StreamState::Pending);
    assert_eq!(h.streams[i].method, METHOD_GET);
    assert_eq!(h.next_dispatch(&routes(), 0), Some(i));
}

#[test]
fn bad_requests_reset_their_stream() {
    let mut h = active();
    let d = feed(&mut h, &write_headers(1, &block(&[(":path", "/")]), true));
    assert_eq!(d.out, write_rst_stream(1, ERR_PROTOCOL_ERROR));
    let d = feed(&mut h, &write_headers(3, &block(&[(":method", "GET")]), true));
    assert_eq!(d.out, write_rst_stream(3, ERR_PROTOCOL_ERROR));
    let d = feed(&mut h, &request(5, "BREW", "/", true));
    assert_eq!(status_of(&d.out), b"501");
    let d = feed(&mut h, &request(7, "CONNECT", "/", true));
    assert_eq!(status_of(&d.out), b"501");
    for i in 0..MAX_STREAMS {
        assert_eq!(h.streams[i].state, StreamState::Idle);
    }
}

#[test]
fn bad_headers_end_the_connection() {
    let cases = [
        (request(2, "GET", "/", true), ERR_PROTOCOL_ERROR),
        (h2_frame_vec(FRAME_HEADERS, FLAG_END_STREAM, 1, &block(&[(":method", "GET")])), ERR_PROTOCOL_ERROR),
        (write_headers(1, &[0x80], true), ERR_COMPRESSION_ERROR),
    ];
    for (bytes, code) in cases {
        let mut h = active();
        let d = feed(&mut h, &bytes);
        assert_eq!(d.error, Some(code));
    }
    // Numbers only rise.
    let mut h = active();
    feed(&mut h, &request(5, "GET", "/", true));
    let d = feed(&mut h, &request(3, "GET", "/", true));
    assert_eq!(d.error, Some(ERR_PROTOCOL_ERROR));
}

#[test]
fn a_full_table_refuses_the_next_stream() {
    let mut h = active();
    for k in 0..MAX_STREAMS as u32 {
        feed(&mut h, &request(1 + 2 * k, "POST", "/", false));
    }
    let before = h.last_stream_id;
    let d = feed(&mut h, &request(99, "GET", "/", true));
    assert_eq!(d.out, write_rst_stream(99, ERR_REFUSED_STREAM));
    assert!(d.refused);
    assert_eq!(h.last_stream_id, before);
    assert!(h.slot_for_id(1).is_some());
}

#[test]
fn a_body_is_collected_up_to_its_limit() {
    let mut h = active();
    feed(&mut h, &request(1, "POST", "/", false));
    feed(&mut h, &write_data(1, b"abc", false));
    let d = feed(&mut h, &write_data(1, b"def", true));
    assert!(d.dispatch);
    let i = h.slot_for_id(1).unwrap();
    assert_eq!(h.streams[i].body, b"abcdef");
    assert_eq!(h.streams[i].state, StreamState::Pending);

    feed(&mut h, &request(3, "POST", "/", false));
    let d = feed(&mut h, &write_data(3, &[1u8; 101], false));
    assert_eq!(d.out, write_rst_stream(3, ERR_ENHANCE_YOUR_CALM));
    assert!(h.slot_for_id(3).is_none());
    assert_eq!(h.streams[i].body, b"abcdef");
}

#[test]
fn data_for_no_stream_is_refused() {
    let mut h = active();
    let d = feed(&mut h, &write_data(7, b"abc", false));
    assert_eq!(d.out, write_rst_stream(7, ERR_STREAM_CLOSED));
    assert!(d.error.is_none());
}

#[test]
fn padding_longer_than_its_frame_is_an_error() {
    let mut h = active();
    feed(&mut h, &request(1, "POST", "/", false));
    let d = feed(&mut h, &h2_frame_vec(FRAME_DATA, 0x08, 1, &[9, 1, 2]));
    assert_eq!(d.error, Some(ERR_PROTOCOL_ERROR));
}

#[test]
fn windows_are_raised_by_the_peer() {
    let mut h = active();
    feed(&mut h, &request(1, "POST", "/", false));
    feed(&mut h, &write_window_update(0, 10));
    assert_eq!(h.send_window, 65545);
    feed(&mut h, &write_window_update(1, 20));
    let i = h.slot_for_id(1).unwrap();
    assert_eq!(h.streams[i].send_window, 65555);
    feed(&mut h, &write_window_update(77, 20));
    feed(&mut h, &write_window_update(0, 0x7fff_ffff));
    assert_eq!(h.send_window, i32::MAX);
    let d = feed(&mut h, &write_window_update(0, 0));
    assert_eq!(d.error, Some(ERR_PROTOCOL_ERROR));
    let mut h = active();
    let d = feed(&mut h, &h2_frame_vec(8, 0, 0, b"123"));
    assert_eq!(d.error, Some(ERR_FRAME_SIZE_ERROR));
}

#[test]
fn received_data_is_given_back_to_the_window() {
    let mut h = active();
    feed(&mut h, &request(1, "POST", "/app", false));
    h.consume_recv_window(40000);
    let (out, _) = h.begin_reading();
    assert_eq!(out, write_window_update(0, 40000));
    assert_eq!(h.recv_window, 65535);
    let i = h.slot_for_id(1).unwrap();
    h.consume_slot_recv_window(i, 32767);
    let (out, _) = h.begin_reading();
    assert_eq!(out, write_window_update(1, 32767));
    let (out, _) = h.begin_reading();
    assert!(out.is_empty());
}

#[test]
fn a_reset_stream_leaves_nothing() {
    let mut h = active();
    feed(&mut h, &request(1, "POST", "/", false));
    feed(&mut h, &write_data(1, b"abc", false));
    let i = h.slot_for_id(1).unwrap();
    feed(&mut h, &write_rst_stream(1, 8));
    assert!(h.slot_for_id(1).is_none());
    assert!(h.streams[i].body.is_empty());
    feed(&mut h, &request(3, "POST", "/", false));
    assert_eq!(h.slot_for_id(3), Some(i));
    assert!(h.streams[i].body.is_empty());
}

#[test]
fn a_peer_that_goes_away_is_let_go() {
    let mut h = active();
    feed(&mut h, &request(1, "GET", "/", true));
    feed(&mut h, &h2_frame_vec(FRAME_GOAWAY, 0, 0, &[0u8; 8]));
    assert_eq!(h.sub, Sub::Closing);
    feed(&mut h, &write_rst_stream(1, 8));
    assert_eq!(h.sub, Sub::Closing);
    assert!(matches!(h.step(0, false), H2Step::Done));
}

// ── Dispatch ────────────────────────────────────────────────────────────

struct World {
    routes: Vec<Route>,
    cache: ContentCache,
    lock: FileLock,
}

fn world() -> World {
    World { routes: routes(), cache: ContentCache::new(), lock: FileLock::new() }
}

fn dispatch(h: &mut H2State, w: &mut World, id: u32, files: bool, wired: bool) -> H2Act {
    let i = h.slot_for_id(id).unwrap();
    assert_eq!(h.next_dispatch(&w.routes, i), Some(i));
    h.dispatch_request(i, 2, 50, &mut w.routes, &mut w.cache, &mut w.lock, files, wired)
}

fn settled(a: H2Act) -> FrameDone {
    match a {
        H2Act::Settled(d) => d,
        _ => panic!("settled expected"),
    }
}

#[test]
fn a_page_is_answered_with_headers_then_data() {
    let mut w = world();
    w.routes[0].body_len = 11;
    let mut h = active();
    feed(&mut h, &request(1, "GET", "/", true));
    let d = settled(dispatch(&mut h, &mut w, 1, false, false));
    assert!(d.out.is_empty());
    assert_eq!(h.sub, Sub::SendingBody);
    let mut site = Site::new();
    site.routes = w.routes;
    site.pool = b"hello world".to_vec();
    let mut render = Rendering::none();
    match h.step_sending_body(0) {
        Turn::Headers(d) => {
            assert_eq!(
                headers_of(&d.out),
                vec![
                    (b":status".to_vec(), b"200".to_vec()),
                    (b"content-type".to_vec(), b"text/html".to_vec())
                ]
            );
        },
        _ => panic!("headers expected"),
    }
    match h.step_sending_body(0) {
        Turn::Data { stream, room } => {
            let (bytes, more) = match h.render_piece(stream, &site, &mut render, 5) {
                Piece::Bytes(b, more) => (b, more),
                Piece::ReadFile => panic!("bytes expected"),
            };
            assert!(room > 11);
            assert_eq!((bytes.as_slice(), more), (&b"hello"[..], true));
            let d = h.send_data(stream, &bytes, more);
            assert_eq!(d.out, write_data(1, b"hello", false));
            assert_eq!(h.send_window, 65530);
            assert_eq!(h.streams[stream].send_window, 65530);
            let (bytes, more) = match h.render_piece(stream, &site, &mut render, 100) {
                Piece::Bytes(b, more) => (b, more),
                Piece::ReadFile => panic!("bytes expected"),
            };
            let d = h.send_data(stream, &bytes, more);
            assert_eq!(d.out, write_data(1, b" world", true));
        },
        _ => panic!("data expected"),
    }
    assert!(h.slot_for_id(1).is_none());
    assert!(matches!(h.step_sending_body(0), Turn::Rest));
    assert_eq!(h.sub, Sub::Active);
}

#[test]
fn a_head_request_ends_with_its_headers() {
    let mut w = world();
    let mut h = active();
    feed(&mut h, &request(1, "HEAD", "/", true));
    settled(dispatch(&mut h, &mut w, 1, false, false));
    match h.step_sending_body(0) {
        Turn::Headers(d) => assert_eq!(parse_header(&d.out).unwrap().flags % 2, FLAG_END_STREAM),
        _ => panic!("headers expected"),
    }
    assert!(h.slot_for_id(1).is_none());
}

#[test]
fn streams_take_turns() {
    let mut w = world();
    let mut h = active();
    for id in [1, 3, 5] {
        feed(&mut h, &request(id, "GET", "/", true));
        settled(dispatch(&mut h, &mut w, id, false, false));
    }
    let mut order = Vec::new();
    for _ in 0..3 {
        match h.step_sending_body(0) {
            Turn::Headers(d) => order.push(parse_header(&d.out).unwrap().stream_id),
            _ => panic!("headers expected"),
        }
    }
    assert_eq!(order, vec![1, 3, 5]);
    for want in [1, 3, 5, 1] {
        match h.step_sending_body(0) {
            Turn::Data { stream, .. } => assert_eq!(h.streams[stream].id, want),
            _ => panic!("data expected"),
        }
    }
}

#[test]
fn a_closed_window_stalls_a_stream() {
    let mut w = world();
    let mut h = active();
    feed(&mut h, &write_settings(&[(SETTINGS_INITIAL_WINDOW_SIZE, 0)]));
    feed(&mut h, &request(1, "GET", "/", true));
    settled(dispatch(&mut h, &mut w, 1, false, false));
    assert!(matches!(h.step_sending_body(0), Turn::Headers(_)));
    assert!(matches!(h.step_sending_body(0), Turn::Stalled { .. }));
    feed(&mut h, &write_window_update(1, 7));
    match h.step_sending_body(0) {
        Turn::Data { room, .. } => assert_eq!(room, 7),
        _ => panic!("data expected"),
    }
}

#[test]
fn every_kind_of_route_is_dispatched() {
    let mut w = world();
    let mut h = active();
    feed(&mut h, &request(1, "GET", "/grpc", true));
    let d = settled(dispatch(&mut h, &mut w, 1, false, false));
    assert_eq!(status_of(&d.out), b"200");
    let head_len = 9 + parse_header(&d.out).unwrap().length as usize;
    assert_eq!(&d.out[head_len + 9..head_len + 18], &[0, 0, 0, 0, 4, 0x0a, 2, b'h', b'i']);
    feed(&mut h, &request(3, "GET", "/proxy", true));
    let d = settled(dispatch(&mut h, &mut w, 3, false, false));
    assert_eq!(status_of(&d.out), b"501");
    w.routes.remove(0);
    feed(&mut h, &request(5, "GET", "/missing", true));
    let d = settled(dispatch(&mut h, &mut w, 5, false, false));
    assert_eq!(status_of(&d.out), b"404");
    feed(&mut h, &request(7, "GET", "/app", true));
    let d = settled(dispatch(&mut h, &mut w, 7, false, false));
    assert_eq!(status_of(&d.out), b"503");
    feed(&mut h, &request(9, "GET", "/files/zz", true));
    let d = settled(dispatch(&mut h, &mut w, 9, true, false));
    assert_eq!(status_of(&d.out), b"400");
    feed(&mut h, &request(11, "GET", "/files/1", true));
    let d = settled(dispatch(&mut h, &mut w, 11, false, false));
    assert_eq!(status_of(&d.out), b"404");
    w.lock.owner = Some(200);
    feed(&mut h, &request(13, "GET", "/files/1", true));
    let d = settled(dispatch(&mut h, &mut w, 13, true, false));
    assert_eq!(status_of(&d.out), b"503");
}

#[test]
fn one_stream_at_a_time_uses_the_file_channel() {
    let mut w = world();
    let mut h = active();
    feed(&mut h, &request(1, "GET", "/files/4", true));
    match dispatch(&mut h, &mut w, 1, true, false) {
        H2Act::OpenIndexed { index } => assert_eq!(index, 4),
        _ => panic!("open expected"),
    }
    let i = h.slot_for_id(1).unwrap();
    h.note_file_opened(i, 4, 4, true, 2, &mut w.lock);
    assert_eq!(h.file_owner, Some(i));
    feed(&mut h, &request(3, "GET", "/files/5", true));
    assert_eq!(h.next_dispatch(&w.routes, 0), None);
    feed(&mut h, &request(5, "GET", "/", true));
    assert_eq!(h.next_dispatch(&w.routes, 0), h.slot_for_id(5));
    let d = feed(&mut h, &write_rst_stream(1, 8));
    assert!(d.freed.file);
    assert_eq!(h.next_dispatch(&w.routes, 0), h.slot_for_id(3));
}

#[test]
fn a_file_listing_is_counted_and_sent() {
    let mut w = world();
    let mut h = active();
    feed(&mut h, &request(1, "GET", "/files/", true));
    assert!(matches!(dispatch(&mut h, &mut w, 1, true, false), H2Act::CountFiles));
    let i = h.slot_for_id(1).unwrap();
    let mut render = Rendering::none();
    render.file_count = 2;
    render.index_pos = 0;
    let site = Site::new();
    match h.render_piece(i, &site, &mut render, 100) {
        Piece::Bytes(b, more) => assert_eq!((b.as_slice(), more), (&b"0\n1\n"[..], false)),
        Piece::ReadFile => panic!("lines expected"),
    }
}

#[test]
fn a_body_is_fetched_once_for_a_stream() {
    let mut w = world();
    w.routes[0].source_index = 9;
    let mut h = active();
    feed(&mut h, &request(1, "GET", "/", true));
    match dispatch(&mut h, &mut w, 1, true, false) {
        H2Act::Fetch { source } => assert_eq!(source, 9),
        _ => panic!("fetch expected"),
    }
    let i = h.slot_for_id(1).unwrap();
    assert_eq!(h.streams[i].state, StreamState::Fetching);
    assert_eq!(w.lock.owner, Some(2));
    assert!(matches!(h.step_sending_body(0), Turn::Wait));
    let d = h.settle_fetch(i, 0, true, 2, &mut w.lock);
    assert!(d.out.is_empty());
    assert_eq!(h.streams[i].state, StreamState::Sending);
    assert_eq!((h.file_owner, w.lock.owner), (None, None));
}

#[test]
fn a_failed_fetch_is_answered() {
    let mut w = world();
    w.routes[0].source_index = 9;
    w.lock.owner = Some(100);
    let mut h = active();
    feed(&mut h, &request(1, "GET", "/", true));
    assert!(matches!(dispatch(&mut h, &mut w, 1, true, false), H2Act::Wait));
    let i = h.slot_for_id(1).unwrap();
    let r = h.retry_fetch(i, 0, 2, &mut w.routes, &mut w.cache, &mut w.lock, true);
    assert!(matches!(r, CacheLookup::Busy));
    w.lock.owner = None;
    let r = h.retry_fetch(i, 0, 2, &mut w.routes, &mut w.cache, &mut w.lock, true);
    assert!(matches!(r, CacheLookup::Pending));
    let d = h.settle_fetch(i, 0, false, 2, &mut w.lock);
    assert_eq!(status_of(&d.out), b"500");
    assert!(h.slot_for_id(1).is_none());
}

// ── Applications ────────────────────────────────────────────────────────

fn with_app_request(id: u32) -> (H2State, usize) {
    let mut w = world();
    let mut h = active();
    feed(&mut h, &request(id, "GET", "/app", true));
    let e = match dispatch(&mut h, &mut w, id, false, true) {
        H2Act::Emit(e) => e,
        _ => panic!("envelope expected"),
    };
    assert_eq!(&e[..5], &[50, 0, (id % 256) as u8, (id / 256) as u8, METHOD_GET]);
    assert!(e.ends_with(b"/appx-field: one\r\n"));
    let i = h.slot_for_id(id).unwrap();
    let d = h.note_app_emitted(i, EmitResult::Sent, 1000);
    assert!(d.out.is_empty());
    (h, i)
}

#[test]
fn an_application_answers_its_stream() {
    let (mut h, i) = with_app_request(5);
    assert_eq!(h.find_app_stream(5), Some(i));
    assert_eq!(h.find_app_stream(7), None);
    let d = h.deliver_app_response(i, 201, b"text/x", b"made", false, 2000);
    assert_eq!(status_of(&d.out), b"201");
    assert!(d.out.ends_with(&write_data(5, b"made", true)));
    assert!(h.slot_for_id(5).is_none());
}

#[test]
fn a_streamed_response_has_one_head() {
    let (mut h, i) = with_app_request(5);
    let d = h.deliver_app_response(i, 200, b"", b"one", true, 2000);
    assert_eq!(headers_of(&d.out)[1].1, b"application/octet-stream");
    assert!(d.out.ends_with(&write_data(5, b"one", false)));
    let d = h.deliver_app_response(i, 200, b"", b"two", false, 3000);
    assert_eq!(d.out, write_data(5, b"two", true));
}

#[test]
fn pieces_of_a_response_wait_in_order() {
    let (mut h, i) = with_app_request(5);
    h.streams[i].send_window = 4;
    let d = h.deliver_app_response(i, 200, b"", b"onetwo", true, 2000);
    assert!(d.out.ends_with(&write_data(5, b"onet", false)));
    assert_eq!((h.send_window, h.sub), (65531, Sub::SendingBody));
    // The next piece stays with the application, whose time does not run.
    assert_eq!(h.awaiting_stream(5), Some(AwaitingStream { stream: i, holds: true }));
    assert_eq!(h.awaiting_stream(7), None);
    assert!(h.sweep_app_timeouts(99999).is_none());
    feed(&mut h, &write_window_update(5, 1));
    match h.step_sending_body(4000) {
        Turn::Held(d) => assert_eq!(d.out, write_data(5, b"w", false)),
        _ => panic!("a piece expected"),
    }
    feed(&mut h, &write_window_update(5, 3));
    match h.step_sending_body(5000) {
        Turn::Held(d) => assert_eq!(d.out, write_data(5, b"o", false)),
        _ => panic!("a piece expected"),
    }
    assert_eq!(h.awaiting_stream(5), Some(AwaitingStream { stream: i, holds: false }));
    assert_eq!(h.streams[i].app_deadline_ms, 35000);
    h.deliver_app_response(i, 200, b"", b"three", false, 6000);
    assert_eq!((h.find_app_stream(5), h.streams[i].rest.as_slice()), (None, &b"ree"[..]));
    feed(&mut h, &write_window_update(5, 100));
    match h.step_sending_body(7000) {
        Turn::Held(d) => assert_eq!(d.out, write_data(5, b"ree", true)),
        _ => panic!("the end expected"),
    }
    assert!(h.slot_for_id(5).is_none());
    assert!(matches!(h.step_sending_body(0), Turn::Rest));
}

#[test]
fn a_stream_that_has_sent_what_it_held_waits_for_more() {
    let (mut h, i) = with_app_request(5);
    h.streams[i].send_window = 1;
    h.deliver_app_response(i, 200, b"", b"ab", true, 2000);
    feed(&mut h, &write_window_update(5, 100));
    match h.step_sending_body(0) {
        Turn::Held(d) => assert_eq!(d.out, write_data(5, b"b", false)),
        _ => panic!("a piece expected"),
    }
    assert_eq!((h.streams[i].state, h.find_app_stream(5)), (StreamState::Open, Some(i)));
    let d = h.deliver_app_response(i, 200, b"", b"c", false, 3000);
    assert_eq!(d.out, write_data(5, b"c", true));
}

#[test]
fn a_response_without_content_has_no_body() {
    let (mut h, i) = with_app_request(5);
    let d = h.deliver_app_response(i, 204, b"", b"ignored", false, 2000);
    assert!(d.out.ends_with(&write_data(5, b"", true)));
}

#[test]
fn an_unanswered_stream_times_out_alone() {
    let (mut h, i) = with_app_request(5);
    feed(&mut h, &request(7, "POST", "/", false));
    assert!(h.sweep_app_timeouts(30999).is_none());
    match h.step(31000, false) {
        H2Step::Send { done, timed_out } => {
            assert!(timed_out);
            assert_eq!(status_of(&done.out), b"504");
        },
        _ => panic!("answer expected"),
    }
    assert!(h.slot_for_id(5).is_none());
    assert!(h.slot_for_id(7).is_some());
    // Once a response has begun its stream is reset instead.
    let (mut h, j) = with_app_request(9);
    assert_eq!(i, j);
    h.deliver_app_response(j, 200, b"", b"one", true, 2000);
    let d = h.sweep_app_timeouts(99999).unwrap();
    assert_eq!(d.out, write_rst_stream(9, ERR_INTERNAL_ERROR));
}

#[test]
fn a_full_channel_leaves_the_request_for_later() {
    let mut w = world();
    let mut h = active();
    feed(&mut h, &request(5, "GET", "/app", true));
    assert!(matches!(dispatch(&mut h, &mut w, 5, false, true), H2Act::Emit(_)));
    let i = h.slot_for_id(5).unwrap();
    h.note_app_emitted(i, EmitResult::Full, 1000);
    assert_eq!(h.streams[i].state, StreamState::Pending);
}

// ── WebSockets ──────────────────────────────────────────────────────────

fn upgrade(id: u32, path: &str) -> Vec<u8> {
    write_headers(id, &block(&[(":method", "CONNECT"), (":protocol", "websocket"), (":path", path)]), false)
}

fn masked(opcode: u8, payload: &[u8]) -> Vec<u8> {
    let key = [1u8, 2, 3, 4];
    let mut f = write_frame(true, opcode, payload);
    f[1] += 0x80;
    let mut v = f[..2].to_vec();
    v.extend_from_slice(&key);
    for (i, b) in payload.iter().enumerate() {
        v.push(b ^ key[i % 4]);
    }
    v
}

fn tunnel() -> H2State {
    let mut h = active();
    let d = feed(&mut h, &upgrade(1, "/ws"));
    assert_eq!(headers_of(&d.out), vec![(b":status".to_vec(), b"200".to_vec())]);
    assert_eq!(h.ws_stream, Some(1));
    h
}

#[test]
fn upgrades_need_a_websocket_route() {
    let mut h = active();
    let d = feed(&mut h, &upgrade(1, "/app"));
    assert_eq!(status_of(&d.out), b"404");
    assert_eq!(h.ws_stream, None);
    let mut h = tunnel();
    let d = feed(&mut h, &upgrade(3, "/ws"));
    assert_eq!(d.out, write_rst_stream(3, ERR_REFUSED_STREAM));
    assert_eq!(h.ws_stream, Some(1));
}

#[test]
fn tunnelled_messages_are_echoed() {
    let mut h = tunnel();
    let d = feed(&mut h, &write_data(1, &masked(OP_TEXT, b"Hello"), false));
    assert_eq!(d.out, write_data(1, &write_frame(true, OP_TEXT, b"Hello"), false));
    let d = feed(&mut h, &write_data(1, &masked(OP_PING, b"p"), false));
    assert_eq!(d.out, write_data(1, &write_frame(true, OP_PONG, b"p"), false));
    let d = feed(&mut h, &write_data(1, &masked(OP_PONG, b"p"), false));
    assert!(d.out.is_empty());
}

#[test]
fn tunnelled_messages_may_be_split_and_joined() {
    let mut all = masked(OP_TEXT, b"one");
    all.extend_from_slice(&masked(OP_PONG, b""));
    all.extend_from_slice(&masked(OP_TEXT, b"two"));
    let mut want = write_data(1, &write_frame(true, OP_TEXT, b"one"), false);
    want.extend_from_slice(&write_data(1, &write_frame(true, OP_TEXT, b"two"), false));
    for cut in 0..all.len() {
        let mut h = tunnel();
        let mut got = Vec::new();
        for part in [&all[..cut], &all[cut..]] {
            got.extend_from_slice(&feed(&mut h, &write_data(1, part, false)).out);
            loop {
                let (out, _) = h.begin_reading();
                if out.is_empty() {
                    break;
                }
                got.extend_from_slice(&out);
            }
        }
        assert_eq!(got, want);
    }
}

#[test]
fn tunnels_close() {
    let mut h = tunnel();
    let d = feed(&mut h, &write_data(1, &masked(OP_CLOSE, &[3, 232]), false));
    assert_eq!(d.out, write_data(1, &write_frame(true, OP_CLOSE, &[3, 232]), true));
    assert_eq!(h.ws_stream, None);
    assert!(h.slot_for_id(1).is_none());
    // An unmasked frame breaks the protocol.
    let mut h = tunnel();
    let d = feed(&mut h, &write_data(1, &write_frame(true, OP_TEXT, b"x"), false));
    assert_eq!(d.out, write_data(1, &write_frame(true, OP_CLOSE, &[3, 234]), true));
    // More than can be held.
    let mut h = tunnel();
    let d = feed(&mut h, &write_data(1, &[0u8; 513], false));
    assert_eq!(d.out, write_data(1, &write_frame(true, OP_CLOSE, &[3, 241]), true));
    assert!(h.ws_buf.is_empty());
}

#[test]
fn a_template_is_rendered_for_a_stream() {
    let mut w = world();
    w.routes[0].handler = 1;
    w.routes[0].body_len = 5;
    let mut h = active();
    feed(&mut h, &request(1, "GET", "/", true));
    settled(dispatch(&mut h, &mut w, 1, false, false));
    let mut site = Site::new();
    site.routes = w.routes;
    site.pool = b"hello".to_vec();
    site.vars = VarTable::new();
    let i = h.slot_for_id(1).unwrap();
    match h.render_piece(i, &site, &mut Rendering::none(), 100) {
        Piece::Bytes(b, more) => assert_eq!((b.as_slice(), more), (&b"hello"[..], false)),
        Piece::ReadFile => panic!("bytes expected"),
    }
}
