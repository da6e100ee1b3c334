//! HTTP/3 sessions and streams.

use http_server::h3::{
    H3Session, H3State, H3_FRAME_UNEXPECTED, H3_ID_ERROR, H3_MESSAGE_ERROR, H3_MISSING_SETTINGS, H3_SETTINGS_ERROR,
    MAX_H3_STREAMS,
};
use http_server::h3_control::{
    build_local_settings, classify_uni_stream_prefix, parse_peer_settings, qpack_instruction_ingest, uni_ingest,
};
use http_server::h3_dispatch::{test_decode_and_dispatch, test_decode_and_dispatch_limited, H3Dispatch};
use http_server::h3_egress::{pump_next_out, stage_next_out, test_mux_frame};
use http_server::h3_pump::{pump_mux_frame, step_ingress, test_pump_mux_frame, test_retry_gated_streams};
use http_server::h3_request::{decode_request_headers, ingest_request_frame, H3Error, H3Ingest, H3Request, H3_METHOD_GET};
use http_server::h3_response::{build_response, field_section_size, fits_peer_field_limit};
use http_server::h3_step::{begin_step, step_done, take_mux_frame, H3Tally};
use http_server::h3_stream::H3StreamOutcome;
use http_server::h3_tables::peer_uni_alloc;
use http_server::h3_wire::{frame_header_vec, parse_h3_frame};
use http_server::mux::{
    CMD_MUX_SESSION_CLOSE, CMD_MUX_STREAM_CLOSE, CMD_MUX_STREAM_OPEN, CMD_MUX_STREAM_RESET, CMD_MUX_STREAM_SEND, MSG_MUX_SESSION_CLOSED,
    MSG_MUX_SESSION_OPENED, MSG_MUX_STREAM_ACCEPTED, MSG_MUX_STREAM_OPENED, MSG_MUX_STREAM_RX,
    MUX_QUIC_STREAM_RX_FRAME_MAX,
};
use http_server::qpack::{field_vec, qpack_decode_field};
use http_server::routes::{Route, HANDLER_PROXY, HANDLER_STATIC, HANDLER_WEBSOCKET};
use http_server::site::Site;
use http_server::ws_wire::{write_frame, OP_TEXT};

fn site() -> Site {
    let mut s = Site::new();
    let mut a = Route::new();
    a.path = b"/".to_vec();
    a.handler = HANDLER_STATIC;
    a.body_len = 5;
    a.content_type = b"text/plain".to_vec();
    let mut b = Route::new();
    b.path = b"/proxy".to_vec();
    b.handler = HANDLER_PROXY;
    let mut c = Route::new();
    c.path = b"/ws".to_vec();
    c.handler = HANDLER_WEBSOCKET;
    s.routes.push(a);
    s.routes.push(b);
    s.routes.push(c);
    s.pool = b"hello".to_vec();
    s
}

fn block(fields: &[(&str, &str)]) -> Vec<u8> {
    let mut v = vec![0, 0];
    for (n, x) in fields {
        v.extend_from_slice(&field_vec(n.as_bytes(), x.as_bytes()));
    }
    v
}

fn get(path: &str) -> Vec<u8> {
    block(&[(":method", "GET"), (":scheme", "https"), (":authority", "a"), (":path", path)])
}

fn framed(kind: u64, payload: &[u8]) -> Vec<u8> {
    let mut v = frame_header_vec(kind, payload.len() as u64);
    v.extend_from_slice(payload);
    v
}

/// A record's payload, as the transport hands it over.
fn payload(kind: u8, session: u32, stream: u32, data: &[u8]) -> Vec<u8> {
    test_mux_frame(kind, session, stream, data)[3..].to_vec()
}

fn send(st: &mut H3State, site: &Site, kind: u8, stream: u32, data: &[u8]) -> H3StreamOutcome {
    step_ingress(st, site, kind, &payload(kind, 1, stream, data))
}

fn open_session(st: &mut H3State, site: &Site) {
    let mut p = vec![1, 0, 0, 0];
    p.extend_from_slice(&[0, 0, 2]);
    p.extend_from_slice(b"h3");
    assert_eq!(pump_mux_frame(st, site, MSG_MUX_SESSION_OPENED, &p), H3StreamOutcome::SessionEvent);
}

fn accept(st: &mut H3State, site: &Site, stream: u32, uni: bool, quic: u64) -> H3StreamOutcome {
    let mut d = vec![if uni { 1 } else { 0 }];
    d.extend_from_slice(&quic.to_le_bytes());
    send(st, site, MSG_MUX_STREAM_ACCEPTED, stream, &d)
}

/// Take every record the endpoint has to send, answering its opens.
fn drain(st: &mut H3State, site: &Site) -> Vec<(u8, Vec<u8>)> {
    let mut all = Vec::new();
    let mut handle = 1000;
    for _ in 0..200 {
        let mut out = vec![0u8; 4096];
        match pump_next_out(st, &mut out) {
            None => break,
            Some(n) => {
                let kind = out[0];
                all.push((kind, out[3..n].to_vec()));
                if kind == CMD_MUX_STREAM_OPEN {
                    handle += 1;
                    assert_eq!(send(st, site, MSG_MUX_STREAM_OPENED, handle, &[0]), H3StreamOutcome::SessionEvent);
                }
            },
        }
    }
    all
}

fn peer_settings(st: &mut H3State, site: &Site) {
    accept(st, site, 500, true, 2);
    let mut ctrl = vec![0x00];
    ctrl.extend_from_slice(&framed(4, &[]));
    assert_eq!(send(st, site, MSG_MUX_STREAM_RX, 500, &ctrl), H3StreamOutcome::SessionEvent);
}

fn ready() -> (H3State, Site) {
    let mut st = H3State::new();
    let s = site();
    open_session(&mut st, &s);
    drain(&mut st, &s);
    peer_settings(&mut st, &s);
    (st, s)
}

#[test]
fn a_request_is_decoded() {
    let mut req = H3Request::empty();
    assert_eq!(decode_request_headers(&get("/x"), &mut req), Ok(4));
    assert_eq!(req.method_kind, H3_METHOD_GET);
    assert_eq!(req.path_bytes(), b"/x");
    assert_eq!(req.authority_bytes(), b"a");
}

#[test]
fn malformed_requests_are_refused() {
    let cases = [
        block(&[(":method", "GET"), (":scheme", "https"), (":authority", "a")]),
        block(&[(":method", "GET"), (":method", "GET"), (":scheme", "https"), (":authority", "a"), (":path", "/")]),
        block(&[
            (":method", "GET"),
            (":scheme", "https"),
            (":path", "/"),
            (":protocol", "websocket"),
            (":protocol", "other"),
        ]),
        block(&[("x", "y"), (":method", "GET"), (":scheme", "https"), (":authority", "a"), (":path", "/")]),
        block(&[(":method", "GET"), (":scheme", "https"), (":authority", "a"), (":path", "/"), ("X-Upper", "y")]),
    ];
    for b in cases {
        let mut req = H3Request::empty();
        assert_eq!(decode_request_headers(&b, &mut req), Err(H3Error::MessageError));
    }
    let mut req = H3Request::empty();
    assert_eq!(decode_request_headers(&[0, 0, 0x80], &mut req), Err(H3Error::QpackFailed));
    assert_eq!(H3Error::MessageError.code(), H3_MESSAGE_ERROR);
    assert_eq!(H3Error::FrameUnexpected.code(), H3_FRAME_UNEXPECTED);
}

#[test]
fn request_frames_are_taken_one_by_one() {
    let mut req = H3Request::empty();
    let f = framed(1, &get("/"));
    assert!(matches!(ingest_request_frame(&f, &mut req), (H3Ingest::Headers, n) if n == f.len()));
    assert!(matches!(ingest_request_frame(&f[..f.len() - 1], &mut req), (H3Ingest::NeedMore, _)));
    let d = framed(0, b"body");
    assert!(matches!(ingest_request_frame(&d, &mut req), (H3Ingest::Data(2, 6), 6)));
    let s = framed(4, b"");
    assert!(matches!(ingest_request_frame(&s, &mut req), (H3Ingest::Error(H3Error::FrameUnexpected), _)));
}

#[test]
fn a_response_reads_back() {
    let mut out = [0u8; 256];
    let n = build_response(b"200", &[(b"content-type", b"text/plain")], b"hello", &mut out);
    let (head, used) = parse_h3_frame(&out[..n]).unwrap();
    assert_eq!(head.frame_type, 1);
    let f = qpack_decode_field(&head.payload[2..], 64).unwrap();
    assert_eq!((f.name.as_slice(), f.value.as_slice()), (&b":status"[..], &b"200"[..]));
    let (data, _) = parse_h3_frame(&out[used..n]).unwrap();
    assert_eq!((data.frame_type, data.payload), (0, &b"hello"[..]));
    let mut small = [0u8; 10];
    assert_eq!(build_response(b"200", &[], b"hello world", &mut small), 0);
}

#[test]
fn a_field_section_has_a_size() {
    assert_eq!(field_section_size(b"200", &[(b"ab", b"cde")]), (7 + 3 + 32) + (2 + 3 + 32));
    assert!(fits_peer_field_limit(79, b"200", &[(b"ab", b"cde")]));
    assert!(!fits_peer_field_limit(78, b"200", &[(b"ab", b"cde")]));
    assert!(fits_peer_field_limit(u32::MAX, b"200", &[]));
}

#[test]
fn requests_are_dispatched_to_routes() {
    let s = site();
    let mut out = [0u8; 1024];
    assert!(matches!(test_decode_and_dispatch(&s, &get("/"), &mut out), Ok(H3Dispatch::Response(n)) if n > 0));
    assert!(matches!(
        test_decode_and_dispatch(&s, &get("/proxy"), &mut out),
        Ok(H3Dispatch::HandlerNotShared(_, HANDLER_PROXY))
    ));
    let mut bare = site();
    bare.routes.remove(0);
    assert!(matches!(test_decode_and_dispatch(&bare, &get("/zz"), &mut out), Ok(H3Dispatch::NotFound(_))));
    let mut small = [0u8; 4];
    assert!(matches!(test_decode_and_dispatch(&s, &get("/"), &mut small), Ok(H3Dispatch::TooLarge)));
    assert!(matches!(
        test_decode_and_dispatch_limited(&s, &get("/"), &mut out, 10),
        Ok(H3Dispatch::PeerFieldLimit)
    ));
}

#[test]
fn settings_are_read_and_checked() {
    let p = parse_peer_settings(&[0x06, 0x40, 0x64, 0x08, 0x01]).unwrap();
    assert_eq!(p.max_field_section_size, 100);
    assert!(p.enable_connect_protocol);
    // Absent means no limit; an unknown setting is passed over.
    assert_eq!(parse_peer_settings(&[0x21, 0x00]).unwrap().max_field_section_size, u32::MAX);
    // One given twice, one out of its range, one cut short.
    assert!(parse_peer_settings(&[0x06, 0x01, 0x06, 0x01]).is_none());
    assert!(parse_peer_settings(&[0x08, 0x02]).is_none());
    assert!(parse_peer_settings(&[0x06]).is_none());
    assert!(parse_peer_settings(&build_local_settings()).is_some());
}

#[test]
fn stream_types_and_instructions() {
    assert_eq!(classify_uni_stream_prefix(&[0x00, 9]), Some((0, 1)));
    assert_eq!(classify_uni_stream_prefix(&[0x40]), None);
    // No dynamic table: nothing may be inserted, and nothing acknowledged.
    assert_eq!(qpack_instruction_ingest(&[0x20], true), None);
    assert!(qpack_instruction_ingest(&[0x80, 0x00], true).is_some());
    assert!(qpack_instruction_ingest(&[0x80], false).is_some());
}

#[test]
fn the_preamble_opens_one_stream_at_a_time() {
    let mut st = H3State::new();
    let s = site();
    open_session(&mut st, &s);
    let mut out = vec![0u8; 4096];
    let n = pump_next_out(&mut st, &mut out).unwrap();
    assert_eq!(out[0], CMD_MUX_STREAM_OPEN);
    assert!(n >= 3);
    // Nothing more before the transport has answered.
    assert!(pump_next_out(&mut st, &mut out).is_none());
    send(&mut st, &s, MSG_MUX_STREAM_OPENED, 900, &[0]);
    let n = pump_next_out(&mut st, &mut out).unwrap();
    assert_eq!(out[0], CMD_MUX_STREAM_SEND);
    // The control stream: its type, then our settings.
    assert!(out[..n].windows(2).any(|w| w == [0x00, 0x04]));
}

#[test]
fn a_lone_response_is_sent_whole_and_closed_once() {
    for cap in [12, 19, 100] {
        let mut st = H3State::new();
        st.slots[2].allocated = true;
        st.slots[2].session_id = 9;
        st.slots[2].stream_id = 4;
        st.slots[2].send_buf = (0..200).map(|i| i as u8).collect();
        let mut body = Vec::new();
        let mut closes = 0;
        let mut out = vec![0u8; cap];
        while let Some(n) = pump_next_out(&mut st, &mut out) {
            assert_eq!(&out[3..11], &[9, 0, 0, 0, 4, 0, 0, 0]);
            if out[0] == CMD_MUX_STREAM_SEND {
                assert_eq!(closes, 0);
                body.extend_from_slice(&out[11..n]);
            } else {
                assert_eq!(out[0], CMD_MUX_STREAM_CLOSE);
                closes += 1;
            }
        }
        assert_eq!(body, (0..200).map(|i| i as u8).collect::<Vec<u8>>());
        assert_eq!(closes, 1);
        assert!(!st.slots[2].allocated);
    }
}

#[test]
fn a_control_stream_may_be_cut_anywhere() {
    let mut all = vec![0x00];
    all.extend_from_slice(&framed(4, &[0x06, 0x40, 0x64]));
    all.extend_from_slice(&framed(7, &[8]));
    for cut in 0..=all.len() {
        let mut s = H3Session::empty();
        s.is_h3 = true;
        assert_eq!(peer_uni_alloc(&mut s, 30), Some(0));
        assert_eq!(uni_ingest(&mut s, 0, &all[..cut]), None);
        assert_eq!(uni_ingest(&mut s, 0, &all[cut..]), None);
        assert!(s.peer_control_seen && s.peer_settings_seen && s.peer_goaway);
        assert_eq!((s.peer_max_field_section, s.peer_goaway_id), (100, 8));
        assert_eq!(uni_ingest(&mut s, 0, &framed(7, &[12])), Some(H3_ID_ERROR));
    }
}

#[test]
fn staging_moves_nothing() {
    let mut st = H3State::new();
    let s = site();
    open_session(&mut st, &s);
    let mut a = vec![0u8; 4096];
    let mut b = vec![0u8; 4096];
    let x = stage_next_out(&st, &mut a).map(|(n, _)| n);
    let y = stage_next_out(&st, &mut b).map(|(n, _)| n);
    assert_eq!(x, y);
    assert_eq!(a, b);
}

#[test]
fn a_request_is_answered_once() {
    let (mut st, s) = ready();
    assert_eq!(accept(&mut st, &s, 7, false, 0), H3StreamOutcome::Buffered);
    assert!(matches!(send(&mut st, &s, MSG_MUX_STREAM_RX, 7, &framed(1, &get("/"))), H3StreamOutcome::Responded(_)));
    let sent = drain(&mut st, &s);
    let data: Vec<u8> = sent.iter().filter(|(k, _)| *k == CMD_MUX_STREAM_SEND).flat_map(|(_, p)| p[8..].to_vec()).collect();
    let (head, used) = parse_h3_frame(&data).unwrap();
    assert_eq!(head.frame_type, 1);
    let (body, _) = parse_h3_frame(&data[used..]).unwrap();
    assert_eq!(body.payload, b"hello");
    assert!(st.slots.iter().all(|x| !x.allocated));
}

#[test]
fn a_head_may_arrive_in_pieces() {
    let f = framed(1, &get("/"));
    for cut in 1..f.len() {
        let (mut st, s) = ready();
        accept(&mut st, &s, 7, false, 0);
        assert_eq!(send(&mut st, &s, MSG_MUX_STREAM_RX, 7, &f[..cut]), H3StreamOutcome::Buffered);
        assert!(matches!(send(&mut st, &s, MSG_MUX_STREAM_RX, 7, &f[cut..]), H3StreamOutcome::Responded(_)));
    }
}

#[test]
fn no_response_goes_out_before_the_peers_settings() {
    let mut st = H3State::new();
    let s = site();
    open_session(&mut st, &s);
    drain(&mut st, &s);
    accept(&mut st, &s, 7, false, 0);
    assert_eq!(send(&mut st, &s, MSG_MUX_STREAM_RX, 7, &framed(1, &get("/"))), H3StreamOutcome::Buffered);
    assert!(drain(&mut st, &s).is_empty());
    accept(&mut st, &s, 500, true, 2);
    let mut ctrl = vec![0x00];
    ctrl.extend_from_slice(&framed(4, &[]));
    assert!(matches!(send(&mut st, &s, MSG_MUX_STREAM_RX, 500, &ctrl), H3StreamOutcome::Responded(_)));
    assert!(!drain(&mut st, &s).is_empty());
}

#[test]
fn held_requests_are_retried_by_hand() {
    let mut st = H3State::new();
    let s = site();
    open_session(&mut st, &s);
    drain(&mut st, &s);
    accept(&mut st, &s, 7, false, 0);
    let p = payload(MSG_MUX_STREAM_RX, 1, 7, &framed(1, &get("/")));
    assert_eq!(test_pump_mux_frame(&mut st, &s, MSG_MUX_STREAM_RX, &p), H3StreamOutcome::Buffered);
    assert_eq!(test_retry_gated_streams(&mut st, &s), None);
    st.sessions[0].peer_settings_seen = true;
    assert!(matches!(test_retry_gated_streams(&mut st, &s), Some(H3StreamOutcome::Responded(_))));
}

#[test]
fn control_streams_have_rules() {
    // Something else before SETTINGS.
    let mut st = H3State::new();
    let s = site();
    open_session(&mut st, &s);
    accept(&mut st, &s, 500, true, 2);
    let mut c = vec![0x00];
    c.extend_from_slice(&framed(7, &[0]));
    assert_eq!(
        send(&mut st, &s, MSG_MUX_STREAM_RX, 500, &c),
        H3StreamOutcome::ConnectionError(H3_MISSING_SETTINGS)
    );
    // SETTINGS twice.
    let (mut st, s) = ready();
    assert_eq!(
        send(&mut st, &s, MSG_MUX_STREAM_RX, 500, &framed(4, &[])),
        H3StreamOutcome::ConnectionError(H3_FRAME_UNEXPECTED)
    );
    // A setting given twice.
    let mut st = H3State::new();
    open_session(&mut st, &s);
    accept(&mut st, &s, 500, true, 2);
    let mut c = vec![0x00];
    c.extend_from_slice(&framed(4, &[0x06, 0x01, 0x06, 0x01]));
    assert_eq!(
        send(&mut st, &s, MSG_MUX_STREAM_RX, 500, &c),
        H3StreamOutcome::ConnectionError(H3_SETTINGS_ERROR)
    );
    let sent = drain(&mut st, &s);
    assert!(sent.iter().any(|(k, _)| *k == CMD_MUX_SESSION_CLOSE));
}

#[test]
fn a_bad_request_resets_its_stream_alone() {
    let (mut st, s) = ready();
    accept(&mut st, &s, 7, false, 0);
    accept(&mut st, &s, 8, false, 4);
    let bad = framed(1, &block(&[(":method", "GET")]));
    assert!(matches!(
        send(&mut st, &s, MSG_MUX_STREAM_RX, 7, &bad),
        H3StreamOutcome::StreamError(H3Error::MessageError)
    ));
    assert!(matches!(send(&mut st, &s, MSG_MUX_STREAM_RX, 8, &framed(1, &get("/"))), H3StreamOutcome::Responded(_)));
    let sent = drain(&mut st, &s);
    assert!(sent.iter().any(|(k, _)| *k == CMD_MUX_STREAM_RESET));
    assert!(sent.iter().any(|(k, _)| *k == CMD_MUX_STREAM_SEND));
}

#[test]
fn streams_run_out() {
    let (mut st, s) = ready();
    for i in 0..MAX_H3_STREAMS as u32 {
        assert_eq!(accept(&mut st, &s, 10 + i, false, (4 * i) as u64), H3StreamOutcome::Buffered);
    }
    assert_eq!(accept(&mut st, &s, 99, false, 400), H3StreamOutcome::SlotsExhausted);
}

#[test]
fn a_closed_session_holds_no_stream() {
    let (mut st, s) = ready();
    accept(&mut st, &s, 7, false, 0);
    let p = vec![1, 0, 0, 0];
    pump_mux_frame(&mut st, &s, MSG_MUX_SESSION_CLOSED, &p);
    assert!(st.slots.iter().all(|x| !x.allocated));
    assert!(st.sessions.iter().all(|x| !x.allocated));
}

#[test]
fn a_tunnel_echoes() {
    let (mut st, s) = ready();
    accept(&mut st, &s, 7, false, 0);
    let b = block(&[
        (":method", "CONNECT"),
        (":protocol", "websocket"),
        (":scheme", "https"),
        (":authority", "a"),
        (":path", "/ws"),
    ]);
    assert!(matches!(
        send(&mut st, &s, MSG_MUX_STREAM_RX, 7, &framed(1, &b)),
        H3StreamOutcome::WebSocketUpgraded(_)
    ));
    drain(&mut st, &s);
    let mut f = write_frame(true, OP_TEXT, b"hi");
    f[1] += 0x80;
    let mut masked = f[..2].to_vec();
    masked.extend_from_slice(&[0, 0, 0, 0, b'h', b'i']);
    let data = framed(0, &masked);
    assert!(matches!(send(&mut st, &s, MSG_MUX_STREAM_RX, 7, &data), H3StreamOutcome::WebSocketFrame(_)));
    let sent = drain(&mut st, &s);
    assert_eq!(sent.len(), 1);
    assert_eq!(&sent[0].1[8..], &framed(0, &write_frame(true, OP_TEXT, b"hi"))[..]);
}

#[test]
fn draining_finishes_what_was_admitted() {
    let (mut st, s) = ready();
    accept(&mut st, &s, 7, false, 0);
    begin_step(&mut st, true);
    assert_eq!(accept(&mut st, &s, 8, false, 4), H3StreamOutcome::DrainRefused);
    assert!(!step_done(&st));
    assert!(matches!(send(&mut st, &s, MSG_MUX_STREAM_RX, 7, &framed(1, &get("/"))), H3StreamOutcome::Responded(_)));
    let sent = drain(&mut st, &s);
    // The response, then GOAWAY, then the close.
    let last = sent.last().unwrap();
    assert_eq!(last.0, CMD_MUX_SESSION_CLOSE);
    assert_eq!(last.1, vec![1, 0, 0, 0, 0, 0, 0, 0, 0, 0, 0, 0, 0]);
    assert!(sent.iter().any(|(_, p)| p.len() > 8 && p[8] == 0x07));
    assert!(step_done(&st));
}

#[test]
fn outcomes_are_counted_and_long_frames_dropped() {
    let (mut st, s) = ready();
    let mut t = H3Tally { handler_unavailable: 0, field_limit_refused: u32::MAX };
    accept(&mut st, &s, 7, false, 0);
    let p = payload(MSG_MUX_STREAM_RX, 1, 7, &framed(1, &get("/proxy")));
    let r = take_mux_frame(&mut st, &s, MSG_MUX_STREAM_RX, &p, &mut t);
    assert_eq!(r, Some(H3StreamOutcome::HandlerNotShared(HANDLER_PROXY)));
    assert_eq!(t, H3Tally { handler_unavailable: 1, field_limit_refused: u32::MAX });
    let long = vec![0u8; MUX_QUIC_STREAM_RX_FRAME_MAX + 1];
    assert_eq!(take_mux_frame(&mut st, &s, MSG_MUX_STREAM_RX, &long, &mut t), None);
}

#[test]
fn a_session_waits_for_settings() {
    let mut sess = H3Session::empty();
    assert!(!sess.responses_gated());
    sess.is_h3 = true;
    assert!(sess.responses_gated());
    sess.peer_settings_seen = true;
    assert!(!sess.responses_gated());
    sess.fail(H3_MISSING_SETTINGS);
    sess.fail(H3_SETTINGS_ERROR);
    assert_eq!(sess.conn_error, H3_MISSING_SETTINGS);
}

#[test]
fn control_bytes_may_be_split_anywhere() {
    let mut all = vec![0x40, 0x00];
    all.extend_from_slice(&framed(4, &[0x06, 0x40, 0x64]));
    all.extend_from_slice(&framed(7, &[0x04]));
    for cut in 1..all.len() {
        let mut st = H3State::new();
        let s = site();
        open_session(&mut st, &s);
        accept(&mut st, &s, 500, true, 2);
        send(&mut st, &s, MSG_MUX_STREAM_RX, 500, &all[..cut]);
        send(&mut st, &s, MSG_MUX_STREAM_RX, 500, &all[cut..]);
        assert!(st.sessions[0].peer_settings_seen);
        assert_eq!(st.sessions[0].peer_max_field_section, 100);
        assert!(st.sessions[0].peer_goaway);
        assert_eq!(st.sessions[0].peer_goaway_id, 4);
    }
}

#[test]
fn unknown_streams_are_ignored() {
    let (mut st, s) = ready();
    accept(&mut st, &s, 600, true, 6);
    assert_eq!(send(&mut st, &s, MSG_MUX_STREAM_RX, 600, &[0x21, 1, 2, 3]), H3StreamOutcome::SessionEvent);
    assert_eq!(send(&mut st, &s, MSG_MUX_STREAM_RX, 600, &[9; 50]), H3StreamOutcome::SessionEvent);
    assert_eq!(st.sessions[0].conn_error, 0);
}

#[test]
fn records_of_other_sessions_are_ignored() {
    let (mut st, s) = ready();
    let p = payload(MSG_MUX_STREAM_RX, 77, 7, &framed(1, &get("/")));
    assert_eq!(pump_mux_frame(&mut st, &s, MSG_MUX_STREAM_RX, &p), H3StreamOutcome::Ignored);
    assert!(st.slots.iter().all(|x| !x.allocated));
}

#[test]
fn tunnelled_frames_may_be_split_anywhere() {
    let b = block(&[
        (":method", "CONNECT"),
        (":protocol", "websocket"),
        (":scheme", "https"),
        (":authority", "a"),
        (":path", "/ws"),
    ]);
    let mut masked = vec![0x81, 0x82, 0, 0, 0, 0];
    masked.extend_from_slice(b"hi");
    let data = framed(0, &masked);
    for cut in 1..data.len() {
        let (mut st, s) = ready();
        accept(&mut st, &s, 7, false, 0);
        send(&mut st, &s, MSG_MUX_STREAM_RX, 7, &framed(1, &b));
        drain(&mut st, &s);
        send(&mut st, &s, MSG_MUX_STREAM_RX, 7, &data[..cut]);
        send(&mut st, &s, MSG_MUX_STREAM_RX, 7, &data[cut..]);
        let sent = drain(&mut st, &s);
        assert_eq!(sent.len(), 1);
        assert_eq!(&sent[0].1[8..], &framed(0, &write_frame(true, OP_TEXT, b"hi"))[..]);
    }
}

#[test]
fn a_long_body_is_sent_once_and_in_order() {
    let mut s = site();
    s.pool = (0..1500u32).map(|i| (i % 251) as u8).collect();
    s.routes[0].body_len = 1500;
    let mut st = H3State::new();
    open_session(&mut st, &s);
    drain(&mut st, &s);
    peer_settings(&mut st, &s);
    accept(&mut st, &s, 7, false, 0);
    send(&mut st, &s, MSG_MUX_STREAM_RX, 7, &framed(1, &get("/")));
    let sent = drain(&mut st, &s);
    let pieces: Vec<&Vec<u8>> = sent.iter().filter(|(k, _)| *k == CMD_MUX_STREAM_SEND).map(|(_, p)| p).collect();
    assert!(pieces.len() > 1);
    let data: Vec<u8> = pieces.iter().flat_map(|p| p[8..].to_vec()).collect();
    let (_, used) = parse_h3_frame(&data).unwrap();
    let (body, end) = parse_h3_frame(&data[used..]).unwrap();
    assert_eq!(body.payload, &s.pool[..]);
    assert_eq!(used + end, data.len());
}

#[test]
fn streams_being_sent_take_turns() {
    let mut s = site();
    s.pool = vec![b'x'; 1500];
    s.routes[0].body_len = 1500;
    let mut st = H3State::new();
    open_session(&mut st, &s);
    drain(&mut st, &s);
    peer_settings(&mut st, &s);
    for (stream, quic) in [(7u32, 0u64), (8, 4)] {
        accept(&mut st, &s, stream, false, quic);
        send(&mut st, &s, MSG_MUX_STREAM_RX, stream, &framed(1, &get("/")));
    }
    let sent = drain(&mut st, &s);
    let order: Vec<u8> = sent.iter().filter(|(k, _)| *k == CMD_MUX_STREAM_SEND).map(|(_, p)| p[4]).collect();
    assert_eq!(&order[..4], &[7, 8, 7, 8]);
}

#[test]
fn goaway_lies_past_every_admitted_request() {
    let (mut st, s) = ready();
    accept(&mut st, &s, 7, false, 8);
    assert!(st.sessions[0].goaway_id > 8);
    let before = st.sessions[0].goaway_id;
    accept(&mut st, &s, 8, false, 0);
    assert!(st.sessions[0].goaway_id >= before);
}
