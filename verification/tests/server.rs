//! The slots of a server, its listeners, its peers and its applications.

use http_server::app::{
    app_deadline, app_deadline_passed, compose_response, declared_length, emit_request, header_block, note_emitted,
    parse_response, status_allows_body, stream_id_fits, write_request_envelope, EmitPlan, EmitResult,
    CHANNEL_BUFFER_SIZE,
};
use http_server::conn::{ConnSlot, Phase};
use http_server::h1_bind::BindOutcome;
use http_server::h1_ws::{
    note_close_sent, note_replayed, step_replay, step_ws_close, step_ws_handshake, ws_begin_close, ws_flushed, ws_gate,
    ws_may_output, ws_may_process, Replay, WsBatch, WsGate, WS_BATCH_PER_TICK,
};
use http_server::h2_app::AwaitingStream;
use http_server::lifecycle::{
    test_enable_listeners, test_inject_listener, test_listener_state, test_proxy_metrics, test_remove_listener,
    test_set_client_ip, test_shed_metrics, ResponseRoute,
};
use http_server::listeners::{
    fill_bind_payload, is_listen_port, set_listeners_prefix, BindStep, DynListeners, LISTENER_BINDING,
    LISTENER_BOUND, LISTENER_REFUSED,
};
use http_server::method::{METHOD_GET, METHOD_HEAD};
use http_server::net::{
    close_net_conn, net_frame_vec, net_send, NET_CMD_CLOSE, NET_CMD_SEND, NET_MSG_ACCEPTED, NET_MSG_BOUND,
    NET_MSG_CLOSED, NET_MSG_CONNECTED, NET_MSG_DATA, NET_MSG_ERROR, NET_MSS,
};
use http_server::peers::PeerTable;
use http_server::server::{Peek, Server, Target};
use http_server::slots::{ShedMetrics, SlotTable, MAX_CONCURRENT_CONNS};
use http_server::ws_wire::CLOSE_GOING_AWAY;

// ── Slots ───────────────────────────────────────────────────────────────

#[test]
fn a_connection_gets_a_slot_of_its_own() {
    let mut t = SlotTable::new();
    let mut shed = ShedMetrics::zero();
    let a = t.alloc_free_slot(5, true, &mut shed).unwrap();
    let b = t.alloc_free_slot(6, true, &mut shed).unwrap();
    assert_ne!(a, b);
    assert_eq!(t.find_slot_by_conn_id(5), Some(a));
    assert_eq!(t.find_slot_by_conn_id(6), Some(b));
    assert_eq!(t.find_slot_by_conn_id(7), None);
    assert_eq!(t.active_slot_count(), 2);
    let r = t.free_slot(a);
    assert_eq!(r.conn, Some(5));
    assert_eq!(t.find_slot_by_conn_id(5), None);
    assert_eq!(t.active_slot_count(), 1);
}

#[test]
fn a_full_server_refuses_and_counts() {
    let mut t = SlotTable::new();
    let mut shed = ShedMetrics::zero();
    assert_eq!(t.alloc_free_slot(1, false, &mut shed), None);
    assert_eq!((shed.conns_refused_arena, shed.conns_refused_slots), (1, 0));
    for c in 0..MAX_CONCURRENT_CONNS as u16 {
        assert!(t.alloc_free_slot(c, true, &mut shed).is_some());
    }
    assert_eq!(t.alloc_free_slot(9999, true, &mut shed), None);
    assert_eq!(shed.conns_refused_slots, 1);
}

#[test]
fn every_ready_slot_is_worked_once_a_tick() {
    let mut t = SlotTable::new();
    let mut shed = ShedMetrics::zero();
    for c in [1, 2, 3] {
        t.alloc_free_slot(c, true, &mut shed);
    }
    let first = t.begin_tick();
    let mut sorted = first.clone();
    sorted.sort();
    sorted.dedup();
    assert_eq!(sorted.len(), first.len());
    for k in [0, 1, 2] {
        assert!(first.contains(&k));
    }
}

// ── Demultiplexing ──────────────────────────────────────────────────────

fn accepted(s: &mut Server, conn: u16) -> usize {
    let mut p = conn.to_le_bytes().to_vec();
    p.extend_from_slice(&80u16.to_le_bytes());
    assert_eq!(s.demux_frame(NET_MSG_ACCEPTED, &p, true), None);
    s.table.find_slot_by_conn_id(conn).unwrap()
}

#[test]
fn data_reaches_its_connection_whole() {
    let mut s = Server::new(3, false);
    s.core.port = 80;
    s.core.bound = true;
    let a = accepted(&mut s, 11);
    let b = accepted(&mut s, 12);
    let mut p = 11u16.to_le_bytes().to_vec();
    p.extend_from_slice(b"GET ");
    s.demux_frame(NET_MSG_DATA, &p, true);
    assert_eq!(s.table.slots[a].rx.buf, b"GET ");
    assert!(s.table.slots[b].rx.buf.is_empty());
    assert_eq!(s.table.owner(11), Target::Client(a));
    assert_eq!(s.table.owner(99), Target::Nobody);
    s.demux_frame(NET_MSG_CLOSED, &11u16.to_le_bytes(), true);
    assert!(s.table.slots[a].peer_closed);
}

#[test]
fn a_full_receiver_stalls_the_channel() {
    let mut s = Server::new(3, false);
    s.core.port = 80;
    s.core.bound = true;
    let a = accepted(&mut s, 11);
    s.table.slots[a].rx.buf = vec![0u8; 4096];
    let data = net_frame_vec(NET_MSG_DATA, &[11, 0, 1, 2, 3]);
    assert!(matches!(s.demux_peek(&data), Peek::Stall));
    assert_eq!(s.shed.demux_stalls, 1);
    s.table.slots[a].rx.buf.clear();
    assert!(matches!(s.demux_peek(&data), Peek::Take));
    assert!(matches!(s.demux_peek(&[]), Peek::Wait));
}

#[test]
fn a_refused_connection_is_closed() {
    let mut s = Server::new(3, false);
    s.core.port = 80;
    s.core.bound = true;
    let mut p = 11u16.to_le_bytes().to_vec();
    p.extend_from_slice(&80u16.to_le_bytes());
    assert_eq!(s.demux_frame(NET_MSG_ACCEPTED, &p, false), Some(11));
}

#[test]
fn frames_carry_their_length() {
    assert_eq!(net_frame_vec(NET_MSG_DATA, b"ab"), vec![NET_MSG_DATA, 2, 0, b'a', b'b']);
    assert_eq!(close_net_conn(0x0102), vec![NET_CMD_CLOSE, 2, 0, 2, 1]);
    let (f, n) = net_send(7, b"hello", false).unwrap();
    assert_eq!(n, 5);
    assert_eq!(f[0], NET_CMD_SEND);
    assert!(f.ends_with(b"hello"));
    let (_, n) = net_send(7, &[0u8; 5000], false).unwrap();
    assert!(n <= NET_MSS);
}

// ── Endings ─────────────────────────────────────────────────────────────

#[test]
fn a_draining_server_waits_for_its_connections() {
    let mut s = Server::new(3, false);
    s.core.port = 80;
    s.core.bound = true;
    let a = accepted(&mut s, 11);
    s.core.draining = true;
    assert!(!s.drained(0));
    let e = s.reset_connection(a);
    assert_eq!(e.close, Some(11));
    assert!(!s.drained(1));
    assert!(s.drained(0));
}

#[test]
fn generations_differ() {
    let mut s = Server::new(3, false);
    let a = s.next_generation();
    let b = s.next_generation();
    assert_ne!(a, b);
    s.core.app_gen_next = u16::MAX;
    let c = s.next_generation();
    let d = s.next_generation();
    assert_ne!(c, d);
}

#[test]
fn metrics_are_read() {
    let mut s = Server::new(3, false);
    s.shed.app_timeouts = 4;
    s.proxy.retries = 2;
    s.proxy.fives = 1;
    assert_eq!(test_shed_metrics(&s).app_timeouts, 4);
    assert_eq!(test_proxy_metrics(&s), (2, 1));
    s.core.port = 80;
    s.core.bound = true;
    let a = accepted(&mut s, 11);
    test_set_client_ip(&mut s, 11, 0x01020304);
    assert_eq!(s.table.slots[a].client_ip, 0x01020304);
}

// ── Binding ─────────────────────────────────────────────────────────────

#[test]
fn a_server_learns_that_it_is_bound() {
    let mut s = Server::new(3, false);
    s.core.port = 80;
    let mut shed = ShedMetrics::zero();
    let a = s.table.alloc_free_slot(11, true, &mut shed).unwrap();
    s.note_bind_sent(a);
    assert_eq!(s.table.slots[a].phase, Phase::WaitBound);
    let mut p = 0u16.to_le_bytes().to_vec();
    p.extend_from_slice(&80u16.to_le_bytes());
    let r = s.bind_frame(a, NET_MSG_BOUND, &p, true, false);
    assert!(matches!(r, BindOutcome::Bound), "bound");
    assert!(s.core.bound);
}

// ── Listeners ───────────────────────────────────────────────────────────

#[test]
fn listeners_are_bound_and_torn_down() {
    let mut l = DynListeners::test_new();
    l.test_program(b"listeners/8080", b"tls=0");
    match l.bind_step(0, 80) {
        BindStep::Bind { port, .. } => assert_eq!(port, 8080),
        _ => panic!("bind expected"),
    }
    assert_eq!(l.test_bound_state(8080).unwrap().0, LISTENER_BINDING);
    assert!(matches!(l.bind_step(0, 80), BindStep::Skip));
    l.mark_bound(8080, 77);
    assert_eq!(l.test_bound_state(8080), Some((LISTENER_BOUND, 77)));
    assert!(is_listen_port(8080, 80, &l));
    assert!(is_listen_port(80, 80, &l));
    assert!(!is_listen_port(81, 80, &l));
    assert_eq!(l.teardown_step(0), None);
    l.test_remove(b"listeners/8080");
    let mut gone = Vec::new();
    for i in 0..8 {
        if let Some(c) = l.teardown_step(i) {
            gone.push(c);
        }
    }
    assert_eq!(gone, vec![77]);
    assert_eq!(l.test_bound_state(8080), None);
}

#[test]
fn a_refused_listener_is_remembered() {
    let mut l = DynListeners::test_new();
    l.test_program(b"listeners/8080", b"tls=0");
    assert!(matches!(l.bind_step(0, 80), BindStep::Bind { .. }));
    l.mark_refused(8080);
    assert_eq!(l.test_bound_state(8080).unwrap().0, LISTENER_REFUSED);
    assert!(matches!(l.bind_step(0, 80), BindStep::Skip));
}

#[test]
fn a_listener_of_the_static_port_is_not_bound_again() {
    let mut l = DynListeners::test_new();
    l.test_program(b"listeners/80", b"tls=0");
    assert!(matches!(l.bind_step(0, 80), BindStep::Skip));
}

#[test]
fn a_listener_with_encryption_is_not_bound() {
    let mut l = DynListeners::test_new();
    l.test_program(b"listeners/8443", b"tls=1");
    assert!(matches!(l.bind_step(0, 80), BindStep::Skip));
}

#[test]
fn a_key_that_names_no_port_is_ignored() {
    for key in [&b"/dataplane/edge-listeners/65616"[..], b"l/80abc", b"l/", b"l/0", b"l/-1", b"l/99999999999999999999999"] {
        let mut l = DynListeners::test_new();
        l.test_program(key, b"tls=0");
        assert!(matches!(l.bind_step(0, 8000), BindStep::Skip));
    }
    for (key, want) in [(&b"l/65535"[..], 65535), (b"l/080", 80), (b"9000", 9000)] {
        let mut l = DynListeners::test_new();
        l.test_program(key, b"tls=0");
        match l.bind_step(0, 8000) {
            BindStep::Bind { port, .. } => assert_eq!(port, want),
            _ => panic!("bind expected"),
        }
    }
}

#[test]
fn listener_rows_come_from_the_table() {
    let mut s = Server::new(3, false);
    test_enable_listeners(&mut s);
    test_inject_listener(&mut s, b"listeners/9000", b"tls=0");
    assert_eq!(test_listener_state(&s, 9000), None);
    assert!(matches!(s.listeners.bind_step(0, 80), BindStep::Bind { port: 9000, .. }));
    assert_eq!(test_listener_state(&s, 9000).unwrap().0, LISTENER_BINDING);
    test_remove_listener(&mut s, b"listeners/9000");
    assert_eq!(set_listeners_prefix(&[b'x'; 100]).len(), 64);
    assert!(!fill_bind_payload(9000, 3).is_empty());
}

// ── Peers ───────────────────────────────────────────────────────────────

#[test]
fn peers_are_known_by_connection() {
    let mut t = PeerTable::new(4);
    assert!(t.note_peer_identity(5, Some(b"spiffe://a")));
    assert_eq!(t.peer_svid(5), Some(b"spiffe://a".to_vec()));
    assert_eq!(t.peer_svid(6), None);
    assert!(!t.note_peer_identity(6, None));
    t.forget_peer(5);
    assert_eq!(t.peer_svid(5), None);
}

#[test]
fn an_identity_takes_one_place() {
    let mut t = PeerTable::new(2);
    assert!(t.note_peer_identity(5, Some(b"a")));
    assert!(t.note_peer_identity(5, Some(b"b")));
    assert!(t.note_peer_identity(6, Some(b"c")));
    assert!(!t.note_peer_identity(7, Some(b"d")));
    assert_eq!((t.peer_svid(5), t.peer_svid(6)), (Some(b"b".to_vec()), Some(b"c".to_vec())));
    assert!(!t.note_peer_identity(5, None));
    assert!(t.note_peer_identity(7, Some(b"d")));
}

// ── Applications ────────────────────────────────────────────────────────

fn response(conn: u16, stream: u16, status: u16, flags: u8, ct: &[u8], headers: &[u8], body: &[u8]) -> Vec<u8> {
    let mut v = conn.to_le_bytes().to_vec();
    v.extend_from_slice(&stream.to_le_bytes());
    v.extend_from_slice(&status.to_le_bytes());
    v.push(flags);
    v.push(ct.len() as u8);
    v.extend_from_slice(&(headers.len() as u16).to_le_bytes());
    v.extend_from_slice(&(body.len() as u16).to_le_bytes());
    v.extend_from_slice(ct);
    v.extend_from_slice(headers);
    v.extend_from_slice(body);
    v
}

#[test]
fn a_request_envelope_has_its_exact_bytes() {
    let e = write_request_envelope(0x0102, 0x0304, METHOD_GET, b"/p", b"a: b\r\n", b"xyz").unwrap();
    assert_eq!(&e[..12], &[2, 1, 4, 3, METHOD_GET, 0, 2, 0, 6, 0, 3, 0]);
    assert_eq!(&e[12..], b"/pa: b\r\nxyz");
    assert!(write_request_envelope(1, 1, 1, b"", b"", &[0u8; CHANNEL_BUFFER_SIZE]).is_none());
    assert_eq!(header_block(b"GET / HTTP/1.1\r\na: b\r\n\r\n"), b"a: b\r\n");
}

#[test]
fn a_response_envelope_is_parsed() {
    let e = response(5, 6, 404, 1, b"text/plain", b"x: y\r\n", b"gone");
    let r = parse_response(&e).unwrap();
    assert_eq!((r.conn_id, r.stream_id, r.status, r.flags), (5, 6, 404, 1));
    assert_eq!((r.content_type, r.headers, r.body), (&b"text/plain"[..], &b"x: y\r\n"[..], &b"gone"[..]));
    assert!(parse_response(&e[..e.len() - 1]).is_none());
    assert!(parse_response(&e[..11]).is_none());
}

#[test]
fn some_responses_have_no_body() {
    assert!(status_allows_body(200, METHOD_GET));
    assert!(!status_allows_body(200, METHOD_HEAD));
    assert!(!status_allows_body(204, METHOD_GET));
    assert!(!status_allows_body(304, METHOD_GET));
    assert!(!status_allows_body(101, METHOD_GET));
    assert!(stream_id_fits(65535));
    assert!(!stream_id_fits(65536));
    assert_eq!(declared_length(b"Content-Length: 12\r\n"), Some(12));
    assert_eq!(declared_length(b"x: y\r\n"), None);
}

fn waiting() -> ConnSlot {
    let mut s = ConnSlot::blank();
    s.conn_id = Some(5);
    s.phase = Phase::AwaitApp;
    s.req.method = METHOD_GET;
    s.keepalive = true;
    s.app.pending = true;
    s.app.generation = 6;
    s
}

#[test]
fn a_response_is_composed_with_one_length() {
    let mut s = waiting();
    compose_response(&mut s, &response(5, 6, 200, 0, b"text/plain", b"Content-Length: 999\r\nX-A: b\r\n", b"hello"), 10);
    let text = String::from_utf8(s.tx.buf.clone()).unwrap();
    assert!(text.starts_with("HTTP/1.1 200"));
    assert_eq!(text.matches("Content-Length").count(), 1);
    assert!(text.contains("Content-Length: 5\r\n"));
    assert!(text.contains("X-A: b\r\n"));
    assert!(text.ends_with("\r\n\r\nhello"));
    assert_eq!(s.phase, Phase::DrainSend);
    assert!(!s.app.pending);
}

#[test]
fn a_response_in_parts_is_streamed() {
    let mut s = waiting();
    compose_response(&mut s, &response(5, 6, 200, 1, b"text/plain", b"", b"one"), 10);
    assert!(s.app.streaming && s.app.pending);
    assert!(s.tx.buf.ends_with(b"one"));
    compose_response(&mut s, &response(5, 6, 200, 0, b"text/plain", b"", b"two"), 20);
    assert_eq!(s.tx.buf, b"two");
    assert!(!s.app.streaming);
}

#[test]
fn requests_are_handed_over_and_waited_for() {
    let mut s = waiting();
    s.app.pending = false;
    s.req.path = b"/x".to_vec();
    let head = b"GET /x HTTP/1.1\r\nA: b\r\n\r\n";
    match emit_request(&s, head, 77, true) {
        EmitPlan::Write(e) => assert_eq!(&e[..4], &[5, 0, 77, 0]),
        EmitPlan::Refused(_) => panic!("envelope expected"),
    }
    assert!(matches!(emit_request(&s, head, 77, false), EmitPlan::Refused(EmitResult::Unwired)));
    note_emitted(&mut s, 77, 1000);
    assert_eq!((s.app.generation, s.app.deadline_ms), (77, 31000));
    assert!(!app_deadline_passed(s.app, 30999));
    assert!(app_deadline_passed(s.app, 31000));
    assert_eq!(app_deadline(u64::MAX), u64::MAX);
}

#[test]
fn a_response_reaches_only_its_request() {
    let mut s = Server::new(3, false);
    s.core.port = 80;
    s.core.bound = true;
    let a = accepted(&mut s, 5);
    s.table.slots[a].phase = Phase::AwaitApp;
    s.table.slots[a].app.pending = true;
    s.table.slots[a].app.generation = 6;
    assert_eq!(s.table.find_awaiting_slot(5, 6), Some(a));
    assert_eq!(s.table.find_awaiting_slot(5, 7), None);
    let late = response(5, 4, 200, 0, b"", b"", b"late");
    assert!(matches!(s.drain_response(&late, None), ResponseRoute::Drop));
    // A stream that cannot send yet leaves its response with the application.
    let e = response(5, 3, 200, 0, b"", b"", b"x");
    let waiting = AwaitingStream { stream: 2, holds: false };
    assert!(matches!(s.drain_response(&e, Some(waiting)), ResponseRoute::Stream { stream: 2, .. }));
    let held = AwaitingStream { stream: 2, holds: true };
    assert!(matches!(s.drain_response(&e, Some(held)), ResponseRoute::PutBack { .. }));
    s.note_put_back(false);
    assert_eq!(s.shed.app_envelopes_lost, 1);
}

// ── WebSockets over HTTP/1 ──────────────────────────────────────────────

#[test]
fn the_newest_subscriber_stays() {
    let mut t = SlotTable::new();
    let mut shed = ShedMetrics::zero();
    let a = t.alloc_free_slot(1, true, &mut shed).unwrap();
    let b = t.alloc_free_slot(2, true, &mut shed).unwrap();
    for k in [a, b] {
        t.slots[k].ws.fan_out = true;
        t.slots[k].phase = Phase::WsHandshake;
        assert!(step_ws_handshake(&mut t.slots[k]));
        t.note_fanout(k);
    }
    assert!(t.is_displaced(a));
    assert!(!t.is_displaced(b));
    assert!(matches!(ws_gate(&mut t.slots[a], true, CLOSE_GOING_AWAY), WsGate::Closing));
    assert_eq!(t.slots[a].tx.buf, vec![0x88, 2, 3, 233]);
    assert_eq!(t.slots[a].phase, Phase::WsClose);
    assert!(matches!(ws_gate(&mut t.slots[b], false, CLOSE_GOING_AWAY), WsGate::Go));
}

#[test]
fn nothing_retained_leaves_nothing_to_replay() {
    let mut s = ConnSlot::blank();
    s.phase = Phase::WsActive;
    s.ws.fan_out = true;
    assert!(matches!(step_replay(&mut s, b""), Replay::Over));
    assert!(matches!(step_replay(&mut s, &[1, 1, 1, 0, b'a']), Replay::Skip));
}

#[test]
fn a_tick_of_a_websocket_is_bounded() {
    let mut s = ConnSlot::blank();
    s.phase = Phase::WsActive;
    s.tx.stage(b"abc".to_vec());
    assert!(!ws_flushed(&mut s, 3));
    assert!(!ws_may_output(&s));
    s.tx.note_sent(3);
    assert!(ws_flushed(&mut s, 3));
    assert!(s.tx.buf.is_empty());
    s.ws.fan_out = true;
    assert!(ws_may_output(&s));
    let mut b = WsBatch::new();
    let mut n = 1;
    while b.round(true, Phase::WsActive) {
        n += 1;
    }
    assert_eq!((n, b.any), (WS_BATCH_PER_TICK, true));
    let mut b = WsBatch::new();
    assert!(!b.round(false, Phase::WsActive));
    assert!(!b.any);
    assert!(!WsBatch::new().round(true, Phase::WsClose));
}

#[test]
fn retained_messages_are_replayed_up_to_the_snapshot() {
    let mut s = ConnSlot::blank();
    s.conn_id = Some(1);
    s.phase = Phase::WsActive;
    s.ws.fan_out = true;
    let held = vec![1, 1, 3, 0, b'a', b'b', b'c'];
    match step_replay(&mut s, &held) {
        Replay::Message { op, fin, at, len } => assert_eq!((op, fin, at, len), (1, true, 4, 3)),
        _ => panic!("message expected"),
    }
    note_replayed(&mut s, 3, true);
    assert!(matches!(step_replay(&mut s, &held), Replay::Over));
    assert!(matches!(step_replay(&mut s, &held), Replay::Skip));
}

#[test]
fn a_close_is_sent_before_the_end() {
    let mut s = ConnSlot::blank();
    s.conn_id = Some(1);
    s.phase = Phase::WsActive;
    ws_begin_close(&mut s, 1000);
    assert_eq!(s.tx.buf, vec![0x88, 2, 3, 232]);
    assert!(step_ws_close(&mut s));
    note_close_sent(&mut s, 4);
    assert_eq!(s.phase, Phase::CloseConn);
    let mut s = ConnSlot::blank();
    s.tx.stage(b"x".to_vec());
    assert!(!ws_may_process(&s));
    s.rx.buf = vec![0x88, 0];
    assert!(ws_may_process(&s));
}

#[test]
fn failed_dials_are_told_apart() {
    let mut s = Server::new(3, false);
    s.core.port = 80;
    s.core.bound = true;
    let a = accepted(&mut s, 11);
    assert!(s.table.claim_dial(a));
    // Another consumer's failure.
    s.demux_frame(NET_MSG_ERROR, &[11, 0, 1, 9], true);
    assert!(!s.table.slots[a].proxy.connect_failed && !s.table.slots[a].peer_closed);
    // Ours, whatever connection it names.
    s.demux_frame(NET_MSG_ERROR, &[99, 0, 1, 3], true);
    assert!(s.table.slots[a].proxy.connect_failed);
    // An untagged error is of an established connection.
    s.demux_frame(NET_MSG_ERROR, &[11, 0, 1, 0], true);
    assert!(s.table.slots[a].peer_closed);
}

#[test]
fn a_dial_that_succeeds_belongs_to_its_slot() {
    let mut s = Server::new(3, false);
    s.core.port = 80;
    s.core.bound = true;
    let a = accepted(&mut s, 11);
    assert!(s.table.claim_dial(a));
    s.demux_frame(NET_MSG_CONNECTED, &[70, 0, 9], true);
    assert!(!s.table.slots[a].proxy.connected);
    s.demux_frame(NET_MSG_CONNECTED, &[70, 0, 3], true);
    assert!(s.table.slots[a].proxy.connected);
    assert_eq!(s.table.slots[a].proxy.conn, Some(70));
}

#[test]
fn each_slot_comes_first_in_its_turn() {
    let mut t = SlotTable::new();
    let mut shed = ShedMetrics::zero();
    for c in [1, 2, 3] {
        t.alloc_free_slot(c, true, &mut shed);
    }
    let first = t.begin_tick();
    let second = t.begin_tick();
    assert_eq!(first[0], 0);
    assert_eq!(second[0], 1);
    assert_eq!(second.last(), Some(&0));
}
