//! Relaying a request to a backend.
//!
//! A relayed connection uses the buffers it has: what was received from the client
//! goes to the backend, what is to be sent comes from it. Bytes pass through as they
//! are; a relayed response is delimited by the end of the connection.

use crate::bytes::{clip, extend, ipv4_text, le16, le32, lemma_text, lit, put_ipv4_decimal, text, to_vec};
use crate::cache::SEND_BUF_SIZE;
use crate::conn::{ConnSlot, Inbox, Outbox, Phase, ProxyLeg};
use crate::h1_wire::{
    crlf_at, field_values, field_values_from, find_header, head_len, header_of, lemma_line_end, lemma_line_fed,
    line_end,
};
use crate::listeners::{bump, bumped};
use crate::response::{
    build_error, error_response, lemma_field_line, lemma_line_in, lemma_plain_line, line_values, one_line,
    staged_head,
};
use vstd::prelude::*;
use vstd::slice::slice_subrange;

verus! {

/// How long a backend has to accept a connection.
pub const PROXY_CONNECT_TIMEOUT_MS: u32 = 10000;

/// Socket kind of a dialled connection.
pub const SOCK_TYPE_STREAM: u8 = 1;

/// Whether a phase relays bytes: the request has been forwarded.
pub open spec fn relays(p: Phase) -> bool {
    p is ProxyRelayHeaders || p is ProxyRelayBody
}

pub fn is_proxy_relay_phase(p: Phase) -> (r: bool)
    ensures
        r == relays(p),
{
    p == Phase::ProxyRelayHeaders || p == Phase::ProxyRelayBody
}

/// The payload of a dial request.
pub open spec fn dial_payload(ip: u32, port: u16, requester_tag: u8) -> Seq<u8> {
    seq![SOCK_TYPE_STREAM] + le32(ip) + le16(port) + seq![requester_tag]
}

/// Make the payload that dials a slot's backend.
pub fn proxy_dial(leg: ProxyLeg, requester_tag: u8) -> (r: Vec<u8>)
    ensures
        r@ == dial_payload(leg.ip, leg.port, requester_tag),
{
    let mut v: Vec<u8> = Vec::new();
    v.push(SOCK_TYPE_STREAM);
    v.push((leg.ip % 256) as u8);
    v.push((leg.ip / 0x100 % 256) as u8);
    v.push((leg.ip / 0x1_0000 % 256) as u8);
    v.push((leg.ip / 0x100_0000) as u8);
    v.push((leg.port % 256) as u8);
    v.push((leg.port / 256) as u8);
    v.push(requester_tag);
    assert(v@ =~= dial_payload(leg.ip, leg.port, requester_tag));
    v
}

/// The backend leg of a relay that starts.
pub open spec fn fresh_leg(leg: ProxyLeg, ip: u32, port: u16, dyn_idx: Option<usize>) -> ProxyLeg {
    ProxyLeg {
        conn: None,
        dyn_idx,
        ip,
        port,
        attempt: 0,
        connected: false,
        connect_failed: false,
        closed: false,
        relayed: 0,
        connect_start_ms: leg.connect_start_ms,
    }
}

/// Start relaying to a backend. `dyn_idx` is the dynamic route it came from.
pub fn begin_proxy(slot: &mut ConnSlot, ip: u32, port: u16, dyn_idx: Option<usize>)
    requires
        old(slot).wf(),
    ensures
        *final(slot) == (ConnSlot {
            proxy: fresh_leg(old(slot).proxy, ip, port, dyn_idx),
            keepalive: false,
            phase: Phase::ProxyConnect,
            ..*old(slot)
        }),
        final(slot).wf(),
{
    slot.proxy = ProxyLeg {
        conn: None,
        dyn_idx,
        ip,
        port,
        attempt: 0,
        connected: false,
        connect_failed: false,
        closed: false,
        relayed: 0,
        connect_start_ms: slot.proxy.connect_start_ms,
    };
    slot.keepalive = false;
    slot.phase = Phase::ProxyConnect;
}

/// Counters of relayed requests.
#[derive(Clone, Copy, PartialEq, Eq, Structural, Debug)]
pub struct ProxyCounters {
    pub retries: u32,
    pub fives: u32,
}

/// Whether a failed connection is tried once more, on the next ready backend of the same
/// dynamic route.
pub open spec fn may_retry(leg: ProxyLeg) -> bool {
    leg.attempt == 0 && leg.dyn_idx is Some
}

pub fn wants_retry(leg: ProxyLeg) -> (r: bool)
    ensures
        r == may_retry(leg),
{
    leg.attempt == 0 && leg.dyn_idx.is_some()
}

/// Whether a slot has answered 502.
pub open spec fn bad_gateway(before: ConnSlot, after: ConnSlot, body: Seq<u8>) -> bool {
    staged_head(
        ConnSlot { phase: Phase::DrainSend, ..before },
        after,
        error_response(text("502 Bad Gateway"), body),
        false,
    )
}

/// A backend could not be reached. `next` is another ready backend of the same dynamic
/// route, if there is one: it is tried once; else the answer is 502.
pub fn proxy_connect_failed(
    slot: &mut ConnSlot,
    next: Option<(u32, u16)>,
    counters: &mut ProxyCounters,
)
    requires
        old(slot).wf(),
    ensures
        final(slot).wf(),
        if may_retry(old(slot).proxy) && next is Some {
            &&& *final(slot) == (ConnSlot {
                proxy: ProxyLeg {
                    ip: (next->0).0,
                    port: (next->0).1,
                    attempt: 1,
                    conn: None,
                    connected: false,
                    connect_failed: false,
                    ..old(slot).proxy
                },
                phase: Phase::ProxyConnect,
                ..*old(slot)
            })
            &&& *final(counters) == (ProxyCounters {
                retries: bumped(old(counters).retries),
                ..*old(counters)
            })
        } else {
            &&& bad_gateway(*old(slot), *final(slot), text("Backend unavailable\n"))
            &&& *final(counters) == (ProxyCounters {
                fives: bumped(old(counters).fives),
                ..*old(counters)
            })
        },
{
    if wants_retry(slot.proxy) {
        match next {
            Some((ip, port)) => {
                counters.retries = bump(counters.retries);
                slot.proxy.ip = ip;
                slot.proxy.port = port;
                slot.proxy.attempt = 1;
                slot.proxy.conn = None;
                slot.proxy.connected = false;
                slot.proxy.connect_failed = false;
                slot.phase = Phase::ProxyConnect;
                return;
            },
            None => {},
        }
    }
    counters.fives = bump(counters.fives);
    slot.phase = Phase::DrainSend;
    build_error(slot, lit("502 Bad Gateway"), lit("Backend unavailable\n"));
}

// ── The forwarded head ──────────────────────────────────────────────────

/// A request head with the client's address added as its last field.
pub open spec fn forward_head(head: Seq<u8>, client_ip: u32) -> Seq<u8> {
    head.take(head.len() - 2) + text("X-Forwarded-For: ") + ipv4_text(client_ip) + text(
        "\r\n\r\n",
    )
}

/// Stage the head to forward, and bring what was received behind it to the front, to
/// be relayed. Does nothing before there is a head.
pub fn proxy_build_forward_head(slot: &mut ConnSlot)
    requires
        old(slot).wf(),
    ensures
        final(slot).wf(),
        if old(slot).rx.head_end < 4 {
            *final(slot) == *old(slot)
        } else {
            &&& *final(slot) == (ConnSlot {
                rx: final(slot).rx,
                tx: final(slot).tx,
                proxy: ProxyLeg { relayed: 0, ..old(slot).proxy },
                ..*old(slot)
            })
            &&& final(slot).tx.sent == 0
            &&& final(slot).tx.buf@ == clip(
                forward_head(
                    old(slot).rx.buf@.take(old(slot).rx.head_end as int),
                    old(slot).client_ip,
                ),
                SEND_BUF_SIZE as nat,
            )
            &&& final(slot).rx.buf@ == old(slot).rx.buf@.skip(old(slot).rx.head_end as int)
            &&& final(slot).rx.head_end == 0
        },
{
    let heo: usize = slot.rx.head_end;
    if heo < 4 {
        return;
    }
    let ghost head = slot.rx.buf@.take(heo as int);
    let kept = slice_subrange(slot.rx.buf.as_slice(), 0, heo - 2);
    assert(kept@ =~= head.take(head.len() - 2));
    let mut v: Vec<u8> = to_vec(kept);
    extend(&mut v, lit("X-Forwarded-For: "));
    let mut ip: Vec<u8> = Vec::new();
    put_ipv4_decimal(&mut ip, 64, slot.client_ip);
    proof {
        lemma_ipv4_short(slot.client_ip);
        assert(Seq::<u8>::empty() + ipv4_text(slot.client_ip) =~= ipv4_text(slot.client_ip));
    }
    extend(&mut v, ip.as_slice());
    extend(&mut v, lit("\r\n\r\n"));
    let mut out: Vec<u8> = Vec::new();
    crate::bytes::put_bytes(&mut out, SEND_BUF_SIZE, v.as_slice());
    assert(Seq::<u8>::empty() + v@ =~= v@);
    let rest: Vec<u8> = to_vec(slice_subrange(slot.rx.buf.as_slice(), heo, slot.rx.buf.len()));
    assert(rest@ =~= slot.rx.buf@.skip(heo as int));
    slot.rx = Inbox { buf: rest, head_end: 0 };
    slot.tx = Outbox { buf: out, sent: 0 };
    slot.proxy.relayed = 0;
}

/// An address is short, and plain text.
proof fn lemma_ipv4_short(ip: u32)
    ensures
        ipv4_text(ip).len() <= 15,
        forall|k: int| 0 <= k < ipv4_text(ip).len() ==> ipv4_text(ip)[k] != 0x0d,
{
    reveal_strlit(".");
    lemma_text(".");
    let a = (ip / 0x100_0000) as nat;
    let b = (ip / 0x1_0000 % 256) as nat;
    let c = (ip / 0x100 % 256) as nat;
    let d = (ip % 256) as nat;
    reveal_with_fuel(crate::response::pow10, 4);
    crate::response::lemma_decimal_len(a, 3);
    crate::response::lemma_decimal_len(b, 3);
    crate::response::lemma_decimal_len(c, 3);
    crate::response::lemma_decimal_len(d, 3);
    crate::bytes::lemma_decimal(a);
    crate::bytes::lemma_decimal(b);
    crate::bytes::lemma_decimal(c);
    crate::bytes::lemma_decimal(d);
    let t = ipv4_text(ip);
    let da = crate::bytes::decimal(a);
    let db = crate::bytes::decimal(b);
    let dc = crate::bytes::decimal(c);
    let dd = crate::bytes::decimal(d);
    assert forall|k: int| 0 <= k < t.len() implies t[k] != 0x0d by {
        let p1 = da.len() as int;
        let p2 = p1 + 1 + db.len();
        let p3 = p2 + 1 + dc.len();
        if k < p1 {
            assert(t[k] == da[k]);
        } else if k == p1 {
        } else if k < p2 {
            assert(t[k] == db[k - p1 - 1]);
        } else if k == p2 {
        } else if k < p3 {
            assert(t[k] == dc[k - p2 - 1]);
        } else if k == p3 {
        } else {
            assert(t[k] == dd[k - p3 - 1]);
        }
    }
}

/// The lines of a whole head from a line's start on, and the same lines in the
/// forwarded head: the one line more is the last.
proof fn lemma_forwarded_lines(head: Seq<u8>, line: Seq<u8>, from: int, name: Seq<u8>)
    requires
        head.len() >= 4,
        head_len(head, 0) == Some(head.len() as int),
        one_line(line),
        line.len() > 0,
        2 <= from <= head.len() - 2,
        crlf_at(head, from - 2),
    ensures
        field_values_from(
            head.take(head.len() - 2) + line + text("\r\n") + text("\r\n"),
            from,
            name,
        ) == field_values_from(head, from, name) + line_values(line, name),
    decreases head.len() - from,
{
    let n = head.len() as int;
    let p = head.take(n - 2);
    let eol = text("\r\n");
    let new = p + line + eol + eol;
    lemma_head_len(head, 0);
    lemma_line_end(head, from);
    let e = line_end(head, from);
    if from == n - 2 {
        lemma_field_line(p, line, eol, name);
        let q = p + line + eol;
        lemma_line_in(q, Seq::empty(), Seq::empty());
        assert(q + Seq::<u8>::empty() + eol + Seq::<u8>::empty() =~= new);
        assert(crlf_at(head, from));
        assert(e == from);
        assert(field_values_from(new, from, name) =~= line_values(line, name));
        assert(Seq::<Seq<u8>>::empty() + line_values(line, name) =~= line_values(line, name));
    } else {
        assert(crlf_at(head, n - 4) && crlf_at(head, n - 2));
        assert(from != n - 3) by {
            if from == n - 3 {
                assert(head[n - 4] == 0x0a);
                assert(head[n - 4] == 0x0d);
            }
        }
        assert(e <= n - 4);
        assert(e > from) by {
            if e == from {
                assert(crlf_at(head, from - 2) && crlf_at(head, from));
            }
        }
        assert(line_end(p, from) == e) by {
            lemma_line_end(p, from);
            assert(crlf_at(p, e));
            let f = line_end(p, from);
            if f < e {
                assert(crlf_at(p, f));
                assert(crlf_at(head, f));
            }
        }
        lemma_line_fed(p, line + eol + eol, from);
        assert(new =~= p + (line + eol + eol));
        assert(new.subrange(from, e) =~= head.subrange(from, e));
        lemma_forwarded_lines(head, line, e + 2, name);
        let l = head.subrange(from, e);
        let rest = field_values_from(head, e + 2, name);
        assert(field_values_from(new, from, name) =~= field_values_from(head, from, name)
            + line_values(line, name));
    }
}

/// What `head_len` finds: the end of the first blank line.
proof fn lemma_head_len(s: Seq<u8>, from: int)
    requires
        0 <= from,
    ensures
        match head_len(s, from) {
            Some(n) => from + 4 <= n <= s.len() && crlf_at(s, n - 4) && crlf_at(s, n - 2) && (forall|
                k: int,
            |
                from <= k < n - 4 ==> !(#[trigger] crlf_at(s, k) && crlf_at(s, k + 2))),
            None => true,
        },
    decreases s.len() - from,
{
    if from + 3 < s.len() && !(crlf_at(s, from) && crlf_at(s, from + 2)) {
        lemma_head_len(s, from + 1);
    }
}

/// The backend sees the request as the client sent it: the values of every field are
/// those of the client's head, and the client's address is one more value of
/// `X-Forwarded-For`.
pub proof fn law_forwarded_head_adds_one_field(head: Seq<u8>, client_ip: u32, name: Seq<u8>)
    requires
        head_len(head, 0) == Some(head.len() as int),
    ensures
        field_values(forward_head(head, client_ip), name) == field_values(head, name)
            + line_values(text("X-Forwarded-For: ") + ipv4_text(client_ip), name),
        line_end(forward_head(head, client_ip), 0) == line_end(head, 0),
        forward_head(head, client_ip).take(line_end(head, 0)) == head.take(line_end(head, 0)),
{
    let n = head.len() as int;
    let eol = text("\r\n");
    let line = text("X-Forwarded-For: ") + ipv4_text(client_ip);
    reveal_strlit("\r\n");
    reveal_strlit("\r\n\r\n");
    reveal_strlit("X-Forwarded-For: ");
    lemma_text("\r\n");
    lemma_text("\r\n\r\n");
    lemma_text("X-Forwarded-For: ");
    assert(text("\r\n\r\n") =~= eol + eol);
    lemma_ipv4_short(client_ip);
    assert(one_line(ipv4_text(client_ip)));
    lemma_plain_line(text("X-Forwarded-For: "), ipv4_text(client_ip));
    let p = head.take(n - 2);
    let new = p + line + eol + eol;
    assert(forward_head(head, client_ip) =~= new);
    lemma_head_len(head, 0);
    lemma_line_end(head, 0);
    let e = line_end(head, 0);
    assert(crlf_at(head, n - 4));
    assert(e <= n - 4);
    assert(line_end(p, 0) == e) by {
        lemma_line_end(p, 0);
        assert(crlf_at(p, e));
        let f = line_end(p, 0);
        if f < e {
            assert(crlf_at(p, f));
            assert(crlf_at(head, f));
        }
    }
    lemma_line_fed(p, line + eol + eol, 0);
    assert(new =~= p + (line + eol + eol));
    assert(new.take(e) =~= head.take(e));
    lemma_forwarded_lines(head, line, e + 2, name);
}

// ── Relaying bytes ──────────────────────────────────────────────────────

/// What was received from the client and has not been relayed.
pub open spec fn to_relay(slot: ConnSlot) -> Seq<u8> {
    slot.rx.buf@.skip(slot.proxy.relayed as int)
}

/// What goes to the backend next, if it is connected and anything is left.
pub fn relay_upstream(slot: &ConnSlot) -> (r: Option<(u16, Vec<u8>)>)
    requires
        slot.wf(),
        slot.proxy.relayed <= slot.rx.buf@.len(),
    ensures
        match r {
            Some((conn, bytes)) => slot.proxy.conn == Some(conn) && bytes@ == to_relay(*slot)
                && bytes@.len() > 0,
            None => slot.proxy.conn is None || to_relay(*slot).len() == 0,
        },
{
    match slot.proxy.conn {
        None => None,
        Some(conn) => {
            if slot.rx.buf.len() > slot.proxy.relayed {
                let rest = slice_subrange(
                    slot.rx.buf.as_slice(),
                    slot.proxy.relayed,
                    slot.rx.buf.len(),
                );
                assert(rest@ =~= to_relay(*slot));
                Some((conn, to_vec(rest)))
            } else {
                None
            }
        },
    }
}

/// Note that the backend took `n` bytes. Once it has them all the buffer is free.
pub fn note_relayed(slot: &mut ConnSlot, n: usize)
    requires
        old(slot).wf(),
        old(slot).proxy.relayed <= old(slot).rx.buf@.len(),
        n <= to_relay(*old(slot)).len(),
    ensures
        final(slot).wf(),
        *final(slot) == (ConnSlot {
            rx: final(slot).rx,
            proxy: ProxyLeg { relayed: final(slot).proxy.relayed, ..old(slot).proxy },
            ..*old(slot)
        }),
        to_relay(*final(slot)) == to_relay(*old(slot)).skip(n as int),
        final(slot).proxy.relayed <= final(slot).rx.buf@.len(),
        n > 0 && n == to_relay(*old(slot)).len() ==> final(slot).rx.buf@.len() == 0
            && final(slot).proxy.relayed == 0,
        !(n > 0 && n == to_relay(*old(slot)).len()) ==> final(slot).rx == old(slot).rx
            && final(slot).proxy.relayed == old(slot).proxy.relayed + n,
{
    if n == 0 {
        assert(to_relay(*slot) =~= to_relay(*old(slot)).skip(0));
        return;
    }
    slot.proxy.relayed = slot.proxy.relayed + n;
    if slot.proxy.relayed >= slot.rx.buf.len() {
        slot.rx = Inbox::blank();
        slot.proxy.relayed = 0;
    }
    assert(to_relay(*slot) =~= to_relay(*old(slot)).skip(n as int));
}

/// Note that the client took `n` bytes. Once it has them all the buffer is free.
pub fn note_returned(slot: &mut ConnSlot, n: usize)
    requires
        old(slot).wf(),
        n <= old(slot).tx.unsent().len(),
    ensures
        final(slot).wf(),
        *final(slot) == (ConnSlot { tx: final(slot).tx, ..*old(slot) }),
        final(slot).tx.unsent() == old(slot).tx.unsent().skip(n as int),
        n > 0 && n == old(slot).tx.unsent().len() ==> final(slot).tx.is_blank(),
{
    if n == 0 {
        assert(slot.tx.unsent() =~= old(slot).tx.unsent().skip(0));
        return;
    }
    slot.tx.note_sent(n);
    if slot.tx.sent >= slot.tx.buf.len() {
        slot.tx.clear();
        assert(slot.tx.unsent() =~= old(slot).tx.unsent().skip(n as int));
    }
}

/// End the relay once the backend has closed and the client has all its bytes.
pub fn relay_settle(slot: &mut ConnSlot)
    requires
        old(slot).wf(),
    ensures
        final(slot).wf(),
        *final(slot) == (ConnSlot {
            phase: if old(slot).proxy.closed && old(slot).tx.unsent().len() == 0 {
                Phase::CloseConn
            } else {
                old(slot).phase
            },
            ..*old(slot)
        }),
{
    if slot.proxy.closed && slot.tx.send_remaining() == 0 {
        slot.phase = Phase::CloseConn;
    }
}

// ── Dynamic routes ──────────────────────────────────────────────────────

/// The host a request names: the first `Host` value, or nothing.
pub open spec fn host_of(head: Seq<u8>) -> Seq<u8> {
    match header_of(head, text("Host")) {
        Some(v) => v,
        None => Seq::empty(),
    }
}

/// The host to look a dynamic route up by. `None` before there is a head.
pub fn dyn_host(slot: &ConnSlot) -> (r: Option<Vec<u8>>)
    requires
        slot.wf(),
    ensures
        match r {
            Some(h) => slot.rx.head_end > 0 && h@ == host_of(
                slot.rx.buf@.take(slot.rx.head_end as int),
            ),
            None => slot.rx.head_end == 0,
        },
{
    if slot.rx.head_end == 0 {
        return None;
    }
    let head = slice_subrange(slot.rx.buf.as_slice(), 0, slot.rx.head_end);
    assert(head@ =~= slot.rx.buf@.take(slot.rx.head_end as int));
    match find_header(head, lit("Host")) {
        Some(v) => Some(v),
        None => {
            let v: Vec<u8> = Vec::new();
            assert(v@ =~= Seq::<u8>::empty());
            Some(v)
        },
    }
}

/// Act on what a dynamic-route lookup found: the route, and a ready backend of it.
/// Without a route nothing is done; with a route but no ready backend the answer is
/// 502. Returns whether the request has been taken over.
pub fn try_begin_dyn_proxy(
    slot: &mut ConnSlot,
    found: Option<usize>,
    backend: Option<(u32, u16)>,
    counters: &mut ProxyCounters,
) -> (taken: bool)
    requires
        old(slot).wf(),
    ensures
        final(slot).wf(),
        taken == (found is Some && old(slot).rx.head_end > 0),
        if !taken {
            *final(slot) == *old(slot) && *final(counters) == *old(counters)
        } else if backend is Some {
            &&& *final(slot) == (ConnSlot {
                proxy: fresh_leg(old(slot).proxy, (backend->0).0, (backend->0).1, found),
                keepalive: false,
                phase: Phase::ProxyConnect,
                ..*old(slot)
            })
            &&& *final(counters) == *old(counters)
        } else {
            &&& bad_gateway(*old(slot), *final(slot), text("No ready backend\n"))
            &&& *final(counters) == (ProxyCounters {
                fives: bumped(old(counters).fives),
                ..*old(counters)
            })
        },
{
    if slot.rx.head_end == 0 || found.is_none() {
        return false;
    }
    match backend {
        Some((ip, port)) => {
            begin_proxy(slot, ip, port, found);
        },
        None => {
            counters.fives = bump(counters.fives);
            slot.phase = Phase::DrainSend;
            build_error(slot, lit("502 Bad Gateway"), lit("No ready backend\n"));
        },
    }
    true
}

/// Set the client's address.
pub fn set_client_ip(slot: &mut ConnSlot, ip: u32)
    ensures
        *final(slot) == (ConnSlot { client_ip: ip, ..*old(slot) }),
{
    slot.client_ip = ip;
}

/// A backend is tried at most once more: after the retry no further one is asked for.
pub proof fn law_one_retry(leg: ProxyLeg)
    ensures
        leg.attempt == 1 ==> !may_retry(leg),
        leg.dyn_idx is None ==> !may_retry(leg),
{
}

/// A dial names the backend's address and port, low bytes first, behind the kind of the
/// socket, and ends with who asks.
pub proof fn law_dial_names_its_backend(a: u8, b: u8, c: u8, d: u8, lo: u8, hi: u8, tag: u8)
    ensures
        dial_payload((a + 256 * (b + 256 * (c + 256 * d))) as u32, (lo + 256 * hi) as u16, tag)
            == seq![1u8, a, b, c, d, lo, hi, tag],
{
    let ip = (a + 256 * (b + 256 * (c + 256 * d))) as u32;
    let port = (lo + 256 * hi) as u16;
    assert(ip % 256 == a);
    assert(ip / 256 == b + 256 * (c + 256 * d));
    assert(ip / 0x100 % 256 == b);
    assert(ip / 0x1_0000 == c + 256 * d);
    assert(ip / 0x1_0000 % 256 == c);
    assert(ip / 0x100_0000 == d);
    assert(port % 256 == lo && port / 256 == hi);
    assert(dial_payload(ip, port, tag) =~= seq![1u8, a, b, c, d, lo, hi, tag]);
}

/// A dial to a backend that was looked up is tried again exactly where it was the first; one
/// to a configured backend never is.
pub proof fn law_first_failed_dial_is_retried(leg: ProxyLeg)
    ensures
        leg.dyn_idx is Some ==> (may_retry(leg) <==> leg.attempt == 0),
        leg.dyn_idx is None ==> !may_retry(leg),
{
}

} // verus!
