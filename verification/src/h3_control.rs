//! Unidirectional streams of an HTTP/3 connection: classifying the peer's, reading
//! its control frames and compression instructions, and opening our own.

use crate::bytes::extend;
use crate::h3::{
    H3Session, LocalUni, LocalUniState, PeerUniModel, SessionModel, UniRole, H3_EXCESSIVE_LOAD,
    H3_FRAME_ERROR, H3_FRAME_UNEXPECTED, H3_ID_ERROR, H3_MISSING_SETTINGS, H3_SETTINGS_ERROR,
    H3_STREAM_CREATION_ERROR, H3_UNI_BUF, LOCAL_MAX_FIELD_SECTION, MAX_PEER_UNI,
    QPACK_DECODER_STREAM_ERROR, QPACK_ENCODER_STREAM_ERROR,
};
use crate::h3_wire::{
    frame_at, frame_bytes, frame_header_vec, lemma_frame_bounds, parse_h3_frame, payload_of, settings_bytes,
    settings_pairs, H3_FRAME_CANCEL_PUSH, H3_FRAME_DATA, H3_FRAME_GOAWAY, H3_FRAME_HEADERS,
    H3_FRAME_MAX_PUSH_ID, H3_FRAME_PRIORITY_UPDATE_PUSH, H3_FRAME_PRIORITY_UPDATE_REQUEST, H3_FRAME_SETTINGS,
    H3_SETTING_ENABLE_CONNECT_PROTOCOL, H3_SETTING_MAX_FIELD_SECTION_SIZE, H3_SETTING_QPACK_BLOCKED_STREAMS,
    H3_SETTING_QPACK_MAX_TABLE_CAPACITY, H3_UNI_STREAM_CONTROL, H3_UNI_STREAM_PUSH,
    H3_UNI_STREAM_QPACK_DECODER, H3_UNI_STREAM_QPACK_ENCODER,
};
use crate::mux::STATUS_OK;
use crate::prefix_int::{decode_prefix_int, prefix_int_at};
use crate::varint::{
    lemma_varint_bounds, lemma_varint_prefix, varint_at, varint_bytes, varint_decode, varint_vec};
use vstd::prelude::*;
use vstd::slice::slice_subrange;

verus! {

// ── Stream types and bare varints ───────────────────────────────────────

/// The type of a unidirectional stream: the varint it begins with.
pub fn classify_uni_stream_prefix(buf: &[u8]) -> (r: Option<(u64, usize)>)
    ensures
        match r {
            Some((t, n)) => varint_at(buf@) == Some((t, n as nat)) && 1 <= n <= 8 && n
                <= buf@.len(),
            None => varint_at(buf@) is None,
        },
{
    varint_decode(buf)
}

/// Decode a varint from the front of `buf`.
pub fn decode_varint_prefix(buf: &[u8]) -> (r: Option<(u64, usize)>)
    ensures
        match r {
            Some((v, n)) => varint_at(buf@) == Some((v, n as nat)) && 1 <= n <= 8 && n
                <= buf@.len(),
            None => varint_at(buf@) is None,
        },
{
    classify_uni_stream_prefix(buf)
}

// ── SETTINGS ────────────────────────────────────────────────────────────

/// The peer's settings, as far as they are used here.
#[derive(Clone, Copy, PartialEq, Eq, Structural)]
pub struct PeerSettings {
    pub max_field_section_size: u32,
    pub enable_connect_protocol: bool,
}

/// Settings that may be stated once only.
pub open spec fn tracked_setting(id: u64) -> bool {
    id == H3_SETTING_MAX_FIELD_SECTION_SIZE || id == H3_SETTING_QPACK_MAX_TABLE_CAPACITY || id
        == H3_SETTING_QPACK_BLOCKED_STREAMS || id == H3_SETTING_ENABLE_CONNECT_PROTOCOL
}

/// Whether a list of settings is legal: no tracked one twice, and the connect
/// protocol either on or off.
pub open spec fn settings_legal(ps: Seq<(u64, u64)>) -> bool {
    &&& forall|i: int, j: int|
        0 <= i < j < ps.len() && tracked_setting((#[trigger] ps[i]).0) ==> ps[i].0 != (
        #[trigger] ps[j]).0
    &&& forall|i: int|
        0 <= i < ps.len() && (#[trigger] ps[i]).0 == H3_SETTING_ENABLE_CONNECT_PROTOCOL
            ==> ps[i].1 <= 1
}

/// The value stated for a setting, if any.
pub open spec fn setting_of(ps: Seq<(u64, u64)>, id: u64) -> Option<u64>
    decreases ps.len(),
{
    if ps.len() == 0 {
        None
    } else if ps.last().0 == id {
        Some(ps.last().1)
    } else {
        setting_of(ps.drop_last(), id)
    }
}

/// The settings a legal list states: an absent limit is no limit, and one beyond 32
/// bits is as good as none.
pub open spec fn settings_of(ps: Seq<(u64, u64)>) -> PeerSettings {
    PeerSettings {
        max_field_section_size: match setting_of(ps, H3_SETTING_MAX_FIELD_SECTION_SIZE) {
            Some(v) => if v > u32::MAX {
                u32::MAX
            } else {
                v as u32
            },
            None => u32::MAX,
        },
        enable_connect_protocol: setting_of(ps, H3_SETTING_ENABLE_CONNECT_PROTOCOL) == Some(1u64),
    }
}

/// What a SETTINGS payload states. `None` when it is malformed or illegal.
pub open spec fn peer_settings(payload: Seq<u8>) -> Option<PeerSettings> {
    match settings_pairs(payload) {
        Some(ps) => if settings_legal(ps) {
            Some(settings_of(ps))
        } else {
            None
        },
        None => None,
    }
}

proof fn lemma_setting_seen(ps: Seq<(u64, u64)>, id: u64)
    ensures
        setting_of(ps, id) is Some <==> exists|i: int|
            0 <= i < ps.len() && (#[trigger] ps[i]).0 == id,
    decreases ps.len(),
{
    if ps.len() > 0 {
        lemma_setting_seen(ps.drop_last(), id);
        if ps.last().0 == id {
            assert(ps[ps.len() - 1].0 == id);
        } else if setting_of(ps.drop_last(), id) is Some {
            let i = choose|i: int|
                0 <= i < ps.drop_last().len() && (#[trigger] ps.drop_last()[i]).0 == id;
            assert(ps[i].0 == id);
        } else {
            assert forall|i: int| 0 <= i < ps.len() implies (#[trigger] ps[i]).0 != id by {
                if i < ps.len() - 1 {
                    assert(ps.drop_last()[i] == ps[i]);
                }
            }
        }
    }
}

proof fn lemma_repeat_is_illegal(ps: Seq<(u64, u64)>, before: Seq<(u64, u64)>, id: u64, val: u64)
    requires
        tracked_setting(id),
        setting_of(before, id) is Some,
        before.len() < ps.len(),
        ps.take(before.len() as int) == before,
        ps[before.len() as int] == (id, val),
    ensures
        !settings_legal(ps),
{
    lemma_setting_seen(before, id);
    let i = choose|i: int| 0 <= i < before.len() && (#[trigger] before[i]).0 == id;
    assert(ps.take(before.len() as int)[i] == ps[i]);
    assert(ps[i].0 == ps[before.len() as int].0);
}

/// Read a SETTINGS payload (RFC 9114 §7.2.4). All of it counts or none of it does.
pub fn parse_peer_settings(payload: &[u8]) -> (r: Option<PeerSettings>)
    ensures
        r == peer_settings(payload@),
{
    let mut out = PeerSettings { max_field_section_size: u32::MAX, enable_connect_protocol: false };
    let mut seen_limit: bool = false;
    let mut seen_capacity: bool = false;
    let mut seen_blocked: bool = false;
    let mut seen_connect: bool = false;
    let mut pos: usize = 0;
    let ghost mut done: Seq<(u64, u64)> = Seq::empty();
    let ghost whole = settings_pairs(payload@);
    proof {
        assert(payload@.skip(0) =~= payload@);
        if whole is Some {
            assert(done + whole->0 =~= whole->0);
        }
    }
    while pos < payload.len()
        invariant
            pos <= payload@.len(),
            whole == settings_pairs(payload@),
            match settings_pairs(payload@.skip(pos as int)) {
                Some(rest) => whole == Some(done + rest),
                None => whole is None,
            },
            settings_legal(done),
            out == settings_of(done),
            seen_limit == setting_of(done, H3_SETTING_MAX_FIELD_SECTION_SIZE) is Some,
            seen_capacity == setting_of(done, H3_SETTING_QPACK_MAX_TABLE_CAPACITY) is Some,
            seen_blocked == setting_of(done, H3_SETTING_QPACK_BLOCKED_STREAMS) is Some,
            seen_connect == setting_of(done, H3_SETTING_ENABLE_CONNECT_PROTOCOL) is Some,
        decreases payload@.len() - pos,
    {
        let ghost rest0 = payload@.skip(pos as int);
        let at_id = slice_subrange(payload, pos, payload.len());
        assert(at_id@ =~= rest0);
        let (id, n1) = match decode_varint_prefix(at_id) {
            Some(x) => x,
            None => return None,
        };
        pos += n1;
        let at_val = slice_subrange(payload, pos, payload.len());
        assert(at_val@ =~= rest0.skip(n1 as int));
        let (val, n2) = match decode_varint_prefix(at_val) {
            Some(x) => x,
            None => return None,
        };
        pos += n2;
        assert(payload@.skip(pos as int) =~= rest0.skip((n1 + n2) as int));
        let ghost before = done;
        proof {
            done = done.push((id, val));
            if let Some(rest) = settings_pairs(payload@.skip(pos as int)) {
                assert(before + (seq![(id, val)] + rest) =~= done + rest);
                assert((done + rest).take(before.len() as int) =~= before);
                assert((done + rest)[before.len() as int] == (id, val));
            }
            assert(done.drop_last() =~= before);
        }
        let repeated: bool = if id == H3_SETTING_MAX_FIELD_SECTION_SIZE {
            seen_limit
        } else if id == H3_SETTING_QPACK_MAX_TABLE_CAPACITY {
            seen_capacity
        } else if id == H3_SETTING_QPACK_BLOCKED_STREAMS {
            seen_blocked
        } else if id == H3_SETTING_ENABLE_CONNECT_PROTOCOL {
            seen_connect
        } else {
            false
        };
        if repeated {
            proof {
                if let Some(ps) = whole {
                    lemma_repeat_is_illegal(ps, before, id, val);
                }
            }
            return None;
        }
        if id == H3_SETTING_ENABLE_CONNECT_PROTOCOL && val > 1 {
            return None;
        }
        proof {
            lemma_setting_seen(before, id);
        }
        if id == H3_SETTING_MAX_FIELD_SECTION_SIZE {
            seen_limit = true;
            out.max_field_section_size = if val > u32::MAX as u64 {
                u32::MAX
            } else {
                val as u32
            };
        } else if id == H3_SETTING_QPACK_MAX_TABLE_CAPACITY {
            seen_capacity = true;
        } else if id == H3_SETTING_QPACK_BLOCKED_STREAMS {
            seen_blocked = true;
        } else if id == H3_SETTING_ENABLE_CONNECT_PROTOCOL {
            seen_connect = true;
            out.enable_connect_protocol = val == 1;
        }
    }
    proof {
        assert(payload@.skip(pos as int) =~= Seq::empty());
        assert(done + Seq::<(u64, u64)>::empty() =~= done);
    }
    Some(out)
}

// ── Compression instruction streams ─────────────────────────────────────

/// What instructions on the peer's encoder stream come to. With no dynamic table the
/// one legal instruction sets its capacity to zero; a truncated one is let be.
pub open spec fn encoder_verdict(data: Seq<u8>) -> Option<u64>
    decreases data.len(),
{
    if data.len() == 0 {
        None
    } else if data[0] / 32 != 1 {
        Some(QPACK_ENCODER_STREAM_ERROR)
    } else {
        match prefix_int_at(data, 5) {
            None => None,
            Some((cap, n)) => if cap != 0 {
                Some(QPACK_ENCODER_STREAM_ERROR)
            } else if n == 0 || n > data.len() {
                None
            } else {
                encoder_verdict(data.skip(n as int))
            },
        }
    }
}

/// What instructions on a compression stream come to. On the decoder stream every
/// instruction speaks of insertions that were never made.
pub open spec fn instruction_verdict(data: Seq<u8>, encoder: bool) -> Option<u64> {
    if encoder {
        encoder_verdict(data)
    } else if data.len() > 0 {
        Some(QPACK_DECODER_STREAM_ERROR)
    } else {
        None
    }
}

/// Judge the peer's compression instructions under our zero-capacity table.
pub fn qpack_instruction_ingest(data: &[u8], encoder: bool) -> (r: Option<u64>)
    ensures
        r == instruction_verdict(data@, encoder),
{
    if !encoder {
        return if data.len() > 0 {
            Some(QPACK_DECODER_STREAM_ERROR)
        } else {
            None
        };
    }
    let mut pos: usize = 0;
    assert(data@.skip(0) =~= data@);
    while pos < data.len()
        invariant
            pos <= data@.len(),
            encoder,
            encoder_verdict(data@.skip(pos as int)) == encoder_verdict(data@),
        decreases data@.len() - pos,
    {
        let rest = slice_subrange(data, pos, data.len());
        assert(rest@ =~= data@.skip(pos as int));
        if data[pos] / 32 != 1 {
            return Some(QPACK_ENCODER_STREAM_ERROR);
        }
        match decode_prefix_int(rest, 5) {
            None => {
                return None;
            },
            Some((cap, n)) => {
                if cap != 0 {
                    return Some(QPACK_ENCODER_STREAM_ERROR);
                }
                assert(rest@.skip(n as int) =~= data@.skip(pos + n));
                pos += n;
            },
        }
    }
    None
}

// ── Control frames ──────────────────────────────────────────────────────

/// What one control frame does to a session, and the connection error it is, if any.
#[verifier::opaque]
pub open spec fn control_step(s: SessionModel, ftype: u64, payload: Seq<u8>) -> (
    SessionModel,
    Option<u64>,
) {
    if !s.peer_settings_seen && ftype != H3_FRAME_SETTINGS {
        (s, Some(H3_MISSING_SETTINGS))
    } else if ftype == H3_FRAME_SETTINGS {
        if s.peer_settings_seen {
            (s, Some(H3_FRAME_UNEXPECTED))
        } else {
            match peer_settings(payload) {
                Some(p) => (
                    SessionModel {
                        peer_max_field_section: p.max_field_section_size,
                        peer_enable_connect: p.enable_connect_protocol,
                        peer_settings_seen: true,
                        ..s
                    },
                    None,
                ),
                None => (s, Some(H3_SETTINGS_ERROR)),
            }
        }
    } else if ftype == H3_FRAME_GOAWAY {
        match varint_at(payload) {
            None => (s, Some(H3_FRAME_ERROR)),
            Some((id, _)) => if s.peer_goaway && id > s.peer_goaway_id {
                (s, Some(H3_ID_ERROR))
            } else {
                (SessionModel { peer_goaway: true, peer_goaway_id: id, ..s }, None)
            },
        }
    } else if ftype == H3_FRAME_CANCEL_PUSH {
        (s, Some(H3_ID_ERROR))
    } else if ftype == H3_FRAME_MAX_PUSH_ID || ftype == H3_FRAME_PRIORITY_UPDATE_REQUEST || ftype
        == H3_FRAME_PRIORITY_UPDATE_PUSH {
        (
            s,
            if varint_at(payload) is None {
                Some(H3_FRAME_ERROR)
            } else {
                None
            },
        )
    } else if ftype == H3_FRAME_DATA || ftype == H3_FRAME_HEADERS {
        (s, Some(H3_FRAME_UNEXPECTED))
    } else {
        (s, None)
    }
}

/// Apply one control frame. Returns the connection error it is, if any.
pub fn control_frame(sess: &mut H3Session, ftype: u64, payload: &[u8]) -> (r: Option<u64>)
    ensures
        (final(sess)@, r) == control_step(old(sess)@, ftype, payload@),
        final(sess).peer_uni == old(sess).peer_uni,
{
    proof {
        reveal(control_step);
    }
    let ghost want = control_step(sess@, ftype, payload@);
    if !sess.peer_settings_seen && ftype != H3_FRAME_SETTINGS {
        return Some(H3_MISSING_SETTINGS);
    }
    if ftype == H3_FRAME_SETTINGS {
        if sess.peer_settings_seen {
            return Some(H3_FRAME_UNEXPECTED);
        }
        return match parse_peer_settings(payload) {
            Some(p) => {
                sess.peer_max_field_section = p.max_field_section_size;
                sess.peer_enable_connect = p.enable_connect_protocol;
                sess.peer_settings_seen = true;
                assert(sess@ =~= want.0);
                None
            },
            None => Some(H3_SETTINGS_ERROR),
        };
    }
    if ftype == H3_FRAME_GOAWAY {
        let id: u64 = match decode_varint_prefix(payload) {
            Some((v, _)) => v,
            None => return Some(H3_FRAME_ERROR),
        };
        if sess.peer_goaway && id > sess.peer_goaway_id {
            return Some(H3_ID_ERROR);
        }
        sess.peer_goaway = true;
        sess.peer_goaway_id = id;
        assert(sess@ =~= want.0);
        return None;
    }
    if ftype == H3_FRAME_CANCEL_PUSH {
        return Some(H3_ID_ERROR);
    }
    if ftype == H3_FRAME_MAX_PUSH_ID || ftype == H3_FRAME_PRIORITY_UPDATE_REQUEST || ftype
        == H3_FRAME_PRIORITY_UPDATE_PUSH {
        return match decode_varint_prefix(payload) {
            Some(_) => None,
            None => Some(H3_FRAME_ERROR),
        };
    }
    if ftype == H3_FRAME_DATA || ftype == H3_FRAME_HEADERS {
        return Some(H3_FRAME_UNEXPECTED);
    }
    None
}

/// Apply the whole frames at the front of `buf` one after another, up to the first
/// that is an error. Gives the session, the bytes left and the error.
pub open spec fn control_walk(s: SessionModel, buf: Seq<u8>) -> (SessionModel, Seq<u8>, Option<u64>)
    decreases buf.len(),
{
    match frame_at(buf) {
        None => (s, buf, None),
        Some(f) => {
            proof {
                lemma_frame_bounds(buf);
            }
            let (t, e) = control_step(s, f.frame_type, payload_of(buf, f));
            if e is Some {
                (t, buf, e)
            } else {
                control_walk(t, buf.skip(f.end))
            }
        },
    }
}

/// What bytes on the control stream tracked at `i` come to. More than the stream may
/// hold unparsed is refused.
#[verifier::opaque]
pub open spec fn control_ingest(s: SessionModel, i: int, data: Seq<u8>) -> (
    SessionModel,
    Option<u64>,
) {
    let buf = s.peer_uni[i].buf + data;
    if buf.len() > H3_UNI_BUF {
        (s, Some(H3_EXCESSIVE_LOAD))
    } else {
        let (t, rest, e) = control_walk(s, buf);
        (
            SessionModel {
                peer_uni: s.peer_uni.update(i, PeerUniModel { buf: rest, ..s.peer_uni[i] }),
                ..t
            },
            e,
        )
    }
}

/// A whole frame stays the same frame when more bytes follow.
pub proof fn lemma_frame_prefix(buf: Seq<u8>, more: Seq<u8>)
    requires
        frame_at(buf) is Some,
    ensures
        frame_at(buf + more) == frame_at(buf),
        payload_of(buf + more, frame_at(buf)->0) == payload_of(buf, frame_at(buf)->0),
{
    let f = frame_at(buf)->0;
    lemma_frame_bounds(buf);
    lemma_varint_bounds(buf);
    lemma_varint_prefix(buf, more);
    let n = (varint_at(buf)->0).1 as int;
    assert((buf + more).skip(n) =~= buf.skip(n) + more);
    lemma_varint_prefix(buf.skip(n), more);
    assert(payload_of(buf + more, f) =~= payload_of(buf, f));
}

proof fn lemma_control_step_frame(s: SessionModel, ftype: u64, payload: Seq<u8>)
    ensures
        control_step(s, ftype, payload).0.peer_uni == s.peer_uni,
{
    reveal(control_step);
}

proof fn lemma_control_walk_frame(s: SessionModel, buf: Seq<u8>)
    ensures
        control_walk(s, buf).0.peer_uni == s.peer_uni,
        control_walk(s, buf).1.len() <= buf.len(),
    decreases buf.len(),
{
    lemma_frame_bounds(buf);
    if let Some(f) = frame_at(buf) {
        let (t, e) = control_step(s, f.frame_type, payload_of(buf, f));
        lemma_control_step_frame(s, f.frame_type, payload_of(buf, f));
        if e is None {
            lemma_control_walk_frame(t, buf.skip(f.end));
        }
    }
}

/// Control bytes may arrive in any division: walking what came first and then the
/// rest with what was left over is walking all of it, unless the first part already
/// was an error.
pub proof fn law_control_bytes_may_be_split(s: SessionModel, a: Seq<u8>, b: Seq<u8>)
    requires
        control_walk(s, a).2 is None,
    ensures
        control_walk(control_walk(s, a).0, control_walk(s, a).1 + b) == control_walk(s, a + b),
    decreases a.len(),
{
    lemma_frame_bounds(a);
    if let Some(f) = frame_at(a) {
        lemma_frame_prefix(a, b);
        let (t, e) = control_step(s, f.frame_type, payload_of(a, f));
        law_control_bytes_may_be_split(t, a.skip(f.end), b);
        assert((a + b).skip(f.end) =~= a.skip(f.end) + b);
    }
}

/// Once the peer's SETTINGS are in, a second SETTINGS frame is an error and changes
/// nothing; before they are, any other frame is.
pub proof fn law_settings_come_first_and_once(s: SessionModel, ftype: u64, payload: Seq<u8>)
    ensures
        (ftype == H3_FRAME_SETTINGS) == s.peer_settings_seen ==> control_step(
            s,
            ftype,
            payload,
        ).1 is Some && control_step(s, ftype, payload).0 == s,
{
    reveal(control_step);
}

/// The boundary a peer's GOAWAY names never moves up.
pub proof fn law_peer_goaway_never_rises(s: SessionModel, ftype: u64, payload: Seq<u8>)
    ensures
        s.peer_goaway ==> {
            let t = control_step(s, ftype, payload).0;
            t.peer_goaway && t.peer_goaway_id <= s.peer_goaway_id
        },
{
    reveal(control_step);
}

/// Accumulate control-stream bytes and apply the whole frames.
#[verifier::rlimit(40)]
pub fn uni_control_ingest(sess: &mut H3Session, slot: usize, data: &[u8]) -> (r: Option<u64>)
    requires
        slot < MAX_PEER_UNI,
        old(sess)@.peer_uni[slot as int].buf.len() <= H3_UNI_BUF,
    ensures
        (final(sess)@, r) == control_ingest(old(sess)@, slot as int, data@),
{
    proof {
        reveal(control_ingest);
    }
    let ghost s0 = sess@;
    let ghost u0 = sess.peer_uni@;
    assert(s0.peer_uni[slot as int] == sess.peer_uni@[slot as int]@);
    if data.len() > H3_UNI_BUF - sess.peer_uni[slot].buf.len() {
        return Some(H3_EXCESSIVE_LOAD);
    }
    let mut buf: Vec<u8> = crate::bytes::to_vec(sess.peer_uni[slot].buf.as_slice());
    extend(&mut buf, data);
    let ghost all = buf@;
    let mut pos: usize = 0;
    let mut err: Option<u64> = None;
    assert(buf@.skip(0) =~= buf@);
    loop
        invariant_except_break
            control_walk(sess@, buf@.skip(pos as int)) == control_walk(s0, all),
            err is None,
        invariant
            pos <= buf@.len(),
            buf@ == all,
            sess.peer_uni@ == u0,
            sess@.peer_uni == s0.peer_uni,
        ensures
            (sess@, buf@.skip(pos as int), err) == control_walk(s0, all),
        decreases buf@.len() - pos,
    {
        let rest = slice_subrange(buf.as_slice(), pos, buf.len());
        assert(rest@ =~= buf@.skip(pos as int));
        match parse_h3_frame(rest) {
            Some((f, n)) => {
                proof {
                    lemma_frame_bounds(rest@);
                    lemma_control_step_frame(sess@, f.frame_type, f.payload@);
                }
                match control_frame(sess, f.frame_type, f.payload) {
                    Some(code) => {
                        err = Some(code);
                        break;
                    },
                    None => {},
                }
                assert(rest@.skip(n as int) =~= buf@.skip(pos + n));
                pos += n;
            },
            None => {
                break;
            },
        }
    }
    let left: Vec<u8> = crate::bytes::to_vec(slice_subrange(buf.as_slice(), pos, buf.len()));
    assert(left@ =~= buf@.skip(pos as int));
    sess.peer_uni[slot].buf = left;
    proof {
        let want = control_ingest(s0, slot as int, data@).0;
        assert(sess@.peer_uni =~= want.peer_uni);
        assert(sess@ =~= want);
    }
    err
}

// ── Classifying a stream ────────────────────────────────────────────────

/// What the stream type says a stream is.
pub open spec fn role_of(stream_type: u64) -> UniRole {
    if stream_type == H3_UNI_STREAM_CONTROL {
        UniRole::Control
    } else if stream_type == H3_UNI_STREAM_PUSH {
        UniRole::Push
    } else if stream_type == H3_UNI_STREAM_QPACK_ENCODER {
        UniRole::QpackEncoder
    } else if stream_type == H3_UNI_STREAM_QPACK_DECODER {
        UniRole::QpackDecoder
    } else {
        UniRole::Unknown
    }
}

/// A session taking note that a stream of this role began: one of each critical
/// stream, and no push stream towards a server.
pub open spec fn role_claimed(s: SessionModel, role: UniRole) -> (SessionModel, Option<u64>) {
    match role {
        UniRole::Control => if s.peer_control_seen {
            (s, Some(H3_STREAM_CREATION_ERROR))
        } else {
            (SessionModel { peer_control_seen: true, ..s }, None)
        },
        UniRole::QpackEncoder => if s.peer_qpack_enc_seen {
            (s, Some(H3_STREAM_CREATION_ERROR))
        } else {
            (SessionModel { peer_qpack_enc_seen: true, ..s }, None)
        },
        UniRole::QpackDecoder => if s.peer_qpack_dec_seen {
            (s, Some(H3_STREAM_CREATION_ERROR))
        } else {
            (SessionModel { peer_qpack_dec_seen: true, ..s }, None)
        },
        UniRole::Push => (s, Some(H3_STREAM_CREATION_ERROR)),
        _ => (s, None),
    }
}

/// The session once the role of the stream tracked at `i` is known.
pub open spec fn stream_named(s: SessionModel, i: int, role: UniRole) -> SessionModel {
    SessionModel {
        peer_uni: s.peer_uni.update(
            i,
            PeerUniModel { prefix: Seq::empty(), role, ..s.peer_uni[i] },
        ),
        ..s
    }
}

/// What bytes behind a stream's type come to, by the stream's role.
pub open spec fn role_ingest(s: SessionModel, i: int, data: Seq<u8>) -> (SessionModel, Option<u64>) {
    match s.peer_uni[i].role {
        UniRole::Control => control_ingest(s, i, data),
        UniRole::QpackEncoder => (s, instruction_verdict(data, true)),
        UniRole::QpackDecoder => (s, instruction_verdict(data, false)),
        _ => (s, None),
    }
}

/// What bytes on the peer unidirectional stream tracked at `i` come to. They are held
/// until its type is whole; then the type decides, and the bytes behind it belong to
/// the stream.
pub open spec fn uni_step(s: SessionModel, i: int, data: Seq<u8>) -> (SessionModel, Option<u64>) {
    let u = s.peer_uni[i];
    if u.role is Pending {
        let seen = u.prefix + data;
        match varint_at(seen) {
            None => (
                SessionModel {
                    peer_uni: s.peer_uni.update(i, PeerUniModel { prefix: seen, ..u }),
                    ..s
                },
                None,
            ),
            Some((t, n)) => {
                let (claimed, e) = role_claimed(stream_named(s, i, role_of(t)), role_of(t));
                if e is Some {
                    (claimed, e)
                } else {
                    role_ingest(claimed, i, seen.skip(n as int))
                }
            },
        }
    } else {
        role_ingest(s, i, data)
    }
}

/// A stream type may arrive in any division: bytes that leave it incomplete, then
/// more, are as good as all of them at once.
#[verifier::rlimit(40)]
pub proof fn law_stream_type_may_be_split(s: SessionModel, i: int, a: Seq<u8>, b: Seq<u8>)
    requires
        0 <= i < s.peer_uni.len(),
        s.peer_uni[i].role is Pending,
        varint_at(s.peer_uni[i].prefix + a) is None,
    ensures
        uni_step(uni_step(s, i, a).0, i, b) == uni_step(s, i, a + b),
{
    let u = s.peer_uni[i];
    let t = uni_step(s, i, a).0;
    assert(u.prefix + a + b =~= u.prefix + (a + b));
    assert(t.peer_uni[i].prefix == u.prefix + a);
    let seen = u.prefix + a + b;
    if let Some((ty, n)) = varint_at(seen) {
        assert(stream_named(t, i, role_of(ty)).peer_uni =~= stream_named(
            s,
            i,
            role_of(ty),
        ).peer_uni);
    } else {
        assert(t.peer_uni.update(i, PeerUniModel { prefix: seen, ..t.peer_uni[i] })
            =~= s.peer_uni.update(i, PeerUniModel { prefix: seen, ..u }));
    }
}

/// A session with other streams tracked.
#[verifier::opaque]
spec fn tracking(s: SessionModel, uni: Seq<PeerUniModel>) -> SessionModel {
    SessionModel { peer_uni: uni, ..s }
}

/// Control frames neither read nor change which streams are tracked.
proof fn lemma_control_step_tracks(s: SessionModel, ftype: u64, payload: Seq<u8>, uni: Seq<PeerUniModel>)
    ensures
        ({
            let (t, e) = control_step(s, ftype, payload);
            control_step(tracking(s, uni), ftype, payload) == (tracking(t, uni), e)
        }),
{
    reveal(control_step);
    reveal(tracking);
}

proof fn lemma_control_walk_tracks(s: SessionModel, buf: Seq<u8>, uni: Seq<PeerUniModel>)
    ensures
        ({
            let (t, rest, e) = control_walk(s, buf);
            control_walk(tracking(s, uni), buf) == (tracking(t, uni), rest, e)
        }),
    decreases buf.len(),
{
    lemma_frame_bounds(buf);
    if let Some(f) = frame_at(buf) {
        let (t, e) = control_step(s, f.frame_type, payload_of(buf, f));
        lemma_control_step_tracks(s, f.frame_type, payload_of(buf, f), uni);
        if e is None {
            lemma_control_walk_tracks(t, buf.skip(f.end), uni);
        }
    }
}

/// Bytes of a control stream may arrive in any division, as long as no more than the
/// stream may hold are unparsed and the first part is no error.
pub proof fn law_control_ingest_may_be_split(s: SessionModel, i: int, a: Seq<u8>, b: Seq<u8>)
    requires
        0 <= i < s.peer_uni.len(),
        s.peer_uni[i].buf.len() + a.len() + b.len() <= H3_UNI_BUF,
        control_ingest(s, i, a).1 is None,
    ensures
        control_ingest(control_ingest(s, i, a).0, i, b) == control_ingest(s, i, a + b),
{
    reveal(control_ingest);
    let u = s.peer_uni[i];
    let first = u.buf + a;
    let (t, rest, e) = control_walk(s, first);
    let mid = control_ingest(s, i, a).0;
    let uni = s.peer_uni.update(i, PeerUniModel { buf: rest, ..u });
    reveal(tracking);
    assert(mid == tracking(t, uni));
    lemma_control_walk_frame(s, first);
    assert(t.peer_uni == s.peer_uni);
    law_control_bytes_may_be_split(s, first, b);
    assert(first + b =~= u.buf + (a + b));
    lemma_control_walk_tracks(t, rest + b, uni);
    let (last, left, err) = control_walk(t, rest + b);
    assert(mid.peer_uni[i].buf == rest);
    assert(uni.update(i, PeerUniModel { buf: left, ..uni[i] }) =~= s.peer_uni.update(
        i,
        PeerUniModel { buf: left, ..u },
    ));
}

/// How the bytes of the peer's control stream are cut into records does not matter, from
/// its type on: a part that is no error and then the rest come to what all of them come
/// to at once.
pub proof fn law_control_stream_may_be_split(s: SessionModel, i: int, a: Seq<u8>, b: Seq<u8>)
    requires
        0 <= i < s.peer_uni.len(),
        s.peer_uni[i].role is Pending,
        s.peer_uni[i].buf.len() == 0,
        s.peer_uni[i].prefix.len() + a.len() + b.len() <= H3_UNI_BUF,
        varint_at(s.peer_uni[i].prefix + (a + b)) matches Some((t, _)) && t
            == H3_UNI_STREAM_CONTROL,
        uni_step(s, i, a).1 is None,
    ensures
        uni_step(uni_step(s, i, a).0, i, b) == uni_step(s, i, a + b),
{
    let u = s.peer_uni[i];
    let seen = u.prefix + a;
    assert(seen + b =~= u.prefix + (a + b));
    if varint_at(seen) is None {
        law_stream_type_may_be_split(s, i, a, b);
    } else {
        lemma_varint_bounds(seen);
        lemma_varint_prefix(seen, b);
        let (ty, n) = varint_at(seen)->0;
        let named = stream_named(s, i, UniRole::Control);
        let (claimed, e) = role_claimed(named, UniRole::Control);
        assert(e is None);
        assert(claimed.peer_uni[i].role is Control);
        assert(claimed.peer_uni[i].buf == u.buf);
        let front = seen.skip(n as int);
        assert((seen + b).skip(n as int) =~= front + b);
        assert(uni_step(s, i, a) == control_ingest(claimed, i, front));
        assert(uni_step(s, i, a + b) == control_ingest(claimed, i, front + b));
        law_control_ingest_may_be_split(claimed, i, front, b);
        assert(uni_step(s, i, a).0.peer_uni[i].role is Control) by {
            reveal(control_ingest);
            lemma_control_walk_frame(claimed, claimed.peer_uni[i].buf + front);
        }
    }
}

/// A stream of a type not implemented here changes nothing and is no error, whatever
/// it carries.
pub proof fn law_unknown_streams_are_ignored(s: SessionModel, i: int, data: Seq<u8>)
    requires
        s.peer_uni[i].role is Unknown,
    ensures
        uni_step(s, i, data) == (s, None::<u64>),
{
}

proof fn lemma_role_ingest_wf(s: SessionModel, i: int, data: Seq<u8>)
    requires
        s.wf(),
        0 <= i < MAX_PEER_UNI,
    ensures
        role_ingest(s, i, data).0.wf(),
{
    reveal(control_ingest);
    assert(s.peer_uni[i].wf());
    lemma_control_walk_frame(s, s.peer_uni[i].buf + data);
}

/// Feeding a tracked stream keeps a session well-formed.
pub proof fn lemma_uni_step_wf(s: SessionModel, i: int, data: Seq<u8>)
    requires
        s.wf(),
        0 <= i < MAX_PEER_UNI,
    ensures
        uni_step(s, i, data).0.wf(),
{
    let u = s.peer_uni[i];
    assert(u.wf());
    if u.role is Pending {
        let seen = u.prefix + data;
        lemma_varint_bounds(seen);
        if let Some((t, n)) = varint_at(seen) {
            let named = stream_named(s, i, role_of(t));
            assert(named.peer_uni[i].wf());
            assert(named.wf());
            let claimed = role_claimed(named, role_of(t)).0;
            assert(claimed.peer_uni == named.peer_uni);
            assert(claimed.wf());
            lemma_role_ingest_wf(claimed, i, seen.skip(n as int));
        } else {
            assert((PeerUniModel { prefix: seen, ..u }).wf());
        }
    } else {
        lemma_role_ingest_wf(s, i, data);
    }
}

fn role_from(stream_type: u64) -> (r: UniRole)
    ensures
        r == role_of(stream_type),
{
    if stream_type == H3_UNI_STREAM_CONTROL {
        UniRole::Control
    } else if stream_type == H3_UNI_STREAM_PUSH {
        UniRole::Push
    } else if stream_type == H3_UNI_STREAM_QPACK_ENCODER {
        UniRole::QpackEncoder
    } else if stream_type == H3_UNI_STREAM_QPACK_DECODER {
        UniRole::QpackDecoder
    } else {
        UniRole::Unknown
    }
}

fn deliver(sess: &mut H3Session, slot: usize, data: &[u8]) -> (r: Option<u64>)
    requires
        slot < MAX_PEER_UNI,
        old(sess)@.wf(),
    ensures
        (final(sess)@, r) == role_ingest(old(sess)@, slot as int, data@),
{
    assert(sess@.peer_uni[slot as int].wf());
    assert(sess@.peer_uni[slot as int] == sess.peer_uni@[slot as int]@);
    match sess.peer_uni[slot].role {
        UniRole::Control => uni_control_ingest(sess, slot, data),
        UniRole::QpackEncoder => qpack_instruction_ingest(data, true),
        UniRole::QpackDecoder => qpack_instruction_ingest(data, false),
        _ => None,
    }
}

/// Feed a peer unidirectional stream. Returns the connection error, if any.
#[verifier::rlimit(40)]
pub fn uni_ingest(sess: &mut H3Session, slot: usize, data: &[u8]) -> (r: Option<u64>)
    requires
        slot < MAX_PEER_UNI,
        old(sess)@.wf(),
    ensures
        (final(sess)@, r) == uni_step(old(sess)@, slot as int, data@),
        final(sess)@.wf(),
{
    let ghost s0 = sess@;
    proof {
        lemma_uni_step_wf(s0, slot as int, data@);
    }
    assert(s0.peer_uni[slot as int] == sess.peer_uni@[slot as int]@);
    if sess.peer_uni[slot].role != UniRole::Pending {
        return deliver(sess, slot, data);
    }
    let mut seen: Vec<u8> = crate::bytes::to_vec(sess.peer_uni[slot].prefix.as_slice());
    extend(&mut seen, data);
    let (stream_type, used) = match classify_uni_stream_prefix(seen.as_slice()) {
        Some(x) => x,
        None => {
            sess.peer_uni[slot].prefix = seen;
            assert(sess@.peer_uni =~= uni_step(s0, slot as int, data@).0.peer_uni);
            return None;
        },
    };
    let role: UniRole = role_from(stream_type);
    name_stream(sess, slot, role);
    if let Some(code) = claim_role(sess, role) {
        return Some(code);
    }
    proof {
        let named = stream_named(s0, slot as int, role);
        assert(named.peer_uni[slot as int].wf());
        assert(named.wf());
        assert(sess@.peer_uni == named.peer_uni);
        assert(sess@.wf());
    }
    let rest = slice_subrange(seen.as_slice(), used, seen.len());
    assert(rest@ =~= seen@.skip(used as int));
    deliver(sess, slot, rest)
}

fn name_stream(sess: &mut H3Session, slot: usize, role: UniRole)
    requires
        slot < MAX_PEER_UNI,
    ensures
        final(sess)@ == stream_named(old(sess)@, slot as int, role),
{
    let ghost want = stream_named(sess@, slot as int, role);
    assert(sess@.peer_uni[slot as int] == sess.peer_uni@[slot as int]@);
    sess.peer_uni[slot].role = role;
    sess.peer_uni[slot].prefix = Vec::new();
    assert(sess.peer_uni@[slot as int]@ =~= want.peer_uni[slot as int]);
    assert(sess@.peer_uni =~= want.peer_uni);
}

fn claim_role(sess: &mut H3Session, role: UniRole) -> (r: Option<u64>)
    ensures
        (final(sess)@, r) == role_claimed(old(sess)@, role),
        final(sess)@.peer_uni == old(sess)@.peer_uni,
{
    let ghost want = role_claimed(sess@, role);
    match role {
        UniRole::Control => {
            if sess.peer_control_seen {
                return Some(H3_STREAM_CREATION_ERROR);
            }
            sess.peer_control_seen = true;
        },
        UniRole::QpackEncoder => {
            if sess.peer_qpack_enc_seen {
                return Some(H3_STREAM_CREATION_ERROR);
            }
            sess.peer_qpack_enc_seen = true;
        },
        UniRole::QpackDecoder => {
            if sess.peer_qpack_dec_seen {
                return Some(H3_STREAM_CREATION_ERROR);
            }
            sess.peer_qpack_dec_seen = true;
        },
        UniRole::Push => {
            return Some(H3_STREAM_CREATION_ERROR);
        },
        _ => {},
    }
    assert(sess@.peer_uni =~= want.0.peer_uni);
    None
}

// ── Our own streams ─────────────────────────────────────────────────────

/// A stream whose open was answered.
pub open spec fn answered(u: LocalUni, handle: u32, ok: bool) -> LocalUni {
    if ok {
        LocalUni { handle, state: LocalUniState::Open, ..u }
    } else {
        LocalUni { state: LocalUniState::Refused, ..u }
    }
}

/// The session once the transport answers an open: it is the first of the three still
/// opening that was answered.
pub open spec fn open_answered(s: SessionModel, handle: u32, ok: bool) -> SessionModel {
    if s.ctrl.state is Opening {
        SessionModel { ctrl: answered(s.ctrl, handle, ok), ..s }
    } else if s.qpack_enc.state is Opening {
        SessionModel { qpack_enc: answered(s.qpack_enc, handle, ok), ..s }
    } else if s.qpack_dec.state is Opening {
        SessionModel { qpack_dec: answered(s.qpack_dec, handle, ok), ..s }
    } else {
        s
    }
}

fn answer(u: &mut LocalUni, handle: u32, ok: bool)
    ensures
        *final(u) == answered(*old(u), handle, ok),
{
    if ok {
        u.handle = handle;
        u.state = LocalUniState::Open;
    } else {
        u.state = LocalUniState::Refused;
    }
}

/// Match an answered open to the stream that was waiting for it.
pub fn local_uni_opened(sess: &mut H3Session, handle: u32, status: u8)
    ensures
        final(sess)@ == open_answered(old(sess)@, handle, status == STATUS_OK),
{
    let ok: bool = status == STATUS_OK;
    let ghost want = open_answered(sess@, handle, ok);
    if sess.ctrl.state == LocalUniState::Opening {
        answer(&mut sess.ctrl, handle, ok);
    } else if sess.qpack_enc.state == LocalUniState::Opening {
        answer(&mut sess.qpack_enc, handle, ok);
    } else if sess.qpack_dec.state == LocalUniState::Opening {
        answer(&mut sess.qpack_dec, handle, ok);
    }
    assert(sess@.peer_uni =~= want.peer_uni);
    assert(sess@ =~= want);
}

/// Whether an open of ours is still unanswered.
pub open spec fn open_outstanding(s: SessionModel) -> bool {
    s.ctrl.state is Opening || s.qpack_enc.state is Opening || s.qpack_dec.state is Opening
}

pub fn preamble_open_outstanding(sess: &H3Session) -> (r: bool)
    ensures
        r == open_outstanding(sess@),
{
    sess.ctrl.state == LocalUniState::Opening || sess.qpack_enc.state == LocalUniState::Opening
        || sess.qpack_dec.state == LocalUniState::Opening
}

/// Whether a stream of ours owes nothing more of the preamble.
pub open spec fn uni_settled(u: LocalUni) -> bool {
    u.state is Ready || u.state is Refused
}

fn is_settled(u: LocalUni) -> (r: bool)
    ensures
        r == uni_settled(u),
{
    u.state == LocalUniState::Ready || u.state == LocalUniState::Refused
}

/// Whether the whole preamble has been handed over or given up.
pub fn preamble_done(sess: &H3Session) -> (r: bool)
    ensures
        r == (uni_settled(sess@.ctrl) && uni_settled(sess@.qpack_enc) && uni_settled(
            sess@.qpack_dec,
        )),
{
    is_settled(sess.ctrl) && is_settled(sess.qpack_enc) && is_settled(sess.qpack_dec)
}

/// The settings this endpoint advertises: no dynamic table, our field-section limit,
/// and extended CONNECT.
pub open spec fn local_settings() -> Seq<(u64, u64)> {
    seq![
        (H3_SETTING_QPACK_MAX_TABLE_CAPACITY, 0u64),
        (H3_SETTING_MAX_FIELD_SECTION_SIZE, LOCAL_MAX_FIELD_SECTION),
        (H3_SETTING_QPACK_BLOCKED_STREAMS, 0u64),
        (H3_SETTING_ENABLE_CONNECT_PROTOCOL, 1u64),
    ]
}

/// Our SETTINGS frame.
pub open spec fn local_settings_frame() -> Seq<u8> {
    frame_bytes(H3_FRAME_SETTINGS, settings_bytes(local_settings()))
}

/// A peer that reads settings as we do reads ours as they are meant.
pub proof fn law_our_settings_are_legal()
    ensures
        peer_settings(settings_bytes(local_settings())) == Some(
            PeerSettings {
                max_field_section_size: LOCAL_MAX_FIELD_SECTION as u32,
                enable_connect_protocol: true,
            },
        ),
{
    let ps = local_settings();
    crate::h3_wire::law_settings_read_back(ps);
    assert(setting_of(ps, H3_SETTING_ENABLE_CONNECT_PROTOCOL) == Some(1u64));
    assert(ps.drop_last().last() == (H3_SETTING_QPACK_BLOCKED_STREAMS, 0u64));
    assert(ps.drop_last().drop_last().last() == (
        H3_SETTING_MAX_FIELD_SECTION_SIZE,
        LOCAL_MAX_FIELD_SECTION,
    ));
    reveal_with_fuel(setting_of, 4);
}

/// Build our SETTINGS frame.
pub fn build_local_settings() -> (r: Vec<u8>)
    ensures
        r@ == local_settings_frame(),
        r@.len() == 13,
{
    let mut body: Vec<u8> = varint_vec(H3_SETTING_QPACK_MAX_TABLE_CAPACITY);
    extend(&mut body, varint_vec(0).as_slice());
    extend(&mut body, varint_vec(H3_SETTING_MAX_FIELD_SECTION_SIZE).as_slice());
    extend(&mut body, varint_vec(LOCAL_MAX_FIELD_SECTION).as_slice());
    extend(&mut body, varint_vec(H3_SETTING_QPACK_BLOCKED_STREAMS).as_slice());
    extend(&mut body, varint_vec(0).as_slice());
    extend(&mut body, varint_vec(H3_SETTING_ENABLE_CONNECT_PROTOCOL).as_slice());
    extend(&mut body, varint_vec(1).as_slice());
    proof {
        let ps = local_settings();
        let p1 = ps.skip(1);
        let p2 = p1.skip(1);
        let p3 = p2.skip(1);
        let p4 = p3.skip(1);
        assert(p1[0] == ps[1] && p2[0] == ps[2] && p3[0] == ps[3] && p4.len() == 0);
        assert(settings_bytes(p4) =~= Seq::empty());
        assert(settings_bytes(p3) =~= varint_bytes(ps[3].0) + varint_bytes(ps[3].1));
        assert(settings_bytes(p2) =~= varint_bytes(ps[2].0) + varint_bytes(ps[2].1)
            + settings_bytes(p3));
        assert(settings_bytes(p1) =~= varint_bytes(ps[1].0) + varint_bytes(ps[1].1)
            + settings_bytes(p2));
        assert(settings_bytes(ps) =~= body@);
    }
    let mut out: Vec<u8> = frame_header_vec(H3_FRAME_SETTINGS, body.len() as u64);
    extend(&mut out, body.as_slice());
    out
}

} // verus!
