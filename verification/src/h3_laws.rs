//! What the bytes on a connection's own HTTP/3 streams mean: laws stated by the numbers that
//! go over the wire.

use crate::bytes::{clip, le32, lemma_text, number_of, same_ci, text};
use crate::h3::{H3_SEND_BUF, SessionModel, SlotModel, UniRole};
use crate::h3_control::{
    control_step, encoder_verdict, instruction_verdict, peer_settings, role_claimed, role_of,
    setting_of, settings_legal,
};
use crate::h3_egress::{record, stream_prefix};
use crate::h3_request::{
    head_step, law_h3_request_reads_back, lines_walk, request_of, section_bytes, H3_FIELD_SCRATCH,
    H3Error, HeadModel,
};
use crate::h3_response::lines_size;
use crate::h3_stream::{ws_closed, ws_frame_step, H3_WS_PAYLOAD_MAX};
use crate::h3_wire::{frame_bytes, law_settings_read_back, settings_bytes};
use crate::prefix_int::{prefix_int_at, prefix_mask};
use crate::qpack::FieldLine;
use crate::varint::{law_varint_reads_back, varint_at, varint_bytes, VARINT_MAX};
use crate::ws_wire::ws_frame_bytes;
use vstd::prelude::*;

verus! {

// ── Settings ────────────────────────────────────────────────────────────

proof fn lemma_setting_at(ps: Seq<(u64, u64)>, i: int, id: u64)
    requires
        0 <= i < ps.len(),
        ps[i].0 == id,
        forall|k: int| i < k < ps.len() ==> (#[trigger] ps[k]).0 != id,
    ensures
        setting_of(ps, id) == Some(ps[i].1),
    decreases ps.len(),
{
    if i < ps.len() - 1 {
        let front = ps.drop_last();
        assert(ps[ps.len() - 1].0 != id);
        assert(forall|k: int| 0 <= k < front.len() ==> front[k] == ps[k]);
        lemma_setting_at(front, i, id);
    }
}

proof fn lemma_setting_absent(ps: Seq<(u64, u64)>, id: u64)
    requires
        forall|k: int| 0 <= k < ps.len() ==> (#[trigger] ps[k]).0 != id,
    ensures
        setting_of(ps, id) is None,
    decreases ps.len(),
{
    if ps.len() > 0 {
        let front = ps.drop_last();
        assert(ps[ps.len() - 1].0 != id);
        assert(forall|k: int| 0 <= k < front.len() ==> front[k] == ps[k]);
        lemma_setting_absent(front, id);
    }
}

/// A peer states the largest field section it takes as setting 6 and that it takes extended
/// CONNECT as setting 8. Settings 1, 6, 7 and 8 may come once each, and setting 8 is 0 or 1;
/// others are let be.
pub proof fn law_settings_go_by_their_numbers(ps: Seq<(u64, u64)>)
    requires
        forall|i: int|
            0 <= i < ps.len() ==> (#[trigger] ps[i]).0 <= VARINT_MAX && ps[i].1 <= VARINT_MAX,
    ensures
        peer_settings(settings_bytes(ps)) is None <==> (exists|i: int, j: int|
            0 <= i < j < ps.len() && (#[trigger] ps[i]).0 == (#[trigger] ps[j]).0 && (ps[i].0 == 1
                || 6 <= ps[i].0 <= 8)) || (exists|i: int|
            0 <= i < ps.len() && (#[trigger] ps[i]).0 == 8 && ps[i].1 > 1),
        forall|i: int|
            0 <= i < ps.len() && (#[trigger] ps[i]).0 == 6 && peer_settings(settings_bytes(ps))
                is Some ==> peer_settings(settings_bytes(ps))->0.max_field_section_size == (
            if ps[i].1 < 0x1_0000_0000 {
                ps[i].1
            } else {
                0xffff_ffff
            }),
        forall|i: int|
            0 <= i < ps.len() && (#[trigger] ps[i]).0 == 8 && peer_settings(settings_bytes(ps))
                is Some ==> (peer_settings(settings_bytes(ps))->0.enable_connect_protocol <==> ps[i].1
                == 1),
        (forall|i: int| 0 <= i < ps.len() ==> (#[trigger] ps[i]).0 != 6) && peer_settings(
            settings_bytes(ps),
        ) is Some ==> peer_settings(settings_bytes(ps))->0.max_field_section_size == 0xffff_ffff,
        (forall|i: int| 0 <= i < ps.len() ==> (#[trigger] ps[i]).0 != 8) && peer_settings(
            settings_bytes(ps),
        ) is Some ==> !peer_settings(settings_bytes(ps))->0.enable_connect_protocol,
{
    law_settings_read_back(ps);
    if settings_legal(ps) {
        assert forall|i: int| 0 <= i < ps.len() && ((#[trigger] ps[i]).0 == 6 || ps[i].0 == 8) implies setting_of(
            ps,
            ps[i].0,
        ) == Some(ps[i].1) by {
            lemma_setting_at(ps, i, ps[i].0);
        }
        if forall|i: int| 0 <= i < ps.len() ==> (#[trigger] ps[i]).0 != 6 {
            lemma_setting_absent(ps, 6);
        }
        if forall|i: int| 0 <= i < ps.len() ==> (#[trigger] ps[i]).0 != 8 {
            lemma_setting_absent(ps, 8);
        }
    }
}

// ── Streams ─────────────────────────────────────────────────────────────

/// A unidirectional stream is what its type says: 0 the control stream, 1 a push stream,
/// 2 the encoder's and 3 the decoder's; any other is unknown.
pub proof fn law_stream_type_says_what_it_is(stream_type: u64)
    ensures
        role_of(stream_type) is Control <==> stream_type == 0,
        role_of(stream_type) is Push <==> stream_type == 1,
        role_of(stream_type) is QpackEncoder <==> stream_type == 2,
        role_of(stream_type) is QpackDecoder <==> stream_type == 3,
        role_of(stream_type) is Unknown <==> stream_type > 3,
{
}

/// A client has one control stream and one of each compression stream, and no push stream:
/// a second one is a stream creation error, and the first is none.
pub proof fn law_critical_streams_come_once(s: SessionModel, role: UniRole)
    ensures
        ({
            let (t, e) = role_claimed(s, role);
            let (u, f) = role_claimed(t, role);
            &&& role is Control || role is QpackEncoder || role is QpackDecoder ==> f == Some(
                0x0103u64,
            ) && u == t
            &&& role is Push ==> e == Some(0x0103u64) && t == s
            &&& role is Unknown ==> e is None && t == s
            &&& role is Control ==> t.peer_qpack_enc_seen == s.peer_qpack_enc_seen
                && t.peer_qpack_dec_seen == s.peer_qpack_dec_seen && (e is None
                <==> !s.peer_control_seen)
            &&& role is QpackEncoder ==> t.peer_control_seen == s.peer_control_seen
                && t.peer_qpack_dec_seen == s.peer_qpack_dec_seen && (e is None
                <==> !s.peer_qpack_enc_seen)
            &&& role is QpackDecoder ==> t.peer_control_seen == s.peer_control_seen
                && t.peer_qpack_enc_seen == s.peer_qpack_enc_seen && (e is None
                <==> !s.peer_qpack_dec_seen)
        }),
{
}

// ── Control frames ──────────────────────────────────────────────────────

/// What a control frame is answered, by its type on the wire, once the settings are there.
/// Before that every frame but the settings is a missing-settings error.
pub proof fn law_control_frame_goes_by_its_type(s: SessionModel, ftype: u64, payload: Seq<u8>)
    ensures
        ({
            let (t, e) = control_step(s, ftype, payload);
            &&& !s.peer_settings_seen && ftype != 4 ==> e == Some(0x010Au64) && t == s
            &&& s.peer_settings_seen && (ftype == 0 || ftype == 1 || ftype == 4) ==> e == Some(
                0x0105u64,
            ) && t == s
            &&& s.peer_settings_seen && ftype == 3 ==> e == Some(0x0108u64) && t == s
            &&& s.peer_settings_seen && (ftype == 0x0d || ftype == 0xf0700 || ftype == 0xf0701)
                ==> t == s && e == (if varint_at(payload) is None {
                Some(0x0106u64)
            } else {
                None
            })
            &&& s.peer_settings_seen && ftype != 0 && ftype != 1 && ftype != 3 && ftype != 4
                && ftype != 7 && ftype != 0x0d && ftype != 0xf0700 && ftype != 0xf0701 ==> t == s
                && e is None
            &&& !s.peer_settings_seen && ftype == 4 && peer_settings(payload) is None ==> e == Some(
                0x0109u64,
            ) && t == s
            &&& !s.peer_settings_seen && ftype == 4 && peer_settings(payload) is Some ==> e is None
                && t.peer_settings_seen
        }),
{
    reveal(control_step);
}

/// A peer that goes away names the stream or push from which it takes nothing more. It may
/// name a lower one later, never a higher.
pub proof fn law_goaway_names_its_boundary(s: SessionModel, id: u64, rest: Seq<u8>)
    requires
        s.peer_settings_seen,
        id <= VARINT_MAX,
    ensures
        ({
            let (t, e) = control_step(s, 7, varint_bytes(id) + rest);
            if s.peer_goaway && id > s.peer_goaway_id {
                e == Some(0x0108u64) && t == s
            } else {
                e is None && t.peer_goaway && t.peer_goaway_id == id
            }
        }),
{
    reveal(control_step);
    law_varint_reads_back(id, rest);
}

// ── Compression instructions ────────────────────────────────────────────

proof fn lemma_zero_capacity(n: nat, rest: Seq<u8>)
    ensures
        encoder_verdict(Seq::new(n, |i: int| 0x20u8) + rest) == encoder_verdict(rest),
    decreases n,
{
    let z = Seq::new(n, |i: int| 0x20u8);
    let data = z + rest;
    if n == 0 {
        assert(data =~= rest);
    } else {
        let fewer = Seq::new((n - 1) as nat, |i: int| 0x20u8);
        assert(data[0] == 0x20);
        assert(prefix_mask(5) == 31);
        assert(prefix_int_at(data, 5) == Some((0u64, 1nat)));
        assert(data.skip(1) =~= fewer + rest);
        lemma_zero_capacity((n - 1) as nat, rest);
    }
}

/// The one instruction an encoder may send is to set the capacity to zero, as often as it
/// likes. Any other, a capacity among them, is an error of its stream; on the decoder's
/// stream every instruction is.
pub proof fn law_only_zero_capacity_is_legal(n: nat, b: u8, rest: Seq<u8>)
    ensures
        instruction_verdict(Seq::new(n, |i: int| 0x20u8), true) is None,
        !(0x20 <= b < 0x40) || 0x21 <= b < 0x3f ==> instruction_verdict(
            Seq::new(n, |i: int| 0x20u8) + seq![b] + rest,
            true,
        ) == Some(0x0201u64),
        instruction_verdict(seq![b] + rest, false) == Some(0x0202u64),
        instruction_verdict(Seq::empty(), false) is None,
{
    let z = Seq::new(n, |i: int| 0x20u8);
    lemma_zero_capacity(n, Seq::empty());
    assert(z + Seq::<u8>::empty() =~= z);
    let tail = seq![b] + rest;
    lemma_zero_capacity(n, tail);
    assert(z + seq![b] + rest =~= z + tail);
    assert(tail[0] == b);
    assert(prefix_mask(5) == 31);
}

// ── Requests ────────────────────────────────────────────────────────────

/// Whether a field is an ordinary one that says nothing of the body's length: its name is in
/// lower case and begins with no colon.
pub open spec fn plain_field(f: FieldLine) -> bool {
    &&& f.name.len() + f.value.len() <= H3_FIELD_SCRATCH
    &&& f.name.len() == 0 || f.name[0] != 0x3a
    &&& forall|i: int| 0 <= i < f.name.len() ==> !(0x41 <= #[trigger] f.name[i] <= 0x5a)
    &&& f.name != text("content-length")
}

proof fn lemma_not_length(name: Seq<u8>)
    requires
        forall|i: int| 0 <= i < name.len() ==> !(0x41 <= #[trigger] name[i] <= 0x5a),
        same_ci(name, text("content-length")),
    ensures
        name == text("content-length"),
{
    reveal_strlit("content-length");
    lemma_text("content-length");
    let t = text("content-length");
    assert forall|i: int| 0 <= i < name.len() implies name[i] == t[i] by {
        assert(crate::bytes::lower(name[i]) == crate::bytes::lower(t[i]));
        assert(!(0x41 <= t[i] <= 0x5a));
    }
    assert(name =~= t);
}

proof fn lemma_plain_fields(rest: Seq<FieldLine>, h: HeadModel)
    requires
        forall|k: int| 0 <= k < rest.len() ==> plain_field(#[trigger] rest[k]),
    ensures
        lines_walk(rest, h) == Ok::<HeadModel, H3Error>(
            HeadModel { fields: h.fields + rest.len(), regular: h.regular || rest.len() > 0, ..h },
        ),
    decreases rest.len(),
{
    if rest.len() > 0 {
        let f = rest[0];
        assert(plain_field(f));
        reveal(head_step);
        if same_ci(f.name, text("content-length")) {
            lemma_not_length(f.name);
        }
        let g = HeadModel { fields: h.fields + 1, regular: true, ..h };
        assert(head_step(h, f) == Some(g));
        assert(forall|k: int| 0 <= k < rest.skip(1).len() ==> rest.skip(1)[k] == rest[k + 1]);
        lemma_plain_fields(rest.skip(1), g);
    }
}

/// A request is what its lines say: the method's kind, the path and the authority that the
/// pseudo-fields name, whatever ordinary fields follow them.
pub proof fn law_h3_request_is_what_its_lines_say(
    method: Seq<u8>,
    scheme: Seq<u8>,
    path: Seq<u8>,
    authority: Seq<u8>,
    rest: Seq<FieldLine>,
)
    requires
        method == text("GET") || method == text("HEAD") || method == text("POST") || method == text(
            "PUT",
        ) || method == text("PATCH") || method == text("DELETE"),
        0 < path.len() <= 200,
        authority.len() <= 64,
        scheme.len() <= 64,
        forall|k: int| 0 <= k < rest.len() ==> plain_field(#[trigger] rest[k]),
    ensures
        ({
            let lines = seq![
                FieldLine { name: text(":method"), value: method },
                FieldLine { name: text(":scheme"), value: scheme },
                FieldLine { name: text(":path"), value: path },
                FieldLine { name: text(":authority"), value: authority },
            ] + rest;
            let r = request_of(seq![0u8, 0u8] + section_bytes(lines));
            &&& r is Ok
            &&& r->Ok_0.0.path == path
            &&& r->Ok_0.0.authority == authority
            &&& !r->Ok_0.0.protocol_ws
            &&& r->Ok_0.0.content_length is None
            &&& r->Ok_0.0.method_kind == (if method == text("GET") || method == text("HEAD") {
                1u8
            } else {
                3u8
            })
            &&& r->Ok_0.1 == 4 + rest.len()
        }),
{
    let f0 = FieldLine { name: text(":method"), value: method };
    let f1 = FieldLine { name: text(":scheme"), value: scheme };
    let f2 = FieldLine { name: text(":path"), value: path };
    let f3 = FieldLine { name: text(":authority"), value: authority };
    let lines = seq![f0, f1, f2, f3] + rest;
    lemma_request_names();
    assert forall|k: int| 0 <= k < lines.len() implies (#[trigger] lines[k]).name.len() <= i64::MAX
        && lines[k].value.len() <= i64::MAX by {
        if k >= 4 {
            assert(lines[k] == rest[k - 4]);
            assert(plain_field(rest[k - 4]));
        }
    }
    law_h3_request_reads_back(lines);
    reveal(head_step);
    let h0 = HeadModel::start();
    let h1 = head_step(h0, f0)->0;
    assert(head_step(h0, f0) == Some(h1));
    let h2 = head_step(h1, f1)->0;
    assert(head_step(h1, f1) == Some(h2));
    let h3 = head_step(h2, f2)->0;
    assert(head_step(h2, f2) == Some(h3));
    let h4 = head_step(h3, f3)->0;
    assert(head_step(h3, f3) == Some(h4));
    assert(clip(authority, 64) == authority);
    let l1 = seq![f1, f2, f3] + rest;
    let l2 = seq![f2, f3] + rest;
    let l3 = seq![f3] + rest;
    assert(lines.skip(1) =~= l1);
    assert(l1.skip(1) =~= l2);
    assert(l2.skip(1) =~= l3);
    assert(l3.skip(1) =~= rest);
    assert(lines[0] == f0 && l1[0] == f1 && l2[0] == f2 && l3[0] == f3);
    assert(lines_walk(lines, h0) == lines_walk(l1, h1));
    assert(lines_walk(l1, h1) == lines_walk(l2, h2));
    assert(lines_walk(l2, h2) == lines_walk(l3, h3));
    assert(lines_walk(l3, h3) == lines_walk(rest, h4));
    lemma_plain_fields(rest, h4);
}

proof fn lemma_request_names()
    ensures
        text(":method").len() == 7 && text(":method")[0] == 0x3a && text(":method")[1] == 0x6d,
        text(":scheme").len() == 7 && text(":scheme")[0] == 0x3a && text(":scheme")[1] == 0x73,
        text(":path").len() == 5 && text(":path")[0] == 0x3a,
        text(":authority").len() == 10 && text(":authority")[0] == 0x3a,
        text(":protocol").len() == 9 && text(":protocol")[0] == 0x3a,
        text("GET").len() == 3 && text("HEAD").len() == 4 && text("POST").len() == 4 && text(
            "PUT",
        ).len() == 3,
        text("PATCH").len() == 5 && text("DELETE").len() == 6 && text("CONNECT").len() == 7,
        text("HEAD")[0] == 0x48 && text("POST")[0] == 0x50 && text("GET")[0] == 0x47 && text(
            "PUT",
        )[0] == 0x50,
{
    reveal_strlit(":method");
    reveal_strlit(":scheme");
    reveal_strlit(":path");
    reveal_strlit(":authority");
    reveal_strlit(":protocol");
    reveal_strlit("GET");
    reveal_strlit("HEAD");
    reveal_strlit("POST");
    reveal_strlit("PUT");
    reveal_strlit("PATCH");
    reveal_strlit("DELETE");
    reveal_strlit("CONNECT");
    lemma_text(":method");
    lemma_text(":scheme");
    lemma_text(":path");
    lemma_text(":authority");
    lemma_text(":protocol");
    lemma_text("GET");
    lemma_text("HEAD");
    lemma_text("POST");
    lemma_text("PUT");
    lemma_text("PATCH");
    lemma_text("DELETE");
    lemma_text("CONNECT");
}

/// An ordinary field with a capital in its name is malformed, and so is a pseudo-field that
/// is none; a stated length must be a number, and is kept.
pub proof fn law_h3_field_is_checked(h: HeadModel, f: FieldLine)
    ensures
        (f.name.len() == 0 || f.name[0] != 0x3a) && (exists|i: int|
            0 <= i < f.name.len() && 0x41 <= #[trigger] f.name[i] <= 0x5a) ==> head_step(h, f)
            is None,
        f.name == text("content-length") && number_of(f.value) is None ==> head_step(h, f) is None,
        f.name == text("content-length") && number_of(f.value) is Some ==> head_step(h, f) is Some
            && head_step(h, f)->0.req.content_length == number_of(f.value),
        f.name.len() > 0 && f.name[0] == 0x3a && f.name != text(":method") && f.name != text(":path")
            && f.name != text(":authority") && f.name != text(":scheme") && f.name != text(
            ":protocol",
        ) ==> head_step(h, f) is None,
        f.name == text(":protocol") && !h.regular && !h.protocol ==> head_step(h, f) is Some && (
        head_step(h, f)->0.req.protocol_ws <==> f.value == text("websocket")),
{
    reveal(head_step);
    reveal_strlit("content-length");
    lemma_text("content-length");
    lemma_request_names();
    if f.name == text("content-length") {
        assert(forall|i: int| 0 <= i < f.name.len() ==> !(0x41 <= #[trigger] f.name[i] <= 0x5a));
        assert(same_ci(f.name, text("content-length")));
    }
    if exists|i: int| 0 <= i < f.name.len() && 0x41 <= #[trigger] f.name[i] <= 0x5a {
        let i = choose|i: int| 0 <= i < f.name.len() && 0x41 <= #[trigger] f.name[i] <= 0x5a;
        assert(crate::bytes::is_upper(f.name[i]));
    }
}

/// What a rejected request or frame is answered.
pub proof fn law_h3_errors_are_their_codes(e: H3Error)
    ensures
        e is MessageError ==> e.wire_code() == 0x010e,
        e is QpackFailed ==> e.wire_code() == 0x0200,
        e is FrameUnexpected ==> e.wire_code() == 0x0105,
{
}

/// The size of a field section counts each line's name and value and 32 for the line.
pub proof fn law_section_size_is_its_lines(lines: Seq<FieldLine>, f: FieldLine)
    ensures
        lines_size(Seq::empty()) == 0,
        lines_size(lines.push(f)) == lines_size(lines) + f.name.len() + f.value.len() + 32,
{
    assert(lines.push(f).drop_last() =~= lines);
}

// ── Records of the transport ────────────────────────────────────────────

/// A record for a stream is its kind, the length of what follows in two bytes, then the
/// session and the stream's handle in four each, low bytes first, and what it carries.
pub proof fn law_stream_record_is_its_bytes(cmd: u8, session: u32, handle: u32, data: Seq<u8>)
    requires
        data.len() + 8 <= u16::MAX,
    ensures
        ({
            let r = record(cmd, stream_prefix(session, handle) + data);
            &&& r.len() == 11 + data.len()
            &&& r[0] == cmd
            &&& r[1] + 256 * r[2] == 8 + data.len()
            &&& r[3] + 0x100 * r[4] + 0x1_0000 * r[5] + 0x100_0000 * r[6] == session
            &&& r[7] + 0x100 * r[8] + 0x1_0000 * r[9] + 0x100_0000 * r[10] == handle
            &&& r.skip(11) == data
        }),
{
    let p = stream_prefix(session, handle);
    let r = record(cmd, p + data);
    lemma_low_first(session);
    lemma_low_first(handle);
    assert(r[3] == p[0] && r[4] == p[1] && r[5] == p[2] && r[6] == p[3]);
    assert(r[7] == p[4] && r[8] == p[5] && r[9] == p[6] && r[10] == p[7]);
    assert(p[0] == le32(session)[0] && p[1] == le32(session)[1] && p[2] == le32(session)[2] && p[3]
        == le32(session)[3]);
    assert(p[4] == le32(handle)[0] && p[5] == le32(handle)[1] && p[6] == le32(handle)[2] && p[7]
        == le32(handle)[3]);
    assert(r.skip(11) =~= data);
}

proof fn lemma_low_first(v: u32)
    ensures
        ({
            let s = le32(v);
            s.len() == 4 && s[0] + 0x100 * s[1] + 0x1_0000 * s[2] + 0x100_0000 * s[3] == v
        }),
{
    let a = v / 0x100;
    let b = a / 0x100;
    let c = b / 0x100;
    assert(v / 0x1_0000 == b);
    assert(v / 0x100_0000 == c);
    assert(v == 0x100 * a + v % 0x100);
    assert(a == 0x100 * b + a % 0x100);
    assert(b == 0x100 * c + b % 0x100);
}

/// A frame is its type, the length of its payload and the payload, both numbers as varints.
pub proof fn law_h3_frame_is_its_parts(frame_type: u64, payload: Seq<u8>)
    requires
        payload.len() <= VARINT_MAX,
    ensures
        frame_bytes(frame_type, payload) == varint_bytes(frame_type) + varint_bytes(
            payload.len() as u64,
        ) + payload,
        frame_type < 64 && payload.len() < 64 ==> frame_bytes(frame_type, payload) == seq![
            frame_type as u8,
            payload.len() as u8,
        ] + payload,
{
    if frame_type < 64 && payload.len() < 64 {
        assert(frame_bytes(frame_type, payload) =~= seq![frame_type as u8, payload.len() as u8]
            + payload);
    }
}

// ── WebSocket frames in a stream ────────────────────────────────────────

/// A tunnel ends where a client's frame is not masked, where one is too long and where the
/// client closes, each with its code; a pong is let be.
pub proof fn law_tunnel_closes_with_its_code(
    s: SlotModel,
    opcode: u8,
    masked: bool,
    key: Seq<u8>,
    payload: Seq<u8>,
)
    ensures
        ({
            let (t, code) = ws_frame_step(s, opcode, masked, key, payload);
            &&& !masked ==> code == Some(1002u16) && !t.ws_active
            &&& masked && payload.len() > H3_WS_PAYLOAD_MAX ==> code == Some(1009u16) && !t.ws_active
            &&& masked && payload.len() <= H3_WS_PAYLOAD_MAX && opcode == 8 ==> code == Some(1000u16)
                && !t.ws_active
            &&& masked && payload.len() <= H3_WS_PAYLOAD_MAX && opcode == 10 ==> code is None && t
                == s
            &&& masked && payload.len() <= H3_WS_PAYLOAD_MAX && opcode != 8 ==> code is None
                && t.ws_active == s.ws_active
        }),
{
}

/// A tunnel that closes says so with a close frame that carries the code, the high byte
/// first.
pub proof fn law_close_frame_carries_its_code(s: SlotModel, hi: u8, lo: u8)
    requires
        s.send.len() + 6 <= H3_SEND_BUF,
    ensures
        ws_closed(s, (256 * hi + lo) as u16).send == s.send + seq![0u8, 4, 0x88, 2, hi, lo],
{
    let code = (256 * hi + lo) as u16;
    assert(code / 256 == hi && code % 256 == lo);
    let body = seq![hi, lo];
    assert(crate::h3_stream::close_body(code) =~= body);
    let w = ws_frame_bytes(true, 8, body);
    assert(w =~= seq![0x88u8, 2, hi, lo]);
    law_h3_frame_is_its_parts(0, w);
    assert(seq![0u8, 4] + w =~= seq![0u8, 4, 0x88, 2, hi, lo]);
}

} // verus!
