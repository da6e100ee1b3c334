//! Numbers, strings and frames on the wire.

use http_server::bytes::{decimal_bytes, eq_ascii_ci, parse_u64, put_bytes, put_ipv4_decimal};
use http_server::h2_wire::{
    data_payload, headers_block, parse_header, write_data, write_goaway, write_headers, write_ping_ack,
    write_rst_stream, write_settings, write_settings_ack, write_window_update, FrameHead, FLAG_PADDED, FLAG_PRIORITY,
};
use http_server::h3_wire::{build_h3_frame_header, build_h3_settings_payload, parse_h3_frame};
use http_server::hpack::{decode_entry, encode_header};
use http_server::huffman::huff_decode;
use http_server::prefix_int::{decode_prefix_int, int_vec};
use http_server::qpack::{field_vec, qpack_decode_block_prefix, qpack_decode_field};
use http_server::varint::{encode_varint, varint_decode, varint_vec};
use http_server::ws_wire::{parse_frame, unmask, write_frame, OP_TEXT};

fn hex(s: &str) -> Vec<u8> {
    let b = s.as_bytes();
    let mut v = Vec::new();
    let mut i = 0;
    while i + 1 < b.len() {
        let hi = (b[i] as char).to_digit(16).unwrap() as u8;
        let lo = (b[i + 1] as char).to_digit(16).unwrap() as u8;
        v.push(hi * 16 + lo);
        i += 2;
    }
    v
}

#[test]
fn varints_of_every_length_read_back() {
    assert_eq!(varint_decode(&hex("c2197c5eff14e88c")), Some((151288809941952652, 8)));
    assert_eq!(varint_decode(&hex("9d7f3e7d")), Some((494878333, 4)));
    assert_eq!(varint_decode(&hex("7bbd")), Some((15293, 2)));
    assert_eq!(varint_decode(&hex("25")), Some((37, 1)));
    assert_eq!(varint_decode(&hex("4025")), Some((37, 2)));
    assert_eq!(varint_vec(37), hex("25"));
    assert_eq!(varint_vec(15293), hex("7bbd"));
    assert_eq!(varint_vec(494878333), hex("9d7f3e7d"));
    assert_eq!(varint_vec(151288809941952652), hex("c2197c5eff14e88c"));
}

#[test]
fn a_cut_varint_is_not_read() {
    assert_eq!(varint_decode(&[]), None);
    assert_eq!(varint_decode(&hex("7b")), None);
    assert_eq!(varint_decode(&hex("c2197c5eff14e8")), None);
}

#[test]
fn a_varint_that_does_not_fit_is_not_written() {
    let mut out = [0u8; 3];
    assert_eq!(encode_varint(494878333, &mut out), 0);
    assert_eq!(encode_varint(15293, &mut out), 2);
    assert_eq!(&out[..2], &hex("7bbd")[..]);
}

#[test]
fn h3_frames_read_back() {
    let mut buf = vec![0u8; 8];
    let n = build_h3_frame_header(1, 3, &mut buf);
    assert_eq!(n, 2);
    buf.truncate(n);
    buf.extend_from_slice(b"abcREST");
    let (f, used) = parse_h3_frame(&buf).unwrap();
    assert_eq!(f.frame_type, 1);
    assert_eq!(f.payload, b"abc");
    assert_eq!(used, 5);
    assert!(parse_h3_frame(&buf[..4]).is_none());
}

#[test]
fn h3_settings_are_pairs_of_varints() {
    let mut out = [0u8; 16];
    let n = build_h3_settings_payload(&[(1, 0), (6, 16384)], &mut out);
    assert_eq!(&out[..n], &[0x01, 0x00, 0x06, 0x80, 0x00, 0x40, 0x00]);
}

#[test]
fn huffman_strings_decode() {
    assert_eq!(huff_decode(&hex("f1e3c2e5f23a6ba0ab90f4ff"), 64), Some(b"www.example.com".to_vec()));
    assert_eq!(huff_decode(&hex("a8eb10649cbf"), 64), Some(b"no-cache".to_vec()));
    assert_eq!(huff_decode(&hex("25a849e95ba97d7f"), 64), Some(b"custom-key".to_vec()));
    assert_eq!(huff_decode(&[], 64), Some(Vec::new()));
}

#[test]
fn bad_huffman_strings_are_refused() {
    // Too long for the room given.
    assert_eq!(huff_decode(&hex("a8eb10649cbf"), 4), None);
    // Padding of zeros, and padding of a whole byte.
    assert_eq!(huff_decode(&hex("18"), 64), None);
    assert_eq!(huff_decode(&hex("f1e3c2e5f23a6ba0ab90f4ffff"), 64), None);
}

#[test]
fn prefixed_integers_read_back() {
    assert_eq!(decode_prefix_int(&[0x0a], 5), Some((10, 1)));
    assert_eq!(decode_prefix_int(&[0x1f, 0x9a, 0x0a], 5), Some((1337, 3)));
    assert_eq!(decode_prefix_int(&[0x2a], 8), Some((42, 1)));
    assert_eq!(decode_prefix_int(&[0x1f, 0x9a], 5), None);
    assert_eq!(int_vec(1337, 5, 0xe0), vec![0xff, 0x9a, 0x0a]);
    assert_eq!(int_vec(10, 5, 0), vec![0x0a]);
}

#[test]
fn qpack_fields_read_back() {
    let v = field_vec(b"x-name", b"a value");
    let f = qpack_decode_field(&v, 64).unwrap();
    assert_eq!(f.name, b"x-name");
    assert_eq!(f.value, b"a value");
    assert_eq!(f.consumed, v.len());
}

#[test]
fn qpack_static_fields_are_known() {
    // Indexed: entry seventeen is `:method GET`, entry one is `:path /`.
    let f = qpack_decode_field(&[0xc0 + 17], 64).unwrap();
    assert_eq!((f.name.as_slice(), f.value.as_slice()), (&b":method"[..], &b"GET"[..]));
    let f = qpack_decode_field(&[0xc1], 64).unwrap();
    assert_eq!((f.name.as_slice(), f.value.as_slice()), (&b":path"[..], &b"/"[..]));
    // A literal whose name stands in the table: `:path /abc`.
    let f = qpack_decode_field(&[0x51, 0x04, b'/', b'a', b'b', b'c'], 64).unwrap();
    assert_eq!((f.name.as_slice(), f.value.as_slice()), (&b":path"[..], &b"/abc"[..]));
    assert_eq!(f.consumed, 6);
}

#[test]
fn qpack_dynamic_references_are_refused() {
    assert!(qpack_decode_field(&[0x80], 64).is_none());
    assert_eq!(qpack_decode_block_prefix(&[0x00, 0x00, 0xd1]), Some(2));
    assert_eq!(qpack_decode_block_prefix(&[0x01, 0x00]), None);
    assert_eq!(qpack_decode_block_prefix(&[0x00]), None);
}

#[test]
fn hpack_fields_read_back() {
    let v = encode_header(b":status", b"200");
    let (f, n) = decode_entry(&v).unwrap();
    let f = f.unwrap();
    assert_eq!((f.name.as_slice(), f.value.as_slice()), (&b":status"[..], &b"200"[..]));
    assert_eq!(n, v.len());
}

#[test]
fn hpack_static_fields_are_known() {
    let (f, n) = decode_entry(&[0x82]).unwrap();
    let f = f.unwrap();
    assert_eq!((f.name.as_slice(), f.value.as_slice(), n), (&b":method"[..], &b"GET"[..], 1));
    // A literal field without indexing and with an indexed name: `:path /sample/path`.
    let v = hex("040c2f73616d706c652f70617468");
    let (f, n) = decode_entry(&v).unwrap();
    let f = f.unwrap();
    assert_eq!((f.name.as_slice(), f.value.as_slice(), n), (&b":path"[..], &b"/sample/path"[..], 14));
    // A literal field with indexing: `custom-key: custom-header`.
    let v = hex("400a637573746f6d2d6b65790d637573746f6d2d686561646572");
    let (f, n) = decode_entry(&v).unwrap();
    let f = f.unwrap();
    assert_eq!((f.name.as_slice(), f.value.as_slice()), (&b"custom-key"[..], &b"custom-header"[..]));
    assert_eq!(n, v.len());
}

#[test]
fn hpack_table_size_can_only_be_zero() {
    assert!(matches!(decode_entry(&[0x20]), Some((None, 1))));
    assert!(decode_entry(&[0x3f, 0xe1, 0x1f]).is_none());
    assert!(decode_entry(&[0x80]).is_none());
    // Beyond the static table, and a Huffman-coded string.
    assert!(decode_entry(&[0xbe]).is_none());
    assert!(decode_entry(&[0x04, 0x8c]).is_none());
}

#[test]
fn h2_frame_headers_read_back() {
    let f = write_data(5, b"hello", true);
    assert_eq!(f, b"\x00\x00\x05\x00\x01\x00\x00\x00\x05hello");
    assert_eq!(parse_header(&f), Some(FrameHead { length: 5, kind: 0, flags: 1, stream_id: 5 }));
    assert_eq!(parse_header(&f[..8]), None);
    // The reserved bit is not part of the number.
    assert_eq!(parse_header(&hex("000000040080000001")).unwrap().stream_id, 1);
}

#[test]
fn h2_frames_have_their_exact_bytes() {
    assert_eq!(write_settings(&[(2, 0), (3, 4)]), hex("00000c0400000000000002000000000003000000 04".replace(' ', "").as_str()));
    assert_eq!(write_settings_ack(), hex("000000040100000000"));
    assert_eq!(write_ping_ack(b"12345678"), hex("0000080601000000003132333435363738"));
    assert_eq!(write_rst_stream(3, 7), hex("00000403000000000300000007"));
    assert_eq!(write_goaway(5, 1), hex("0000080700000000000000000500000001"));
    assert_eq!(write_window_update(0, 32768), hex("00000408000000000000008000"));
    assert_eq!(write_headers(1, &[0x88], true), hex("00000101050000000188"));
    assert_eq!(write_headers(1, &[0x88], false), hex("00000101040000000188"));
}

#[test]
fn h2_padding_is_taken_off() {
    assert_eq!(data_payload(b"plain", 0), Some(&b"plain"[..]));
    assert_eq!(data_payload(b"\x02abXX", FLAG_PADDED), Some(&b"ab"[..]));
    assert_eq!(data_payload(b"\x05abXX", FLAG_PADDED), None);
    assert_eq!(data_payload(b"", FLAG_PADDED), None);
    assert_eq!(headers_block(b"\x01\x00\x00\x00\x00\x10blockX", FLAG_PADDED + FLAG_PRIORITY), Some(&b"block"[..]));
    assert_eq!(headers_block(b"\x00\x00\x00\x00", FLAG_PRIORITY), None);
}

#[test]
fn websocket_frames_read_back() {
    // A masked text message, "Hello".
    let v = hex("818537fa213d7f9f4d5158");
    let f = parse_frame(&v).unwrap().unwrap();
    assert!(f.fin && f.masked);
    assert_eq!((f.opcode, f.header_len, f.payload_len), (OP_TEXT, 6, 5));
    assert_eq!(unmask(&v[6..], &f.mask_key), b"Hello");
    assert_eq!(write_frame(true, OP_TEXT, b"Hello"), hex("810548656c6c6f"));
    let long = vec![7u8; 200];
    let w = write_frame(true, 2, &long);
    assert_eq!(&w[..4], &[0x82, 126, 0, 200]);
    let f = parse_frame(&w).unwrap().unwrap();
    assert_eq!((f.header_len, f.payload_len, f.masked), (4, 200, false));
}

#[test]
fn websocket_frames_may_be_incomplete_or_malformed() {
    assert_eq!(parse_frame(&[0x81]).unwrap().is_none(), true);
    assert!(parse_frame(&[0x81, 0xfe, 0x00]).unwrap().is_none());
    // A reserved bit, a reserved opcode, a long or split control frame.
    assert!(parse_frame(&[0xc1, 0x80, 0, 0, 0, 0]).is_err());
    assert!(parse_frame(&[0x83, 0x80, 0, 0, 0, 0]).is_err());
    assert!(parse_frame(&[0x09, 0x80, 0, 0, 0, 0]).is_err());
    assert!(parse_frame(&[0x89, 0xfe, 0, 200, 0, 0, 0, 0]).is_err());
}

#[test]
fn numbers_as_text() {
    assert_eq!(decimal_bytes(0), b"0");
    assert_eq!(decimal_bytes(18446744073709551615), b"18446744073709551615");
    assert_eq!(parse_u64(b"18446744073709551615"), Some(18446744073709551615));
    assert_eq!(parse_u64(b"18446744073709551616"), None);
    assert_eq!(parse_u64(b""), None);
    assert_eq!(parse_u64(b"12a"), None);
    let mut v = Vec::new();
    put_ipv4_decimal(&mut v, 64, 0x0a00_0001);
    assert_eq!(v, b"10.0.0.1");
    let mut w = b"ab".to_vec();
    put_bytes(&mut w, 4, b"cdef");
    assert_eq!(w, b"abcd");
    assert!(eq_ascii_ci(b"Content-Type", b"content-type"));
    assert!(!eq_ascii_ci(b"Content-Type", b"content_type"));
}
