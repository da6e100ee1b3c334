//! The static tables of field compression, column by column, and that reading goes by them.

use crate::bytes::text;
use crate::hpack::hpack_static;
use crate::qpack::static_field;
use vstd::prelude::*;

verus! {

/// The names of the static table of HTTP/3, in the order of their indices from zero on
/// (RFC 9204 Appendix A).
pub const QPACK_NAMES: [&'static str; 99] = [
    ":authority",
    ":path",
    "age",
    "content-disposition",
    "content-length",
    "cookie",
    "date",
    "etag",
    "if-modified-since",
    "if-none-match",
    "last-modified",
    "link",
    "location",
    "referer",
    "set-cookie",
    ":method",
    ":method",
    ":method",
    ":method",
    ":method",
    ":method",
    ":method",
    ":scheme",
    ":scheme",
    ":status",
    ":status",
    ":status",
    ":status",
    ":status",
    "accept",
    "accept",
    "accept-encoding",
    "accept-ranges",
    "access-control-allow-headers",
    "access-control-allow-headers",
    "access-control-allow-origin",
    "cache-control",
    "cache-control",
    "cache-control",
    "cache-control",
    "cache-control",
    "cache-control",
    "content-encoding",
    "content-encoding",
    "content-type",
    "content-type",
    "content-type",
    "content-type",
    "content-type",
    "content-type",
    "content-type",
    "content-type",
    "content-type",
    "content-type",
    "content-type",
    "range",
    "strict-transport-security",
    "strict-transport-security",
    "strict-transport-security",
    "vary",
    "vary",
    "x-content-type-options",
    "x-xss-protection",
    ":status",
    ":status",
    ":status",
    ":status",
    ":status",
    ":status",
    ":status",
    ":status",
    ":status",
    "accept-language",
    "access-control-allow-credentials",
    "access-control-allow-credentials",
    "access-control-allow-headers",
    "access-control-allow-methods",
    "access-control-allow-methods",
    "access-control-allow-methods",
    "access-control-expose-headers",
    "access-control-request-headers",
    "access-control-request-method",
    "access-control-request-method",
    "alt-svc",
    "authorization",
    "content-security-policy",
    "early-data",
    "expect-ct",
    "forwarded",
    "if-range",
    "origin",
    "purpose",
    "server",
    "timing-allow-origin",
    "upgrade-insecure-requests",
    "user-agent",
    "x-forwarded-for",
    "x-frame-options",
    "x-frame-options",
];

/// The values that stand beside [`QPACK_NAMES`].
pub const QPACK_VALUES: [&'static str; 99] = [
    "",
    "/",
    "0",
    "",
    "0",
    "",
    "",
    "",
    "",
    "",
    "",
    "",
    "",
    "",
    "",
    "CONNECT",
    "DELETE",
    "GET",
    "HEAD",
    "OPTIONS",
    "POST",
    "PUT",
    "http",
    "https",
    "103",
    "200",
    "304",
    "404",
    "503",
    "*/*",
    "application/dns-message",
    "gzip, deflate, br",
    "bytes",
    "cache-control",
    "content-type",
    "*",
    "max-age=0",
    "max-age=2592000",
    "max-age=604800",
    "no-cache",
    "no-store",
    "public, max-age=31536000",
    "br",
    "gzip",
    "application/dns-message",
    "application/javascript",
    "application/json",
    "application/x-www-form-urlencoded",
    "image/gif",
    "image/jpeg",
    "image/png",
    "text/css",
    "text/html; charset=utf-8",
    "text/plain",
    "text/plain;charset=utf-8",
    "bytes=0-",
    "max-age=31536000",
    "max-age=31536000; includesubdomains",
    "max-age=31536000; includesubdomains; preload",
    "accept-encoding",
    "origin",
    "nosniff",
    "1; mode=block",
    "100",
    "204",
    "206",
    "302",
    "400",
    "403",
    "421",
    "425",
    "500",
    "",
    "FALSE",
    "TRUE",
    "*",
    "get",
    "get, post, options",
    "options",
    "content-length",
    "content-type",
    "get",
    "post",
    "clear",
    "",
    "script-src 'none'; object-src 'none'; base-uri 'none'",
    "1",
    "",
    "",
    "",
    "",
    "prefetch",
    "",
    "*",
    "1",
    "",
    "",
    "deny",
    "sameorigin",
];

/// The names of the static table of HTTP/2, in the order of their indices from one on
/// (RFC 7541 Appendix A).
pub const HPACK_NAMES: [&'static str; 61] = [
    ":authority",
    ":method",
    ":method",
    ":path",
    ":path",
    ":scheme",
    ":scheme",
    ":status",
    ":status",
    ":status",
    ":status",
    ":status",
    ":status",
    ":status",
    "accept-charset",
    "accept-encoding",
    "accept-language",
    "accept-ranges",
    "accept",
    "access-control-allow-origin",
    "age",
    "allow",
    "authorization",
    "cache-control",
    "content-disposition",
    "content-encoding",
    "content-language",
    "content-length",
    "content-location",
    "content-range",
    "content-type",
    "cookie",
    "date",
    "etag",
    "expect",
    "expires",
    "from",
    "host",
    "if-match",
    "if-modified-since",
    "if-none-match",
    "if-range",
    "if-unmodified-since",
    "last-modified",
    "link",
    "location",
    "max-forwards",
    "proxy-authenticate",
    "proxy-authorization",
    "range",
    "referer",
    "refresh",
    "retry-after",
    "server",
    "set-cookie",
    "strict-transport-security",
    "transfer-encoding",
    "user-agent",
    "vary",
    "via",
    "www-authenticate",
];

/// The values that stand beside [`HPACK_NAMES`].
pub const HPACK_VALUES: [&'static str; 61] = [
    "",
    "GET",
    "POST",
    "/",
    "/index.html",
    "http",
    "https",
    "200",
    "204",
    "206",
    "304",
    "400",
    "404",
    "500",
    "",
    "gzip, deflate",
    "",
    "",
    "",
    "",
    "",
    "",
    "",
    "",
    "",
    "",
    "",
    "",
    "",
    "",
    "",
    "",
    "",
    "",
    "",
    "",
    "",
    "",
    "",
    "",
    "",
    "",
    "",
    "",
    "",
    "",
    "",
    "",
    "",
    "",
    "",
    "",
    "",
    "",
    "",
    "",
    "",
    "",
    "",
    "",
    "",
];

spec fn qpack_agrees(i: int) -> bool {
    static_field(i).name == text(QPACK_NAMES@[i]) && static_field(i).value == text(QPACK_VALUES@[i])
}

spec fn hpack_agrees(i: int) -> bool {
    hpack_static(i).name == text(HPACK_NAMES@[i - 1]) && hpack_static(i).value == text(HPACK_VALUES@[i - 1])
}

proof fn lemma_qpack_0(i: int)
    requires
        0 <= i < 25,
    ensures
        qpack_agrees(i),
{
    reveal(static_field);
    assert(i == 0 || i == 1 || i == 2 || i == 3 || i == 4 || i == 5 || i == 6 || i == 7 || i == 8 || i == 9 || i == 10 || i == 11 || i == 12 || i == 13 || i == 14 || i == 15 || i == 16 || i == 17 || i == 18 || i == 19 || i == 20 || i == 21 || i == 22 || i == 23 || i == 24);
}

proof fn lemma_qpack_25(i: int)
    requires
        25 <= i < 50,
    ensures
        qpack_agrees(i),
{
    reveal(static_field);
    assert(i == 25 || i == 26 || i == 27 || i == 28 || i == 29 || i == 30 || i == 31 || i == 32 || i == 33 || i == 34 || i == 35 || i == 36 || i == 37 || i == 38 || i == 39 || i == 40 || i == 41 || i == 42 || i == 43 || i == 44 || i == 45 || i == 46 || i == 47 || i == 48 || i == 49);
}

proof fn lemma_qpack_50(i: int)
    requires
        50 <= i < 75,
    ensures
        qpack_agrees(i),
{
    reveal(static_field);
    assert(i == 50 || i == 51 || i == 52 || i == 53 || i == 54 || i == 55 || i == 56 || i == 57 || i == 58 || i == 59 || i == 60 || i == 61 || i == 62 || i == 63 || i == 64 || i == 65 || i == 66 || i == 67 || i == 68 || i == 69 || i == 70 || i == 71 || i == 72 || i == 73 || i == 74);
}

proof fn lemma_qpack_75(i: int)
    requires
        75 <= i < 99,
    ensures
        qpack_agrees(i),
{
    reveal(static_field);
    assert(i == 75 || i == 76 || i == 77 || i == 78 || i == 79 || i == 80 || i == 81 || i == 82 || i == 83 || i == 84 || i == 85 || i == 86 || i == 87 || i == 88 || i == 89 || i == 90 || i == 91 || i == 92 || i == 93 || i == 94 || i == 95 || i == 96 || i == 97 || i == 98);
}

proof fn lemma_hpack_1(i: int)
    requires
        1 <= i < 22,
    ensures
        hpack_agrees(i),
{
    reveal(hpack_static);
    assert(i == 1 || i == 2 || i == 3 || i == 4 || i == 5 || i == 6 || i == 7 || i == 8 || i == 9 || i == 10 || i == 11 || i == 12 || i == 13 || i == 14 || i == 15 || i == 16 || i == 17 || i == 18 || i == 19 || i == 20 || i == 21);
}

proof fn lemma_hpack_22(i: int)
    requires
        22 <= i < 43,
    ensures
        hpack_agrees(i),
{
    reveal(hpack_static);
    assert(i == 22 || i == 23 || i == 24 || i == 25 || i == 26 || i == 27 || i == 28 || i == 29 || i == 30 || i == 31 || i == 32 || i == 33 || i == 34 || i == 35 || i == 36 || i == 37 || i == 38 || i == 39 || i == 40 || i == 41 || i == 42);
}

proof fn lemma_hpack_43(i: int)
    requires
        43 <= i < 62,
    ensures
        hpack_agrees(i),
{
    reveal(hpack_static);
    assert(i == 43 || i == 44 || i == 45 || i == 46 || i == 47 || i == 48 || i == 49 || i == 50 || i == 51 || i == 52 || i == 53 || i == 54 || i == 55 || i == 56 || i == 57 || i == 58 || i == 59 || i == 60 || i == 61);
}

/// An index of a field section stands for the name and the value that the standard gives it.
pub proof fn law_qpack_index_is_standard(i: int)
    requires
        0 <= i < 99,
    ensures
        static_field(i).name == text(QPACK_NAMES@[i]),
        static_field(i).value == text(QPACK_VALUES@[i]),
{
    if i < 25 {
        lemma_qpack_0(i);
    } else if i < 50 {
        lemma_qpack_25(i);
    } else if i < 75 {
        lemma_qpack_50(i);
    } else {
        lemma_qpack_75(i);
    }
}

/// An index of a header block stands for the name and the value that the standard gives it.
pub proof fn law_hpack_index_is_standard(i: int)
    requires
        1 <= i <= 61,
    ensures
        hpack_static(i).name == text(HPACK_NAMES@[i - 1]),
        hpack_static(i).value == text(HPACK_VALUES@[i - 1]),
{
    if i < 22 {
        lemma_hpack_1(i);
    } else if i < 43 {
        lemma_hpack_22(i);
    } else {
        lemma_hpack_43(i);
    }
}

} // verus!
