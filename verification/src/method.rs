//! Request methods.

use crate::bytes::{is_text, text};
use vstd::prelude::*;

verus! {

/// No method, or one that is not implemented.
pub const METHOD_NONE: u8 = 0;
pub const METHOD_GET: u8 = 1;
pub const METHOD_HEAD: u8 = 2;
pub const METHOD_POST: u8 = 3;
pub const METHOD_PUT: u8 = 4;
pub const METHOD_PATCH: u8 = 5;
pub const METHOD_DELETE: u8 = 6;
pub const METHOD_OPTIONS: u8 = 7;
pub const METHOD_CONNECT: u8 = 8;

/// The method a token names. Tokens are case-sensitive.
pub open spec fn method_of(t: Seq<u8>) -> u8 {
    if t == text("GET") {
        METHOD_GET
    } else if t == text("HEAD") {
        METHOD_HEAD
    } else if t == text("POST") {
        METHOD_POST
    } else if t == text("PUT") {
        METHOD_PUT
    } else if t == text("PATCH") {
        METHOD_PATCH
    } else if t == text("DELETE") {
        METHOD_DELETE
    } else if t == text("OPTIONS") {
        METHOD_OPTIONS
    } else if t == text("CONNECT") {
        METHOD_CONNECT
    } else {
        METHOD_NONE
    }
}

pub fn method_from_token(t: &[u8]) -> (r: u8)
    ensures
        r == method_of(t@),
{
    if is_text(t, "GET") {
        METHOD_GET
    } else if is_text(t, "HEAD") {
        METHOD_HEAD
    } else if is_text(t, "POST") {
        METHOD_POST
    } else if is_text(t, "PUT") {
        METHOD_PUT
    } else if is_text(t, "PATCH") {
        METHOD_PATCH
    } else if is_text(t, "DELETE") {
        METHOD_DELETE
    } else if is_text(t, "OPTIONS") {
        METHOD_OPTIONS
    } else if is_text(t, "CONNECT") {
        METHOD_CONNECT
    } else {
        METHOD_NONE
    }
}

/// Whether a response to this method carries a body.
pub open spec fn sends_response_body(verb: u8) -> bool {
    verb != METHOD_HEAD
}

pub fn method_sends_response_body(verb: u8) -> (r: bool)
    ensures
        r == sends_response_body(verb),
{
    verb != METHOD_HEAD
}

/// Whether this method is defined to carry a request body.
pub open spec fn expects_request_body(verb: u8) -> bool {
    verb == METHOD_POST || verb == METHOD_PUT || verb == METHOD_PATCH
}

pub fn method_expects_request_body(verb: u8) -> (r: bool)
    ensures
        r == expects_request_body(verb),
{
    verb == METHOD_POST || verb == METHOD_PUT || verb == METHOD_PATCH
}

/// Whether this method names a request a route can serve.
pub open spec fn dispatchable(verb: u8) -> bool {
    verb != METHOD_NONE && verb != METHOD_CONNECT
}

pub fn method_is_dispatchable(verb: u8) -> (r: bool)
    ensures
        r == dispatchable(verb),
{
    verb != METHOD_NONE && verb != METHOD_CONNECT
}

} // verus!
