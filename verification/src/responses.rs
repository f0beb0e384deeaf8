//! The three endpoint response bodies. Every response is the uniform
//! envelope `{"success":true,"data":...,"message":...}`: `success` is always
//! true, `data` carries the payload, and `message` is a fixed note or null.

use vstd::prelude::*;
use vstd::slice::slice_to_vec;
use vstd::string::StringSliceAdditionalSpecFns;
use crate::json::{
    spec_json_string, spec_json_object, json_string_into, json_object, push_all, LBRACE, RBRACE,
};
use crate::query::{spec_parse_query, parse_query};

verus! {

/// The envelope around an already-rendered JSON `data` value: `success` is
/// always true, `message` is the given string or null.
pub open spec fn spec_envelope(data: Seq<u8>, message: Option<Seq<u8>>) -> Seq<u8> {
    "{\"success\":true,\"data\":".spec_bytes() + data + ",\"message\":".spec_bytes() + (match message {
        Option::None => "null".spec_bytes(),
        Option::Some(m) => spec_json_string(m),
    }) + seq![RBRACE]
}

/// Renders the envelope around `data` with a message string.
fn envelope_msg(data: &[u8], message: &str) -> (r: Vec<u8>)
    ensures
        r@ == spec_envelope(data@, Some(message.spec_bytes())),
{
    let mut out: Vec<u8> = slice_to_vec("{\"success\":true,\"data\":".as_bytes());
    push_all(&mut out, data);
    push_all(&mut out, ",\"message\":".as_bytes());
    json_string_into(&mut out, message.as_bytes());
    out.push(RBRACE);
    proof {
        assert(out@ =~= spec_envelope(data@, Some(message.spec_bytes())));
    }
    out
}

/// Renders the envelope around `data` with a null message.
fn envelope_null(data: &[u8]) -> (r: Vec<u8>)
    ensures
        r@ == spec_envelope(data@, None),
{
    let mut out: Vec<u8> = slice_to_vec("{\"success\":true,\"data\":".as_bytes());
    push_all(&mut out, data);
    push_all(&mut out, ",\"message\":".as_bytes());
    push_all(&mut out, "null".as_bytes());
    out.push(RBRACE);
    proof {
        assert(out@ =~= spec_envelope(data@, None));
    }
    out
}

/// The fixed body of the welcome endpoint.
pub open spec fn spec_root_body() -> Seq<u8> {
    spec_envelope(
        spec_json_string("Welcome to Agent Axum API".spec_bytes()),
        Some("API is ready to handle requests".spec_bytes()),
    )
}

/// The welcome endpoint: one fixed document, whatever the request.
pub fn root_body() -> (r: Vec<u8>)
    ensures
        r@ == spec_root_body(),
{
    let mut data: Vec<u8> = Vec::new();
    json_string_into(&mut data, "Welcome to Agent Axum API".as_bytes());
    proof {
        assert(data@ =~= spec_json_string("Welcome to Agent Axum API".spec_bytes()));
    }
    envelope_msg(data.as_slice(), "API is ready to handle requests")
}

/// The fixed `data` object of the health endpoint.
pub open spec fn spec_health_data() -> Seq<u8> {
    spec_json_object(
        seq![
            ("status".spec_bytes(), "healthy".spec_bytes()),
            ("message".spec_bytes(), "Server is running".spec_bytes()),
        ],
    )
}

/// The fixed body of the health endpoint.
pub open spec fn spec_health_body() -> Seq<u8> {
    spec_envelope(spec_health_data(), None)
}

/// The health endpoint: one fixed document, whatever the request.
pub fn health_body() -> (r: Vec<u8>)
    ensures
        r@ == spec_health_body(),
{
    let mut pairs: Vec<(Vec<u8>, Vec<u8>)> = Vec::new();
    pairs.push((slice_to_vec("status".as_bytes()), slice_to_vec("healthy".as_bytes())));
    pairs.push((slice_to_vec("message".as_bytes()), slice_to_vec("Server is running".as_bytes())));
    let data = json_object(&pairs);
    proof {
        assert(crate::query::pairs_view(pairs@) =~= seq![
            ("status".spec_bytes(), "healthy".spec_bytes()),
            ("message".spec_bytes(), "Server is running".spec_bytes()),
        ]);
    }
    envelope_null(data.as_slice())
}

/// The body of the echo endpoint for a given raw query string.
pub open spec fn spec_echo_body(q: Seq<u8>) -> Seq<u8> {
    spec_envelope(
        spec_json_object(spec_parse_query(q)),
        Some("Echo endpoint - returns query parameters".spec_bytes()),
    )
}

/// The echo endpoint: the decoded query parameters, echoed back verbatim as
/// a JSON object.
pub fn echo_body(q: &[u8]) -> (r: Vec<u8>)
    ensures
        r@ == spec_echo_body(q@),
{
    let pairs = parse_query(q);
    let data = json_object(&pairs);
    envelope_msg(data.as_slice(), "Echo endpoint - returns query parameters")
}

/// Repeating a request yields the byte-identical response: two bodies
/// produced by the same endpoint for the same raw query string are equal,
/// since the welcome and health bodies are fixed documents and the echo body
/// is a function of the query string alone — no state outlives a request.
pub proof fn lemma_responses_idempotent(r1: Seq<u8>, r2: Seq<u8>, q: Seq<u8>)
    requires
        (r1 == spec_root_body() && r2 == spec_root_body()) || (r1 == spec_health_body() && r2
            == spec_health_body()) || (r1 == spec_echo_body(q) && r2 == spec_echo_body(q)),
    ensures
        r1 == r2,
{
}

/// An empty query string echoes as the empty JSON object for `data` — not
/// null, and not an error.
pub proof fn lemma_echo_empty_query()
    ensures
        spec_parse_query(Seq::empty()) == Seq::<(Seq<u8>, Seq<u8>)>::empty(),
        spec_echo_body(Seq::empty()) == spec_envelope(
            seq![LBRACE, RBRACE],
            Some("Echo endpoint - returns query parameters".spec_bytes()),
        ),
{
    assert(spec_json_object(Seq::empty()) =~= seq![LBRACE, RBRACE]);
}

} // verus!
