use agent_axum::responses::{echo_body, health_body, root_body};

const ROOT_DOC: &str =
    "{\"success\":true,\"data\":\"Welcome to Agent Axum API\",\"message\":\"API is ready to handle requests\"}";
const HEALTH_DOC: &str =
    "{\"success\":true,\"data\":{\"status\":\"healthy\",\"message\":\"Server is running\"},\"message\":null}";
const ECHO_MSG: &str = ",\"message\":\"Echo endpoint - returns query parameters\"}";

fn echo_doc(data: &str) -> Vec<u8> {
    let mut d = String::from("{\"success\":true,\"data\":");
    d.push_str(data);
    d.push_str(ECHO_MSG);
    d.into_bytes()
}

#[test]
fn root_fixed_document() {
    assert_eq!(root_body(), ROOT_DOC.as_bytes().to_vec());
}

#[test]
fn health_fixed_document() {
    assert_eq!(health_body(), HEALTH_DOC.as_bytes().to_vec());
}

#[test]
fn responses_are_idempotent() {
    assert_eq!(root_body(), root_body());
    assert_eq!(health_body(), health_body());
    assert_eq!(echo_body(b"name=test&x=1&x=2"), echo_body(b"name=test&x=1&x=2"));
    assert_eq!(echo_body(b""), echo_body(b""));
}

#[test]
fn echo_empty_query_gives_empty_object() {
    assert_eq!(echo_body(b""), echo_doc("{}"));
}

#[test]
fn echo_scenario_duplicate_keys() {
    assert_eq!(
        echo_body(b"name=test&x=1&x=2"),
        echo_doc("{\"name\":\"test\",\"x\":\"2\"}")
    );
}

#[test]
fn echo_single_pair() {
    assert_eq!(echo_body(b"a=1"), echo_doc("{\"a\":\"1\"}"));
}

#[test]
fn echo_percent_and_plus_decoding() {
    assert_eq!(
        echo_body(b"a%20b=c%2Bd&plus=1+2"),
        echo_doc("{\"a b\":\"c+d\",\"plus\":\"1 2\"}")
    );
}

#[test]
fn echo_key_without_value() {
    assert_eq!(echo_body(b"flag"), echo_doc("{\"flag\":\"\"}"));
    assert_eq!(echo_body(b"flag="), echo_doc("{\"flag\":\"\"}"));
}

#[test]
fn echo_skips_empty_segments() {
    assert_eq!(echo_body(b"&&a=1&&"), echo_doc("{\"a\":\"1\"}"));
}

#[test]
fn echo_value_keeps_later_equals_sign() {
    assert_eq!(echo_body(b"eq=a=b"), echo_doc("{\"eq\":\"a=b\"}"));
}

#[test]
fn echo_escapes_json_characters() {
    // decoded value is `"\` followed by a newline; JSON escapes all three
    assert_eq!(
        echo_body(b"q=%22%5C%0A"),
        echo_doc("{\"q\":\"\\\"\\\\\\n\"}")
    );
}

#[test]
fn echo_escapes_control_byte_as_unicode() {
    assert_eq!(echo_body(b"c=%01"), echo_doc("{\"c\":\"\\u0001\"}"));
}

#[test]
fn echo_decodes_multibyte_utf8() {
    // %C3%A9 is the UTF-8 encoding of 'é'; the bytes pass through unescaped
    assert_eq!(echo_body(b"n=%C3%A9"), echo_doc("{\"n\":\"\u{e9}\"}"));
}

#[test]
fn echo_duplicate_key_keeps_first_position() {
    assert_eq!(
        echo_body(b"x=1&name=test&x=2"),
        echo_doc("{\"x\":\"2\",\"name\":\"test\"}")
    );
}
