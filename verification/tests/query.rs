use agent_axum::query::{parse_query, pct_decode, raw_pairs};

fn pairs(v: &[(&str, &str)]) -> Vec<(Vec<u8>, Vec<u8>)> {
    v.iter()
        .map(|(k, w)| (k.as_bytes().to_vec(), w.as_bytes().to_vec()))
        .collect()
}

#[test]
fn decode_passes_plain_bytes_through() {
    assert_eq!(pct_decode(b"abc123"), b"abc123".to_vec());
    assert_eq!(pct_decode(b""), Vec::<u8>::new());
}

#[test]
fn decode_hex_escapes_both_cases() {
    assert_eq!(pct_decode(b"%41%61"), b"Aa".to_vec());
    assert_eq!(pct_decode(b"%2b%2B"), b"++".to_vec());
}

#[test]
fn decode_plus_is_space_but_encoded_plus_stays() {
    assert_eq!(pct_decode(b"1+2"), b"1 2".to_vec());
    assert_eq!(pct_decode(b"%2B"), b"+".to_vec());
}

#[test]
fn decode_keeps_malformed_escapes() {
    assert_eq!(pct_decode(b"%zz"), b"%zz".to_vec());
    assert_eq!(pct_decode(b"%4"), b"%4".to_vec());
    assert_eq!(pct_decode(b"100%"), b"100%".to_vec());
}

#[test]
fn raw_pairs_keep_order_and_duplicates() {
    assert_eq!(
        raw_pairs(b"a=1&b=2&a=3"),
        pairs(&[("a", "1"), ("b", "2"), ("a", "3")])
    );
}

#[test]
fn parse_resolves_duplicates_to_last_value() {
    assert_eq!(parse_query(b"a=1&b=2&a=3"), pairs(&[("a", "3"), ("b", "2")]));
}

#[test]
fn parse_empty_query_is_empty() {
    assert_eq!(parse_query(b""), Vec::<(Vec<u8>, Vec<u8>)>::new());
    assert_eq!(parse_query(b"&&&"), Vec::<(Vec<u8>, Vec<u8>)>::new());
}

#[test]
fn parse_decodes_keys_and_values() {
    assert_eq!(
        parse_query(b"a+b=c%26d&%3D=%3D"),
        pairs(&[("a b", "c&d"), ("=", "=")])
    );
}

#[test]
fn parse_empty_key_is_a_key() {
    assert_eq!(parse_query(b"=v"), pairs(&[("", "v")]));
}
