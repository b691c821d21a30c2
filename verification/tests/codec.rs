use credstore::codec::{decode, encode};

fn chars_of(s: &str) -> Vec<char> {
    s.chars().collect()
}

fn text_of(cs: &[char]) -> String {
    cs.iter().collect()
}

#[test]
fn encode_empty_mapping() {
    let entries: Vec<(String, String)> = Vec::new();
    let out = encode(&entries);
    assert_eq!(text_of(&out), "{\"passwords\":{}}");
}

#[test]
fn encode_one_entry() {
    let entries = vec![("email".to_string(), "s3cr3t".to_string())];
    let out = encode(&entries);
    assert_eq!(text_of(&out), "{\"passwords\":{\"email\":\"s3cr3t\"}}");
}

#[test]
fn encode_two_entries_comma_separated() {
    let entries = vec![
        ("a".to_string(), "1".to_string()),
        ("b".to_string(), "2".to_string()),
    ];
    let out = encode(&entries);
    assert_eq!(text_of(&out), "{\"passwords\":{\"a\":\"1\",\"b\":\"2\"}}");
}

#[test]
fn encode_escapes_quote_and_backslash() {
    let entries = vec![("a\"b".to_string(), "c\\d".to_string())];
    let out = encode(&entries);
    assert_eq!(text_of(&out), "{\"passwords\":{\"a\\\"b\":\"c\\\\d\"}}");
}

#[test]
fn decode_empty_mapping() {
    let cs = chars_of("{\"passwords\":{}}");
    let r = decode(&cs).expect("the empty mapping decodes");
    assert!(r.is_empty());
}

#[test]
fn decode_inverts_encode() {
    let entries = vec![
        ("email".to_string(), "s3cr3t".to_string()),
        ("a\"b".to_string(), "c\\d".to_string()),
        ("control\nchars".to_string(), "tab\there".to_string()),
        ("".to_string(), "".to_string()),
    ];
    let out = encode(&entries);
    let back = decode(&out).expect("an encoded mapping decodes");
    assert_eq!(back, entries);
}

#[test]
fn decode_rejects_malformed_input() {
    for bad in [
        "",
        "nonsense",
        "{\"passwords\":{",
        "{\"passwords\":{}",
        "{\"passwords\":{}}}",
        "{\"passwords\":{}} ",
        "{\"passwords\":{\"a\":\"1\"}",
        "{\"passwords\":{\"a\":\"1\",}}",
        "{\"passwords\":{\"a\":1}}",
        "{\"passwords\":{\"a\"}}",
        "{\"passwords\":{\"a\\x\":\"1\"}}",
        "{\"Passwords\":{}}",
    ] {
        let cs = chars_of(bad);
        assert!(decode(&cs).is_none(), "accepted: {bad}");
    }
}
