use rkvs::Command;

#[test]
fn parse_get() {
    assert_eq!(Command::parse(b"GET k"), Command::Get(b"k".to_vec()));
}

#[test]
fn parse_put() {
    assert_eq!(
        Command::parse(b"PUT k v"),
        Command::Put(b"k".to_vec(), b"v".to_vec())
    );
}

#[test]
fn parse_put_missing_value() {
    assert_eq!(Command::parse(b"PUT k"), Command::Malformed);
}

#[test]
fn parse_get_alone() {
    assert_eq!(Command::parse(b"GET"), Command::Malformed);
}

#[test]
fn parse_empty_line() {
    assert_eq!(Command::parse(b""), Command::Malformed);
}

#[test]
fn parse_unknown_verb() {
    assert_eq!(Command::parse(b"FOO k v"), Command::Malformed);
}

#[test]
fn parse_get_extra_token() {
    assert_eq!(Command::parse(b"GET k v"), Command::Malformed);
}

#[test]
fn parse_put_extra_token() {
    assert_eq!(Command::parse(b"PUT k v w"), Command::Malformed);
}

#[test]
fn parse_extra_whitespace() {
    assert_eq!(
        Command::parse(b"  PUT   k \t v  "),
        Command::Put(b"k".to_vec(), b"v".to_vec())
    );
}

#[test]
fn parse_lowercase_verb_rejected() {
    assert_eq!(Command::parse(b"get k"), Command::Malformed);
}

#[test]
fn parse_invalid_utf8() {
    assert_eq!(Command::parse(b"GET \xff\xfe"), Command::Malformed);
}

#[test]
fn parse_valid_non_ascii_key() {
    // "GET k\xc3\xa9" holds a valid two-byte UTF-8 sequence.
    assert_eq!(
        Command::parse(b"GET k\xc3\xa9"),
        Command::Get(b"k\xc3\xa9".to_vec())
    );
}

#[test]
fn parse_deterministic_repeat() {
    let a = Command::parse(b"PUT key value");
    let b = Command::parse(b"PUT key value");
    assert_eq!(a, b);
}
