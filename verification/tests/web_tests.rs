use faritany::web::{bearer_token, parse_port, password_digest, query_token, str_equals, token_from_pairs};

#[test]
fn web_query_token_found() {
    assert_eq!(query_token("a=1&token=abc%20d&token=x"), Some("abc d".to_string()));
    assert_eq!(query_token("token=a+b"), Some("a b".to_string()));
}

#[test]
fn web_query_token_missing() {
    assert_eq!(query_token(""), None);
    assert_eq!(query_token("tok=1&tokens=2"), None);
}

#[test]
fn web_token_from_pairs_first_wins() {
    let pairs = vec![
        ("x".to_string(), "1".to_string()),
        ("token".to_string(), "first".to_string()),
        ("token".to_string(), "second".to_string()),
    ];
    assert_eq!(token_from_pairs(&pairs), Some("first".to_string()));
    assert_eq!(token_from_pairs(&vec![]), None);
}

#[test]
fn web_bearer_token_stripped() {
    assert_eq!(bearer_token("Bearer abc.def"), "abc.def");
    assert_eq!(bearer_token("abc"), "abc");
    assert_eq!(bearer_token("Bearer Bearer x"), "x");
    assert_eq!(bearer_token("xBearer y"), "xy");
    assert_eq!(bearer_token("Beare"), "Beare");
    assert_eq!(bearer_token(""), "");
}

#[test]
fn web_parse_port_values() {
    assert_eq!(parse_port("5050"), Some(5050));
    assert_eq!(parse_port("+80"), Some(80));
    assert_eq!(parse_port("0065535"), Some(65535));
    assert_eq!(parse_port("65536"), None);
    assert_eq!(parse_port("-1"), None);
    assert_eq!(parse_port("+"), None);
    assert_eq!(parse_port(""), None);
    assert_eq!(parse_port("80a"), None);
    for s in ["5050", "+80", "65536", "-1", "", "12x"] {
        assert_eq!(parse_port(s), s.parse::<u16>().ok());
    }
}

#[test]
fn web_password_digest_is_sha256_hex() {
    assert_eq!(
        password_digest("abc"),
        "ba7816bf8f01cfea414140de5dae2223b00361a396177a9cb410ff61f20015ad"
    );
    assert_ne!(password_digest("abc"), password_digest("abd"));
}

#[test]
fn web_str_equals() {
    assert!(str_equals("token", "token"));
    assert!(!str_equals("token", "tokens"));
    assert!(!str_equals("tokem", "token"));
}
