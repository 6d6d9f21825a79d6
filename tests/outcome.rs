use spycheck::outcome::{classify, interpret, Outcome};
use spycheck::payload::{is_success, parse_body, Reply};

fn ok(body: &str) -> Reply {
    Reply::Status { code: 200, body: Some(body.to_string()) }
}

#[test]
fn success_codes_are_2xx() {
    assert!(is_success(200));
    assert!(is_success(204));
    assert!(is_success(299));
    assert!(!is_success(199));
    assert!(!is_success(300));
    assert!(!is_success(404));
    assert!(!is_success(500));
}

#[test]
fn parse_false_is_boolean_false() {
    let p = parse_body(&"false".to_string()).unwrap();
    assert_eq!(p.as_bool, Some(false));
    assert_eq!(p.value, serde_json::Value::Bool(false));
}

#[test]
fn parse_object_is_not_boolean() {
    let p = parse_body(&"{\"name\": \"x\"}".to_string()).unwrap();
    assert_eq!(p.as_bool, None);
    assert!(p.value.is_object());
}

#[test]
fn parse_true_is_boolean_true() {
    let p = parse_body(&" true ".to_string()).unwrap();
    assert_eq!(p.as_bool, Some(true));
}

#[test]
fn parse_malformed_is_none() {
    assert!(parse_body(&"not json".to_string()).is_none());
    assert!(parse_body(&"".to_string()).is_none());
    assert!(parse_body(&"false false".to_string()).is_none());
}

#[test]
fn classify_found_absent() {
    match classify("1".to_string(), "One".to_string(), ok("false")) {
        Outcome::Found(f) => {
            assert_eq!(f.id, "1");
            assert_eq!(f.name, "One");
            assert_eq!(f.body, "false");
            assert!(f.absent);
            assert_eq!(f.payload, serde_json::Value::Bool(false));
        }
        Outcome::Failed(_) => panic!("expected found"),
    }
}

#[test]
fn classify_found_notable() {
    match classify("42".to_string(), "Acme".to_string(), ok("[1, 2]")) {
        Outcome::Found(f) => {
            assert_eq!(f.id, "42");
            assert_eq!(f.name, "Acme");
            assert!(!f.absent);
            assert!(f.payload.is_array());
        }
        Outcome::Failed(_) => panic!("expected found"),
    }
}

#[test]
fn classify_error_status_fails() {
    let r = Reply::Status { code: 429, body: None };
    match classify("7".to_string(), "Seven".to_string(), r) {
        Outcome::Failed(id) => assert_eq!(id, "7"),
        Outcome::Found(_) => panic!("expected failure"),
    }
}

#[test]
fn classify_error_status_with_body_fails() {
    let r = Reply::Status { code: 500, body: Some("false".to_string()) };
    assert!(matches!(classify("7".to_string(), "Seven".to_string(), r), Outcome::Failed(_)));
}

#[test]
fn classify_unreachable_fails() {
    match classify("8".to_string(), "Eight".to_string(), Reply::Unreachable) {
        Outcome::Failed(id) => assert_eq!(id, "8"),
        Outcome::Found(_) => panic!("expected failure"),
    }
}

#[test]
fn classify_unread_body_fails() {
    let r = Reply::Status { code: 200, body: None };
    assert!(matches!(classify("9".to_string(), "Nine".to_string(), r), Outcome::Failed(_)));
}

#[test]
fn classify_malformed_body_fails() {
    assert!(matches!(classify("9".to_string(), "Nine".to_string(), ok("{oops")), Outcome::Failed(_)));
}

#[test]
fn interpret_without_parse_fails() {
    let o = interpret("3".to_string(), "Three".to_string(), "x".to_string(), None);
    match o {
        Outcome::Failed(id) => assert_eq!(id, "3"),
        Outcome::Found(_) => panic!("expected failure"),
    }
}

#[test]
fn interpret_true_is_not_absent() {
    let p = parse_body(&"true".to_string());
    match interpret("3".to_string(), "Three".to_string(), "true".to_string(), p) {
        Outcome::Found(f) => assert!(!f.absent),
        Outcome::Failed(_) => panic!("expected found"),
    }
}
