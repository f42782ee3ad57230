use panel_input::input::{ErrorKind, InputError};

#[test]
fn new_is_a_parse_error() {
    let err = InputError::new("bad token".to_string());
    assert_eq!(err.kind(), ErrorKind::Parse);
    assert_eq!(err.message(), "bad token");
}

#[test]
fn from_str_matches_new() {
    let err = InputError::from_str("bad token");
    assert_eq!(err.kind(), ErrorKind::Parse);
    assert_eq!(err.message(), "bad token");
}

#[test]
fn with_kind_keeps_kind() {
    let err = InputError::with_kind(ErrorKind::Bus, "transaction failed".to_string());
    assert_eq!(err.kind(), ErrorKind::Bus);
    let err = InputError::with_kind(ErrorKind::Channel, "reader is gone".to_string());
    assert_eq!(err.kind(), ErrorKind::Channel);
}

#[test]
fn display_form() {
    let err = InputError::from_str("oops");
    assert_eq!(err.display_string(), "InputError(\"oops\")");
}
