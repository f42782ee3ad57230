use panel_input::bitevents::BitEvent;
use panel_input::input::ErrorKind;
use panel_input::protocol::parse_event_line;

#[test]
fn parses_single_transition() {
    let events = parse_event_line("panel:3:1").unwrap();
    assert_eq!(events, vec![BitEvent { dev_name: "panel".to_string(), bit: 3, value: 1 }]);
}

#[test]
fn parses_comma_separated_batch() {
    let events = parse_event_line("panel:3:1,panel:4:0,aux:0:1").unwrap();
    assert_eq!(
        events,
        vec![
            BitEvent { dev_name: "panel".to_string(), bit: 3, value: 1 },
            BitEvent { dev_name: "panel".to_string(), bit: 4, value: 0 },
            BitEvent { dev_name: "aux".to_string(), bit: 0, value: 1 },
        ]
    );
}

#[test]
fn rejects_wrong_field_count() {
    let err = parse_event_line("panel:3").unwrap_err();
    assert_eq!(err.kind(), ErrorKind::Parse);
    assert!(parse_event_line("panel:3:1:9").is_err());
    assert!(parse_event_line("").is_err());
}

#[test]
fn rejects_non_numeric_fields() {
    assert!(parse_event_line("panel:x:1").is_err());
    assert!(parse_event_line("panel:3:on").is_err());
    assert!(parse_event_line("panel::1").is_err());
}

#[test]
fn rejects_out_of_range_numbers() {
    // the bit index must fit in a byte
    assert!(parse_event_line("panel:256:1").is_err());
    // the value is 0 or 1
    assert!(parse_event_line("panel:3:2").is_err());
}

#[test]
fn one_bad_transition_rejects_only_that_line() {
    assert!(parse_event_line("panel:3:1,broken").is_err());
    // a following call with a good line still succeeds
    assert!(parse_event_line("panel:3:1").is_ok());
}
