use panel_input::bitevents::{bit_compare, bit_value, BitEvent};

#[test]
fn confirm_basic_event() {
    let prev: u16 = 0b1111000000100100;
    let cur: u16 = 0b0111000110100000;

    let events = bit_compare("test", prev, cur);

    assert!(
        events
            == vec![
                BitEvent { dev_name: String::from("test"), bit: 2, value: 0 },
                BitEvent { dev_name: String::from("test"), bit: 7, value: 1 },
                BitEvent { dev_name: String::from("test"), bit: 8, value: 1 },
                BitEvent { dev_name: String::from("test"), bit: 15, value: 0 },
            ]
    );
}

#[test]
fn diff_of_equal_words_is_empty() {
    assert!(bit_compare("test", 0x0000, 0x0000).is_empty());
    assert!(bit_compare("test", 0xffff, 0xffff).is_empty());
    assert!(bit_compare("test", 0xa5a5, 0xa5a5).is_empty());
}

#[test]
fn diff_single_bit_each_direction() {
    let rising = bit_compare("test", 0x0000, 0x0001);
    assert_eq!(rising.len(), 1);
    assert_eq!(rising[0].bit, 0);
    assert_eq!(rising[0].value, 1);

    let falling = bit_compare("test", 0x8000, 0x0000);
    assert_eq!(falling.len(), 1);
    assert_eq!(falling[0].bit, 15);
    assert_eq!(falling[0].value, 0);
}

#[test]
fn diff_enumerates_ascending_from_lsb() {
    // the enumeration order is a documented constant of the crate
    assert!(panel_input::bitevents::ENUMERATION_LSB_FIRST);
    let events = bit_compare("test", 0x0000, 0xffff);
    assert_eq!(events.len(), 16);
    for (i, event) in events.iter().enumerate() {
        assert_eq!(event.bit as usize, i);
        assert_eq!(event.value, 1);
    }
}

#[test]
fn bit_value_extracts_bits() {
    assert_eq!(bit_value(0b0000000000000100, 2), 1);
    assert_eq!(bit_value(0b0000000000000100, 3), 0);
    assert_eq!(bit_value(0x8000, 15), 1);
}

#[test]
fn event_display_form() {
    let event = BitEvent { dev_name: String::from("panel"), bit: 12, value: 1 };
    assert_eq!(event.display_string(), "{ dev: panel, bit 12: 1 }");
}
