use panel_input::bitevents::{bit_compare, BitEvent};
use panel_input::input::ErrorKind;
use panel_input::mcp23017::{
    compute_new_values, setup_writes, word_from_bytes, DeviceConfig, DeviceState, PanelState,
    GPIO, GPPU, IODIR, IPOL,
};

fn ev(bit: u8, value: u8) -> BitEvent {
    BitEvent { dev_name: String::from("test"), bit, value }
}

#[test]
fn mcp23017_test_compute_set_values() {
    let new_value = compute_new_values(0, &[ev(1, 1), ev(3, 1), ev(5, 1)]);

    assert!(new_value == 0b0000000000101010);
}

#[test]
fn mcp23017_test_compute_unset_values() {
    let new_value = compute_new_values(0xffff, &[ev(1, 0), ev(3, 0), ev(5, 0)]);

    assert!(new_value == 0b1111111111010101);
}

#[test]
fn mcp23017_test_compute_mixed_values() {
    let new_value = compute_new_values(0x00ff, &[ev(1, 0), ev(3, 1), ev(9, 0), ev(11, 1)]);

    println!("{:016b} => {:016b}", 0x00ff, new_value);
    assert!(new_value == 0b0000100011111101);
}

#[test]
fn mod_test_compute_set_values() {
    let new_value = compute_new_values(0, &[ev(1, 1), ev(3, 1), ev(5, 1)]);

    assert!(new_value == 0b0000000000101010);
}

#[test]
fn mod_test_compute_unset_values() {
    let new_value = compute_new_values(0xffff, &[ev(1, 0), ev(3, 0), ev(5, 0)]);

    assert!(new_value == 0b1111111111010101);
}

#[test]
fn mod_test_compute_mixed_values() {
    let new_value = compute_new_values(0x00ff, &[ev(1, 0), ev(3, 1), ev(9, 0), ev(11, 1)]);

    println!("{:016b} => {:016b}", 0x00ff, new_value);
    assert!(new_value == 0b0000100011111101);
}

#[test]
fn compute_last_event_wins() {
    let new_value = compute_new_values(0, &[ev(4, 1), ev(4, 0)]);
    assert_eq!(new_value, 0);
    let new_value = compute_new_values(0, &[ev(4, 0), ev(4, 1)]);
    assert_eq!(new_value, 0b10000);
}

#[test]
fn apply_then_diff_reproduces_requests() {
    let base: u16 = 0x00ff;
    let requests = [ev(1, 0), ev(3, 1), ev(9, 0), ev(11, 1)];
    let output = compute_new_values(base, &requests);
    let events = bit_compare("test", base, output);
    // bit 3 was already set in the base, so only the real transitions show
    assert_eq!(events, vec![ev(1, 0), ev(11, 1)]);
}

#[test]
fn setup_writes_register_plan() {
    let config = DeviceConfig {
        dev_path: String::from("/dev/i2c-1"),
        dev_name: String::from("panel"),
        address: 0x20,
        polarity_mask: 0xfc03,
        direction_mask: 0xffff,
    };
    let writes = setup_writes(&config);
    assert_eq!(writes, vec![(IODIR, 0xffff), (GPPU, 0xffff), (IPOL, !0xfc03u16)]);
    assert_eq!((IODIR, IPOL, GPPU, GPIO), (0x00, 0x02, 0x0c, 0x12));
}

#[test]
fn word_assembly_low_byte_first() {
    assert_eq!(word_from_bytes(0x34, 0x12), 0x1234);
    assert_eq!(word_from_bytes(0xff, 0x00), 0x00ff);
    assert_eq!(word_from_bytes(0x00, 0x80), 0x8000);
}

#[test]
fn device_poll_updates_baseline() {
    let mut device = DeviceState::new(String::from("panel"), 0x0001);
    let events = device.poll_input(0x0003);
    assert_eq!(events, vec![BitEvent { dev_name: String::from("panel"), bit: 1, value: 1 }]);
    assert_eq!(device.previous, 0x0003);
    // the next poll diffs against the new baseline
    assert!(device.poll_input(0x0003).is_empty());
}

#[test]
fn panel_cycle_orders_devices_then_bits() {
    let devices = vec![
        DeviceState::new(String::from("a"), 0x0000),
        DeviceState::new(String::from("b"), 0x0000),
    ];
    let mut panel = PanelState::new(devices);
    let events = panel.process_snapshots(&[0x0005, 0x0002]);
    assert_eq!(
        events,
        vec![
            BitEvent { dev_name: String::from("a"), bit: 0, value: 1 },
            BitEvent { dev_name: String::from("a"), bit: 2, value: 1 },
            BitEvent { dev_name: String::from("b"), bit: 1, value: 1 },
        ]
    );
    assert_eq!(panel.device_count(), 2);
    assert_eq!(panel.device_name(0), "a");
    assert_eq!(panel.device_name(1), "b");
    assert_eq!(panel.baseline(0), 0x0005);
    assert_eq!(panel.baseline(1), 0x0002);
    // a cycle with no changes yields no events
    assert!(panel.process_snapshots(&[0x0005, 0x0002]).is_empty());
}

#[test]
fn output_request_out_of_range_device_fails() {
    let panel = PanelState::new(vec![DeviceState::new(String::from("a"), 0)]);
    let err = panel.check_output_request(1, &[ev(0, 1)]).unwrap_err();
    assert_eq!(err.kind(), ErrorKind::InvalidIndex);
}

#[test]
fn output_request_out_of_range_bit_fails() {
    let panel = PanelState::new(vec![DeviceState::new(String::from("a"), 0)]);
    let err = panel.check_output_request(0, &[ev(16, 1)]).unwrap_err();
    assert_eq!(err.kind(), ErrorKind::InvalidIndex);
}

#[test]
fn output_request_in_range_passes() {
    let panel = PanelState::new(vec![DeviceState::new(String::from("a"), 0)]);
    assert!(panel.check_output_request(0, &[ev(0, 1), ev(15, 0)]).is_ok());
}
