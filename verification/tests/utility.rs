use panel_input::bitevents::BitEvent;
use panel_input::utility::Blinker;

fn template() -> BitEvent {
    BitEvent { dev_name: "panel".to_string(), bit: 5, value: 0 }
}

#[test]
fn blinker_counts_down_and_stops() {
    let mut blinker = Blinker::new(template(), 4);
    let mut emitted = Vec::new();
    while let Some(event) = blinker.tick() {
        emitted.push(event.value);
    }
    assert_eq!(emitted, vec![0, 1, 0, 1]);
    // the terminal state stays terminal
    assert!(blinker.tick().is_none());
    assert_eq!(blinker.count, 0);
}

#[test]
fn blinker_last_emitted_value_is_on() {
    for count in 1..=6u8 {
        let mut blinker = Blinker::new(template(), count);
        let mut last = None;
        let mut ticks: usize = 0;
        while let Some(event) = blinker.tick() {
            last = Some(event.value);
            ticks += 1;
        }
        assert_eq!(ticks, count as usize);
        assert_eq!(last, Some(1));
    }
}

#[test]
fn blinker_keeps_event_template() {
    let mut blinker = Blinker::new(template(), 2);
    let event = blinker.tick().unwrap();
    assert_eq!(event.dev_name, "panel");
    assert_eq!(event.bit, 5);
}

#[test]
fn blinker_zero_count_never_emits() {
    let mut blinker = Blinker::new(template(), 0);
    assert!(blinker.tick().is_none());
}
