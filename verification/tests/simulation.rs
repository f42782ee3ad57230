use panel_input::bitevents::BitEvent;
use panel_input::simulation::{
    default_handler_event, EventHandler, Firing, HandlerMap, Simulator, SoundFile,
};

fn handler(name: &str, on: Option<(&str, i32)>, off: Option<(&str, i32)>) -> EventHandler {
    EventHandler::new(
        name.to_string(),
        on.map(|(p, v)| SoundFile { path: p.to_string(), volume: v }),
        off.map(|(p, v)| SoundFile { path: p.to_string(), volume: v }),
    )
}

fn ev(dev: &str, bit: u8, value: u8) -> BitEvent {
    BitEvent { dev_name: dev.to_string(), bit, value }
}

fn registry() -> HandlerMap {
    let mut map = HandlerMap::new();
    map.insert("panel".to_string(), 3, handler("engines", Some(("on.wav", 128)), Some(("off.wav", 64))));
    let (default_name, default_bit) = default_handler_event();
    map.insert(default_name, default_bit, handler("fallback", Some(("beep.wav", 128)), None));
    map
}

#[test]
fn exact_key_fires_exact_handler() {
    let sim = Simulator::new(registry());
    let firings: Vec<Firing> = sim.process(&[ev("panel", 3, 1)]);
    assert_eq!(firings.len(), 1);
    assert_eq!(firings[0].handler_name, "engines");
    assert_eq!(firings[0].value, 1);
    assert_eq!(firings[0].sound.as_ref().unwrap().path, "on.wav");
}

#[test]
fn off_transition_picks_off_sound() {
    let sim = Simulator::new(registry());
    let firings = sim.process(&[ev("panel", 3, 0)]);
    assert_eq!(firings.len(), 1);
    assert_eq!(firings[0].value, 0);
    let sound = firings[0].sound.as_ref().unwrap();
    assert_eq!(sound.path, "off.wav");
    assert_eq!(sound.volume, 64);
}

#[test]
fn missing_key_falls_back_to_default() {
    let sim = Simulator::new(registry());
    let firings = sim.process(&[ev("panel", 9, 1)]);
    assert_eq!(firings.len(), 1);
    assert_eq!(firings[0].handler_name, "fallback");
    assert_eq!(firings[0].sound.as_ref().unwrap().path, "beep.wav");
}

#[test]
fn no_key_no_default_fires_nothing() {
    let mut map = HandlerMap::new();
    map.insert("panel".to_string(), 3, handler("engines", Some(("on.wav", 128)), None));
    let sim = Simulator::new(map);
    let firings = sim.process(&[ev("elsewhere", 1, 1)]);
    assert!(firings.is_empty());
}

#[test]
fn batch_order_is_kept() {
    let mut map = HandlerMap::new();
    map.insert("a".to_string(), 0, handler("first", Some(("a.wav", 1)), None));
    map.insert("b".to_string(), 1, handler("second", Some(("b.wav", 2)), None));
    let sim = Simulator::new(map);
    let firings = sim.process(&[ev("a", 0, 1), ev("unmapped", 5, 1), ev("b", 1, 1)]);
    let names: Vec<&str> = firings.iter().map(|f| f.handler_name.as_str()).collect();
    assert_eq!(names, vec!["first", "second"]);
}

#[test]
fn registry_lookup_and_redefinition() {
    let mut map = HandlerMap::new();
    assert!(!map.contains_key(&"panel".to_string(), 3));
    let replaced = map.insert("panel".to_string(), 3, handler("old", Some(("a.wav", 1)), None));
    assert!(!replaced);
    let replaced = map.insert("panel".to_string(), 3, handler("new", Some(("b.wav", 2)), None));
    assert!(replaced);
    assert_eq!(map.get(&"panel".to_string(), 3).unwrap().name, "new");
    assert!(map.get(&"panel".to_string(), 4).is_none());
}

#[test]
fn handler_sound_for_value() {
    let h = handler("engines", Some(("on.wav", 128)), None);
    assert_eq!(h.sound_for(1).unwrap().path, "on.wav");
    assert!(h.sound_for(0).is_none());
    assert!(h.sound_for(7).is_none());
}

#[test]
fn default_key_is_reserved_name() {
    let (name, bit) = default_handler_event();
    assert_eq!(name, "default");
    assert_eq!(bit, 0);
}
