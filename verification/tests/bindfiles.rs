use panel_input::bindfiles::{
    create_handler, load_handlers, parse_sound_filename, parse_volume, split_sound_line,
    MAX_VOLUME,
};
use panel_input::input::ErrorKind;
use panel_input::simulation::SoundFile;

#[test]
fn test_empty_filename() {
    assert!(parse_sound_filename("").unwrap().is_none());
}

#[test]
fn test_filename_only() {
    let spec = parse_sound_filename("testing").unwrap();
    assert!(spec == Some(SoundFile { path: "testing".to_string(), volume: MAX_VOLUME }));
}

#[test]
fn test_filename_with_volume() {
    let spec = parse_sound_filename("testing:0.5").unwrap();
    assert!(spec == Some(SoundFile { path: "testing".to_string(), volume: 64 }));
}

#[test]
fn test_filename_too_many_components() {
    assert!(parse_sound_filename("testing:0.5:oops").is_err());
}

#[test]
fn test_filename_bad_volume() {
    assert!(parse_sound_filename("testing:goes to 11").is_err());
}

#[test]
fn filename_with_out_of_range_volume_is_rejected() {
    assert!(parse_sound_filename("testing:2.5").is_err());
    assert!(parse_sound_filename("testing:0").is_err());
}

#[test]
fn volume_quarter() {
    assert_eq!(parse_volume("0.25").unwrap(), 32);
}

#[test]
fn volume_full() {
    assert_eq!(parse_volume("1").unwrap(), 128);
    assert_eq!(parse_volume("1.0").unwrap(), 128);
}

#[test]
fn volume_out_of_range() {
    // the volume is a fraction in (0, 1]
    assert!(parse_volume("0").is_err());
    assert!(parse_volume("0.0").is_err());
    assert!(parse_volume("1.5").is_err());
    assert!(parse_volume("2.").is_err());
    assert!(parse_volume("2.5").is_err());
    assert!(parse_volume("99999999999999999999").is_err());
    let err = parse_volume("0").unwrap_err();
    assert_eq!(err.kind(), ErrorKind::Parse);
}

#[test]
fn volume_rounds_down() {
    // 0.1 * 128 = 12.8
    assert_eq!(parse_volume("0.1").unwrap(), 12);
    // 0.0078125 is exactly 1/128
    assert_eq!(parse_volume("0.0078125").unwrap(), 1);
    // just under 1/128
    assert_eq!(parse_volume("0.0078124999").unwrap(), 0);
}

#[test]
fn volume_long_fraction_matches_truncated() {
    // digits beyond the ninth cannot push the result over a 1/128 step
    assert_eq!(parse_volume("0.500000000999999").unwrap(), 64);
}

#[test]
fn volume_dotted_forms() {
    assert_eq!(parse_volume(".5").unwrap(), 64);
    assert_eq!(parse_volume("1.").unwrap(), 128);
}

#[test]
fn volume_rejects_garbage() {
    assert!(parse_volume("").is_err());
    assert!(parse_volume(".").is_err());
    assert!(parse_volume("1..2").is_err());
    assert!(parse_volume("1.2.3").is_err());
    assert!(parse_volume("-1").is_err());
    assert!(parse_volume("1e3").is_err());
    let err = parse_volume("x").unwrap_err();
    assert_eq!(err.kind(), ErrorKind::Parse);
}

#[test]
fn split_line_five_fields() {
    let parts = split_sound_line("panel, 3, engines, on.wav, off.wav").unwrap();
    assert_eq!(parts, vec!["panel", " 3", " engines", " on.wav", " off.wav"]);
}

#[test]
fn split_line_wrong_count() {
    assert!(split_sound_line("panel, 3, engines, on.wav").is_err());
    assert!(split_sound_line("panel, 3, engines, on.wav, off.wav, extra").is_err());
}

#[test]
fn split_line_blank_name() {
    let err = split_sound_line("panel, 3,   , on.wav, off.wav").unwrap_err();
    assert_eq!(err.kind(), ErrorKind::Parse);
}

#[test]
fn create_handler_needs_a_sound() {
    assert!(create_handler("quiet".to_string(), None, None).is_none());
    let on = Some(SoundFile { path: "on.wav".to_string(), volume: 128 });
    let handler = create_handler("loud".to_string(), on, None).unwrap();
    assert_eq!(handler.name, "loud");
    assert!(handler.off_sound.is_none());
    assert_eq!(handler.on_sound.unwrap().path, "on.wav");
}

#[test]
fn load_handlers_builds_registry() {
    let lines = vec![
        "panel, 3, engines, on.wav:0.5, off.wav".to_string(),
        "default, 0, fallback, beep.wav, ".to_string(),
    ];
    let map = load_handlers(&lines).unwrap();
    let engines = map.get(&"panel".to_string(), 3).unwrap();
    assert_eq!(engines.name, "engines");
    assert_eq!(engines.on_sound.as_ref().unwrap().volume, 64);
    assert_eq!(engines.off_sound.as_ref().unwrap().path, "off.wav");
    let fallback = map.get(&"default".to_string(), 0).unwrap();
    assert_eq!(fallback.name, "fallback");
    assert!(fallback.off_sound.is_none());
}

#[test]
fn load_handlers_last_write_wins() {
    let lines = vec![
        "panel, 3, first, a.wav, ".to_string(),
        "panel, 3, second, b.wav, ".to_string(),
    ];
    let map = load_handlers(&lines).unwrap();
    let handler = map.get(&"panel".to_string(), 3).unwrap();
    assert_eq!(handler.name, "second");
}

#[test]
fn load_handlers_soundless_binding_registers_nothing() {
    let lines = vec!["panel, 3, quiet, , ".to_string()];
    let map = load_handlers(&lines).unwrap();
    assert!(map.get(&"panel".to_string(), 3).is_none());
}

#[test]
fn load_handlers_rejects_malformed_line() {
    let lines = vec!["panel, x, engines, on.wav, off.wav".to_string()];
    let err = load_handlers(&lines).unwrap_err();
    assert_eq!(err.kind(), ErrorKind::Parse);
}
