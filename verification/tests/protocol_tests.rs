use pixtrack::commands::{parse_command, parse_u32, Command, SettingKey, SettingStep};
use pixtrack::dispatch::{Action, Dispatcher};

fn toks(words: &[&str]) -> Vec<String> {
    words.iter().map(|w| w.to_string()).collect()
}

#[test]
fn parse_u32_reads_plain_numerals() {
    assert_eq!(parse_u32("0"), Some(0));
    assert_eq!(parse_u32("42"), Some(42));
    assert_eq!(parse_u32("4294967295"), Some(u32::MAX));
}

#[test]
fn parse_u32_rejects_everything_else() {
    assert_eq!(parse_u32(""), None);
    assert_eq!(parse_u32("12a"), None);
    assert_eq!(parse_u32("-3"), None);
    assert_eq!(parse_u32("4294967296"), None);
    assert_eq!(parse_u32("99999999999999999999"), None);
}

#[test]
fn add_with_settings() {
    let c = parse_command(&toks(&["add", "3", "frame-time", "2.5"]));
    match c {
        Command::Add { index, settings } => {
            assert_eq!(index, 3);
            assert_eq!(settings.len(), 1);
            match &settings[0] {
                SettingStep::Apply { key, value } => {
                    assert_eq!(*key, SettingKey::FrameTime);
                    assert_eq!(value.as_deref(), Some("2.5"));
                }
                _ => panic!("expected an applied setting"),
            }
        }
        _ => panic!("expected an add command"),
    }
}

#[test]
fn set_with_unknown_token_and_trailing_key() {
    let c = parse_command(&toks(&["set", "2", "bogus", "high-voltage"]));
    match c {
        Command::Configure { index, settings } => {
            assert_eq!(index, 2);
            assert_eq!(settings.len(), 2);
            assert!(matches!(&settings[0], SettingStep::Invalid { token } if token == "bogus"));
            assert!(matches!(
                &settings[1],
                SettingStep::Apply {
                    key: SettingKey::HighVoltage,
                    value: None
                }
            ));
        }
        _ => panic!("expected a set command"),
    }
}

#[test]
fn leading_unknown_tokens_are_skipped() {
    let c = parse_command(&toks(&["noise", "get", "7"]));
    assert!(matches!(c, Command::Get { index: 7 }));
}

#[test]
fn missing_or_bad_index_falls_back_to_zero() {
    assert!(matches!(
        parse_command(&toks(&["get"])),
        Command::Get { index: 0 }
    ));
    assert!(matches!(
        parse_command(&toks(&["get", "xyz"])),
        Command::Get { index: 0 }
    ));
}

#[test]
fn line_without_command_is_ignored() {
    assert!(matches!(parse_command(&toks(&[])), Command::Ignored));
    assert!(matches!(
        parse_command(&toks(&["hello", "world"])),
        Command::Ignored
    ));
}

#[test]
fn every_setting_key_is_recognized() {
    let c = parse_command(&toks(&[
        "set",
        "1",
        "frame-time",
        "2.0",
        "threshold-pix",
        "0.2",
        "threshold-min",
        "0",
        "threshold-max",
        "10",
        "high-voltage",
        "50",
    ]));
    match c {
        Command::Configure { settings, .. } => {
            let keys: Vec<SettingKey> = settings
                .iter()
                .map(|s| match s {
                    SettingStep::Apply { key, .. } => *key,
                    SettingStep::Invalid { token } => panic!("unexpected invalid {token}"),
                })
                .collect();
            assert_eq!(
                keys,
                vec![
                    SettingKey::FrameTime,
                    SettingKey::ThresholdPix,
                    SettingKey::ThresholdMin,
                    SettingKey::ThresholdMax,
                    SettingKey::HighVoltage,
                ]
            );
        }
        _ => panic!("expected a set command"),
    }
}

#[test]
fn add_is_idempotent_for_workers() {
    let mut d = Dispatcher::new();
    let a1 = d.dispatch(parse_command(&toks(&["add", "1"])));
    assert!(matches!(a1, Action::CreateSession { index: 1, .. }));
    d.session_created(1);
    // A second add of an active device must not create a second session
    // (and so not spawn a second capture worker).
    let a2 = d.dispatch(parse_command(&toks(&["add", "1"])));
    assert!(matches!(a2, Action::ConfigureSession { index: 1, .. }));
    let a3 = d.dispatch(parse_command(&toks(&["add", "2"])));
    assert!(matches!(a3, Action::CreateSession { index: 2, .. }));
}

#[test]
fn failed_construction_leaves_the_device_addable() {
    let mut d = Dispatcher::new();
    // The runtime fails to open the device, so it never confirms the
    // creation: the index stays unregistered.
    let a1 = d.dispatch(parse_command(&toks(&["add", "1"])));
    assert!(matches!(a1, Action::CreateSession { index: 1, .. }));
    // A later add tries construction again instead of reconfiguring a
    // session that does not exist.
    let a2 = d.dispatch(parse_command(&toks(&["add", "1"])));
    assert!(matches!(a2, Action::CreateSession { index: 1, .. }));
    // And set/get still report the missing session.
    let a3 = d.dispatch(parse_command(&toks(&["get", "1"])));
    assert!(matches!(a3, Action::ReportUnknownDevice { index: 1 }));
    // Once a construction succeeds, the session is active.
    d.session_created(1);
    let a4 = d.dispatch(parse_command(&toks(&["get", "1"])));
    assert!(matches!(a4, Action::EmitFrames { index: 1 }));
    // Confirming again changes nothing.
    d.session_created(1);
    assert_eq!(d.registered.len(), 1);
}

#[test]
fn set_and_get_need_a_session() {
    let mut d = Dispatcher::new();
    let a = d.dispatch(parse_command(&toks(&["set", "5", "frame-time", "1"])));
    assert!(matches!(a, Action::ReportUnknownDevice { index: 5 }));
    let a = d.dispatch(parse_command(&toks(&["get", "5"])));
    assert!(matches!(a, Action::ReportUnknownDevice { index: 5 }));

    d.dispatch(parse_command(&toks(&["add", "5"])));
    d.session_created(5);
    let a = d.dispatch(parse_command(&toks(&["get", "5"])));
    assert!(matches!(a, Action::EmitFrames { index: 5 }));
    let a = d.dispatch(parse_command(&toks(&["set", "5"])));
    assert!(matches!(a, Action::ConfigureSession { index: 5, .. }));
}

#[test]
fn ignored_line_does_nothing() {
    let d = Dispatcher::new();
    let a = d.dispatch(Command::Ignored);
    assert!(matches!(a, Action::NoAction));
    assert_eq!(d.registered.len(), 0);
}
