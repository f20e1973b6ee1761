use sound_pad::midi::{find_pad_by_note, parse_note_on, route_note, NoteRoute};
use sound_pad::models::{AppConfig, Bank, Pad};

#[test]
fn parse_note_on_accepts_a_real_note_on_with_velocity() {
    assert_eq!(parse_note_on(&[0x90, 60, 100]), Some(60));
}

#[test]
fn parse_note_on_is_omni_any_channel_counts() {
    assert_eq!(parse_note_on(&[0x9F, 42, 1]), Some(42));
}

#[test]
fn parse_note_on_rejects_velocity_zero_disguised_note_off() {
    assert_eq!(parse_note_on(&[0x90, 60, 0]), None);
}

#[test]
fn parse_note_on_rejects_real_note_off() {
    assert_eq!(parse_note_on(&[0x80, 60, 100]), None);
}

#[test]
fn parse_note_on_rejects_malformed_messages() {
    assert_eq!(parse_note_on(&[0x90, 60]), None);
    assert_eq!(parse_note_on(&[]), None);
}

fn pad_with_note(id: &str, note: u8) -> Pad {
    Pad { id: id.to_string(), name: id.to_string(), midi_note: Some(note), ..Pad::default() }
}

fn config_with_bank(pads: Vec<Pad>) -> AppConfig {
    AppConfig {
        active_bank_id: "b1".to_string(),
        banks: vec![Bank { id: "b1".to_string(), name: "Banco 1".to_string(), order: 0, pads }],
        ..AppConfig::default()
    }
}

#[test]
fn find_pad_by_note_matches_within_the_active_bank() {
    let config = config_with_bank(vec![pad_with_note("a", 60)]);

    assert_eq!(find_pad_by_note(&config, 60), Some(("b1".to_string(), "a".to_string())));
}

#[test]
fn find_pad_by_note_returns_none_when_no_pad_matches() {
    let config = config_with_bank(vec![pad_with_note("a", 60)]);

    assert_eq!(find_pad_by_note(&config, 61), None);
}

#[test]
fn find_pad_by_note_ignores_pads_outside_the_active_bank() {
    let mut config = config_with_bank(vec![pad_with_note("a", 60)]);
    config.banks.push(Bank {
        id: "b2".to_string(),
        name: "Banco 2".to_string(),
        order: 1,
        pads: vec![pad_with_note("b", 61)],
    });

    assert_eq!(find_pad_by_note(&config, 61), None);
}

#[test]
fn route_note_captures_while_learning_and_triggers_otherwise() {
    let config = config_with_bank(vec![pad_with_note("a", 60)]);

    assert_eq!(route_note(true, &config, 60), NoteRoute::Learned(60));
    assert_eq!(
        route_note(false, &config, 60),
        NoteRoute::Trigger { bank_id: "b1".to_string(), pad_id: "a".to_string() }
    );
    assert_eq!(route_note(false, &config, 62), NoteRoute::Unbound);
}
