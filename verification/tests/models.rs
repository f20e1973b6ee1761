use sound_pad::models::{AppConfig, Bank, Pad, RetriggerMode, CURRENT_VERSION};

fn pad_with(id: &str, order: u32) -> Pad {
    Pad { id: id.to_string(), name: id.to_string(), order, ..Pad::default() }
}

fn bank_with(pads: Vec<Pad>) -> Bank {
    Bank { id: "b1".to_string(), name: "Banco 1".to_string(), order: 0, pads }
}

#[test]
fn replace_pad_updates_matching_pad_and_returns_true() {
    let mut bank = bank_with(vec![pad_with("a", 0), pad_with("b", 1)]);
    let mut updated = pad_with("a", 0);
    updated.name = "Nuevo nombre".to_string();
    updated.trim_db_bits = 3.0f32.to_bits();

    let found = bank.replace_pad(updated.clone());

    assert!(found);
    assert_eq!(bank.pads[0].name, "Nuevo nombre");
    assert_eq!(f32::from_bits(bank.pads[0].trim_db_bits), 3.0);
    assert_eq!(bank.pads[1].name, "b");
}

#[test]
fn replace_pad_returns_false_when_id_not_found() {
    let mut bank = bank_with(vec![pad_with("a", 0)]);
    let unknown = pad_with("z", 0);

    let found = bank.replace_pad(unknown);

    assert!(!found);
    assert_eq!(bank.pads.len(), 1);
}

#[test]
fn remove_pad_removes_matching_pad_and_returns_it() {
    let mut bank = bank_with(vec![pad_with("a", 0), pad_with("b", 1)]);

    let removed = bank.remove_pad("a");

    assert_eq!(removed.map(|p| p.id), Some("a".to_string()));
    assert_eq!(bank.pads.len(), 1);
    assert_eq!(bank.pads[0].id, "b");
}

#[test]
fn remove_pad_returns_none_when_id_not_found() {
    let mut bank = bank_with(vec![pad_with("a", 0)]);

    let removed = bank.remove_pad("z");

    assert_eq!(removed, None);
    assert_eq!(bank.pads.len(), 1);
}

#[test]
fn reorder_pads_applies_new_order_and_reindexes() {
    let mut bank = bank_with(vec![pad_with("a", 0), pad_with("b", 1), pad_with("c", 2)]);

    bank.reorder_pads(&["c".to_string(), "a".to_string(), "b".to_string()]);

    let ids: Vec<&str> = bank.pads.iter().map(|p| p.id.as_str()).collect();
    assert_eq!(ids, vec!["c", "a", "b"]);
    assert_eq!(bank.pads[0].order, 0);
    assert_eq!(bank.pads[1].order, 1);
    assert_eq!(bank.pads[2].order, 2);
}

#[test]
fn reorder_pads_appends_ids_missing_from_the_new_order() {
    let mut bank = bank_with(vec![pad_with("a", 0), pad_with("b", 1), pad_with("c", 2)]);

    bank.reorder_pads(&["c".to_string()]);

    let ids: Vec<&str> = bank.pads.iter().map(|p| p.id.as_str()).collect();
    assert_eq!(ids, vec!["c", "a", "b"]);
}

#[test]
fn reorder_pads_skips_unknown_and_repeated_ids() {
    let mut bank = bank_with(vec![pad_with("a", 5), pad_with("b", 7)]);

    bank.reorder_pads(&["zz".to_string(), "b".to_string(), "b".to_string()]);

    let ids: Vec<&str> = bank.pads.iter().map(|p| p.id.as_str()).collect();
    assert_eq!(ids, vec!["b", "a"]);
    assert_eq!(bank.pads[1].order, 1);
}

fn pad_with_hotkey(id: &str, hotkey: &str) -> Pad {
    Pad { id: id.to_string(), name: id.to_string(), hotkey: Some(hotkey.to_string()), ..Pad::default() }
}

#[test]
fn validate_hotkey_rejects_a_key_already_used_by_another_pad() {
    let bank = bank_with(vec![pad_with_hotkey("a", "K")]);
    let candidate = pad_with_hotkey("b", "K");

    let result = bank.validate_hotkey(&candidate);

    assert!(result.is_err());
}

#[test]
fn validate_hotkey_names_the_pad_that_has_the_key() {
    let bank = bank_with(vec![pad_with_hotkey("a", "K")]);
    let candidate = pad_with_hotkey("b", "K");

    assert_eq!(bank.validate_hotkey(&candidate), Err("La tecla \"K\" ya está asignada a \"a\"".to_string()));
}

#[test]
fn validate_hotkey_allows_a_pad_to_keep_its_own_key() {
    let bank = bank_with(vec![pad_with_hotkey("a", "K")]);
    let same_pad_edited = pad_with_hotkey("a", "K");

    assert!(bank.validate_hotkey(&same_pad_edited).is_ok());
}

#[test]
fn validate_hotkey_allows_an_unused_key() {
    let bank = bank_with(vec![pad_with_hotkey("a", "K")]);
    let candidate = pad_with_hotkey("b", "Z");

    assert!(bank.validate_hotkey(&candidate).is_ok());
}

#[test]
fn validate_hotkey_allows_no_hotkey_at_all() {
    let bank = bank_with(vec![pad_with_hotkey("a", "K")]);
    let candidate = pad_with("b", 1);

    assert!(bank.validate_hotkey(&candidate).is_ok());
}

fn pad_with_note(id: &str, note: u8) -> Pad {
    Pad { id: id.to_string(), name: id.to_string(), midi_note: Some(note), ..Pad::default() }
}

#[test]
fn validate_midi_note_rejects_a_note_already_used_by_another_pad() {
    let bank = bank_with(vec![pad_with_note("a", 60)]);
    let candidate = pad_with_note("b", 60);

    assert!(bank.validate_midi_note(&candidate).is_err());
}

#[test]
fn validate_midi_note_names_the_note_and_the_pad() {
    let bank = bank_with(vec![pad_with_note("a", 60), pad_with_note("c", 127), pad_with_note("d", 7)]);

    assert_eq!(
        bank.validate_midi_note(&pad_with_note("b", 60)),
        Err("La nota MIDI 60 ya está asignada a \"a\"".to_string())
    );
    assert_eq!(
        bank.validate_midi_note(&pad_with_note("b", 127)),
        Err("La nota MIDI 127 ya está asignada a \"c\"".to_string())
    );
    assert_eq!(
        bank.validate_midi_note(&pad_with_note("b", 7)),
        Err("La nota MIDI 7 ya está asignada a \"d\"".to_string())
    );
}

#[test]
fn validate_midi_note_allows_a_pad_to_keep_its_own_note() {
    let bank = bank_with(vec![pad_with_note("a", 60)]);
    let same_pad_edited = pad_with_note("a", 60);

    assert!(bank.validate_midi_note(&same_pad_edited).is_ok());
}

#[test]
fn validate_midi_note_allows_no_note_at_all() {
    let bank = bank_with(vec![pad_with_note("a", 60)]);
    let candidate = pad_with("b", 1);

    assert!(bank.validate_midi_note(&candidate).is_ok());
}

fn named_bank(id: &str, order: u32) -> Bank {
    Bank { id: id.to_string(), name: id.to_string(), order, pads: Vec::new() }
}

#[test]
fn reorder_banks_applies_new_order_and_reindexes() {
    let mut config =
        AppConfig { banks: vec![named_bank("a", 0), named_bank("b", 1), named_bank("c", 2)], ..AppConfig::default() };

    config.reorder_banks(&["c".to_string(), "a".to_string(), "b".to_string()]);

    let ids: Vec<&str> = config.banks.iter().map(|b| b.id.as_str()).collect();
    assert_eq!(ids, vec!["c", "a", "b"]);
    assert_eq!(config.banks[0].order, 0);
    assert_eq!(config.banks[2].order, 2);
}

#[test]
fn reorder_banks_appends_ids_missing_from_the_new_order() {
    let mut config = AppConfig { banks: vec![named_bank("a", 0), named_bank("b", 1)], ..AppConfig::default() };

    config.reorder_banks(&["b".to_string()]);

    let ids: Vec<&str> = config.banks.iter().map(|b| b.id.as_str()).collect();
    assert_eq!(ids, vec!["b", "a"]);
}

#[test]
fn pad_default_matches_documented_values() {
    let pad = Pad::default();

    assert_eq!(f32::from_bits(pad.trim_db_bits), 0.0);
    assert!(!pad.loop_enabled);
    assert_eq!(pad.retrigger_mode, RetriggerMode::Stop);
    assert_eq!(pad.fade_in_ms, 20);
    assert_eq!(pad.fade_out_ms, 20);
    assert_eq!(pad.hotkey, None);
    assert_eq!(pad.midi_note, None);
    assert!(!pad.gain_capped);
}

#[test]
fn pad_default_gets_a_fresh_hyphenated_id() {
    let a = Pad::default();
    let b = Pad::default();

    assert_eq!(a.id.len(), 36);
    assert_eq!(&a.id[8..9], "-");
    assert_ne!(a.id, b.id);
    assert_eq!(a.color, "#E8734A");
}

#[test]
fn app_config_default_matches_documented_values() {
    let config = AppConfig::default();

    assert_eq!(config.version, CURRENT_VERSION);
    assert_eq!(config.output_buffer_frames, 256);
    assert_eq!(f32::from_bits(config.target_lufs_bits), -16.0);
    assert!(config.global_hotkeys_enabled);
    assert_eq!(config.global_modifier, "Ctrl+Alt");
    assert!(config.banks.is_empty());
    assert_eq!(config.language, "en");
}

#[test]
fn default_language_is_english() {
    assert_eq!(sound_pad::models::default_language(), "en");
}
