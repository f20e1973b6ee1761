use sound_pad::hotkeys::{code_for_key, modifiers_for, plan_shortcuts, split_text, ModifierSet};
use sound_pad::models::{AppConfig, Bank, Pad};

fn mods(ctrl: bool, alt: bool, shift: bool, super_key: bool) -> ModifierSet {
    ModifierSet { ctrl, alt, shift, super_key }
}

#[test]
fn code_for_key_maps_letters() {
    assert_eq!(code_for_key("A"), Some('A'));
    assert_eq!(code_for_key("a"), Some('A'));
    assert_eq!(code_for_key("Z"), Some('Z'));
}

#[test]
fn code_for_key_maps_digits() {
    assert_eq!(code_for_key("0"), Some('0'));
    assert_eq!(code_for_key("9"), Some('9'));
}

#[test]
fn code_for_key_rejects_anything_else() {
    assert_eq!(code_for_key(""), None);
    assert_eq!(code_for_key("AB"), None);
    assert_eq!(code_for_key("!"), None);
    assert_eq!(code_for_key("ñ"), None);
}

#[test]
fn modifiers_for_parses_ctrl_alt() {
    assert_eq!(modifiers_for("Ctrl+Alt"), mods(true, true, false, false));
}

#[test]
fn modifiers_for_is_case_and_space_insensitive() {
    assert_eq!(modifiers_for("ctrl + alt"), mods(true, true, false, false));
}

#[test]
fn modifiers_for_ignores_unknown_tokens() {
    assert_eq!(modifiers_for("Ctrl+Bogus"), mods(true, false, false, false));
}

#[test]
fn modifiers_for_knows_every_alias() {
    assert_eq!(modifiers_for("control+option+SHIFT+command"), mods(true, true, true, true));
    assert_eq!(modifiers_for("opt+meta"), mods(false, true, false, true));
    assert_eq!(modifiers_for(""), mods(false, false, false, false));
}

#[test]
fn split_text_keeps_empty_parts() {
    assert_eq!(split_text("a++b+", '+'), vec!["a".to_string(), "".to_string(), "b".to_string(), "".to_string()]);
    assert_eq!(split_text("", '+'), vec!["".to_string()]);
}

fn pad(id: &str, hotkey: Option<&str>) -> Pad {
    Pad { id: id.to_string(), name: format!("pad {id}"), hotkey: hotkey.map(|h| h.to_string()), ..Pad::default() }
}

#[test]
fn plan_shortcuts_registers_only_valid_keys_of_the_active_bank() {
    let config = AppConfig {
        active_bank_id: "b2".to_string(),
        panic_hotkey: Some("p".to_string()),
        banks: vec![
            Bank { id: "b1".to_string(), name: "B1".to_string(), order: 0, pads: vec![pad("x", Some("Q"))] },
            Bank {
                id: "b2".to_string(),
                name: "B2".to_string(),
                order: 1,
                pads: vec![pad("a", Some("k")), pad("b", None), pad("c", Some("F1")), pad("d", Some("7"))],
            },
        ],
        ..AppConfig::default()
    };

    let plan = plan_shortcuts(&config).unwrap();

    assert_eq!(plan.modifiers, mods(true, true, false, false));
    assert_eq!(plan.panic_key, Some('P'));
    let keys: Vec<(String, char)> = plan.pads.iter().map(|s| (s.pad_id.clone(), s.key)).collect();
    assert_eq!(keys, vec![("a".to_string(), 'K'), ("d".to_string(), '7')]);
    assert!(plan.pads.iter().all(|s| s.bank_id == "b2"));
}

#[test]
fn plan_shortcuts_registers_nothing_when_disabled() {
    let config = AppConfig { global_hotkeys_enabled: false, ..AppConfig::default() };

    assert!(plan_shortcuts(&config).is_none());
}

#[test]
fn modifiers_for_strips_every_kind_of_white_space_around_a_token() {
    assert_eq!(modifiers_for("\u{3000}Ctrl\t+\u{a0}Shift\u{2028}+\n meta \u{85}"), mods(true, false, true, true));
    assert_eq!(modifiers_for("Al t"), mods(false, false, false, false));
}
