use sound_pad::commands::{
    active_bank, add_pad_to_active_bank, create_bank_in, ensure_first_bank, find_pad, remove_bank_entry, remove_pad_entry,
    rename_bank_in, reorder_pads_in, set_active_bank_in, snap_region, trim_region_from, update_pad_in,
    DeviceCheckClock, SnappedRegion,
};
use sound_pad::audio::trim::TrimRegion;
use sound_pad::models::{AppConfig, Bank, Pad};

fn config_with_one_pad(pad_id: &str) -> AppConfig {
    let pad = Pad { id: pad_id.to_string(), name: "Aplausos".to_string(), ..Pad::default() };
    AppConfig {
        active_bank_id: "b1".to_string(),
        banks: vec![Bank { id: "b1".to_string(), name: "Banco 1".to_string(), order: 0, pads: vec![pad] }],
        ..AppConfig::default()
    }
}

fn config_with_two_banks() -> AppConfig {
    let pad_a = Pad { id: "pad-a".to_string(), name: "A".to_string(), ..Pad::default() };
    let pad_b = Pad { id: "pad-b".to_string(), name: "B".to_string(), ..Pad::default() };
    AppConfig {
        active_bank_id: "b1".to_string(),
        banks: vec![
            Bank { id: "b1".to_string(), name: "Banco 1".to_string(), order: 0, pads: vec![pad_a] },
            Bank { id: "b2".to_string(), name: "Banco 2".to_string(), order: 1, pads: vec![pad_b] },
        ],
        ..AppConfig::default()
    }
}

#[test]
fn delete_pad_impl_is_ok_when_the_wav_file_was_already_missing() {
    let mut config = config_with_one_pad("pad-1");

    let result = remove_pad_entry(&mut config, "b1", "pad-1");

    assert!(result.is_ok());
    assert!(config.banks[0].pads.is_empty());
}

#[test]
fn remove_pad_entry_hands_back_the_removed_pad() {
    let mut config = config_with_one_pad("pad-1");

    let removed = remove_pad_entry(&mut config, "b1", "pad-1").unwrap();

    assert_eq!(removed.id, "pad-1");
}

#[test]
fn remove_pad_entry_errors_when_pad_or_bank_not_found_and_leaves_config_alone() {
    let mut config = config_with_one_pad("pad-1");

    assert_eq!(remove_pad_entry(&mut config, "b1", "no-existe"), Err("pad no encontrado".to_string()));
    assert_eq!(remove_pad_entry(&mut config, "b9", "pad-1"), Err("banco no encontrado".to_string()));
    assert_eq!(config, config_with_one_pad("pad-1"));
}

#[test]
fn delete_bank_impl_switches_active_bank_when_deleting_the_active_one() {
    let mut config = config_with_two_banks();

    remove_bank_entry(&mut config, "b1").unwrap();

    assert_eq!(config.active_bank_id, "b2");
}

#[test]
fn delete_bank_impl_leaves_active_bank_untouched_when_deleting_a_different_one() {
    let mut config = config_with_two_banks();

    remove_bank_entry(&mut config, "b2").unwrap();

    assert_eq!(config.active_bank_id, "b1");
}

#[test]
fn delete_bank_impl_clears_active_bank_id_when_deleting_the_last_bank() {
    let mut config = config_with_one_pad("pad-1");

    remove_bank_entry(&mut config, "b1").unwrap();

    assert!(config.banks.is_empty());
    assert_eq!(config.active_bank_id, "");
}

#[test]
fn remove_bank_entry_hands_back_the_bank_with_its_pads() {
    let mut config = config_with_two_banks();

    let removed = remove_bank_entry(&mut config, "b1").unwrap();

    assert_eq!(removed.pads[0].id, "pad-a");
    assert_eq!(config.banks.len(), 1);
    assert_eq!(config.banks[0].id, "b2");
    assert!(remove_bank_entry(&mut config, "b1").is_err());
}

#[test]
fn find_pad_looks_in_the_named_bank() {
    let config = config_with_two_banks();

    assert_eq!(find_pad(&config, "b2", "pad-b").unwrap().name, "B");
    assert_eq!(find_pad(&config, "b1", "pad-b").unwrap_err(), "pad no encontrado");
    assert_eq!(find_pad(&config, "b3", "pad-b").unwrap_err(), "banco no encontrado");
}

#[test]
fn update_pad_in_replaces_the_pad_after_checking_its_keys() {
    let mut config = config_with_two_banks();
    config.banks[0].pads.push(Pad { id: "pad-c".to_string(), name: "C".to_string(), hotkey: Some("K".to_string()), ..Pad::default() });
    let mut edited = config.banks[0].pads[0].clone();
    edited.name = "A2".to_string();

    assert!(update_pad_in(&mut config, "b1", edited.clone()).is_ok());
    assert_eq!(config.banks[0].pads[0].name, "A2");

    let mut clashing = edited.clone();
    clashing.hotkey = Some("K".to_string());
    assert!(update_pad_in(&mut config, "b1", clashing).is_err());
    assert_eq!(config.banks[0].pads[0].hotkey, None);

    let stranger = Pad { id: "nope".to_string(), ..Pad::default() };
    assert_eq!(update_pad_in(&mut config, "b1", stranger), Err("pad no encontrado".to_string()));
}

#[test]
fn reorder_pads_in_reorders_one_bank() {
    let mut config = config_with_two_banks();
    config.banks[0].pads.push(Pad { id: "pad-z".to_string(), ..Pad::default() });

    reorder_pads_in(&mut config, "b1", &["pad-z".to_string(), "pad-a".to_string()]).unwrap();

    assert_eq!(config.banks[0].pads[0].id, "pad-z");
    assert_eq!(config.banks[0].pads[1].order, 1);
    assert!(reorder_pads_in(&mut config, "zz", &[]).is_err());
}

#[test]
fn create_bank_in_appends_an_empty_active_bank() {
    let mut config = config_with_two_banks();

    let bank = create_bank_in(&mut config, "Podcast".to_string());

    assert_eq!(bank.order, 2);
    assert_eq!(bank.name, "Podcast");
    assert!(bank.pads.is_empty());
    assert_eq!(config.banks.len(), 3);
    assert_eq!(config.active_bank_id, bank.id);
    assert_eq!(config.banks[2].id, bank.id);
}

#[test]
fn rename_and_activate_banks() {
    let mut config = config_with_two_banks();

    rename_bank_in(&mut config, "b2", "Nuevo".to_string()).unwrap();
    set_active_bank_in(&mut config, "b2").unwrap();

    assert_eq!(config.banks[1].name, "Nuevo");
    assert_eq!(config.active_bank_id, "b2");
    assert!(set_active_bank_in(&mut config, "zz").is_err());
    assert!(rename_bank_in(&mut config, "zz", "x".to_string()).is_err());
    assert_eq!(config.active_bank_id, "b2");
}

#[test]
fn the_first_import_creates_banco_1_and_fills_it() {
    let mut config = AppConfig::default();

    ensure_first_bank(&mut config);
    let stored = add_pad_to_active_bank(&mut config, Pad { id: "p1".to_string(), ..Pad::default() }).unwrap();
    let second = add_pad_to_active_bank(&mut config, Pad { id: "p2".to_string(), ..Pad::default() }).unwrap();

    assert_eq!(config.banks.len(), 1);
    assert_eq!(config.banks[0].name, "Banco 1");
    assert_eq!(config.active_bank_id, config.banks[0].id);
    assert_eq!(stored.order, 0);
    assert_eq!(second.order, 1);
    assert_eq!(config.banks[0].pads.len(), 2);
}

#[test]
fn add_pad_to_active_bank_refuses_a_taken_hotkey() {
    let mut config = config_with_one_pad("pad-1");
    config.banks[0].pads[0].hotkey = Some("K".to_string());

    let result = add_pad_to_active_bank(&mut config, Pad { id: "p2".to_string(), hotkey: Some("K".to_string()), ..Pad::default() });

    assert_eq!(result, Err("La tecla \"K\" ya está asignada a \"Aplausos\"".to_string()));
    assert_eq!(config.banks[0].pads.len(), 1);
}

#[test]
fn add_pad_to_active_bank_needs_an_active_bank() {
    let mut config = config_with_one_pad("pad-1");
    config.active_bank_id = "gone".to_string();

    let result = add_pad_to_active_bank(&mut config, Pad::default());

    assert_eq!(result, Err("banco activo no encontrado".to_string()));
}

#[test]
fn trim_region_needs_both_edges() {
    assert_eq!(trim_region_from(Some(1), Some(2)), Some(TrimRegion { start_ms: 1, end_ms: 2 }));
    assert_eq!(trim_region_from(Some(1), None), None);
    assert_eq!(trim_region_from(None, Some(2)), None);
}

#[test]
fn snap_region_moves_edges_to_crossings_in_milliseconds() {
    // 20 ms of a signal that is negative up to frame 500 and positive after.
    let stereo: Vec<u32> = (0..960).flat_map(|i| {
        let s: f32 = if i < 500 { -0.5 } else { 0.5 };
        [s.to_bits(), s.to_bits()]
    }).collect();

    let region = snap_region(&stereo, 10, 15);

    // 10 ms is frame 480; the crossing between frames 499 and 500 is 20 frames
    // away, inside the 240-frame window, and the nearer side is frame 499.
    assert_eq!(region, SnappedRegion { start_ms: 499 * 1000 / 48_000, end_ms: 500 * 1000 / 48_000 });
}

#[test]
fn device_check_clock_fires_every_twenty_ticks() {
    let mut clock = DeviceCheckClock::new();
    let fired: Vec<bool> = (0..41).map(|_| clock.tick()).collect();

    assert_eq!(fired.iter().filter(|&&f| f).count(), 2);
    assert!(fired[19]);
    assert!(fired[39]);
}

#[test]
fn the_region_shown_by_the_editor_is_the_region_the_import_cuts() {
    let one = 1.0f32.to_bits();
    let mut stereo: Vec<u32> = vec![one; 3000 * 2];
    stereo[960 * 2] = 0;
    stereo[1920 * 2] = 0;

    let shown = snap_region(&stereo, 19, 41);
    assert_eq!(shown, SnappedRegion { start_ms: 20, end_ms: 40 });

    let cut = sound_pad::audio::normalize::trim_stereo(
        stereo.clone(),
        Some(TrimRegion { start_ms: shown.start_ms, end_ms: shown.end_ms }),
    )
    .unwrap();
    assert_eq!(cut, stereo[960 * 2..1920 * 2].to_vec());
}

#[test]
fn active_bank_is_the_bank_with_the_active_id() {
    let mut config = config_with_one_pad("p1");
    assert_eq!(active_bank(&config).map(|b| b.id.as_str()), Some("b1"));
    config.active_bank_id = "missing".to_string();
    assert!(active_bank(&config).is_none());
    assert!(active_bank(&AppConfig::default()).is_none());
}
