use sound_pad::export::{audio_entry_name, restore_plan};
use sound_pad::storage::StorageError;
use sound_pad::seed::{default_pad_catalog, seed_config, seed_pad, SeedMeasurement};

#[test]
fn the_factory_bank_has_nine_pads_in_grid_order() {
    let catalog = default_pad_catalog();

    assert_eq!(catalog.len(), 9);
    assert_eq!(catalog[0], ("Risas 1".to_string(), "risas1.mp3".to_string()));
    assert_eq!(catalog[8], ("Ba-dum-tss".to_string(), "ba-dum-tss.mp3".to_string()));
}

#[test]
fn seed_pads_are_blue_and_keep_their_measurements() {
    let m = SeedMeasurement {
        duration_ms: 1234,
        source_sample_rate: 44_100,
        source_channels: 2,
        measured_lufs_bits: (-20.5f32).to_bits(),
        applied_gain_db_bits: 4.5f32.to_bits(),
        gain_capped: true,
    };

    let pad = seed_pad("Ta-Da", "tada.mp3", 6, &m);
    let config = seed_config(vec![pad]);

    assert_eq!(config.banks.len(), 1);
    assert_eq!(config.banks[0].name, "Default");
    assert_eq!(config.active_bank_id, config.banks[0].id);
    let pad = &config.banks[0].pads[0];
    assert_eq!(pad.color, "#4AA3E8");
    assert_eq!(pad.order, 6);
    assert_eq!(pad.duration_ms, 1234);
    assert_eq!(pad.original_filename, "tada.mp3");
    assert_eq!(f32::from_bits(pad.applied_gain_db_bits), 4.5);
    assert!(pad.gain_capped);
}

#[test]
fn only_audio_files_are_restored_from_an_archive() {
    assert_eq!(audio_entry_name("audio/pad-1.wav", false), Some("pad-1.wav".to_string()));
    assert_eq!(audio_entry_name("audio/", false), None);
    assert_eq!(audio_entry_name("audio/sub", true), None);
    assert_eq!(audio_entry_name("config.json", false), None);
    assert_eq!(audio_entry_name("readme.txt", false), None);
}

#[test]
fn restore_plan_lists_the_audio_files_only_when_the_configuration_passed() {
    let entries = vec![
        ("config.json".to_string(), false),
        ("audio/".to_string(), true),
        ("audio/a.wav".to_string(), false),
        ("notes.txt".to_string(), false),
        ("audio/b.wav".to_string(), false),
    ];
    let plan = restore_plan(&entries, Ok(())).unwrap();
    assert_eq!(plan, vec![(2, "a.wav".to_string()), (4, "b.wav".to_string())]);

    let refused = restore_plan(&entries, Err(StorageError::FutureVersion { found: 2, current: 1 }));
    assert!(matches!(refused, Err(StorageError::FutureVersion { found: 2, current: 1 })));
}
