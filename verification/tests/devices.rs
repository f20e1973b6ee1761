use sound_pad::audio::devices::{
    can_negotiate, device_lost, device_ref_by_id, negotiate_config, resolve_device, ConfigChoice, DeviceInfo, ResolutionKind,
    SupportedRange,
};
use sound_pad::audio::engine::{stream_config_choice, TARGET_BUFFER_FRAMES, TARGET_SAMPLE_RATE};
use sound_pad::models::OutputDeviceRef;

fn dev(id: &str, label: &str) -> DeviceInfo {
    DeviceInfo { id: id.into(), label: label.into() }
}

#[test]
fn resolves_by_device_id_when_present() {
    let available = vec![dev("usb-mixer", "USB Mixer"), dev("builtin", "MacBook Speakers")];

    let (device, kind) = resolve_device(&available, "usb-mixer", "USB Mixer", "builtin");

    assert_eq!(device.id, "usb-mixer");
    assert_eq!(kind, ResolutionKind::ById);
}

#[test]
fn falls_back_to_label_when_device_id_changed() {
    let available = vec![dev("usb-mixer-v2", "USB Mixer"), dev("builtin", "MacBook Speakers")];

    let (device, kind) = resolve_device(&available, "usb-mixer-v1", "USB Mixer", "builtin");

    assert_eq!(device.id, "usb-mixer-v2");
    assert_eq!(kind, ResolutionKind::ByLabel);
}

#[test]
fn falls_back_to_default_when_neither_id_nor_label_exist() {
    let available = vec![dev("builtin", "MacBook Speakers"), dev("airpods", "AirPods")];

    let (device, kind) = resolve_device(&available, "usb-mixer", "USB Mixer", "builtin");

    assert_eq!(device.id, "builtin");
    assert_eq!(kind, ResolutionKind::FellBackToDefault);
}

#[test]
fn falls_back_to_first_device_when_default_is_missing_too() {
    let available = vec![dev("airpods", "AirPods"), dev("builtin", "MacBook Speakers")];

    let (device, kind) = resolve_device(&available, "usb-mixer", "USB Mixer", "gone");

    assert_eq!(device.id, "airpods");
    assert_eq!(kind, ResolutionKind::FellBackToDefault);
}

#[test]
fn negotiate_config_matches_target_when_range_supports_it() {
    let ranges = vec![SupportedRange {
        min_sample_rate: 44100,
        max_sample_rate: 96000,
        min_buffer_frames: 32,
        max_buffer_frames: 2048,
    }];

    let choice = negotiate_config(&ranges, 48000, 256);

    assert_eq!(choice, ConfigChoice { sample_rate: 48000, buffer_frames: 256, matches_target: true });
}

#[test]
fn negotiate_config_clamps_buffer_when_device_forces_larger_minimum() {
    let ranges = vec![SupportedRange {
        min_sample_rate: 44100,
        max_sample_rate: 48000,
        min_buffer_frames: 512,
        max_buffer_frames: 4096,
    }];

    let choice = negotiate_config(&ranges, 48000, 256);

    assert_eq!(choice, ConfigChoice { sample_rate: 48000, buffer_frames: 512, matches_target: false });
}

#[test]
fn negotiate_config_clamps_sample_rate_when_48k_unsupported() {
    let ranges = vec![SupportedRange {
        min_sample_rate: 8000,
        max_sample_rate: 44100,
        min_buffer_frames: 32,
        max_buffer_frames: 2048,
    }];

    let choice = negotiate_config(&ranges, 48000, 256);

    assert_eq!(choice, ConfigChoice { sample_rate: 44100, buffer_frames: 256, matches_target: false });
}

#[test]
fn negotiate_config_prefers_the_first_range_that_covers_the_rate() {
    let ranges = vec![
        SupportedRange { min_sample_rate: 8000, max_sample_rate: 22050, min_buffer_frames: 64, max_buffer_frames: 64 },
        SupportedRange { min_sample_rate: 44100, max_sample_rate: 48000, min_buffer_frames: 128, max_buffer_frames: 1024 },
    ];

    let choice = negotiate_config(&ranges, 48000, 256);

    assert_eq!(choice, ConfigChoice { sample_rate: 48000, buffer_frames: 256, matches_target: true });
}

#[test]
fn stream_config_without_ranges_asks_for_the_targets() {
    let choice = stream_config_choice(&[]);

    assert_eq!(
        choice,
        ConfigChoice { sample_rate: TARGET_SAMPLE_RATE, buffer_frames: TARGET_BUFFER_FRAMES, matches_target: false }
    );
}

#[test]
fn device_is_lost_only_when_its_id_disappears() {
    let available = vec![dev("builtin", "MacBook Speakers")];
    let present = OutputDeviceRef { device_id: "builtin".into(), label: "x".into() };
    let gone = OutputDeviceRef { device_id: "usb".into(), label: "USB".into() };
    let unset = OutputDeviceRef::default();

    assert!(!device_lost(&present, &available));
    assert!(device_lost(&gone, &available));
    assert!(!device_lost(&unset, &available));
}

#[test]
fn device_ref_by_id_copies_id_and_label() {
    let available = vec![dev("airpods", "AirPods"), dev("builtin", "MacBook Speakers")];

    let found = device_ref_by_id(&available, "builtin").unwrap();

    assert_eq!(found.device_id, "builtin");
    assert_eq!(found.label, "MacBook Speakers");
    assert!(device_ref_by_id(&available, "usb").is_none());
}

#[test]
fn can_negotiate_refuses_no_ranges_and_an_inverted_range() {
    let good = SupportedRange { min_sample_rate: 44_100, max_sample_rate: 48_000, min_buffer_frames: 64, max_buffer_frames: 4096 };
    let inverted = SupportedRange { min_sample_rate: 48_000, max_sample_rate: 48_000, min_buffer_frames: 512, max_buffer_frames: 256 };
    assert!(!can_negotiate(&[], 48_000));
    assert!(can_negotiate(&[good], 48_000));
    assert!(!can_negotiate(&[inverted, good], 48_000));
    assert!(can_negotiate(&[good, inverted], 48_000));
}
