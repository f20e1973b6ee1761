use vstd::prelude::*;

use crate::ids::new_id;
use crate::models::{
    default_modifier, AppConfig, Bank, Pad, RetriggerMode, CURRENT_VERSION, DEFAULT_FADE_MS, DEFAULT_OUTPUT_BUFFER_FRAMES,
    DEFAULT_TARGET_LUFS_BITS,
};
use crate::text::owned;

verus! {

/// Blue, the color of the factory pads.
pub open spec fn seed_pad_color() -> Seq<char> {
    "#4AA3E8"@
}

/// The factory pads of the "Default" bank, in grid order: display name and
/// bundled file.
pub open spec fn default_pads() -> Seq<(Seq<char>, Seq<char>)> {
    seq![
        ("Risas 1"@, "risas1.mp3"@),
        ("Risas 2"@, "risas2.mp3"@),
        ("Aplausos 1"@, "aplausos1.mp3"@),
        ("Aplausos 2"@, "aplausos2.mp3"@),
        ("Abucheo (buu)"@, "abucheo.mp3"@),
        ("Drum Roll"@, "drum-roll.mp3"@),
        ("Ta-Da"@, "tada.mp3"@),
        ("Wa-wa-wa"@, "wa-wa-wa.mp3"@),
        ("Ba-dum-tss"@, "ba-dum-tss.mp3"@),
    ]
}

pub open spec fn pairs_view(s: Seq<(String, String)>) -> Seq<(Seq<char>, Seq<char>)> {
    s.map_values(|p: (String, String)| (p.0@, p.1@))
}

fn entry(name: &str, file: &str) -> (r: (String, String))
    ensures
        r.0@ == name@,
        r.1@ == file@,
{
    (owned(name), owned(file))
}

/// The factory pads: display name and bundled file, in grid order.
pub fn default_pad_catalog() -> (catalog: Vec<(String, String)>)
    ensures
        pairs_view(catalog@) == default_pads(),
{
    let mut v: Vec<(String, String)> = Vec::new();
    v.push(entry("Risas 1", "risas1.mp3"));
    v.push(entry("Risas 2", "risas2.mp3"));
    v.push(entry("Aplausos 1", "aplausos1.mp3"));
    v.push(entry("Aplausos 2", "aplausos2.mp3"));
    v.push(entry("Abucheo (buu)", "abucheo.mp3"));
    v.push(entry("Drum Roll", "drum-roll.mp3"));
    v.push(entry("Ta-Da", "tada.mp3"));
    v.push(entry("Wa-wa-wa", "wa-wa-wa.mp3"));
    v.push(entry("Ba-dum-tss", "ba-dum-tss.mp3"));
    assert(pairs_view(v@) =~= default_pads());
    v
}

/// What the import pipeline measured of a factory pad.
pub struct SeedMeasurement {
    pub duration_ms: u32,
    pub source_sample_rate: u32,
    pub source_channels: u8,
    pub measured_lufs_bits: u32,
    pub applied_gain_db_bits: u32,
    pub gain_capped: bool,
}

/// A factory pad: its name and file, its place in the grid, the seed color,
/// what the import measured, and the defaults for everything else.
pub fn seed_pad(name: &str, filename: &str, order: u32, m: &SeedMeasurement) -> (pad: Pad)
    ensures
        pad.id@.len() == 36,
        pad.name@ == name@,
        pad.order == order,
        pad.color@ == seed_pad_color(),
        pad.duration_ms == m.duration_ms,
        pad.original_filename@ == filename@,
        pad.source_sample_rate == m.source_sample_rate,
        pad.source_channels == m.source_channels,
        pad.measured_lufs_bits == m.measured_lufs_bits,
        pad.applied_gain_db_bits == m.applied_gain_db_bits,
        pad.gain_capped == m.gain_capped,
        pad.trim_db_bits == 0,
        !pad.loop_enabled,
        pad.retrigger_mode == RetriggerMode::Stop,
        pad.fade_in_ms == DEFAULT_FADE_MS,
        pad.fade_out_ms == DEFAULT_FADE_MS,
        pad.hotkey is None,
        pad.midi_note is None,
{
    let mut pad = Pad::default();
    pad.name = owned(name);
    pad.order = order;
    pad.color = owned("#4AA3E8");
    pad.duration_ms = m.duration_ms;
    pad.original_filename = owned(filename);
    pad.source_sample_rate = m.source_sample_rate;
    pad.source_channels = m.source_channels;
    pad.measured_lufs_bits = m.measured_lufs_bits;
    pad.applied_gain_db_bits = m.applied_gain_db_bits;
    pad.gain_capped = m.gain_capped;
    pad
}

/// The first-run configuration: a single active bank named "Default" holding
/// the factory pads, and the default settings.
pub fn seed_config(pads: Vec<Pad>) -> (config: AppConfig)
    ensures
        config.banks@.len() == 1,
        config.banks@[0].name@ == "Default"@,
        config.banks@[0].order == 0,
        config.banks@[0].pads@ == pads@,
        config.banks@[0].id@.len() == 36,
        config.active_bank_id@ == config.banks@[0].id@,
        config.version == CURRENT_VERSION,
        config.output_device.device_id@ == Seq::<char>::empty(),
        config.output_device.label@ == Seq::<char>::empty(),
        config.output_buffer_frames == DEFAULT_OUTPUT_BUFFER_FRAMES,
        config.midi_device_name is None,
        config.target_lufs_bits == DEFAULT_TARGET_LUFS_BITS,
        config.global_hotkeys_enabled,
        config.global_modifier@ == default_modifier(),
        config.panic_hotkey is None,
        config.language@ == "en"@,
{
    let bank = Bank { id: new_id(), name: owned("Default"), order: 0, pads };
    let mut config = AppConfig::default();
    config.active_bank_id = bank.id.clone();
    let mut banks: Vec<Bank> = Vec::new();
    banks.push(bank);
    config.banks = banks;
    config
}

} // verus!
