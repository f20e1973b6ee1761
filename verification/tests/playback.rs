use sound_pad::audio::playback::{decide_trigger_action, TriggerAction};
use sound_pad::models::RetriggerMode;

#[test]
fn always_starts_when_pad_is_idle_regardless_of_mode() {
    for mode in [RetriggerMode::Stop, RetriggerMode::Restart, RetriggerMode::Ignore, RetriggerMode::Overlap] {
        assert_eq!(decide_trigger_action(mode, 0, 8), TriggerAction::Start, "mode={mode:?}");
    }
}

#[test]
fn stop_mode_stops_without_restarting_when_already_playing() {
    assert_eq!(decide_trigger_action(RetriggerMode::Stop, 1, 8), TriggerAction::StopOnly);
}

#[test]
fn restart_mode_stops_and_plays_again_from_the_beginning() {
    assert_eq!(decide_trigger_action(RetriggerMode::Restart, 1, 8), TriggerAction::RestartFromBeginning);
}

#[test]
fn ignore_mode_does_nothing_when_already_playing() {
    assert_eq!(decide_trigger_action(RetriggerMode::Ignore, 1, 8), TriggerAction::DoNothing);
}

#[test]
fn overlap_mode_adds_a_voice_without_evicting_when_under_the_cap() {
    assert_eq!(
        decide_trigger_action(RetriggerMode::Overlap, 3, 8),
        TriggerAction::AddOverlap { evict_oldest: false }
    );
}

#[test]
fn overlap_mode_evicts_the_oldest_voice_when_at_the_cap() {
    assert_eq!(
        decide_trigger_action(RetriggerMode::Overlap, 8, 8),
        TriggerAction::AddOverlap { evict_oldest: true }
    );
}
