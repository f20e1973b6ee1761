use sound_pad::audio::engine::{stereo_to_frames, PlayOutcome, Voice, VoiceBook, MAX_OVERLAP_VOICES};
use sound_pad::models::RetriggerMode;

fn voice(id: u64) -> Voice {
    Voice { id, duration_ms: 1000 }
}

#[test]
fn first_trigger_starts_a_voice_in_every_mode() {
    for mode in [RetriggerMode::Stop, RetriggerMode::Restart, RetriggerMode::Ignore, RetriggerMode::Overlap] {
        let mut book = VoiceBook::new();
        let plan = book.trigger("a", mode, voice(1));
        assert_eq!(plan.outcome, PlayOutcome::Started);
        assert!(plan.start);
        assert!(plan.stop.is_empty());
        assert_eq!(book.active_count("a"), 1);
    }
}

#[test]
fn stop_mode_stops_the_sounding_voice() {
    let mut book = VoiceBook::new();
    book.trigger("a", RetriggerMode::Stop, voice(1));

    let plan = book.trigger("a", RetriggerMode::Stop, voice(2));

    assert_eq!(plan.outcome, PlayOutcome::StoppedOnly);
    assert_eq!(plan.stop, vec![1]);
    assert!(!plan.start);
    assert_eq!(book.active_count("a"), 0);
}

#[test]
fn restart_mode_replaces_every_voice_with_the_new_one() {
    let mut book = VoiceBook::new();
    book.trigger("a", RetriggerMode::Restart, voice(1));

    let plan = book.trigger("a", RetriggerMode::Restart, voice(2));

    assert_eq!(plan.outcome, PlayOutcome::Started);
    assert_eq!(plan.stop, vec![1]);
    assert!(plan.start);
    assert_eq!(book.active_count("a"), 1);
}

#[test]
fn ignore_mode_leaves_the_voice_alone() {
    let mut book = VoiceBook::new();
    book.trigger("a", RetriggerMode::Ignore, voice(1));

    let plan = book.trigger("a", RetriggerMode::Ignore, voice(2));

    assert_eq!(plan.outcome, PlayOutcome::Ignored);
    assert!(plan.stop.is_empty());
    assert!(!plan.start);
    assert_eq!(book.active_count("a"), 1);
}

#[test]
fn overlap_mode_evicts_the_oldest_voice_at_the_cap() {
    let mut book = VoiceBook::new();
    for id in 0..MAX_OVERLAP_VOICES as u64 {
        let plan = book.trigger("a", RetriggerMode::Overlap, voice(id));
        assert!(plan.stop.is_empty());
    }
    assert_eq!(book.active_count("a"), MAX_OVERLAP_VOICES);

    let plan = book.trigger("a", RetriggerMode::Overlap, voice(100));

    assert_eq!(plan.stop, vec![0]);
    assert_eq!(book.active_count("a"), MAX_OVERLAP_VOICES);
}

#[test]
fn pads_do_not_share_voices() {
    let mut book = VoiceBook::new();
    book.trigger("a", RetriggerMode::Overlap, voice(1));
    book.trigger("b", RetriggerMode::Stop, voice(2));

    let stopped = book.stop("a");

    assert_eq!(stopped, vec![1]);
    assert_eq!(book.active_count("a"), 0);
    assert_eq!(book.active_count("b"), 1);
}

#[test]
fn discard_voice_forgets_a_voice_that_could_not_start() {
    let mut book = VoiceBook::new();
    book.trigger("a", RetriggerMode::Overlap, voice(1));
    book.trigger("a", RetriggerMode::Overlap, voice(2));

    book.discard_voice("a", 1);
    assert_eq!(book.active_count("a"), 2);
    book.discard_voice("a", 2);
    assert_eq!(book.active_count("a"), 1);
    book.discard_voice("a", 1);
    assert_eq!(book.active_count("a"), 0);
}

#[test]
fn stop_all_reports_every_pad_and_voice_and_empties_the_book() {
    let mut book = VoiceBook::new();
    book.trigger("a", RetriggerMode::Overlap, voice(1));
    book.trigger("a", RetriggerMode::Overlap, voice(2));
    book.trigger("b", RetriggerMode::Stop, voice(3));

    let silenced = book.stop_all();

    assert_eq!(silenced.pad_ids, vec!["a".to_string(), "b".to_string()]);
    assert_eq!(silenced.voice_ids, vec![1, 2, 3]);
    assert_eq!(book.active_count("a"), 0);
    assert_eq!(book.active_count("b"), 0);
    assert!(book.stop_all().pad_ids.is_empty());
}

#[test]
fn poll_drops_finished_voices_and_reports_silent_pads() {
    let mut book = VoiceBook::new();
    book.trigger("a", RetriggerMode::Overlap, voice(1));
    book.trigger("a", RetriggerMode::Overlap, Voice { id: 2, duration_ms: 500 });
    book.trigger("b", RetriggerMode::Stop, voice(3));

    let polled = book.poll(&[1, 3]);

    assert_eq!(polled.silenced, vec!["b".to_string()]);
    assert_eq!(polled.sounding.len(), 1);
    assert_eq!(polled.sounding[0].pad_id, "a");
    assert_eq!(polled.sounding[0].newest, Voice { id: 2, duration_ms: 500 });
    assert_eq!(book.active_count("a"), 1);
    assert_eq!(book.active_count("b"), 0);
}

#[test]
fn stereo_to_frames_pairs_left_and_right_samples() {
    let stereo: Vec<u32> = [0.1f32, -0.1, 0.2, -0.2, 0.3, -0.3].iter().map(|x| x.to_bits()).collect();

    let frames = stereo_to_frames(&stereo);

    assert_eq!(frames.len(), 3);
    assert_eq!(frames[0], (0.1f32.to_bits(), (-0.1f32).to_bits()));
    assert_eq!(frames[1], (0.2f32.to_bits(), (-0.2f32).to_bits()));
    assert_eq!(frames[2], (0.3f32.to_bits(), (-0.3f32).to_bits()));
}

#[test]
fn stereo_to_frames_of_empty_buffer_is_empty() {
    let frames = stereo_to_frames(&[]);
    assert!(frames.is_empty());
}

#[test]
fn stereo_to_frames_drops_a_trailing_lone_sample() {
    let frames = stereo_to_frames(&[1, 2, 3]);
    assert_eq!(frames, vec![(1, 2)]);
}
