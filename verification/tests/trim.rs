use sound_pad::audio::normalize::{to_stereo, trim_stereo};
use sound_pad::audio::trim::{
    clamp_ms_range_to_frames, compute_peaks, edge_fade_frames, slice_stereo, snap_to_zero_crossing, TrimError,
    TrimRegion,
};

fn bits(samples: &[f32]) -> Vec<u32> {
    samples.iter().map(|s| s.to_bits()).collect()
}

fn floats(samples: &[u32]) -> Vec<f32> {
    samples.iter().map(|&b| f32::from_bits(b)).collect()
}

fn stereo_of_left(left: &[f32]) -> Vec<u32> {
    let stereo: Vec<f32> = left.iter().flat_map(|&s| [s, s]).collect();
    bits(&stereo)
}

#[test]
fn snap_to_zero_crossing_does_not_move_a_frame_already_at_zero() {
    let stereo = bits(&[0.5, 0.5, 0.0, 0.0, -0.5, -0.5]);

    let snapped = snap_to_zero_crossing(&stereo, 1, 10);

    assert_eq!(snapped, 1);
}

#[test]
fn snap_to_zero_crossing_finds_nearest_sign_change_when_no_exact_zero_exists() {
    let stereo = stereo_of_left(&[0.5, 0.3, -0.2, 0.4, 0.6]);

    let snapped = snap_to_zero_crossing(&stereo, 0, 10);

    assert!(snapped == 1 || snapped == 2, "snapped fue {snapped}, esperaba 1 o 2");
}

#[test]
fn snap_to_zero_crossing_returns_original_frame_when_no_crossing_in_window() {
    let stereo = stereo_of_left(&[0.5, 0.4, 0.3, 0.6, 0.7]);

    let snapped = snap_to_zero_crossing(&stereo, 2, 1);

    assert_eq!(snapped, 2);
}

#[test]
fn snap_to_zero_crossing_is_idempotent() {
    let stereo = stereo_of_left(&[0.5, 0.3, -0.2, 0.4, 0.6]);

    let once = snap_to_zero_crossing(&stereo, 0, 10);
    let twice = snap_to_zero_crossing(&stereo, once, 10);

    assert_eq!(once, twice);
}

#[test]
fn snap_to_zero_crossing_treats_negative_zero_as_zero() {
    let stereo = stereo_of_left(&[0.5, -0.0, 0.4]);

    assert_eq!(snap_to_zero_crossing(&stereo, 1, 10), 1);
}

#[test]
fn snap_to_zero_crossing_takes_the_nearer_side_of_a_crossing_scanning_backwards() {
    // Crossing between frames 1 and 2; starting from frame 4 the scan backwards
    // reaches it and keeps frame 2, the side nearer the start.
    let stereo = stereo_of_left(&[-0.5, -0.3, 0.2, 0.4, 0.6]);

    assert_eq!(snap_to_zero_crossing(&stereo, 4, 10), 2);
}

#[test]
fn snap_to_zero_crossing_leaves_a_frame_past_the_end_without_a_crossing_in_its_window() {
    let stereo = stereo_of_left(&[0.5, 0.4, 0.3]);

    assert_eq!(snap_to_zero_crossing(&stereo, 100, 1), 100);
    assert_eq!(snap_to_zero_crossing(&stereo, 3, 10), 3);
    assert_eq!(snap_to_zero_crossing(&[], 100, 1), 100);
}

#[test]
fn snap_to_zero_crossing_searches_the_part_of_the_window_inside_the_buffer_past_the_end() {
    // Frame 5 lies past the end of a 5-frame buffer; the crossing between
    // frames 2 and 3 is within its window, and frame 3 is its nearer side.
    let stereo = stereo_of_left(&[-0.5, -0.3, -0.2, 0.4, 0.6]);
    assert_eq!(snap_to_zero_crossing(&stereo, 5, 10), 3);
    // A zero at the last frame is taken.
    let stereo = stereo_of_left(&[0.5, 0.4, 0.0]);
    assert_eq!(snap_to_zero_crossing(&stereo, 4, 10), 2);
    // Out of reach of the window: the frame stays.
    let stereo = stereo_of_left(&[0.5, -0.4, 0.3]);
    assert_eq!(snap_to_zero_crossing(&stereo, 20, 5), 20);
}

#[test]
fn a_trim_ending_at_the_end_of_the_audio_keeps_the_last_frame() {
    // 96 frames (2 ms at 48 kHz), all positive: no crossing anywhere.
    let stereo = stereo_of_left(&[0.5; 96]);
    let cut = trim_stereo(stereo.clone(), Some(TrimRegion { start_ms: 0, end_ms: 2 })).unwrap();
    assert_eq!(cut, stereo);
}

#[test]
fn slice_stereo_extracts_the_requested_frame_range() {
    let stereo = bits(&[0.0, 0.0, 1.0, 1.0, 2.0, 2.0, 3.0, 3.0]);

    let sliced = slice_stereo(&stereo, 1, 3).unwrap();

    assert_eq!(floats(&sliced), vec![1.0, 1.0, 2.0, 2.0]);
}

#[test]
fn slice_stereo_rejects_end_before_or_equal_to_start() {
    let stereo = bits(&[0.0, 0.0, 1.0, 1.0]);

    assert!(slice_stereo(&stereo, 1, 1).is_err());
    assert!(slice_stereo(&stereo, 2, 1).is_err());
}

#[test]
fn slice_stereo_rejects_end_past_the_buffer() {
    let stereo = bits(&[0.0, 0.0, 1.0, 1.0]);

    assert!(slice_stereo(&stereo, 0, 3).is_err());
}

#[test]
fn slice_stereo_names_the_error() {
    let stereo = bits(&[0.0, 0.0, 1.0, 1.0]);

    assert_eq!(slice_stereo(&stereo, 2, 1), Err(TrimError::InvalidRange { start_frame: 2, end_frame: 1 }));
    assert_eq!(slice_stereo(&stereo, 0, 3), Err(TrimError::OutOfBounds { end_frame: 3, frame_count: 2 }));
}

#[test]
fn edge_fade_frames_never_lets_the_fades_overlap() {
    assert_eq!(edge_fade_frames(10, 4), 4);
    assert_eq!(edge_fade_frames(10, 0), 0);
    assert_eq!(edge_fade_frames(3, 10), 1);
    assert_eq!(edge_fade_frames(1, 10), 0);
    assert_eq!(edge_fade_frames(0, 10), 0);
}

#[test]
fn compute_peaks_returns_one_vec_per_channel_with_the_requested_bucket_count() {
    let stereo: Vec<u32> = bits(&(0..100).flat_map(|_| [0.1_f32, -0.1]).collect::<Vec<f32>>());

    let peaks = compute_peaks(&stereo, 10);

    assert_eq!(peaks.len(), 2, "debe haber un Vec por canal");
    assert_eq!(peaks[0].len(), 10);
    assert_eq!(peaks[1].len(), 10);
}

#[test]
fn compute_peaks_keeps_the_signed_sample_of_largest_magnitude_per_bucket() {
    let left = [0.1_f32, -0.9, 0.5, -0.3];
    let right = [0.2_f32, 0.2, 0.2, 0.2];
    let stereo: Vec<f32> = left.iter().zip(right.iter()).flat_map(|(&l, &r)| [l, r]).collect();

    let peaks = compute_peaks(&bits(&stereo), 1);

    assert_eq!(f32::from_bits(peaks[0][0]), -0.9);
    assert_eq!(f32::from_bits(peaks[1][0]), 0.2);
}

#[test]
fn compute_peaks_of_silence_is_all_zero() {
    let stereo = bits(&vec![0.0_f32; 200]);

    let peaks = compute_peaks(&stereo, 5);

    assert!(peaks[0].iter().all(|&p| f32::from_bits(p) == 0.0));
    assert!(peaks[1].iter().all(|&p| f32::from_bits(p) == 0.0));
}

#[test]
fn compute_peaks_handles_fewer_frames_than_buckets() {
    let stereo = bits(&(0..3).flat_map(|_| [0.5_f32, 0.5]).collect::<Vec<f32>>());

    let peaks = compute_peaks(&stereo, 10);

    assert_eq!(peaks[0].len(), 10);
}

#[test]
fn compute_peaks_ignores_nan_samples() {
    let stereo = bits(&[f32::NAN, 0.0, 0.25, 0.0]);

    let peaks = compute_peaks(&stereo, 1);

    assert_eq!(f32::from_bits(peaks[0][0]), 0.25);
}

#[test]
fn clamp_ms_range_to_frames_converts_ms_to_frames_at_48khz() {
    let (start, end) = clamp_ms_range_to_frames(10, 20, 10_000, 48_000);

    assert_eq!(start, 480);
    assert_eq!(end, 960);
}

#[test]
fn clamp_ms_range_to_frames_clamps_end_that_rounds_past_the_buffer() {
    let frame_count = 893_400;
    let (_, end) = clamp_ms_range_to_frames(0, 18_613, frame_count, 48_000);

    assert!(end <= frame_count, "end={end} excede frame_count={frame_count}");
}

#[test]
fn clamp_ms_range_to_frames_clamps_start_past_the_buffer_too() {
    let (start, end) = clamp_ms_range_to_frames(999_999, 999_999, 100, 48_000);

    assert!(start <= 100, "start={start} excede frame_count=100");
    assert!(end <= 100, "end={end} excede frame_count=100");
}

#[test]
fn clamp_ms_range_to_frames_never_returns_end_before_start() {
    let (start, end) = clamp_ms_range_to_frames(500, 100, 10_000, 48_000);

    assert!(end >= start, "start={start} end={end}");
}

#[test]
fn clamp_ms_range_to_frames_of_an_empty_buffer_is_zero() {
    let (start, end) = clamp_ms_range_to_frames(0, 0, 0, 48_000);

    assert_eq!(start, 0);
    assert_eq!(end, 0);
}

#[test]
fn to_stereo_duplicates_mono_to_both_channels() {
    let mono = bits(&[0.1, 0.2, -0.5]);

    let stereo = to_stereo(&mono, 1);

    assert_eq!(floats(&stereo), vec![0.1, 0.1, 0.2, 0.2, -0.5, -0.5]);
}

#[test]
fn to_stereo_leaves_stereo_unchanged() {
    let stereo_in = bits(&[0.1, -0.1, 0.2, -0.2]);

    let stereo_out = to_stereo(&stereo_in, 2);

    assert_eq!(stereo_out, stereo_in);
}

#[test]
fn to_stereo_keeps_only_first_two_channels_of_multichannel() {
    let multi = bits(&[0.1, 0.2, 0.9, 0.3, 0.4, 0.9]);

    let stereo = to_stereo(&multi, 3);

    assert_eq!(floats(&stereo), vec![0.1, 0.2, 0.3, 0.4]);
}

#[test]
fn to_stereo_of_zero_channels_is_empty() {
    assert!(to_stereo(&bits(&[0.1, 0.2]), 0).is_empty());
}

#[test]
fn trim_stereo_cuts_the_region_at_zero_crossings() {
    // 10 ms of silence at 48 kHz, so both edges are already zero.
    let stereo = vec![0u32; 2 * 480];
    let region = TrimRegion { start_ms: 2, end_ms: 7 };

    let trimmed = trim_stereo(stereo.clone(), Some(region)).unwrap();

    assert_eq!(trimmed.len(), 2 * (336 - 96));
    assert_eq!(trim_stereo(stereo.clone(), None).unwrap(), stereo);
}
