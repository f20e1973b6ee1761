use vstd::prelude::*;

use super::samples::{
    is_nan_sample, is_zero_sample, louder, magnitude, sample_is_zero, sample_louder, samples_signs_differ, signs_differ,
};

verus! {

/// Region of an import to keep, in milliseconds over the audio already
/// resampled to 48 kHz. `end_ms` is exclusive.
#[derive(Debug, Clone, Copy, PartialEq, Eq, Structural)]
pub struct TrimRegion {
    pub start_ms: u32,
    pub end_ms: u32,
}

/// Width of the zero-crossing search around each trim handle: 5 ms at 48 kHz.
pub const ZERO_CROSSING_SEARCH_FRAMES: usize = 240;

/// Length of the mandatory micro-fade at both edges of an import: 5 ms at 48 kHz.
pub const MICRO_FADE_FRAMES: usize = 240;

#[derive(Debug, Clone, Copy, PartialEq, Eq, Structural)]
pub enum TrimError {
    /// `start_frame >= end_frame`.
    InvalidRange { start_frame: usize, end_frame: usize },
    /// `end_frame` lies past the end of the buffer.
    OutOfBounds { end_frame: usize, frame_count: usize },
}

// ---------------------------------------------------------------------------
// Zero-crossing snap
// ---------------------------------------------------------------------------

/// The left-channel sample of frame `i` of an interleaved stereo buffer.
pub open spec fn left(s: Seq<u32>, i: int) -> u32 {
    s[2 * i]
}

/// Scanning backwards, frame `i` ends the scan: it is zero, or its sign differs
/// from that of frame `i + 1`.
pub open spec fn back_hit(s: Seq<u32>, i: int) -> bool {
    is_zero_sample(left(s, i)) || signs_differ(left(s, i), left(s, i + 1))
}

/// Scanning forwards, frame `i` ends the scan: it is zero, or its sign differs
/// from that of frame `i - 1`.
pub open spec fn fwd_hit(s: Seq<u32>, i: int) -> bool {
    is_zero_sample(left(s, i)) || signs_differ(left(s, i), left(s, i - 1))
}

/// The crossing found scanning backwards from frame `i` down to frame `lo`:
/// at the first frame that ends the scan, that frame if it is zero, else the
/// frame after it (the side of the crossing nearer the start).
pub open spec fn back_candidate(s: Seq<u32>, i: int, lo: int) -> Option<int>
    decreases i - lo + 1,
{
    if i < lo {
        None
    } else if back_hit(s, i) {
        Some(if is_zero_sample(left(s, i)) { i } else { i + 1 })
    } else {
        back_candidate(s, i - 1, lo)
    }
}

/// The crossing found scanning forwards from frame `i` up to frame `hi`: at the
/// first frame that ends the scan, that frame if it is zero, else the frame
/// before it.
pub open spec fn fwd_candidate(s: Seq<u32>, i: int, hi: int) -> Option<int>
    decreases hi - i + 1,
{
    if i > hi {
        None
    } else if fwd_hit(s, i) {
        Some(if is_zero_sample(left(s, i)) { i } else { i - 1 })
    } else {
        fwd_candidate(s, i + 1, hi)
    }
}

pub open spec fn dist(a: int, b: int) -> int {
    if a >= b { a - b } else { b - a }
}

pub open spec fn min_int(a: int, b: int) -> int {
    if a <= b { a } else { b }
}

pub open spec fn max_int(a: int, b: int) -> int {
    if a >= b { a } else { b }
}

/// Where `snap_to_zero_crossing` moves a frame inside the buffer: a frame
/// already at zero stays; otherwise the nearer of the crossings found within
/// `max` frames backwards and forwards (the backward one on a tie); the frame
/// itself when there is none.
pub open spec fn snapped_inside(s: Seq<u32>, f: int, max: int) -> int {
    let fc = s.len() / 2;
    if is_zero_sample(left(s, f)) {
        f
    } else {
        let b = back_candidate(s, f - 1, max_int(f - max, 0));
        let x = fwd_candidate(s, f + 1, min_int(f + max, fc - 1));
        match (b, x) {
            (Some(b), Some(x)) => if dist(f, b) <= dist(f, x) { b } else { x },
            (Some(b), None) => b,
            (None, Some(x)) => x,
            (None, None) => f,
        }
    }
}

/// Where `snap_to_zero_crossing` moves a frame at or past the end of the
/// buffer: only the part of its window inside the buffer is searched,
/// backwards from the last frame (a zero there, or the later side of the
/// nearest sign change); the frame itself when that part holds no crossing.
pub open spec fn snapped_past_end(s: Seq<u32>, frame: int, max: int) -> int {
    let fc = s.len() / 2;
    let lo = max_int(frame - max, 0);
    if lo > fc - 1 {
        frame
    } else if is_zero_sample(left(s, fc - 1)) {
        fc - 1
    } else {
        match back_candidate(s, fc - 2, lo) {
            Some(c) => c,
            None => frame,
        }
    }
}

/// Where `snap_to_zero_crossing` moves `frame`. With no crossing within `max`
/// frames of it (inside the buffer), the frame comes back unchanged, also for
/// a frame at or past the end; an empty buffer leaves every frame unchanged.
pub open spec fn snapped(s: Seq<u32>, frame: int, max: int) -> int {
    let fc = s.len() / 2;
    if fc == 0 {
        frame
    } else if frame >= fc {
        snapped_past_end(s, frame, max)
    } else {
        snapped_inside(s, frame, max)
    }
}

/// A backward candidate lies between `lo` and one frame past the start of the scan.
pub proof fn lemma_back_candidate_range(s: Seq<u32>, i: int, lo: int)
    ensures
        back_candidate(s, i, lo) matches Some(c) ==> lo <= c <= i + 1,
    decreases i - lo + 1,
{
    if i >= lo && !back_hit(s, i) {
        lemma_back_candidate_range(s, i - 1, lo);
    }
}

/// A forward candidate lies between one frame before the start of the scan and `hi`.
pub proof fn lemma_fwd_candidate_range(s: Seq<u32>, i: int, hi: int)
    ensures
        fwd_candidate(s, i, hi) matches Some(c) ==> i - 1 <= c <= hi,
    decreases hi - i + 1,
{
    if i <= hi && !fwd_hit(s, i) {
        lemma_fwd_candidate_range(s, i + 1, hi);
    }
}

/// A backward candidate is a zero sample, or the frame just after a sign change
/// whose earlier frame lies inside the scanned window.
proof fn lemma_back_candidate_shape(s: Seq<u32>, i: int, lo: int)
    ensures
        back_candidate(s, i, lo) matches Some(c) ==> {
            ||| is_zero_sample(left(s, c))
            ||| lo <= c - 1 && !is_zero_sample(left(s, c - 1)) && signs_differ(left(s, c - 1), left(s, c))
        },
    decreases i - lo + 1,
{
    if i >= lo && !back_hit(s, i) {
        lemma_back_candidate_shape(s, i - 1, lo);
    }
}

/// A forward candidate is a zero sample, or the frame just before a sign change
/// whose later frame lies inside the scanned window.
proof fn lemma_fwd_candidate_shape(s: Seq<u32>, i: int, hi: int)
    ensures
        fwd_candidate(s, i, hi) matches Some(c) ==> {
            ||| is_zero_sample(left(s, c))
            ||| c + 1 <= hi && !is_zero_sample(left(s, c + 1)) && signs_differ(left(s, c + 1), left(s, c))
        },
    decreases hi - i + 1,
{
    if i <= hi && !fwd_hit(s, i) {
        lemma_fwd_candidate_shape(s, i + 1, hi);
    }
}

/// Snapping a frame that `snapped` returned from a backward crossing, or from
/// a forward one, gives that frame back.
proof fn lemma_snap_fixed_point(s: Seq<u32>, c: int, max: int)
    requires
        s.len() / 2 > 0,
        0 <= c <= s.len() / 2 - 1,
        max >= 0,
        ({
            ||| is_zero_sample(left(s, c))
            ||| (c >= 1 && max >= 1 && !is_zero_sample(left(s, c - 1)) && signs_differ(left(s, c - 1), left(s, c)))
            ||| (c + 1 <= s.len() / 2 - 1 && max >= 1 && !is_zero_sample(left(s, c + 1)) && signs_differ(left(s, c + 1), left(s, c)))
        }),
    ensures
        snapped(s, c, max) == c,
{
    let fc = s.len() / 2;
    assert(snapped(s, c, max) == snapped_inside(s, c, max));
    if !is_zero_sample(left(s, c)) {
        let lo = max_int(c - max, 0);
        let hi = min_int(c + max, fc - 1);
        let b = back_candidate(s, c - 1, lo);
        let x = fwd_candidate(s, c + 1, hi);
        lemma_back_candidate_range(s, c - 1, lo);
        lemma_fwd_candidate_range(s, c + 1, hi);
        if c >= 1 && max >= 1 && !is_zero_sample(left(s, c - 1)) && signs_differ(left(s, c - 1), left(s, c)) {
            assert(back_hit(s, c - 1));
            assert(b == Some(c));
        } else {
            assert(signs_differ(left(s, c), left(s, c + 1)));
            assert(fwd_hit(s, c + 1));
            assert(x == Some(c));
        }
    }
}

/// A snapped frame is the frame asked for, or lies inside the buffer; a
/// frame inside the buffer is snapped to a frame inside it.
pub proof fn lemma_snapped_range(s: Seq<u32>, frame: int, max: int)
    requires
        frame >= 0,
        max >= 0,
    ensures
        s.len() / 2 == 0 ==> snapped(s, frame, max) == frame,
        snapped(s, frame, max) == frame || 0 <= snapped(s, frame, max) < s.len() / 2,
        frame < s.len() / 2 ==> 0 <= snapped(s, frame, max) < s.len() / 2,
        snapped(s, frame, max) >= 0,
{
    let fc = s.len() / 2;
    if fc > 0 {
        if frame >= fc {
            let lo = max_int(frame - max, 0);
            lemma_back_candidate_range(s, fc - 2, lo);
        } else {
            lemma_back_candidate_range(s, frame - 1, max_int(frame - max, 0));
            lemma_fwd_candidate_range(s, frame + 1, min_int(frame + max, fc - 1));
        }
    }
}

/// Frame `c` lies on a zero crossing of the left channel: its sample is zero,
/// or it and a neighbouring non-zero sample have opposite signs.
pub open spec fn on_crossing(s: Seq<u32>, c: int) -> bool {
    ||| is_zero_sample(left(s, c))
    ||| (c >= 1 && !is_zero_sample(left(s, c - 1)) && signs_differ(left(s, c - 1), left(s, c)))
    ||| (c + 1 < s.len() / 2 && !is_zero_sample(left(s, c + 1)) && signs_differ(left(s, c + 1), left(s, c)))
}

/// Snapping moves a frame only onto a zero crossing inside the buffer and
/// within `max` frames of it; otherwise the frame stays. A frame inside the
/// buffer whose sample is already zero never moves.
pub proof fn lemma_snap_law(s: Seq<u32>, frame: int, max: int)
    requires
        frame >= 0,
        max >= 0,
    ensures
        ({
            let r = snapped(s, frame, max);
            &&& r != frame ==> 0 <= r < s.len() / 2 && on_crossing(s, r) && dist(r, frame) <= max
            &&& (frame < s.len() / 2 && is_zero_sample(left(s, frame))) ==> r == frame
        }),
{
    let fc = s.len() / 2;
    let r = snapped(s, frame, max);
    lemma_snapped_range(s, frame, max);
    if fc > 0 && r != frame {
        if frame >= fc {
            let lo = max_int(frame - max, 0);
            if !is_zero_sample(left(s, fc - 1)) {
                lemma_back_candidate_range(s, fc - 2, lo);
                lemma_back_candidate_shape(s, fc - 2, lo);
            }
        } else {
            let lo = max_int(frame - max, 0);
            let hi = min_int(frame + max, fc - 1);
            lemma_back_candidate_range(s, frame - 1, lo);
            lemma_fwd_candidate_range(s, frame + 1, hi);
            lemma_back_candidate_shape(s, frame - 1, lo);
            lemma_fwd_candidate_shape(s, frame + 1, hi);
        }
    }
}

/// Snapping is idempotent: snapping an already snapped frame leaves it where it is.
pub proof fn lemma_snap_idempotent(s: Seq<u32>, frame: int, max: int)
    requires
        frame >= 0,
        max >= 0,
    ensures
        snapped(s, snapped(s, frame, max), max) == snapped(s, frame, max),
{
    let fc = s.len() / 2;
    let r = snapped(s, frame, max);
    lemma_snapped_range(s, frame, max);
    if fc > 0 && r != frame {
        if frame >= fc {
            let lo = max_int(frame - max, 0);
            if !is_zero_sample(left(s, fc - 1)) {
                lemma_back_candidate_range(s, fc - 2, lo);
                lemma_back_candidate_shape(s, fc - 2, lo);
                lemma_snap_fixed_point(s, r, max);
            } else {
                lemma_snap_fixed_point(s, r, max);
            }
        } else {
            let f = frame;
            let lo = max_int(f - max, 0);
            let hi = min_int(f + max, fc - 1);
            let b = back_candidate(s, f - 1, lo);
            let x = fwd_candidate(s, f + 1, hi);
            lemma_back_candidate_range(s, f - 1, lo);
            lemma_fwd_candidate_range(s, f + 1, hi);
            lemma_back_candidate_shape(s, f - 1, lo);
            lemma_fwd_candidate_shape(s, f + 1, hi);
            if b is Some && r == b->0 {
                lemma_snap_fixed_point(s, r, max);
            } else if x is Some && r == x->0 {
                lemma_snap_fixed_point(s, r, max);
            }
        }
    }
}

fn scan_backward(stereo: &[u32], f: usize, lo: usize) -> (r: Option<usize>)
    requires
        lo <= f,
        2 * f + 1 < stereo@.len(),
    ensures
        match r {
            Some(v) => back_candidate(stereo@, f - 1, lo as int) == Some(v as int),
            None => back_candidate(stereo@, f - 1, lo as int) is None,
        },
        r matches Some(v) ==> lo <= v <= f,
{
    proof {
        lemma_back_candidate_range(stereo@, f - 1, lo as int);
    }
    let mut i = f;
    assert(stereo@.len() == stereo.len());
    while i > lo
        invariant
            lo <= i <= f,
            2 * f + 1 < stereo@.len(),
            stereo@.len() <= usize::MAX,
            back_candidate(stereo@, f - 1, lo as int) == back_candidate(stereo@, i - 1, lo as int),
        decreases i,
    {
        let k = i - 1;
        let here = stereo[2 * k];
        let next = stereo[2 * k + 2];
        if sample_is_zero(here) {
            return Some(k);
        }
        if samples_signs_differ(here, next) {
            return Some(i);
        }
        i = k;
    }
    None
}

fn scan_forward(stereo: &[u32], f: usize, hi: usize) -> (r: Option<usize>)
    requires
        f <= hi,
        2 * hi + 1 < stereo@.len(),
    ensures
        match r {
            Some(v) => fwd_candidate(stereo@, f + 1, hi as int) == Some(v as int),
            None => fwd_candidate(stereo@, f + 1, hi as int) is None,
        },
        r matches Some(v) ==> f <= v <= hi,
{
    proof {
        lemma_fwd_candidate_range(stereo@, f + 1, hi as int);
    }
    let mut i = f;
    assert(stereo@.len() == stereo.len());
    while i < hi
        invariant
            f <= i <= hi,
            2 * hi + 1 < stereo@.len(),
            stereo@.len() <= usize::MAX,
            fwd_candidate(stereo@, f + 1, hi as int) == fwd_candidate(stereo@, i + 1, hi as int),
        decreases hi - i,
    {
        let k = i + 1;
        let here = stereo[2 * k];
        let prev = stereo[2 * i];
        if sample_is_zero(here) {
            return Some(k);
        }
        if samples_signs_differ(here, prev) {
            return Some(i);
        }
        i = k;
    }
    None
}

/// Moves `frame` to the nearest zero crossing of the left channel of an
/// interleaved stereo buffer, searching up to `max_search_frames` frames in
/// each direction, inside the buffer. A crossing is a sample at exactly zero,
/// or the point between two samples of opposite sign (the side nearer `frame`
/// is taken). With no crossing in the window `frame` comes back unchanged,
/// also when it lies at or past the end of the buffer.
pub fn snap_to_zero_crossing(stereo: &[u32], frame: usize, max_search_frames: usize) -> (r: usize)
    ensures
        r == snapped(stereo@, frame as int, max_search_frames as int),
        r != frame ==> r < stereo@.len() / 2 && on_crossing(stereo@, r as int) && dist(
            r as int,
            frame as int,
        ) <= max_search_frames,
{
    proof {
        lemma_snap_law(stereo@, frame as int, max_search_frames as int);
    }
    let frame_count = stereo.len() / 2;
    if frame_count == 0 {
        return frame;
    }
    let lo = if frame >= max_search_frames { frame - max_search_frames } else { 0 };
    if frame >= frame_count {
        if lo > frame_count - 1 {
            return frame;
        }
        let last = frame_count - 1;
        if sample_is_zero(stereo[2 * last]) {
            return last;
        }
        return match scan_backward(stereo, last, lo) {
            Some(c) => c,
            None => frame,
        };
    }
    let f = frame;
    if sample_is_zero(stereo[2 * f]) {
        return f;
    }
    let hi = if max_search_frames < frame_count - 1 - f { f + max_search_frames } else { frame_count - 1 };
    let backward = scan_backward(stereo, f, lo);
    let forward = scan_forward(stereo, f, hi);
    match (backward, forward) {
        (Some(b), Some(x)) => {
            if f - b <= x - f {
                b
            } else {
                x
            }
        },
        (Some(b), None) => b,
        (None, Some(x)) => x,
        (None, None) => f,
    }
}

// ---------------------------------------------------------------------------
// Slicing, edge fades, peaks, millisecond ranges
// ---------------------------------------------------------------------------

/// What `slice_stereo` returns: frames `[start_frame, end_frame)` of an
/// interleaved stereo buffer, or the error that the range gives.
pub open spec fn sliced(s: Seq<u32>, start_frame: int, end_frame: int) -> Result<Seq<u32>, TrimError> {
    if end_frame <= start_frame {
        Err(TrimError::InvalidRange { start_frame: start_frame as usize, end_frame: end_frame as usize })
    } else if end_frame > s.len() / 2 {
        Err(TrimError::OutOfBounds { end_frame: end_frame as usize, frame_count: (s.len() / 2) as usize })
    } else {
        Ok(s.subrange(2 * start_frame, 2 * end_frame))
    }
}

/// Extracts frames `[start_frame, end_frame)` of an interleaved stereo buffer.
pub fn slice_stereo(stereo: &[u32], start_frame: usize, end_frame: usize) -> (r: Result<Vec<u32>, TrimError>)
    ensures
        match r {
            Ok(v) => sliced(stereo@, start_frame as int, end_frame as int) == Ok::<Seq<u32>, TrimError>(v@),
            Err(e) => sliced(stereo@, start_frame as int, end_frame as int) == Err::<Seq<u32>, TrimError>(e),
        },
{
    let frame_count = stereo.len() / 2;
    if end_frame <= start_frame {
        return Err(TrimError::InvalidRange { start_frame, end_frame });
    }
    if end_frame > frame_count {
        return Err(TrimError::OutOfBounds { end_frame, frame_count });
    }
    let mut out: Vec<u32> = Vec::new();
    let mut i = 2 * start_frame;
    let stop = 2 * end_frame;
    while i < stop
        invariant
            stop == 2 * end_frame,
            2 * start_frame <= i <= stop,
            stop <= stereo@.len(),
            out@ == stereo@.subrange(2 * start_frame, i as int),
        decreases stop - i,
    {
        out.push(stereo[i]);
        i = i + 1;
    }
    Ok(out)
}

/// The fade length, in frames, that `apply_edge_fades` applies at each edge of
/// a buffer of `frame_count` frames when asked for `fade_frames`: none when
/// either is zero or the buffer holds a single frame; else at most half the
/// buffer, so that the fade-in and the fade-out never overlap.
pub open spec fn spec_edge_fade_frames(frame_count: nat, fade_frames: nat) -> nat {
    if fade_frames == 0 || frame_count == 0 {
        0
    } else {
        let f = if fade_frames <= frame_count / 2 { fade_frames } else { frame_count / 2 };
        let floor: nat = if frame_count == 1 { 0 } else { 1 };
        if f >= floor { f } else { floor }
    }
}

/// The number of frames that the linear ramp covers at each edge. Frame `i`
/// of the fade-in, and frame `frame_count - 1 - i` of the fade-out, are
/// scaled by `i / fade` for each `i < fade`.
pub fn edge_fade_frames(frame_count: usize, fade_frames: usize) -> (fade: usize)
    ensures
        fade == spec_edge_fade_frames(frame_count as nat, fade_frames as nat),
        2 * fade <= frame_count,
        fade_frames > 0 && frame_count >= 2 ==> fade >= 1,
        fade <= fade_frames,
{
    if fade_frames == 0 || frame_count == 0 {
        return 0;
    }
    let f = if fade_frames <= frame_count / 2 { fade_frames } else { frame_count / 2 };
    let floor: usize = if frame_count == 1 { 0 } else { 1 };
    if f >= floor { f } else { floor }
}

/// First frame of bucket `b` when `frame_count` frames are cut into `buckets`.
pub open spec fn bucket_start(b: int, frame_count: int, buckets: int) -> int {
    b * frame_count / buckets
}

/// End (exclusive) of bucket `b`: never empty, never past the buffer.
pub open spec fn bucket_end(b: int, frame_count: int, buckets: int) -> int {
    let e = (b + 1) * frame_count / buckets;
    let s = bucket_start(b, frame_count, buckets);
    let e1 = if e >= s + 1 { e } else { s + 1 };
    if e1 <= frame_count { e1 } else { frame_count }
}

/// The sample of channel `ch` of largest magnitude among frames `[lo, k)`,
/// keeping its sign, scanning in order and keeping the earlier one on a tie;
/// zero when the range is empty.
pub open spec fn peak_upto(s: Seq<u32>, ch: int, lo: int, k: int) -> u32
    decreases k - lo,
{
    if k <= lo {
        0
    } else {
        let p = peak_upto(s, ch, lo, k - 1);
        let x = s[2 * (k - 1) + ch];
        if louder(x, p) { x } else { p }
    }
}

/// The peak of a range is no quieter than any sample in it, and it is either
/// zero (the range is empty or silent) or one of its samples.
pub proof fn lemma_peak_dominates(s: Seq<u32>, ch: int, lo: int, k: int)
    ensures
        forall|j: int| lo <= j < k ==> !louder(#[trigger] s[2 * j + ch], peak_upto(s, ch, lo, k)),
        peak_upto(s, ch, lo, k) == 0 || exists|j: int| lo <= j < k && #[trigger] s[2 * j + ch] == peak_upto(s, ch, lo, k),
    decreases k - lo,
{
    if k > lo {
        lemma_peak_dominates(s, ch, lo, k - 1);
        let p = peak_upto(s, ch, lo, k - 1);
        let x = s[2 * (k - 1) + ch];
        if louder(x, p) {
            assert(s[2 * (k - 1) + ch] == peak_upto(s, ch, lo, k));
        } else if p != 0 {
            let j = choose|j: int| lo <= j < k - 1 && #[trigger] s[2 * j + ch] == p;
            assert(lo <= j < k && s[2 * j + ch] == peak_upto(s, ch, lo, k));
        }
    }
}

/// The peak of a range is the first of its samples of greatest magnitude,
/// with its sign, NaN samples being skipped; it is zero exactly when every
/// sample of the range is a zero (of either sign) or a NaN.
pub proof fn lemma_peak_is_first_loudest(s: Seq<u32>, ch: int, lo: int, k: int)
    ensures
        peak_upto(s, ch, lo, k) == 0 <==> forall|i: int|
            lo <= i < k ==> is_nan_sample(#[trigger] s[2 * i + ch]) || magnitude(s[2 * i + ch]) == 0,
        peak_upto(s, ch, lo, k) != 0 ==> exists|j: int|
            #![trigger s[2 * j + ch]]
            {
                &&& lo <= j < k
                &&& s[2 * j + ch] == peak_upto(s, ch, lo, k)
                &&& !is_nan_sample(s[2 * j + ch])
                &&& forall|i: int| lo <= i < k && !is_nan_sample(#[trigger] s[2 * i + ch]) ==> magnitude(s[2 * i + ch])
                    <= magnitude(s[2 * j + ch])
                &&& forall|i: int| lo <= i < j ==> is_nan_sample(#[trigger] s[2 * i + ch]) || magnitude(s[2 * i + ch])
                    < magnitude(s[2 * j + ch])
            },
    decreases k - lo,
{
    assert(magnitude(0) == 0) by (bit_vector);
    assert(forall|x: u32| #[trigger] magnitude(x) > 0 ==> x != 0) by (bit_vector);
    if k > lo {
        lemma_peak_is_first_loudest(s, ch, lo, k - 1);
        let p = peak_upto(s, ch, lo, k - 1);
        let x = s[2 * (k - 1) + ch];
        let q = peak_upto(s, ch, lo, k);
        if louder(x, p) {
            assert(q == x);
            assert(magnitude(x) > 0);
            assert(x != 0);
            assert forall|i: int| lo <= i < k - 1 && !is_nan_sample(#[trigger] s[2 * i + ch]) implies magnitude(
                s[2 * i + ch],
            ) < magnitude(x) by {
                if p != 0 {
                    let j = choose|j: int|
                        #![trigger s[2 * j + ch]]
                        {
                            &&& lo <= j < k - 1
                            &&& s[2 * j + ch] == p
                            &&& !is_nan_sample(s[2 * j + ch])
                            &&& forall|i: int| lo <= i < k - 1 && !is_nan_sample(#[trigger] s[2 * i + ch]) ==> magnitude(
                                s[2 * i + ch],
                            ) <= magnitude(s[2 * j + ch])
                            &&& forall|i: int| lo <= i < j ==> is_nan_sample(#[trigger] s[2 * i + ch]) || magnitude(
                                s[2 * i + ch],
                            ) < magnitude(s[2 * j + ch])
                        };
                }
            }
            assert(lo <= k - 1 < k && s[2 * (k - 1) + ch] == q);
        } else {
            assert(q == p);
            assert(is_nan_sample(x) || magnitude(x) <= magnitude(p));
            if p == 0 {
                assert(is_nan_sample(x) || magnitude(x) == 0);
            } else {
                let j = choose|j: int|
                    #![trigger s[2 * j + ch]]
                    {
                        &&& lo <= j < k - 1
                        &&& s[2 * j + ch] == p
                        &&& !is_nan_sample(s[2 * j + ch])
                        &&& forall|i: int| lo <= i < k - 1 && !is_nan_sample(#[trigger] s[2 * i + ch]) ==> magnitude(
                            s[2 * i + ch],
                        ) <= magnitude(s[2 * j + ch])
                        &&& forall|i: int| lo <= i < j ==> is_nan_sample(#[trigger] s[2 * i + ch]) || magnitude(
                            s[2 * i + ch],
                        ) < magnitude(s[2 * j + ch])
                    };
                assert(lo <= j < k && s[2 * j + ch] == q);
            }
        }
    }
}

/// The law of `compute_peaks`: each value is the first sample of greatest
/// magnitude, sign kept, of its channel in its bucket, frames
/// `[b * fc / buckets, max((b + 1) * fc / buckets, b * fc / buckets + 1).min(fc))`
/// with `fc` the number of frames (NaN samples skipped; zero for a bucket of
/// zeros and NaNs only).
pub proof fn lemma_bucket_peak_is_first_loudest(s: Seq<u32>, ch: int, b: int, buckets: int)
    ensures
        ({
            let fc = (s.len() / 2) as int;
            let lo = bucket_start(b, fc, buckets);
            let hi = bucket_end(b, fc, buckets);
            let p = bucket_peak(s, ch, b, buckets);
            &&& p == 0 <==> forall|i: int|
                lo <= i < hi ==> is_nan_sample(#[trigger] s[2 * i + ch]) || magnitude(s[2 * i + ch]) == 0
            &&& p != 0 ==> exists|j: int|
                #![trigger s[2 * j + ch]]
                {
                    &&& lo <= j < hi
                    &&& s[2 * j + ch] == p
                    &&& !is_nan_sample(s[2 * j + ch])
                    &&& forall|i: int| lo <= i < hi && !is_nan_sample(#[trigger] s[2 * i + ch]) ==> magnitude(s[2 * i + ch])
                        <= magnitude(s[2 * j + ch])
                    &&& forall|i: int| lo <= i < j ==> is_nan_sample(#[trigger] s[2 * i + ch]) || magnitude(s[2 * i + ch])
                        < magnitude(s[2 * j + ch])
                }
        }),
{
    let fc = (s.len() / 2) as int;
    lemma_peak_is_first_loudest(s, ch, bucket_start(b, fc, buckets), bucket_end(b, fc, buckets));
}

/// The peak of channel `ch` in bucket `b`.
pub open spec fn bucket_peak(s: Seq<u32>, ch: int, b: int, buckets: int) -> u32 {
    let fc = (s.len() / 2) as int;
    peak_upto(s, ch, bucket_start(b, fc, buckets), bucket_end(b, fc, buckets))
}

fn bucket_peak_exec(stereo: &[u32], ch: usize, start: usize, end: usize) -> (p: u32)
    requires
        ch < 2,
        end <= stereo@.len() / 2,
    ensures
        p == peak_upto(stereo@, ch as int, start as int, end as int),
{
    let mut peak: u32 = 0;
    let mut frame = start;
    if start >= end {
        return 0;
    }
    assert(stereo@.len() == stereo.len());
    while frame < end
        invariant
            ch < 2,
            stereo@.len() <= usize::MAX,
            start <= frame <= end,
            end <= stereo@.len() / 2,
            peak == peak_upto(stereo@, ch as int, start as int, frame as int),
        decreases end - frame,
    {
        let x = stereo[2 * frame + ch];
        if sample_louder(x, peak) {
            peak = x;
        }
        frame = frame + 1;
    }
    peak
}

/// Reduces an interleaved stereo buffer to `buckets` signed peaks per channel:
/// one `Vec` for the left channel and one for the right, each holding for
/// every bucket the sample of largest magnitude in it, with its sign. An empty
/// buffer, or zero buckets, gives all-zero peaks.
pub fn compute_peaks(stereo: &[u32], buckets: usize) -> (peaks: Vec<Vec<u32>>)
    ensures
        peaks@.len() == 2,
        peaks@[0]@.len() == buckets,
        peaks@[1]@.len() == buckets,
        forall|ch: int, b: int|
            0 <= ch < 2 && 0 <= b < buckets ==> #[trigger] peaks@[ch]@[b] == (if stereo@.len() / 2 == 0 {
                0u32
            } else {
                bucket_peak(stereo@, ch, b, buckets as int)
            }),
{
    let frame_count = stereo.len() / 2;
    assert(stereo@.len() == stereo.len());
    let mut left_peaks: Vec<u32> = Vec::new();
    let mut right_peaks: Vec<u32> = Vec::new();
    let mut b: usize = 0;
    while b < buckets
        invariant
            b <= buckets,
            frame_count == stereo@.len() / 2,
            stereo@.len() <= usize::MAX,
            left_peaks@.len() == b,
            right_peaks@.len() == b,
            forall|j: int|
                0 <= j < b ==> #[trigger] left_peaks@[j] == (if frame_count == 0 {
                    0u32
                } else {
                    bucket_peak(stereo@, 0, j, buckets as int)
                }),
            forall|j: int|
                0 <= j < b ==> #[trigger] right_peaks@[j] == (if frame_count == 0 {
                    0u32
                } else {
                    bucket_peak(stereo@, 1, j, buckets as int)
                }),
        decreases buckets - b,
    {
        if frame_count == 0 {
            left_peaks.push(0);
            right_peaks.push(0);
        } else {
            // The products are taken in 128 bits, where they cannot overflow.
            let bb = b as u128;
            let fc = frame_count as u128;
            let nb = buckets as u128;
            assert(bb * fc <= (bb + 1) * fc <= nb * fc) by (nonlinear_arith)
                requires
                    bb < nb,
            ;
            assert(bb * fc <= 0xffff_ffff_ffff_ffff * 0xffff_ffff_ffff_ffffu128) by (nonlinear_arith)
                requires
                    bb <= 0xffff_ffff_ffff_ffff,
                    fc <= 0xffff_ffff_ffff_ffff,
            ;
            assert((bb + 1) * fc <= 0xffff_ffff_ffff_ffff * 0xffff_ffff_ffff_ffffu128) by (nonlinear_arith)
                requires
                    bb + 1 <= 0xffff_ffff_ffff_ffff,
                    fc <= 0xffff_ffff_ffff_ffff,
            ;
            assert((bb + 1) * fc / (nb as int) <= fc) by (nonlinear_arith)
                requires
                    (bb + 1) * fc <= nb * fc,
                    nb >= 1,
            ;
            assert(bb * fc / (nb as int) <= (bb + 1) * fc / (nb as int)) by (nonlinear_arith)
                requires
                    bb * fc <= (bb + 1) * fc,
                    nb >= 1,
            ;
            let start = (bb * fc / nb) as usize;
            let e = ((bb + 1) * fc / nb) as usize;
            assert(start == b * frame_count / (buckets as int));
            assert(e == (b + 1) * frame_count / (buckets as int));
            assert(start <= e <= frame_count);
            assert(frame_count < usize::MAX);
            let e1 = if e >= start + 1 { e } else { start + 1 };
            let end = if e1 <= frame_count { e1 } else { frame_count };
            let pl = bucket_peak_exec(stereo, 0, start, end);
            let pr = bucket_peak_exec(stereo, 1, start, end);
            left_peaks.push(pl);
            right_peaks.push(pr);
        }
        b = b + 1;
    }
    let peaks = vec![left_peaks, right_peaks];
    assert(peaks@[0]@ == left_peaks@);
    peaks
}

/// A millisecond position as a frame index at `sample_rate`, rounded down.
pub open spec fn ms_to_frame(ms: u32, sample_rate: u32) -> usize {
    ((ms as int * sample_rate as int) / 1000) as usize
}

/// What `clamp_ms_range_to_frames` returns.
pub open spec fn clamped_frames(start_ms: u32, end_ms: u32, frame_count: usize, sample_rate: u32) -> (usize, usize) {
    let s0 = ms_to_frame(start_ms, sample_rate);
    let start = if s0 <= frame_count { s0 } else { frame_count };
    let e0 = ms_to_frame(end_ms, sample_rate);
    let e1 = if e0 <= frame_count { e0 } else { frame_count };
    let end = if e1 >= start { e1 } else { start };
    (start, end)
}

pub(crate) fn exec_ms_to_frame(ms: u32, sample_rate: u32) -> (f: usize)
    ensures
        f == ms_to_frame(ms, sample_rate),
        f as int <= (ms as int * sample_rate as int) / 1000,
{
    assert(ms as int * sample_rate as int <= u64::MAX) by (nonlinear_arith);
    let product: u64 = ms as u64 * sample_rate as u64;
    let q: u64 = product / 1000;
    assert((q as usize) as u64 <= q) by (bit_vector);
    q as usize
}

/// Converts a millisecond range to a frame range, clamped against the real
/// length of the buffer: neither bound ever exceeds `frame_count`, whatever
/// milliseconds arrive, and the range is never inverted.
pub fn clamp_ms_range_to_frames(start_ms: u32, end_ms: u32, frame_count: usize, sample_rate: u32) -> (r: (
    usize,
    usize,
))
    ensures
        r == clamped_frames(start_ms, end_ms, frame_count, sample_rate),
        r.0 <= r.1 <= frame_count,
{
    let s0 = exec_ms_to_frame(start_ms, sample_rate);
    let start = if s0 <= frame_count { s0 } else { frame_count };
    let e0 = exec_ms_to_frame(end_ms, sample_rate);
    let e1 = if e0 <= frame_count { e0 } else { frame_count };
    let end = if e1 >= start { e1 } else { start };
    (start, end)
}

} // verus!
