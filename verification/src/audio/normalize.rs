use vstd::prelude::*;

use super::trim::{
    exec_ms_to_frame, ms_to_frame, slice_stereo, sliced, snap_to_zero_crossing, snapped,
    TrimError, TrimRegion, ZERO_CROSSING_SEARCH_FRAMES,
};

verus! {

/// Sample rate of every stored pad and of every buffer handed to the player.
pub const TARGET_SAMPLE_RATE: u32 = 48_000;

// ---------------------------------------------------------------------------
// Channel layout
// ---------------------------------------------------------------------------

/// The first two samples of each consecutive chunk of `n` samples (the last
/// chunk may be shorter, but never a single sample).
pub open spec fn chunk_heads(s: Seq<u32>, n: nat) -> Seq<u32>
    decreases s.len(),
{
    if s.len() == 0 || n == 0 {
        Seq::empty()
    } else {
        let rest = if s.len() <= n { Seq::<u32>::empty() } else { s.skip(n as int) };
        seq![s[0], s[1]] + chunk_heads(rest, n)
    }
}

/// What `to_stereo` makes of interleaved samples with `channels` channels:
/// mono duplicated to left and right, more than two channels cut to the first
/// two, stereo unchanged, zero channels to nothing.
pub open spec fn stereo_of(s: Seq<u32>, channels: nat) -> Seq<u32> {
    if channels == 1 {
        Seq::new(2 * s.len(), |i: int| s[i / 2])
    } else if channels >= 2 {
        chunk_heads(s, channels)
    } else {
        Seq::empty()
    }
}

/// The inputs on which `to_stereo` does not read past the buffer: with two or
/// more channels, the last chunk is not a single sample.
pub open spec fn stereo_input_ok(len: nat, channels: nat) -> bool {
    channels >= 2 ==> len % channels != 1
}

proof fn lemma_chunk_heads_stereo(s: Seq<u32>)
    requires
        s.len() % 2 != 1,
    ensures
        chunk_heads(s, 2) == s,
    decreases s.len(),
{
    if s.len() > 0 {
        let rest = if s.len() <= 2 { Seq::<u32>::empty() } else { s.skip(2) };
        assert(rest.len() % 2 != 1);
        lemma_chunk_heads_stereo(rest);
        assert(s =~= seq![s[0], s[1]] + rest);
    }
}

proof fn lemma_chunk_heads_layout(s: Seq<u32>, n: nat)
    requires
        n >= 2,
        s.len() % n != 1,
    ensures
        chunk_heads(s, n).len() == 2 * ((s.len() + n - 1) / (n as int)),
        forall|f: int|
            0 <= f < (s.len() + n - 1) / (n as int) ==> #[trigger] chunk_heads(s, n)[2 * f] == s[f * n] && chunk_heads(s, n)[2
                * f + 1] == s[f * n + 1],
    decreases s.len(),
{
    let len = s.len();
    if len == 0 {
        assert((len + n - 1) / (n as int) == 0) by (nonlinear_arith)
            requires
                len == 0,
                n >= 2,
        ;
    } else {
        assert(len >= 2) by {
            if len == 1 {
                assert(len % n == 1) by (nonlinear_arith)
                    requires
                        len == 1,
                        n >= 2,
                ;
            }
        }
        let rest = if len <= n { Seq::<u32>::empty() } else { s.skip(n as int) };
        let out = chunk_heads(s, n);
        let tail = chunk_heads(rest, n);
        assert(out == seq![s[0], s[1]] + tail);
        if len <= n {
            assert((len + n - 1) / (n as int) == 1) by (nonlinear_arith)
                requires
                    1 <= len <= n,
            ;
            assert(tail.len() == 0);
        } else {
            assert(rest.len() == len - n);
            assert(rest.len() % n != 1) by (nonlinear_arith)
                requires
                    rest.len() == len - n,
                    len % n != 1,
                    len > n,
                    n >= 2,
            ;
            lemma_chunk_heads_layout(rest, n);
            assert((len + n - 1) / (n as int) == (rest.len() + n - 1) / (n as int) + 1) by (nonlinear_arith)
                requires
                    rest.len() == len - n,
                    n >= 2,
                    len > n,
            ;
            assert forall|f: int| 1 <= f < (len + n - 1) / (n as int) implies #[trigger] out[2 * f] == s[f * n] && out[2 * f + 1]
                == s[f * n + 1] by {
                assert(f * n < len) by (nonlinear_arith)
                    requires
                        f < (len + n - 1) / (n as int),
                        n >= 2,
                ;
                assert(f * n + 1 != len) by (nonlinear_arith)
                    requires
                        len % n != 1,
                        n >= 2,
                        f >= 0,
                ;
                assert((f - 1) * n + n == f * n) by (nonlinear_arith);
                assert(out[2 * f] == tail[2 * (f - 1)]);
                assert(out[2 * f + 1] == tail[2 * (f - 1) + 1]);
                assert(tail[2 * (f - 1)] == rest[(f - 1) * n]);
                assert((f - 1) * n + n == f * n) by (nonlinear_arith);
                assert(rest[(f - 1) * n] == s[f * n]);
                assert(rest[(f - 1) * n + 1] == s[f * n + 1]);
            }
        }
        assert(out[0] == s[0 * (n as int)]);
        assert(out[1] == s[0 * (n as int) + 1]);
    }
}

/// The stereo layout of imported audio: a mono sample goes to both the left
/// and the right channel of its frame; with two or more channels, frame `f`
/// keeps the first two samples of input frame `f` (the rest are dropped), and
/// there is one output frame per input frame (a last, shorter frame counts);
/// zero channels give nothing.
pub proof fn lemma_to_stereo_layout(s: Seq<u32>, channels: nat)
    requires
        stereo_input_ok(s.len(), channels),
    ensures
        channels == 0 ==> stereo_of(s, channels).len() == 0,
        channels == 1 ==> stereo_of(s, channels).len() == 2 * s.len() && forall|i: int|
            0 <= i < s.len() ==> #[trigger] stereo_of(s, channels)[2 * i] == s[i] && stereo_of(s, channels)[2 * i + 1]
                == s[i],
        channels >= 2 ==> stereo_of(s, channels).len() == 2 * ((s.len() + channels - 1) / (channels as int)) && forall|f: int|
            0 <= f < (s.len() + channels - 1) / (channels as int) ==> #[trigger] stereo_of(s, channels)[2 * f] == s[f
                * channels] && stereo_of(s, channels)[2 * f + 1] == s[f * channels + 1],
{
    if channels == 1 {
        assert forall|i: int| 0 <= i < s.len() implies #[trigger] stereo_of(s, channels)[2 * i] == s[i] && stereo_of(
            s,
            channels,
        )[2 * i + 1] == s[i] by {
            assert((2 * i) / 2 == i);
            assert((2 * i + 1) / 2 == i);
        }
    } else if channels >= 2 {
        lemma_chunk_heads_layout(s, channels);
    }
}

/// Stereo input comes back unchanged.
pub proof fn lemma_to_stereo_keeps_stereo(s: Seq<u32>)
    requires
        s.len() % 2 == 0,
    ensures
        stereo_of(s, 2) == s,
{
    lemma_chunk_heads_stereo(s);
}

/// Brings interleaved samples to stereo: mono is duplicated to both channels,
/// more than two channels keep only the first two.
pub fn to_stereo(samples: &[u32], channels: u8) -> (out: Vec<u32>)
    requires
        stereo_input_ok(samples@.len(), channels as nat),
    ensures
        out@ == stereo_of(samples@, channels as nat),
{
    let len = samples.len();
    let mut out: Vec<u32> = Vec::new();
    if channels == 1 {
        let mut k: usize = 0;
        while k < len
            invariant
                len == samples@.len(),
                k <= len,
                out@ =~= Seq::new(2 * k as nat, |i: int| samples@[i / 2]),
            decreases len - k,
        {
            let x = samples[k];
            out.push(x);
            out.push(x);
            k = k + 1;
        }
    } else if channels >= 2 {
        let n = channels as usize;
        let mut pos: usize = 0;
        let mut done = len == 0;
        assert(samples@.skip(0) =~= samples@);
        assert(out@ + chunk_heads(samples@, n as nat) =~= chunk_heads(samples@, n as nat));
        while !done
            invariant
                len == samples@.len(),
                n == channels as usize,
                n >= 2,
                stereo_input_ok(len as nat, n as nat),
                done ==> pos == len,
                !done ==> pos < len && (len - pos) % (n as int) != 1,
                out@ + chunk_heads(samples@.skip(pos as int), n as nat) == chunk_heads(samples@, n as nat),
            decreases len - pos,
        {
            let rest_len = len - pos;
            assert(rest_len >= 2) by {
                if rest_len == 1 {
                    assert((1int) % (n as int) == 1) by (nonlinear_arith)
                        requires
                            n >= 2,
                    ;
                }
            }
            out.push(samples[pos]);
            out.push(samples[pos + 1]);
            proof {
                let t = samples@.skip(pos as int);
                let rest = if t.len() <= n { Seq::<u32>::empty() } else { t.skip(n as int) };
                assert(chunk_heads(t, n as nat) == seq![t[0], t[1]] + chunk_heads(rest, n as nat));
                if rest_len > n {
                    assert(rest =~= samples@.skip(pos + n));
                    assert((len - (pos + n)) % (n as int) != 1) by (nonlinear_arith)
                        requires
                            (len - pos) % (n as int) != 1,
                            len - pos > n,
                            n >= 2,
                    ;
                } else {
                    assert(rest =~= samples@.skip(len as int));
                }
            }
            if rest_len <= n {
                pos = len;
                done = true;
            } else {
                pos = pos + n;
            }
        }
        assert(samples@.skip(len as int) =~= Seq::<u32>::empty());
        assert(out@ =~= out@ + chunk_heads(Seq::<u32>::empty(), n as nat));
    }
    out
}

// ---------------------------------------------------------------------------
// Trim step of the import pipeline
// ---------------------------------------------------------------------------

/// What `trim_stereo` keeps of a stereo buffer: everything without a region;
/// otherwise both edges of the region, converted to frames at 48 kHz and
/// snapped to the nearest zero crossing, cut out of the buffer.
pub open spec fn trimmed(s: Seq<u32>, trim: Option<TrimRegion>) -> Result<Seq<u32>, TrimError> {
    match trim {
        None => Ok(s),
        Some(region) => {
            let start = snapped(s, ms_to_frame(region.start_ms, TARGET_SAMPLE_RATE) as int, ZERO_CROSSING_SEARCH_FRAMES as int);
            let end = snapped(s, ms_to_frame(region.end_ms, TARGET_SAMPLE_RATE) as int, ZERO_CROSSING_SEARCH_FRAMES as int);
            sliced(s, start, end)
        },
    }
}

/// The trim step of an import: with a region, its edges are snapped to the
/// nearest zero crossing and only that range is kept. Trimming happens before
/// the loudness of the pad is measured.
pub fn trim_stereo(stereo: Vec<u32>, trim: Option<TrimRegion>) -> (r: Result<Vec<u32>, TrimError>)
    ensures
        match r {
            Ok(v) => trimmed(stereo@, trim) == Ok::<Seq<u32>, TrimError>(v@),
            Err(e) => trimmed(stereo@, trim) == Err::<Seq<u32>, TrimError>(e),
        },
{
    match trim {
        None => Ok(stereo),
        Some(region) => {
            assert(stereo@.len() == stereo.len());
            let start_frame = exec_ms_to_frame(region.start_ms, TARGET_SAMPLE_RATE);
            let end_frame = exec_ms_to_frame(region.end_ms, TARGET_SAMPLE_RATE);
            let start = snap_to_zero_crossing(stereo.as_slice(), start_frame, ZERO_CROSSING_SEARCH_FRAMES);
            let end = snap_to_zero_crossing(stereo.as_slice(), end_frame, ZERO_CROSSING_SEARCH_FRAMES);
            slice_stereo(stereo.as_slice(), start, end)
        },
    }
}

} // verus!
