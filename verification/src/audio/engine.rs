use vstd::prelude::*;

use super::devices::{negotiable, negotiate_config, negotiated, ConfigChoice, SupportedRange};
use super::playback::{decide_trigger_action, trigger_action, TriggerAction};
use crate::models::RetriggerMode;
use crate::text::{owned, same_text};

verus! {

/// Sample rate that the output stream asks the device for.
pub const TARGET_SAMPLE_RATE: u32 = 48_000;

/// Buffer size, in frames, that the output stream asks the device for.
pub const TARGET_BUFFER_FRAMES: u32 = 256;

/// Most voices of one pad that may sound at once in Overlap mode.
pub const MAX_OVERLAP_VOICES: usize = 8;

#[derive(Debug, PartialEq)]
pub enum EngineError {
    /// The audio device or its backend failed; the text says how.
    Backend(String),
    /// The pad with this id was never loaded into memory.
    NotPreloaded(String),
}

/// What triggering a pad did.
#[derive(Debug, Clone, Copy, PartialEq, Eq, Structural)]
pub enum PlayOutcome {
    /// A new voice started (a plain trigger, a restart, or an overlap).
    Started,
    /// Stop mode while already sounding: it stopped and nothing new started.
    StoppedOnly,
    /// Ignore mode while already sounding: nothing happened.
    Ignored,
}

/// Time left of the newest voice of a pad that is sounding.
#[derive(Debug, PartialEq)]
pub struct PadTick {
    pub pad_id: String,
    pub remaining_ms: i64,
}

/// Interleaved stereo samples paired into frames (left, right); a trailing
/// lone sample is dropped. Samples are `f32` bit patterns and pass unchanged.
pub fn stereo_to_frames(stereo: &[u32]) -> (frames: Vec<(u32, u32)>)
    ensures
        frames@.len() == stereo@.len() / 2,
        forall|i: int|
            0 <= i < frames@.len() ==> #[trigger] frames@[i] == (stereo@[2 * i], stereo@[2 * i + 1]),
{
    let n: usize = stereo.len() / 2;
    assert(2 * n <= stereo@.len()) by (nonlinear_arith)
        requires
            n == stereo@.len() / 2,
    ;
    let mut frames: Vec<(u32, u32)> = Vec::new();
    let mut i: usize = 0;
    while i < n
        invariant
            n == stereo@.len() / 2,
            2 * n <= stereo@.len() <= usize::MAX,
            i <= n,
            frames@.len() == i,
            forall|k: int| 0 <= k < i ==> #[trigger] frames@[k] == (stereo@[2 * k], stereo@[2 * k + 1]),
        decreases n - i,
    {
        let left: usize = 2 * i;
        frames.push((stereo[left], stereo[left + 1]));
        i = i + 1;
    }
    frames
}

/// What the output stream asks for: 48 kHz with a 256-frame buffer when the
/// device reports no supported range, else the configuration that
/// `negotiate_config` picks for those targets.
pub open spec fn stream_choice(ranges: Seq<SupportedRange>) -> ConfigChoice {
    if ranges.len() == 0 {
        ConfigChoice { sample_rate: TARGET_SAMPLE_RATE, buffer_frames: TARGET_BUFFER_FRAMES, matches_target: false }
    } else {
        negotiated(ranges, TARGET_SAMPLE_RATE, TARGET_BUFFER_FRAMES)
    }
}

/// The stream configuration to open a device with, from the ranges it supports.
pub fn stream_config_choice(ranges: &[SupportedRange]) -> (choice: ConfigChoice)
    requires
        ranges@.len() == 0 || negotiable(ranges@, TARGET_SAMPLE_RATE),
    ensures
        choice == stream_choice(ranges@),
{
    if ranges.len() == 0 {
        ConfigChoice { sample_rate: TARGET_SAMPLE_RATE, buffer_frames: TARGET_BUFFER_FRAMES, matches_target: false }
    } else {
        negotiate_config(ranges, TARGET_SAMPLE_RATE, TARGET_BUFFER_FRAMES)
    }
}

// ---------------------------------------------------------------------------
// Voice bookkeeping
// ---------------------------------------------------------------------------

/// One sounding instance of a pad: an id that the player gives to the sound
/// it started, and the length of the pad in milliseconds.
#[derive(Debug, Clone, Copy, PartialEq, Eq, Structural)]
pub struct Voice {
    pub id: u64,
    pub duration_ms: u32,
}

/// The voices of one pad, oldest first.
pub struct PadVoices {
    pub pad_id: String,
    pub voices: Vec<Voice>,
}

/// The voices that are sounding, per pad, oldest first, so that Overlap mode
/// knows which one to evict at the cap. Holds no sound itself: the player
/// keeps the sounds by voice id and acts on what these methods return.
pub struct VoiceBook {
    entries: Vec<PadVoices>,
}

/// What the player must do after a trigger: stop these voices, then start the
/// new voice when `start` says so.
pub struct TriggerPlan {
    pub outcome: PlayOutcome,
    pub stop: Vec<u64>,
    pub start: bool,
}

/// The newest voice of a pad that is still sounding.
pub struct SoundingPad {
    pub pad_id: String,
    pub newest: Voice,
}

pub type Entries = Seq<(Seq<char>, Seq<Voice>)>;

pub open spec fn entry_view(e: PadVoices) -> (Seq<char>, Seq<Voice>) {
    (e.pad_id@, e.voices@)
}

pub open spec fn entries_view(s: Seq<PadVoices>) -> Entries {
    s.map_values(|e: PadVoices| entry_view(e))
}

/// No pad appears twice, and each listed pad has between one and
/// `MAX_OVERLAP_VOICES` voices.
pub open spec fn entries_ok(v: Entries) -> bool {
    &&& forall|i: int, j: int| 0 <= i < j < v.len() ==> #[trigger] v[i].0 != #[trigger] v[j].0
    &&& forall|i: int| 0 <= i < v.len() ==> 1 <= #[trigger] v[i].1.len() <= MAX_OVERLAP_VOICES
}

pub open spec fn pad_index_from(v: Entries, pad: Seq<char>, j: int) -> int
    decreases v.len() - j,
{
    if j < 0 || j >= v.len() {
        -1
    } else if v[j].0 == pad {
        j
    } else {
        pad_index_from(v, pad, j + 1)
    }
}

/// The voices of `pad`, oldest first; empty when it is silent.
pub open spec fn voices_of(v: Entries, pad: Seq<char>) -> Seq<Voice> {
    let i = pad_index_from(v, pad, 0);
    if i >= 0 { v[i].1 } else { Seq::empty() }
}

/// The ids of some voices, in order.
pub open spec fn voice_ids(s: Seq<Voice>) -> Seq<u64> {
    s.map_values(|x: Voice| x.id)
}

/// All voice ids of a book, pad by pad.
pub open spec fn all_voice_ids(v: Entries) -> Seq<u64>
    decreases v.len(),
{
    if v.len() == 0 {
        Seq::empty()
    } else {
        voice_ids(v[0].1) + all_voice_ids(v.drop_first())
    }
}

/// The voices of a pad after a trigger in `mode` with the new voice `voice`.
pub open spec fn voices_after_trigger(old: Seq<Voice>, mode: RetriggerMode, voice: Voice) -> Seq<Voice> {
    match trigger_action(mode, old.len(), MAX_OVERLAP_VOICES as nat) {
        TriggerAction::Start => seq![voice],
        TriggerAction::StopOnly => Seq::empty(),
        TriggerAction::RestartFromBeginning => seq![voice],
        TriggerAction::DoNothing => old,
        TriggerAction::AddOverlap { evict_oldest } => if evict_oldest {
            old.drop_first().push(voice)
        } else {
            old.push(voice)
        },
    }
}

/// The voices that a trigger in `mode` stops.
pub open spec fn stopped_by_trigger(old: Seq<Voice>, mode: RetriggerMode) -> Seq<u64> {
    match trigger_action(mode, old.len(), MAX_OVERLAP_VOICES as nat) {
        TriggerAction::StopOnly => voice_ids(old),
        TriggerAction::RestartFromBeginning => voice_ids(old),
        TriggerAction::AddOverlap { evict_oldest } => if evict_oldest { seq![old[0].id] } else { Seq::empty() },
        _ => Seq::empty(),
    }
}

/// The outcome that a trigger action reports.
pub open spec fn outcome_of(action: TriggerAction) -> PlayOutcome {
    match action {
        TriggerAction::StopOnly => PlayOutcome::StoppedOnly,
        TriggerAction::DoNothing => PlayOutcome::Ignored,
        _ => PlayOutcome::Started,
    }
}

/// What a trigger does to a pad's voices, by retrigger mode: an idle pad
/// always starts with the new voice alone; while sounding, Stop stops every
/// voice and starts nothing, Restart stops every voice and starts the new one
/// alone, Ignore changes nothing, and Overlap adds the new voice after the
/// others, evicting (and stopping) the oldest first when the pad already has
/// `MAX_OVERLAP_VOICES`. A pad never ends with more than `MAX_OVERLAP_VOICES`.
pub proof fn lemma_retrigger_rules(old: Seq<Voice>, mode: RetriggerMode, voice: Voice)
    requires
        old.len() <= MAX_OVERLAP_VOICES,
    ensures
        ({
            let new = voices_after_trigger(old, mode, voice);
            let stop = stopped_by_trigger(old, mode);
            let out = outcome_of(trigger_action(mode, old.len(), MAX_OVERLAP_VOICES as nat));
            let all_old_ids = stop.len() == old.len() && forall|i: int| 0 <= i < old.len() ==> #[trigger] stop[i] == old[i].id;
            &&& new.len() <= MAX_OVERLAP_VOICES
            &&& old.len() == 0 ==> new == seq![voice] && stop.len() == 0 && out == PlayOutcome::Started
            &&& (old.len() > 0 && mode == RetriggerMode::Stop) ==> new.len() == 0 && all_old_ids && out
                == PlayOutcome::StoppedOnly
            &&& (old.len() > 0 && mode == RetriggerMode::Restart) ==> new == seq![voice] && all_old_ids && out
                == PlayOutcome::Started
            &&& (old.len() > 0 && mode == RetriggerMode::Ignore) ==> new == old && stop.len() == 0 && out
                == PlayOutcome::Ignored
            &&& (old.len() > 0 && mode == RetriggerMode::Overlap && old.len() < MAX_OVERLAP_VOICES) ==> new == old.push(
                voice,
            ) && stop.len() == 0 && out == PlayOutcome::Started
            &&& (mode == RetriggerMode::Overlap && old.len() == MAX_OVERLAP_VOICES) ==> new == old.subrange(
                1,
                old.len() as int,
            ).push(voice) && stop == seq![old[0].id] && out == PlayOutcome::Started
        }),
{
    assert(old.drop_first() =~= old.subrange(1, old.len() as int));
}

/// Every pad has at most `MAX_OVERLAP_VOICES` voices.
pub open spec fn within_cap(v: Entries) -> bool {
    forall|pad: Seq<char>| #[trigger] voices_of(v, pad).len() <= MAX_OVERLAP_VOICES
}

proof fn lemma_pad_index_from(v: Entries, pad: Seq<char>, j: int)
    requires
        0 <= j,
    ensures
        pad_index_from(v, pad, j) == -1 ==> forall|k: int| j <= k < v.len() ==> #[trigger] v[k].0 != pad,
        pad_index_from(v, pad, j) != -1 ==> j <= pad_index_from(v, pad, j) < v.len() && v[pad_index_from(
            v,
            pad,
            j,
        )].0 == pad,
    decreases v.len() - j,
{
    if 0 <= j < v.len() && v[j].0 != pad {
        lemma_pad_index_from(v, pad, j + 1);
    }
}

/// In a book without repeated pads, the voices of the pad of entry `i` are
/// those of entry `i`.
proof fn lemma_voices_at(v: Entries, i: int)
    requires
        entries_ok(v),
        0 <= i < v.len(),
    ensures
        voices_of(v, v[i].0) == v[i].1,
{
    lemma_pad_index_from(v, v[i].0, 0);
    let k = pad_index_from(v, v[i].0, 0);
    if k != i {
        if k < i {
            assert(v[k].0 != v[i].0);
        } else {
            assert(v[i].0 != v[k].0);
        }
    }
}

/// A pad that no entry names has no voices.
proof fn lemma_voices_absent(v: Entries, pad: Seq<char>)
    requires
        forall|k: int| 0 <= k < v.len() ==> #[trigger] v[k].0 != pad,
    ensures
        voices_of(v, pad) == Seq::<Voice>::empty(),
{
    lemma_pad_index_from(v, pad, 0);
}

/// The voices of any pad in a well-formed book, by cases.
proof fn lemma_voices_cases(v: Entries, pad: Seq<char>)
    requires
        entries_ok(v),
    ensures
        (exists|i: int| 0 <= i < v.len() && #[trigger] v[i].0 == pad && voices_of(v, pad) == v[i].1)
            || (voices_of(v, pad) == Seq::<Voice>::empty() && forall|k: int| 0 <= k < v.len() ==> #[trigger] v[k].0 != pad),
{
    lemma_pad_index_from(v, pad, 0);
    let k = pad_index_from(v, pad, 0);
    if k >= 0 {
        lemma_voices_at(v, k);
    }
}

proof fn lemma_entries_ok_cap(v: Entries)
    requires
        entries_ok(v),
    ensures
        within_cap(v),
{
    assert forall|pad: Seq<char>| #[trigger] voices_of(v, pad).len() <= MAX_OVERLAP_VOICES by {
        lemma_voices_cases(v, pad);
    }
}

proof fn lemma_remove_entry(v: Entries, i: int)
    requires
        entries_ok(v),
        0 <= i < v.len(),
    ensures
        entries_ok(v.remove(i)),
        voices_of(v.remove(i), v[i].0) == Seq::<Voice>::empty(),
        forall|q: Seq<char>| q != v[i].0 ==> #[trigger] voices_of(v.remove(i), q) == voices_of(v, q),
{
    let w = v.remove(i);
    assert(entries_ok(w)) by {
        assert forall|a: int, b: int| 0 <= a < b < w.len() implies #[trigger] w[a].0 != #[trigger] w[b].0 by {
            let a0 = if a < i { a } else { a + 1 };
            let b0 = if b < i { b } else { b + 1 };
            assert(w[a] == v[a0] && w[b] == v[b0]);
        }
        assert forall|a: int| 0 <= a < w.len() implies 1 <= #[trigger] w[a].1.len() <= MAX_OVERLAP_VOICES by {
            let a0 = if a < i { a } else { a + 1 };
            assert(w[a] == v[a0]);
        }
    }
    assert forall|k: int| 0 <= k < w.len() implies #[trigger] w[k].0 != v[i].0 by {
        let k0 = if k < i { k } else { k + 1 };
        assert(w[k] == v[k0]);
    }
    lemma_voices_absent(w, v[i].0);
    assert forall|q: Seq<char>| q != v[i].0 implies #[trigger] voices_of(w, q) == voices_of(v, q) by {
        lemma_voices_cases(v, q);
        if exists|k: int| 0 <= k < v.len() && #[trigger] v[k].0 == q && voices_of(v, q) == v[k].1 {
            let k = choose|k: int| 0 <= k < v.len() && #[trigger] v[k].0 == q && voices_of(v, q) == v[k].1;
            let k1 = if k < i { k } else { k - 1 };
            assert(w[k1] == v[k]);
            lemma_voices_at(w, k1);
        } else {
            assert forall|k: int| 0 <= k < w.len() implies #[trigger] w[k].0 != q by {
                let k0 = if k < i { k } else { k + 1 };
                assert(w[k] == v[k0]);
            }
            lemma_voices_absent(w, q);
        }
    }
}

proof fn lemma_insert_entry(v: Entries, i: int, e: (Seq<char>, Seq<Voice>))
    requires
        entries_ok(v),
        0 <= i <= v.len(),
        forall|k: int| 0 <= k < v.len() ==> #[trigger] v[k].0 != e.0,
        1 <= e.1.len() <= MAX_OVERLAP_VOICES,
    ensures
        entries_ok(v.insert(i, e)),
        voices_of(v.insert(i, e), e.0) == e.1,
        forall|q: Seq<char>| q != e.0 ==> #[trigger] voices_of(v.insert(i, e), q) == voices_of(v, q),
{
    let w = v.insert(i, e);
    assert(entries_ok(w)) by {
        assert forall|a: int, b: int| 0 <= a < b < w.len() implies #[trigger] w[a].0 != #[trigger] w[b].0 by {
            if a != i && b != i {
                let a0 = if a < i { a } else { a - 1 };
                let b0 = if b < i { b } else { b - 1 };
                assert(w[a] == v[a0] && w[b] == v[b0]);
            } else if a == i {
                assert(w[b] == v[b - 1]);
            } else {
                assert(w[a] == v[a]);
            }
        }
        assert forall|a: int| 0 <= a < w.len() implies 1 <= #[trigger] w[a].1.len() <= MAX_OVERLAP_VOICES by {
            if a != i {
                let a0 = if a < i { a } else { a - 1 };
                assert(w[a] == v[a0]);
            }
        }
    }
    assert(w[i] == e);
    lemma_voices_at(w, i);
    assert forall|q: Seq<char>| q != e.0 implies #[trigger] voices_of(w, q) == voices_of(v, q) by {
        lemma_voices_cases(v, q);
        if exists|k: int| 0 <= k < v.len() && #[trigger] v[k].0 == q && voices_of(v, q) == v[k].1 {
            let k = choose|k: int| 0 <= k < v.len() && #[trigger] v[k].0 == q && voices_of(v, q) == v[k].1;
            let k1 = if k < i { k } else { k + 1 };
            assert(w[k1] == v[k]);
            lemma_voices_at(w, k1);
        } else {
            assert forall|k: int| 0 <= k < w.len() implies #[trigger] w[k].0 != q by {
                if k != i {
                    let k0 = if k < i { k } else { k - 1 };
                    assert(w[k] == v[k0]);
                }
            }
            lemma_voices_absent(w, q);
        }
    }
}

fn ids_of(voices: &Vec<Voice>) -> (ids: Vec<u64>)
    ensures
        ids@ == voice_ids(voices@),
{
    let mut ids: Vec<u64> = Vec::new();
    let mut k: usize = 0;
    while k < voices.len()
        invariant
            k <= voices@.len(),
            ids@ == voice_ids(voices@.take(k as int)),
        decreases voices@.len() - k,
    {
        ids.push(voices[k].id);
        proof {
            assert(voice_ids(voices@.take(k + 1)) =~= voice_ids(voices@.take(k as int)).push(voices@[k as int].id));
        }
        k = k + 1;
    }
    assert(voices@.take(k as int) =~= voices@);
    ids
}

fn find_entry(entries: &Vec<PadVoices>, pad: &String) -> (r: Option<usize>)
    ensures
        match r {
            Some(i) => i < entries@.len() && entries_view(entries@)[i as int].0 == pad@,
            None => forall|k: int| 0 <= k < entries@.len() ==> #[trigger] entries_view(entries@)[k].0 != pad@,
        },
{
    let mut j: usize = 0;
    while j < entries.len()
        invariant
            j <= entries@.len(),
            forall|k: int| 0 <= k < j ==> #[trigger] entries_view(entries@)[k].0 != pad@,
        decreases entries@.len() - j,
    {
        if same_text(&entries[j].pad_id, pad) {
            return Some(j);
        }
        j = j + 1;
    }
    None
}

/// The voices of a book after a poll, the newest voice of each pad still
/// sounding, and the pads that fell silent, in book order.
pub struct PollView {
    pub entries: Entries,
    pub sounding: Seq<(Seq<char>, Voice)>,
    pub silenced: Seq<Seq<char>>,
}

/// A voice that has not stopped.
pub open spec fn live(stopped: Seq<u64>) -> spec_fn(Voice) -> bool {
    |x: Voice| !stopped.contains(x.id)
}

/// What a poll makes of a book, given the ids of the voices that stopped:
/// each pad keeps its voices that did not stop; a pad left without any is
/// dropped and reported silent; for the others, the newest voice left is
/// reported.
pub open spec fn poll_spec(v: Entries, stopped: Seq<u64>) -> PollView
    decreases v.len(),
{
    if v.len() == 0 {
        PollView { entries: Seq::empty(), sounding: Seq::empty(), silenced: Seq::empty() }
    } else {
        let p = poll_spec(v.drop_last(), stopped);
        let e = v.last();
        let kept = e.1.filter(live(stopped));
        if kept.len() == 0 {
            PollView { silenced: p.silenced.push(e.0), ..p }
        } else {
            PollView {
                entries: p.entries.push((e.0, kept)),
                sounding: p.sounding.push((e.0, kept.last())),
                silenced: p.silenced,
            }
        }
    }
}

pub open spec fn sounding_view(s: Seq<SoundingPad>) -> Seq<(Seq<char>, Voice)> {
    s.map_values(|x: SoundingPad| (x.pad_id@, x.newest))
}

pub open spec fn strings_view(s: Seq<String>) -> Seq<Seq<char>> {
    s.map_values(|x: String| x@)
}

/// The pads of a book, in order.
pub open spec fn pads_of(v: Entries) -> Seq<Seq<char>> {
    v.map_values(|e: (Seq<char>, Seq<Voice>)| e.0)
}

/// The pads of the sounding voices, in order.
pub open spec fn sounding_pads(s: Seq<(Seq<char>, Voice)>) -> Seq<Seq<char>> {
    s.map_values(|e: (Seq<char>, Voice)| e.0)
}

proof fn lemma_pads_distinct(v: Entries)
    requires
        entries_ok(v),
    ensures
        pads_of(v).no_duplicates(),
{
    assert forall|i: int, j: int| 0 <= i < pads_of(v).len() && 0 <= j < pads_of(v).len() && i != j implies
        pads_of(v)[i] != pads_of(v)[j] by {
        if i < j {
            assert(v[i].0 != v[j].0);
        } else {
            assert(v[j].0 != v[i].0);
        }
    }
}

proof fn lemma_poll_distinct(v: Entries, stopped: Seq<u64>)
    requires
        entries_ok(v),
    ensures
        poll_spec(v, stopped).silenced.no_duplicates(),
        sounding_pads(poll_spec(v, stopped).sounding).no_duplicates(),
        forall|x: Seq<char>| poll_spec(v, stopped).silenced.contains(x) ==> pads_of(v).contains(x),
        forall|x: Seq<char>| sounding_pads(poll_spec(v, stopped).sounding).contains(x) ==> pads_of(v).contains(x),
    decreases v.len(),
{
    if v.len() > 0 {
        let w = v.drop_last();
        assert(entries_ok(w)) by {
            assert forall|i: int, j: int| 0 <= i < j < w.len() implies #[trigger] w[i].0 != #[trigger] w[j].0 by {
                assert(v[i].0 != v[j].0);
            }
            assert forall|i: int| 0 <= i < w.len() implies 1 <= #[trigger] w[i].1.len() <= MAX_OVERLAP_VOICES by {
                assert(w[i] == v[i]);
            }
        }
        lemma_poll_distinct(w, stopped);
        let p = poll_spec(w, stopped);
        let e = v.last();
        assert forall|x: Seq<char>| pads_of(w).contains(x) implies x != e.0 && pads_of(v).contains(x) by {
            let k = choose|k: int| 0 <= k < pads_of(w).len() && pads_of(w)[k] == x;
            assert(v[k].0 != v[v.len() - 1].0);
            assert(pads_of(v)[k] == x);
        }
        assert(pads_of(v)[v.len() - 1] == e.0);
        let kept = e.1.filter(live(stopped));
        if kept.len() == 0 {
            let sil = p.silenced.push(e.0);
            assert forall|i: int, j: int| 0 <= i < sil.len() && 0 <= j < sil.len() && i != j implies sil[i] != sil[j] by {
                if i < p.silenced.len() {
                    assert(sil[i] == p.silenced[i]);
                    assert(p.silenced.contains(sil[i]));
                    assert(pads_of(w).contains(sil[i]));
                }
                if j < p.silenced.len() {
                    assert(sil[j] == p.silenced[j]);
                    assert(p.silenced.contains(sil[j]));
                    assert(pads_of(w).contains(sil[j]));
                }
            }
            assert forall|x: Seq<char>| sil.contains(x) implies pads_of(v).contains(x) by {
                let k = choose|k: int| 0 <= k < sil.len() && sil[k] == x;
                if k < p.silenced.len() {
                    assert(p.silenced.contains(x));
                }
            }
        } else {
            let snd = p.sounding.push((e.0, kept.last()));
            assert(sounding_pads(snd) =~= sounding_pads(p.sounding).push(e.0));
            let sp = sounding_pads(snd);
            let sp0 = sounding_pads(p.sounding);
            assert forall|i: int, j: int| 0 <= i < sp.len() && 0 <= j < sp.len() && i != j implies sp[i] != sp[j] by {
                if i < sp0.len() {
                    assert(sp[i] == sp0[i]);
                    assert(sp0.contains(sp[i]));
                    assert(pads_of(w).contains(sp[i]));
                }
                if j < sp0.len() {
                    assert(sp[j] == sp0[j]);
                    assert(sp0.contains(sp[j]));
                    assert(pads_of(w).contains(sp[j]));
                }
            }
            assert forall|x: Seq<char>| sp.contains(x) implies pads_of(v).contains(x) by {
                let k = choose|k: int| 0 <= k < sp.len() && sp[k] == x;
                if k < sp0.len() {
                    assert(sp0.contains(x));
                }
            }
        }
    }
}

proof fn lemma_entries_ok_drop_last(v: Entries)
    requires
        entries_ok(v),
        v.len() > 0,
    ensures
        entries_ok(v.drop_last()),
{
    let w = v.drop_last();
    assert forall|i: int, j: int| 0 <= i < j < w.len() implies #[trigger] w[i].0 != #[trigger] w[j].0 by {
        assert(v[i].0 != v[j].0);
    }
    assert forall|i: int| 0 <= i < w.len() implies 1 <= #[trigger] w[i].1.len() <= MAX_OVERLAP_VOICES by {
        assert(w[i] == v[i]);
    }
}

/// The last element that passes `q` is an element that passes it, and every
/// element after it fails it.
proof fn lemma_filter_last<A>(s: Seq<A>, q: spec_fn(A) -> bool)
    requires
        s.filter(q).len() > 0,
    ensures
        exists|j: int|
            0 <= j < s.len() && #[trigger] s[j] == s.filter(q).last() && q(s[j]) && forall|j2: int|
                j < j2 < s.len() ==> !q(#[trigger] s[j2]),
    decreases s.len(),
{
    reveal(Seq::filter);
    let n = s.len() as int;
    if q(s.last()) {
        assert(s.filter(q) == s.drop_last().filter(q).push(s.last()));
        assert(s[n - 1] == s.filter(q).last());
    } else {
        assert(s.filter(q) == s.drop_last().filter(q));
        let t = s.drop_last();
        lemma_filter_last(t, q);
        let j = choose|j: int|
            0 <= j < t.len() && #[trigger] t[j] == t.filter(q).last() && q(t[j]) && forall|j2: int|
                j < j2 < t.len() ==> !q(#[trigger] t[j2]);
        assert(s[j] == t[j]);
        assert forall|j2: int| j < j2 < s.len() implies !q(#[trigger] s[j2]) by {
            if j2 < n - 1 {
                assert(s[j2] == t[j2]);
            }
        }
    }
}

/// The book after a poll, entry by entry: each pad still sounding keeps, in
/// order, those of its voices that did not stop; its reported voice is the
/// last of them.
proof fn lemma_poll_shape(v: Entries, stopped: Seq<u64>)
    requires
        entries_ok(v),
    ensures
        poll_spec(v, stopped).entries.len() == poll_spec(v, stopped).sounding.len(),
        forall|k: int|
            0 <= k < poll_spec(v, stopped).entries.len() ==> {
                let e = #[trigger] poll_spec(v, stopped).entries[k];
                &&& e.0 == poll_spec(v, stopped).sounding[k].0
                &&& e.1.len() > 0
                &&& e.1.last() == poll_spec(v, stopped).sounding[k].1
                &&& e.1 == voices_of(v, e.0).filter(live(stopped))
                &&& pads_of(v).contains(e.0)
            },
    decreases v.len(),
{
    if v.len() > 0 {
        let w = v.drop_last();
        lemma_entries_ok_drop_last(v);
        lemma_poll_shape(w, stopped);
        let p = poll_spec(w, stopped);
        let q = poll_spec(v, stopped);
        let e = v.last();
        let kept = e.1.filter(live(stopped));
        assert forall|k: int| 0 <= k < p.entries.len() implies voices_of(v, (#[trigger] p.entries[k]).0) == voices_of(
            w,
            p.entries[k].0,
        ) && pads_of(v).contains(p.entries[k].0) by {
            let pad = p.entries[k].0;
            assert(pads_of(w).contains(pad));
            let i = choose|i: int| 0 <= i < pads_of(w).len() && pads_of(w)[i] == pad;
            assert(w[i].0 == pad && v[i] == w[i]);
            lemma_voices_at(v, i);
            lemma_voices_at(w, i);
            assert(pads_of(v)[i] == pad);
        }
        lemma_voices_at(v, v.len() - 1);
        assert(pads_of(v)[v.len() - 1] == e.0);
        if kept.len() != 0 {
            assert forall|k: int| 0 <= k < q.entries.len() implies {
                let x = #[trigger] q.entries[k];
                &&& x.0 == q.sounding[k].0
                &&& x.1.len() > 0
                &&& x.1.last() == q.sounding[k].1
                &&& x.1 == voices_of(v, x.0).filter(live(stopped))
                &&& pads_of(v).contains(x.0)
            } by {
                if k < p.entries.len() {
                    assert(q.entries[k] == p.entries[k]);
                    assert(q.sounding[k] == p.sounding[k]);
                }
            }
        }
    }
}

/// What a poll reports of a pad still sounding is its newest voice: the last
/// voice of the pad, in the order triggered, that did not stop. All its later
/// voices stopped; after the poll it is the last voice the pad holds.
pub open spec fn newest_live(v: Entries, stopped: Seq<u64>, pad: Seq<char>, voice: Voice) -> bool {
    exists|j: int|
        0 <= j < voices_of(v, pad).len() && #[trigger] voices_of(v, pad)[j] == voice && !stopped.contains(voice.id)
            && forall|j2: int| j < j2 < voices_of(v, pad).len() ==> stopped.contains((#[trigger] voices_of(v, pad)[j2]).id)
}

/// A poll reports, for each pad still sounding, its newest voice that did not
/// stop (the most recently triggered one), which is also the last voice the
/// pad keeps after the poll.
pub proof fn lemma_poll_reports_newest(v: Entries, stopped: Seq<u64>)
    requires
        entries_ok(v),
    ensures
        entries_ok(poll_spec(v, stopped).entries),
        forall|k: int|
            0 <= k < poll_spec(v, stopped).sounding.len() ==> {
                let (pad, voice) = #[trigger] poll_spec(v, stopped).sounding[k];
                &&& voice == voices_of(poll_spec(v, stopped).entries, pad).last()
                &&& newest_live(v, stopped, pad, voice)
            },
{
    lemma_poll_shape(v, stopped);
    lemma_poll_distinct(v, stopped);
    let p = poll_spec(v, stopped);
    assert forall|i: int, j: int| 0 <= i < j < p.entries.len() implies #[trigger] p.entries[i].0
        != #[trigger] p.entries[j].0 by {
        let sp = sounding_pads(p.sounding);
        assert(sp[i] == p.sounding[i].0 && sp[j] == p.sounding[j].0);
    }
    assert forall|i: int| 0 <= i < p.entries.len() implies 1 <= #[trigger] p.entries[i].1.len() <= MAX_OVERLAP_VOICES by {
        let pad = p.entries[i].0;
        let k = choose|k: int| 0 <= k < pads_of(v).len() && pads_of(v)[k] == pad;
        lemma_voices_at(v, k);
        voices_of(v, pad).lemma_filter_len(live(stopped));
    }
    assert forall|k: int| 0 <= k < p.sounding.len() implies {
        let (pad, voice) = #[trigger] p.sounding[k];
        &&& voice == voices_of(p.entries, pad).last()
        &&& newest_live(v, stopped, pad, voice)
    } by {
        let e = p.entries[k];
        lemma_voices_at(p.entries, k);
        let vs = voices_of(v, e.0);
        lemma_filter_last(vs, live(stopped));
        let j = choose|j: int|
            0 <= j < vs.len() && #[trigger] vs[j] == vs.filter(live(stopped)).last() && (live(stopped))(vs[j])
                && forall|j2: int| j < j2 < vs.len() ==> !(live(stopped))(#[trigger] vs[j2]);
        assert forall|j2: int| j < j2 < vs.len() implies stopped.contains((#[trigger] vs[j2]).id) by {
            assert(!(live(stopped))(vs[j2]));
        }
    }
}

/// What `poll` reports.
pub struct Polled {
    pub sounding: Vec<SoundingPad>,
    pub silenced: Vec<String>,
}

/// What `stop_all` reports: the pads that were sounding and all their voices.
pub struct Silenced {
    pub pad_ids: Vec<String>,
    pub voice_ids: Vec<u64>,
}

fn contains_id(ids: &[u64], id: u64) -> (r: bool)
    ensures
        r == ids@.contains(id),
{
    let mut k: usize = 0;
    while k < ids.len()
        invariant
            k <= ids@.len(),
            forall|j: int| 0 <= j < k ==> ids@[j] != id,
        decreases ids@.len() - k,
    {
        if ids[k] == id {
            return true;
        }
        k = k + 1;
    }
    false
}

fn live_voices(voices: &Vec<Voice>, stopped: &[u64]) -> (kept: Vec<Voice>)
    ensures
        kept@ == voices@.filter(live(stopped@)),
{
    let ghost pred = live(stopped@);
    let mut kept: Vec<Voice> = Vec::new();
    let mut k: usize = 0;
    while k < voices.len()
        invariant
            k <= voices@.len(),
            pred == live(stopped@),
            kept@ == voices@.take(k as int).filter(pred),
        decreases voices@.len() - k,
    {
        let x = voices[k];
        proof {
            voices@.take(k as int).lemma_filter_push(x, pred);
            assert(voices@.take(k as int).push(x) =~= voices@.take(k + 1));
        }
        if !contains_id(stopped, x.id) {
            kept.push(x);
        }
        k = k + 1;
    }
    assert(voices@.take(k as int) =~= voices@);
    kept
}

fn append_ids(out: &mut Vec<u64>, ids: &Vec<u64>)
    ensures
        final(out)@ == old(out)@ + ids@,
{
    let mut j: usize = 0;
    let ghost before = out@;
    while j < ids.len()
        invariant
            j <= ids@.len(),
            out@ == before + ids@.take(j as int),
        decreases ids@.len() - j,
    {
        out.push(ids[j]);
        assert(ids@.take(j + 1) =~= ids@.take(j as int).push(ids@[j as int]));
        j = j + 1;
    }
    assert(ids@.take(j as int) =~= ids@);
}

impl View for VoiceBook {
    type V = Entries;

    closed spec fn view(&self) -> Entries {
        entries_view(self.entries@)
    }
}

impl VoiceBook {
    #[verifier::type_invariant]
    spec fn inv(self) -> bool {
        entries_ok(entries_view(self.entries@))
    }

    /// A book with no voices.
    pub fn new() -> (book: Self)
        ensures
            book@.len() == 0,
    {
        VoiceBook { entries: Vec::new() }
    }

    /// How many voices of the pad are sounding.
    pub fn active_count(&self, pad_id: &str) -> (n: usize)
        ensures
            n == voices_of(self@, pad_id@).len(),
            n <= MAX_OVERLAP_VOICES,
    {
        proof {
            use_type_invariant(self);
            lemma_entries_ok_cap(self@);
        }
        let wanted = owned(pad_id);
        match find_entry(&self.entries, &wanted) {
            Some(i) => {
                proof {
                    lemma_voices_at(self@, i as int);
                }
                self.entries[i].voices.len()
            },
            None => {
                proof {
                    lemma_voices_absent(self@, pad_id@);
                }
                0
            },
        }
    }

    /// Records a trigger of the pad in `mode`, with `voice` as the new voice
    /// if one starts, and says what the player must do. At the cap in
    /// Overlap mode the oldest voice is evicted first, so no pad ever holds
    /// more than `MAX_OVERLAP_VOICES` voices.
    pub fn trigger(&mut self, pad_id: &str, mode: RetriggerMode, voice: Voice) -> (plan: TriggerPlan)
        ensures
            ({
                let old_voices = voices_of(old(self)@, pad_id@);
                let action = trigger_action(mode, old_voices.len(), MAX_OVERLAP_VOICES as nat);
                &&& plan.outcome == outcome_of(action)
                &&& plan.stop@ == stopped_by_trigger(old_voices, mode)
                &&& plan.start == (outcome_of(action) == PlayOutcome::Started)
                &&& voices_of(final(self)@, pad_id@) == voices_after_trigger(old_voices, mode, voice)
            }),
            forall|q: Seq<char>| q != pad_id@ ==> #[trigger] voices_of(final(self)@, q) == voices_of(old(self)@, q),
            within_cap(final(self)@),
    {
        proof {
            use_type_invariant(&*self);
        }
        let mut entries: Vec<PadVoices> = Vec::new();
        std::mem::swap(&mut entries, &mut self.entries);
        let ghost old_view = entries_view(entries@);
        assert(old_view == old(self)@);
        let wanted = owned(pad_id);
        let found = find_entry(&entries, &wanted);
        let count = match found {
            Some(i) => entries[i].voices.len(),
            None => 0,
        };
        proof {
            match found {
                Some(i) => lemma_voices_at(old_view, i as int),
                None => lemma_voices_absent(old_view, pad_id@),
            }
        }
        let action = decide_trigger_action(mode, count, MAX_OVERLAP_VOICES);
        let plan = match action {
            TriggerAction::DoNothing => TriggerPlan { outcome: PlayOutcome::Ignored, stop: Vec::new(), start: false },
            TriggerAction::StopOnly => {
                let i = found.unwrap();
                proof {
                    lemma_remove_entry(old_view, i as int);
                }
                let e = entries.remove(i);
                assert(entries_view(entries@) =~= old_view.remove(i as int));
                let stop = ids_of(&e.voices);
                TriggerPlan { outcome: PlayOutcome::StoppedOnly, stop, start: false }
            },
            TriggerAction::RestartFromBeginning => {
                let i = found.unwrap();
                proof {
                    lemma_remove_entry(old_view, i as int);
                }
                let e = entries.remove(i);
                assert(entries_view(entries@) =~= old_view.remove(i as int));
                let stop = ids_of(&e.voices);
                let ghost mid = entries_view(entries@);
                let mut fresh: Vec<Voice> = Vec::new();
                fresh.push(voice);
                proof {
                    assert forall|k: int| 0 <= k < mid.len() implies #[trigger] mid[k].0 != pad_id@ by {
                        let k0 = if k < i { k } else { k + 1 };
                        assert(mid[k] == old_view[k0]);
                        if k0 != i {
                            if k0 < i {
                                assert(old_view[k0].0 != old_view[i as int].0);
                            } else {
                                assert(old_view[i as int].0 != old_view[k0].0);
                            }
                        }
                    }
                    lemma_insert_entry(mid, mid.len() as int, (wanted@, fresh@));
                    assert(mid.insert(mid.len() as int, (wanted@, fresh@)) =~= mid.push((wanted@, fresh@)));
                }
                entries.push(PadVoices { pad_id: wanted, voices: fresh });
                assert(entries_view(entries@) =~= mid.push((pad_id@, seq![voice])));
                TriggerPlan { outcome: PlayOutcome::Started, stop, start: true }
            },
            TriggerAction::AddOverlap { evict_oldest } => {
                let i = found.unwrap();
                proof {
                    lemma_remove_entry(old_view, i as int);
                }
                let mut e = entries.remove(i);
                assert(entries_view(entries@) =~= old_view.remove(i as int));
                let ghost mid = entries_view(entries@);
                let mut stop: Vec<u64> = Vec::new();
                if evict_oldest {
                    let oldest = e.voices.remove(0);
                    stop.push(oldest.id);
                    assert(e.voices@ =~= old_view[i as int].1.drop_first());
                }
                e.voices.push(voice);
                proof {
                    assert forall|k: int| 0 <= k < mid.len() implies #[trigger] mid[k].0 != pad_id@ by {
                        let k0 = if k < i { k } else { k + 1 };
                        assert(mid[k] == old_view[k0]);
                        if k0 < i {
                            assert(old_view[k0].0 != old_view[i as int].0);
                        } else {
                            assert(old_view[i as int].0 != old_view[k0].0);
                        }
                    }
                    lemma_insert_entry(mid, i as int, entry_view(e));
                }
                entries.insert(i, e);
                assert(entries_view(entries@) =~= mid.insert(i as int, (pad_id@, voices_after_trigger(old_view[i as int].1, mode, voice))));
                TriggerPlan { outcome: PlayOutcome::Started, stop, start: true }
            },
            TriggerAction::Start => {
                let mut fresh: Vec<Voice> = Vec::new();
                fresh.push(voice);
                proof {
                    lemma_insert_entry(old_view, old_view.len() as int, (wanted@, fresh@));
                    assert(old_view.insert(old_view.len() as int, (wanted@, fresh@)) =~= old_view.push((wanted@, fresh@)));
                }
                entries.push(PadVoices { pad_id: wanted, voices: fresh });
                assert(entries_view(entries@) =~= old_view.push((pad_id@, seq![voice])));
                TriggerPlan { outcome: PlayOutcome::Started, stop: Vec::new(), start: true }
            },
        };
        self.entries = entries;
        proof {
            lemma_entries_ok_cap(self@);
        }
        plan
    }

    /// Forgets the newest voice of the pad when its id is `voice_id`: the
    /// player could not start it after `trigger` recorded it.
    pub fn discard_voice(&mut self, pad_id: &str, voice_id: u64)
        ensures
            ({
                let old_voices = voices_of(old(self)@, pad_id@);
                if old_voices.len() > 0 && old_voices.last().id == voice_id {
                    voices_of(final(self)@, pad_id@) == old_voices.drop_last()
                } else {
                    voices_of(final(self)@, pad_id@) == old_voices
                }
            }),
            forall|q: Seq<char>| q != pad_id@ ==> #[trigger] voices_of(final(self)@, q) == voices_of(old(self)@, q),
            within_cap(final(self)@),
    {
        proof {
            use_type_invariant(&*self);
        }
        let mut entries: Vec<PadVoices> = Vec::new();
        std::mem::swap(&mut entries, &mut self.entries);
        let ghost old_view = entries_view(entries@);
        let wanted = owned(pad_id);
        match find_entry(&entries, &wanted) {
            Some(i) => {
                proof {
                    lemma_voices_at(old_view, i as int);
                    lemma_remove_entry(old_view, i as int);
                }
                let n = entries[i].voices.len();
                if entries[i].voices[n - 1].id == voice_id {
                    let mut e = entries.remove(i);
                    assert(entries_view(entries@) =~= old_view.remove(i as int));
                    let ghost mid = entries_view(entries@);
                    e.voices.pop();
                    if e.voices.len() > 0 {
                        proof {
                            assert forall|k: int| 0 <= k < mid.len() implies #[trigger] mid[k].0 != pad_id@ by {
                                let k0 = if k < i { k } else { k + 1 };
                                assert(mid[k] == old_view[k0]);
                                if k0 < i {
                                    assert(old_view[k0].0 != old_view[i as int].0);
                                } else {
                                    assert(old_view[i as int].0 != old_view[k0].0);
                                }
                            }
                            lemma_insert_entry(mid, i as int, entry_view(e));
                        }
                        entries.insert(i, e);
                        assert(entries_view(entries@) =~= mid.insert(i as int, entry_view(e)));
                    }
                }
            },
            None => {
                proof {
                    lemma_voices_absent(old_view, pad_id@);
                }
            },
        }
        self.entries = entries;
        proof {
            lemma_entries_ok_cap(self@);
        }
    }

    /// Stops the pad by hand: it leaves the book, and the ids of its voices
    /// come back for the player to stop.
    pub fn stop(&mut self, pad_id: &str) -> (stopped: Vec<u64>)
        ensures
            stopped@ == voice_ids(voices_of(old(self)@, pad_id@)),
            voices_of(final(self)@, pad_id@) == Seq::<Voice>::empty(),
            forall|q: Seq<char>| q != pad_id@ ==> #[trigger] voices_of(final(self)@, q) == voices_of(old(self)@, q),
            within_cap(final(self)@),
    {
        proof {
            use_type_invariant(&*self);
        }
        let mut entries: Vec<PadVoices> = Vec::new();
        std::mem::swap(&mut entries, &mut self.entries);
        let ghost old_view = entries_view(entries@);
        let wanted = owned(pad_id);
        let stopped = match find_entry(&entries, &wanted) {
            Some(i) => {
                proof {
                    lemma_voices_at(old_view, i as int);
                    lemma_remove_entry(old_view, i as int);
                }
                let e = entries.remove(i);
                assert(entries_view(entries@) =~= old_view.remove(i as int));
                ids_of(&e.voices)
            },
            None => {
                proof {
                    lemma_voices_absent(old_view, pad_id@);
                }
                Vec::new()
            },
        };
        self.entries = entries;
        proof {
            lemma_entries_ok_cap(self@);
        }
        stopped
    }

    /// The panic button: every pad of every bank stops. Reports the pads that
    /// were sounding (so that each can be announced as stopped) and all their
    /// voices; the book is left empty.
    pub fn stop_all(&mut self) -> (s: Silenced)
        ensures
            strings_view(s.pad_ids@) == pads_of(old(self)@),
            s.voice_ids@ == all_voice_ids(old(self)@),
            final(self)@.len() == 0,
            pads_of(old(self)@).no_duplicates(),
    {
        proof {
            use_type_invariant(&*self);
            lemma_pads_distinct(self@);
        }
        let mut entries: Vec<PadVoices> = Vec::new();
        std::mem::swap(&mut entries, &mut self.entries);
        let ghost all = entries_view(entries@);
        let mut pad_ids: Vec<String> = Vec::new();
        let mut voice_ids_out: Vec<u64> = Vec::new();
        let mut k: usize = 0;
        assert(all.skip(0) =~= all);
        assert(voice_ids_out@ + all_voice_ids(all) =~= all_voice_ids(all));
        while k < entries.len()
            invariant
                k <= entries@.len(),
                all == entries_view(entries@),
                strings_view(pad_ids@) == pads_of(all.take(k as int)),
                voice_ids_out@ + all_voice_ids(all.skip(k as int)) == all_voice_ids(all),
            decreases entries@.len() - k,
        {
            let ghost pads_before = strings_view(pad_ids@);
            let name = entries[k].pad_id.clone();
            pad_ids.push(name);
            proof {
                assert(entries_view(entries@)[k as int].0 == entries@[k as int].pad_id@);
                assert(strings_view(pad_ids@) =~= pads_before.push(all[k as int].0));
                assert(pads_of(all.take(k + 1)) =~= pads_of(all.take(k as int)).push(all[k as int].0));
            }
            let ids = ids_of(&entries[k].voices);
            let ghost before = voice_ids_out@;
            append_ids(&mut voice_ids_out, &ids);
            proof {
                assert(all.skip(k as int).drop_first() =~= all.skip(k + 1));
                assert(all.skip(k as int)[0] == all[k as int]);
                assert(strings_view(pad_ids@) =~= pads_of(all.take(k + 1)));
                assert(voice_ids_out@ + all_voice_ids(all.skip(k + 1)) =~= before + (voice_ids(all[k as int].1)
                    + all_voice_ids(all.skip(k + 1))));
            }
            k = k + 1;
        }
        proof {
            assert(all.take(k as int) =~= all);
            assert(all.skip(k as int) =~= Seq::<(Seq<char>, Seq<Voice>)>::empty());
            assert(voice_ids_out@ =~= voice_ids_out@ + all_voice_ids(all.skip(k as int)));
        }
        Silenced { pad_ids, voice_ids: voice_ids_out }
    }

    /// Drops the voices that stopped on their own (their ids are in
    /// `stopped`), reports the newest voice still sounding of each pad (to
    /// show its time left) and the pads that fell silent.
    pub fn poll(&mut self, stopped: &[u64]) -> (p: Polled)
        ensures
            ({
                let expected = poll_spec(old(self)@, stopped@);
                &&& final(self)@ == expected.entries
                &&& sounding_view(p.sounding@) == expected.sounding
                &&& strings_view(p.silenced@) == expected.silenced
                &&& expected.silenced.no_duplicates()
                &&& sounding_pads(expected.sounding).no_duplicates()
            }),
            forall|k: int|
                0 <= k < p.sounding@.len() ==> {
                    let s = #[trigger] p.sounding@[k];
                    &&& s.newest == voices_of(final(self)@, s.pad_id@).last()
                    &&& newest_live(old(self)@, stopped@, s.pad_id@, s.newest)
                },
            within_cap(final(self)@),
    {
        proof {
            use_type_invariant(&*self);
            lemma_poll_distinct(self@, stopped@);
            lemma_poll_reports_newest(self@, stopped@);
        }
        let mut entries: Vec<PadVoices> = Vec::new();
        std::mem::swap(&mut entries, &mut self.entries);
        let ghost all = entries_view(entries@);
        let mut kept_entries: Vec<PadVoices> = Vec::new();
        let mut sounding: Vec<SoundingPad> = Vec::new();
        let mut silenced: Vec<String> = Vec::new();
        let mut k: usize = 0;
        while k < entries.len()
            invariant
                k <= entries@.len(),
                all == entries_view(entries@),
                entries_ok(all),
                ({
                    let p = poll_spec(all.take(k as int), stopped@);
                    &&& entries_view(kept_entries@) == p.entries
                    &&& sounding_view(sounding@) == p.sounding
                    &&& strings_view(silenced@) == p.silenced
                }),
                entries_ok(entries_view(kept_entries@)),
                forall|a: int| 0 <= a < kept_entries@.len() ==> exists|j: int| 0 <= j < k && #[trigger] entries_view(kept_entries@)[a].0 == #[trigger] all[j].0,
            decreases entries@.len() - k,
        {
            let ghost prev_kept = entries_view(kept_entries@);
            let kept = live_voices(&entries[k].voices, stopped);
            let ghost e = all[k as int];
            proof {
                assert(all.take(k + 1).drop_last() =~= all.take(k as int));
                assert(all.take(k + 1).last() == e);
                e.1.lemma_filter_len(live(stopped@));
            }
            if kept.len() == 0 {
                silenced.push(entries[k].pad_id.clone());
                assert(strings_view(silenced@) =~= poll_spec(all.take(k as int), stopped@).silenced.push(e.0));
            } else {
                let n = kept.len();
                let newest = kept[n - 1];
                sounding.push(SoundingPad { pad_id: entries[k].pad_id.clone(), newest });
                assert(sounding_view(sounding@) =~= poll_spec(all.take(k as int), stopped@).sounding.push((e.0, kept@.last())));
                kept_entries.push(PadVoices { pad_id: entries[k].pad_id.clone(), voices: kept });
                proof {
                    let nv = entries_view(kept_entries@);
                    assert(nv =~= prev_kept.push((e.0, e.1.filter(live(stopped@)))));
                    assert forall|a: int| 0 <= a < nv.len() implies exists|j: int| 0 <= j < k + 1 && #[trigger] nv[a].0 == #[trigger] all[j].0 by {
                        if a < prev_kept.len() {
                            let j = choose|j: int| 0 <= j < k && #[trigger] prev_kept[a].0 == #[trigger] all[j].0;
                            assert(nv[a].0 == all[j].0);
                        } else {
                            assert(nv[a].0 == all[k as int].0);
                        }
                    }
                    assert forall|a: int, b: int| 0 <= a < b < nv.len() implies #[trigger] nv[a].0 != #[trigger] nv[b].0 by {
                        if b == nv.len() - 1 {
                            let j = choose|j: int| 0 <= j < k && #[trigger] prev_kept[a].0 == #[trigger] all[j].0;
                            assert(all[j].0 != all[k as int].0);
                        } else {
                            assert(prev_kept[a].0 != prev_kept[b].0);
                        }
                    }
                    assert forall|a: int| 0 <= a < nv.len() implies 1 <= #[trigger] nv[a].1.len() <= MAX_OVERLAP_VOICES by {
                        if a < prev_kept.len() {
                            assert(nv[a] == prev_kept[a]);
                        }
                    }
                }
            }
            k = k + 1;
        }
        assert(all.take(k as int) =~= all);
        self.entries = kept_entries;
        proof {
            lemma_entries_ok_cap(self@);
            let expected = poll_spec(all, stopped@);
            assert forall|k: int| 0 <= k < sounding@.len() implies {
                let s = #[trigger] sounding@[k];
                &&& s.newest == voices_of(self@, s.pad_id@).last()
                &&& newest_live(all, stopped@, s.pad_id@, s.newest)
            } by {
                assert(sounding_view(sounding@)[k] == (sounding@[k].pad_id@, sounding@[k].newest));
                assert(expected.sounding[k] == (sounding@[k].pad_id@, sounding@[k].newest));
            }
        }
        Polled { sounding, silenced }
    }
}

} // verus!
