use vstd::prelude::*;
use vstd::string::*;

use crate::ids::new_id;
use crate::listing::{first_index, id_views, position_of, reorder_by_ids, reordered, Listed};
use crate::text::{clone_opt, decimal, joined, opt_view, owned, same_text, u8_decimal};

verus! {

/// Current version of the `AppConfig` schema; a configuration of a later
/// version is refused rather than guessed at.
pub const CURRENT_VERSION: u32 = 1;

/// Bit pattern of the `f32` value -16.0, the default loudness target in LUFS.
pub const DEFAULT_TARGET_LUFS_BITS: u32 = 0xC180_0000;

/// Default size of the output buffer, in frames.
pub const DEFAULT_OUTPUT_BUFFER_FRAMES: u32 = 256;

/// Default fade-in and fade-out of a pad, in milliseconds.
pub const DEFAULT_FADE_MS: u32 = 20;

/// What a pad does when it is triggered again while it is still sounding.
#[derive(Debug, Clone, Copy, PartialEq, Eq, Structural)]
pub enum RetriggerMode {
    Stop,
    Restart,
    Ignore,
    Overlap,
}

impl Default for RetriggerMode {
    fn default() -> (mode: Self)
        ensures
            mode == RetriggerMode::Stop,
    {
        RetriggerMode::Stop
    }
}

/// The language of the interface when a configuration does not name one.
pub fn default_language() -> (lang: String)
    ensures
        lang@ == "en"@,
{
    owned("en")
}

/// The output device that the configuration asks for, by id and by label.
#[derive(Debug, PartialEq)]
pub struct OutputDeviceRef {
    pub device_id: String,
    pub label: String,
}

impl Default for OutputDeviceRef {
    fn default() -> (r: Self)
        ensures
            r.device_id@ == Seq::<char>::empty(),
            r.label@ == Seq::<char>::empty(),
    {
        OutputDeviceRef { device_id: String::new(), label: String::new() }
    }
}

impl Clone for OutputDeviceRef {
    fn clone(&self) -> (r: Self)
        ensures
            r == *self,
    {
        OutputDeviceRef { device_id: self.device_id.clone(), label: self.label.clone() }
    }
}

/// One sound of a bank. The `_bits` fields hold the IEEE 754 bit pattern of
/// an `f32` value (decibels or LUFS), which this library only carries.
#[derive(Debug, PartialEq)]
pub struct Pad {
    pub id: String,
    pub name: String,
    pub order: u32,
    pub color: String,
    pub trim_db_bits: u32,
    pub loop_enabled: bool,
    pub retrigger_mode: RetriggerMode,
    pub fade_in_ms: u32,
    pub fade_out_ms: u32,
    pub hotkey: Option<String>,
    pub midi_note: Option<u8>,
    pub duration_ms: u32,
    pub original_filename: String,
    pub source_sample_rate: u32,
    pub source_channels: u8,
    pub measured_lufs_bits: u32,
    pub applied_gain_db_bits: u32,
    pub gain_capped: bool,
}

/// The color of a pad when none is chosen.
pub open spec fn default_pad_color() -> Seq<char> {
    "#E8734A"@
}

impl Default for Pad {
    /// A pad with a fresh random id and the documented defaults: no trim,
    /// no loop, Stop mode, 20 ms fades, no hotkey and no MIDI note.
    fn default() -> (pad: Self)
        ensures
            pad.id@.len() == 36,
            pad.name@ == Seq::<char>::empty(),
            pad.order == 0,
            pad.color@ == default_pad_color(),
            pad.trim_db_bits == 0,
            !pad.loop_enabled,
            pad.retrigger_mode == RetriggerMode::Stop,
            pad.fade_in_ms == DEFAULT_FADE_MS,
            pad.fade_out_ms == DEFAULT_FADE_MS,
            pad.hotkey is None,
            pad.midi_note is None,
            pad.duration_ms == 0,
            pad.original_filename@ == Seq::<char>::empty(),
            pad.source_sample_rate == 0,
            pad.source_channels == 0,
            pad.measured_lufs_bits == 0,
            pad.applied_gain_db_bits == 0,
            !pad.gain_capped,
    {
        proof {
            reveal_strlit("#E8734A");
        }
        Pad {
            id: new_id(),
            name: String::new(),
            order: 0,
            color: owned("#E8734A"),
            trim_db_bits: 0,
            loop_enabled: false,
            retrigger_mode: RetriggerMode::Stop,
            fade_in_ms: DEFAULT_FADE_MS,
            fade_out_ms: DEFAULT_FADE_MS,
            hotkey: None,
            midi_note: None,
            duration_ms: 0,
            original_filename: String::new(),
            source_sample_rate: 0,
            source_channels: 0,
            measured_lufs_bits: 0,
            applied_gain_db_bits: 0,
            gain_capped: false,
        }
    }
}

impl Clone for Pad {
    fn clone(&self) -> (r: Self)
        ensures
            r == *self,
    {
        Pad {
            id: self.id.clone(),
            name: self.name.clone(),
            order: self.order,
            color: self.color.clone(),
            trim_db_bits: self.trim_db_bits,
            loop_enabled: self.loop_enabled,
            retrigger_mode: self.retrigger_mode,
            fade_in_ms: self.fade_in_ms,
            fade_out_ms: self.fade_out_ms,
            hotkey: clone_opt(&self.hotkey),
            midi_note: self.midi_note,
            duration_ms: self.duration_ms,
            original_filename: self.original_filename.clone(),
            source_sample_rate: self.source_sample_rate,
            source_channels: self.source_channels,
            measured_lufs_bits: self.measured_lufs_bits,
            applied_gain_db_bits: self.applied_gain_db_bits,
            gain_capped: self.gain_capped,
        }
    }
}

impl Listed for Pad {
    open spec fn key(&self) -> Seq<char> {
        self.id@
    }

    open spec fn reindexed(self, order: u32) -> Pad {
        Pad { order, ..self }
    }

    fn key_string(&self) -> (r: &String) {
        &self.id
    }

    fn set_order(&mut self, order: u32) {
        self.order = order;
    }

    proof fn lemma_reindexed_key(self, order: u32) {
    }
}

/// A named, ordered group of pads. Hotkeys and MIDI notes are unique within a
/// bank, not across banks.
#[derive(Debug, PartialEq)]
pub struct Bank {
    pub id: String,
    pub name: String,
    pub order: u32,
    pub pads: Vec<Pad>,
}

impl Clone for Bank {
    fn clone(&self) -> (r: Self)
        ensures
            r.id == self.id,
            r.name == self.name,
            r.order == self.order,
            r.pads@ == self.pads@,
    {
        let pads = self.pads.clone();
        proof {
            assert forall|i: int| 0 <= i < pads@.len() implies pads@[i] == self.pads@[i] by {
                assert(vstd::pervasive::cloned::<Pad>(self.pads[i], pads[i]));
            }
            assert(pads@ =~= self.pads@);
        }
        Bank { id: self.id.clone(), name: self.name.clone(), order: self.order, pads }
    }
}

impl Listed for Bank {
    open spec fn key(&self) -> Seq<char> {
        self.id@
    }

    open spec fn reindexed(self, order: u32) -> Bank {
        Bank { order, ..self }
    }

    fn key_string(&self) -> (r: &String) {
        &self.id
    }

    fn set_order(&mut self, order: u32) {
        self.order = order;
    }

    proof fn lemma_reindexed_key(self, order: u32) {
    }
}

/// Index of the first pad at or after `j` that passes `pred`; -1 when none does.
pub open spec fn first_pad_from(pads: Seq<Pad>, pred: spec_fn(Pad) -> bool, j: int) -> int
    decreases pads.len() - j,
{
    if j < 0 || j >= pads.len() {
        -1
    } else if pred(pads[j]) {
        j
    } else {
        first_pad_from(pads, pred, j + 1)
    }
}

/// Another pad (a different id) already bound to `key`.
pub open spec fn hotkey_clash(candidate: Pad, key: Seq<char>) -> spec_fn(Pad) -> bool {
    |p: Pad| p.id@ != candidate.id@ && opt_view(p.hotkey) == Some(key)
}

/// Another pad (a different id) already bound to MIDI note `note`.
pub open spec fn note_clash(candidate: Pad, note: u8) -> spec_fn(Pad) -> bool {
    |p: Pad| p.id@ != candidate.id@ && p.midi_note == Some(note)
}

/// The message of a hotkey that another pad already has.
pub open spec fn hotkey_taken_message(key: Seq<char>, owner: Seq<char>) -> Seq<char> {
    "La tecla \""@ + key + "\" ya está asignada a \""@ + owner + "\""@
}

/// The message of a MIDI note that another pad already has.
pub open spec fn note_taken_message(note: u8, owner: Seq<char>) -> Seq<char> {
    "La nota MIDI "@ + decimal(note as nat) + " ya está asignada a \""@ + owner + "\""@
}

/// What `validate_hotkey` answers: a candidate without a hotkey always
/// passes; otherwise it is refused, naming the first other pad of the bank
/// that already has that key, when there is one.
pub open spec fn hotkey_verdict(pads: Seq<Pad>, candidate: Pad) -> Result<(), Seq<char>> {
    match candidate.hotkey {
        None => Ok(()),
        Some(key) => {
            let j = first_pad_from(pads, hotkey_clash(candidate, key@), 0);
            if j < 0 {
                Ok(())
            } else {
                Err(hotkey_taken_message(key@, pads[j].name@))
            }
        },
    }
}

/// What `validate_midi_note` answers, by the same rule as `hotkey_verdict`.
pub open spec fn note_verdict(pads: Seq<Pad>, candidate: Pad) -> Result<(), Seq<char>> {
    match candidate.midi_note {
        None => Ok(()),
        Some(note) => {
            let j = first_pad_from(pads, note_clash(candidate, note), 0);
            if j < 0 {
                Ok(())
            } else {
                Err(note_taken_message(note, pads[j].name@))
            }
        },
    }
}

/// The characters of a `Result` whose error is a `String`.
pub open spec fn result_view(r: Result<(), String>) -> Result<(), Seq<char>> {
    match r {
        Ok(()) => Ok(()),
        Err(e) => Err(e@),
    }
}

impl Bank {
    /// Replaces the pad whose id is `updated.id` (the first such pad) and
    /// says whether there was one; without one the bank is left unchanged.
    pub fn replace_pad(&mut self, updated: Pad) -> (found: bool)
        ensures
            found == (first_index(old(self).pads@, updated.id@) >= 0),
            found ==> final(self).pads@ == old(self).pads@.update(first_index(old(self).pads@, updated.id@), updated),
            !found ==> final(self).pads@ == old(self).pads@,
            final(self).id == old(self).id,
            final(self).name == old(self).name,
            final(self).order == old(self).order,
    {
        match position_of(&self.pads, &updated.id) {
            Some(i) => {
                self.pads.set(i, updated);
                true
            },
            None => false,
        }
    }

    /// Takes out the pad whose id is `pad_id` (the first such pad) and hands
    /// it back, so that the caller can delete its audio file too.
    pub fn remove_pad(&mut self, pad_id: &str) -> (removed: Option<Pad>)
        ensures
            ({
                let i = first_index(old(self).pads@, pad_id@);
                &&& i < 0 ==> removed is None && final(self).pads@ == old(self).pads@
                &&& i >= 0 ==> removed == Some(old(self).pads@[i]) && final(self).pads@ == old(self).pads@.remove(i)
            }),
            final(self).id == old(self).id,
            final(self).name == old(self).name,
            final(self).order == old(self).order,
    {
        let wanted = owned(pad_id);
        match position_of(&self.pads, &wanted) {
            Some(i) => Some(self.pads.remove(i)),
            None => None,
        }
    }

    /// Reorders the pads by `ordered_ids` and renumbers their `order` from
    /// zero. Ids missing from the list keep their relative order at the end,
    /// so an incomplete list never loses a pad.
    pub fn reorder_pads(&mut self, ordered_ids: &[String])
        ensures
            final(self).pads@ == reordered(old(self).pads@, id_views(ordered_ids@)),
            forall|i: int| 0 <= i < final(self).pads@.len() ==> #[trigger] final(self).pads@[i].order == i as u32,
            final(self).id == old(self).id,
            final(self).name == old(self).name,
            final(self).order == old(self).order,
    {
        let mut pads: Vec<Pad> = Vec::new();
        std::mem::swap(&mut pads, &mut self.pads);
        let arranged = reorder_by_ids(pads, ordered_ids);
        self.pads = arranged;
    }

    /// Refuses the candidate's hotkey when another pad of the bank already
    /// has it. A pad may keep its own key, and a pad without a key passes.
    pub fn validate_hotkey(&self, candidate: &Pad) -> (r: Result<(), String>)
        ensures
            result_view(r) == hotkey_verdict(self.pads@, *candidate),
    {
        match &candidate.hotkey {
            None => Ok(()),
            Some(key) => {
                let ghost pred = hotkey_clash(*candidate, key@);
                let mut j: usize = 0;
                while j < self.pads.len()
                    invariant
                        j <= self.pads@.len(),
                        candidate.hotkey == Some(*key),
                        pred == hotkey_clash(*candidate, key@),
                        first_pad_from(self.pads@, pred, 0) == first_pad_from(self.pads@, pred, j as int),
                    decreases self.pads@.len() - j,
                {
                    let p = &self.pads[j];
                    let clash = match &p.hotkey {
                        Some(h) => !same_text(&p.id, &candidate.id) && same_text(h, key),
                        None => false,
                    };
                    if clash {
                        let msg = joined(owned("La tecla \""), key.as_str());
                        let msg = joined(msg, "\" ya está asignada a \"");
                        let msg = joined(msg, p.name.as_str());
                        let msg = joined(msg, "\"");
                        return Err(msg);
                    }
                    j = j + 1;
                }
                Ok(())
            },
        }
    }

    /// Same rule as `validate_hotkey`, for MIDI notes.
    pub fn validate_midi_note(&self, candidate: &Pad) -> (r: Result<(), String>)
        ensures
            result_view(r) == note_verdict(self.pads@, *candidate),
    {
        match candidate.midi_note {
            None => Ok(()),
            Some(note) => {
                let ghost pred = note_clash(*candidate, note);
                let mut j: usize = 0;
                while j < self.pads.len()
                    invariant
                        j <= self.pads@.len(),
                        candidate.midi_note == Some(note),
                        pred == note_clash(*candidate, note),
                        first_pad_from(self.pads@, pred, 0) == first_pad_from(self.pads@, pred, j as int),
                    decreases self.pads@.len() - j,
                {
                    let p = &self.pads[j];
                    let same_note = match p.midi_note {
                        Some(n) => n == note,
                        None => false,
                    };
                    let clash = !same_text(&p.id, &candidate.id) && same_note;
                    if clash {
                        let msg = joined(owned("La nota MIDI "), u8_decimal(note).as_str());
                        let msg = joined(msg, " ya está asignada a \"");
                        let msg = joined(msg, p.name.as_str());
                        let msg = joined(msg, "\"");
                        return Err(msg);
                    }
                    j = j + 1;
                }
                Ok(())
            },
        }
    }
}

pub(crate) proof fn lemma_first_pad_none(pads: Seq<Pad>, pred: spec_fn(Pad) -> bool, j: int)
    requires
        0 <= j,
    ensures
        first_pad_from(pads, pred, j) == -1 <==> forall|k: int| j <= k < pads.len() ==> !pred(#[trigger] pads[k]),
        first_pad_from(pads, pred, j) != -1 ==> j <= first_pad_from(pads, pred, j) < pads.len()
            && pred(pads[first_pad_from(pads, pred, j)]),
        first_pad_from(pads, pred, j) != -1 ==> forall|k: int|
            j <= k < first_pad_from(pads, pred, j) ==> !pred(#[trigger] pads[k]),
    decreases pads.len() - j,
{
    if j < pads.len() && !pred(pads[j]) {
        lemma_first_pad_none(pads, pred, j + 1);
    }
}

/// A hotkey is refused exactly when another pad of the bank (one with a
/// different id) already has it; so a pad may always keep its own key, and a
/// pad with no hotkey is always accepted.
pub proof fn lemma_hotkey_refused_iff_taken(pads: Seq<Pad>, candidate: Pad)
    ensures
        hotkey_verdict(pads, candidate) is Err <==> (candidate.hotkey matches Some(key) && exists|k: int|
            0 <= k < pads.len() && (#[trigger] pads[k]).id@ != candidate.id@ && opt_view(pads[k].hotkey)
                == Some(key@)),
{
    if let Some(key) = candidate.hotkey {
        let pred = hotkey_clash(candidate, key@);
        lemma_first_pad_none(pads, pred, 0);
        if first_pad_from(pads, pred, 0) != -1 {
            let k = first_pad_from(pads, pred, 0);
            assert(pred(pads[k]));
        } else {
            assert forall|k: int| 0 <= k < pads.len() implies !((#[trigger] pads[k]).id@ != candidate.id@
                && opt_view(pads[k].hotkey) == Some(key@)) by {
                assert(!pred(pads[k]));
            }
        }
    }
}

/// A MIDI note is refused exactly when another pad of the bank (one with a
/// different id) already has it; so a pad may always keep its own note.
pub proof fn lemma_note_refused_iff_taken(pads: Seq<Pad>, candidate: Pad)
    ensures
        note_verdict(pads, candidate) is Err <==> (candidate.midi_note matches Some(note) && exists|k: int|
            0 <= k < pads.len() && (#[trigger] pads[k]).id@ != candidate.id@ && pads[k].midi_note == Some(
                note,
            )),
{
    if let Some(note) = candidate.midi_note {
        let pred = note_clash(candidate, note);
        lemma_first_pad_none(pads, pred, 0);
        if first_pad_from(pads, pred, 0) != -1 {
            let k = first_pad_from(pads, pred, 0);
            assert(pred(pads[k]));
        } else {
            assert forall|k: int| 0 <= k < pads.len() implies !((#[trigger] pads[k]).id@ != candidate.id@
                && pads[k].midi_note == Some(note)) by {
                assert(!pred(pads[k]));
            }
        }
    }
}

/// The whole persisted configuration: banks, the active bank, the output
/// device and the global settings. `target_lufs_bits` holds the bit pattern
/// of the `f32` loudness target.
#[derive(Debug, PartialEq)]
pub struct AppConfig {
    pub version: u32,
    pub banks: Vec<Bank>,
    pub active_bank_id: String,
    pub output_device: OutputDeviceRef,
    pub output_buffer_frames: u32,
    pub midi_device_name: Option<String>,
    pub target_lufs_bits: u32,
    pub global_hotkeys_enabled: bool,
    pub global_modifier: String,
    pub panic_hotkey: Option<String>,
    pub language: String,
}

/// The modifier of global hotkeys when none is configured.
pub open spec fn default_modifier() -> Seq<char> {
    "Ctrl+Alt"@
}

impl Default for AppConfig {
    /// A fresh configuration: current schema version, no banks, default
    /// device, 256-frame buffer, -16 LUFS target, global hotkeys on with
    /// Ctrl+Alt, no panic hotkey, English.
    fn default() -> (c: Self)
        ensures
            c.version == CURRENT_VERSION,
            c.banks@.len() == 0,
            c.active_bank_id@ == Seq::<char>::empty(),
            c.output_device.device_id@ == Seq::<char>::empty(),
            c.output_device.label@ == Seq::<char>::empty(),
            c.output_buffer_frames == DEFAULT_OUTPUT_BUFFER_FRAMES,
            c.midi_device_name is None,
            c.target_lufs_bits == DEFAULT_TARGET_LUFS_BITS,
            c.global_hotkeys_enabled,
            c.global_modifier@ == default_modifier(),
            c.panic_hotkey is None,
            c.language@ == "en"@,
    {
        AppConfig {
            version: CURRENT_VERSION,
            banks: Vec::new(),
            active_bank_id: String::new(),
            output_device: OutputDeviceRef::default(),
            output_buffer_frames: DEFAULT_OUTPUT_BUFFER_FRAMES,
            midi_device_name: None,
            target_lufs_bits: DEFAULT_TARGET_LUFS_BITS,
            global_hotkeys_enabled: true,
            global_modifier: owned("Ctrl+Alt"),
            panic_hotkey: None,
            language: default_language(),
        }
    }
}

/// Everything in the configuration but the banks and the active bank is as before.
pub open spec fn same_settings_but_active(a: AppConfig, b: AppConfig) -> bool {
    &&& a.version == b.version
    &&& a.output_device == b.output_device
    &&& a.output_buffer_frames == b.output_buffer_frames
    &&& a.midi_device_name == b.midi_device_name
    &&& a.target_lufs_bits == b.target_lufs_bits
    &&& a.global_hotkeys_enabled == b.global_hotkeys_enabled
    &&& a.global_modifier == b.global_modifier
    &&& a.panic_hotkey == b.panic_hotkey
    &&& a.language == b.language
}

/// Everything in the configuration but the banks is as before.
pub open spec fn same_settings(a: AppConfig, b: AppConfig) -> bool {
    &&& a.version == b.version
    &&& a.active_bank_id == b.active_bank_id
    &&& a.output_device == b.output_device
    &&& a.output_buffer_frames == b.output_buffer_frames
    &&& a.midi_device_name == b.midi_device_name
    &&& a.target_lufs_bits == b.target_lufs_bits
    &&& a.global_hotkeys_enabled == b.global_hotkeys_enabled
    &&& a.global_modifier == b.global_modifier
    &&& a.panic_hotkey == b.panic_hotkey
    &&& a.language == b.language
}

impl AppConfig {
    /// Reorders the banks (the tabs) by `ordered_ids`, as `Bank::reorder_pads`
    /// does one level down.
    pub fn reorder_banks(&mut self, ordered_ids: &[String])
        ensures
            final(self).banks@ == reordered(old(self).banks@, id_views(ordered_ids@)),
            forall|i: int| 0 <= i < final(self).banks@.len() ==> #[trigger] final(self).banks@[i].order == i as u32,
            same_settings(*final(self), *old(self)),
    {
        let mut banks: Vec<Bank> = Vec::new();
        std::mem::swap(&mut banks, &mut self.banks);
        let arranged = reorder_by_ids(banks, ordered_ids);
        self.banks = arranged;
    }
}

} // verus!
