use vstd::prelude::*;

use crate::audio::normalize::TARGET_SAMPLE_RATE;
use crate::audio::trim::{
    exec_ms_to_frame, lemma_snap_idempotent, lemma_snapped_range, ms_to_frame, snap_to_zero_crossing, snapped, TrimRegion,
    ZERO_CROSSING_SEARCH_FRAMES,
};
use crate::ids::new_id;
use crate::listing::{first_index, id_views, lemma_index_from_range, position_of, reordered, Listed};
use crate::models::{
    hotkey_verdict, note_verdict, result_view, same_settings, same_settings_but_active, AppConfig, Bank, Pad,
};
use crate::text::{owned, same_text, text_is};

verus! {

pub open spec fn bank_not_found() -> Seq<char> {
    "banco no encontrado"@
}

pub open spec fn pad_not_found() -> Seq<char> {
    "pad no encontrado"@
}

pub open spec fn active_bank_not_found() -> Seq<char> {
    "banco activo no encontrado"@
}

/// The name of the bank created for the first imported pad.
pub open spec fn first_bank_name() -> Seq<char> {
    "Banco 1"@
}

/// Every bank but the one at `b` is as before, and that one keeps its id,
/// name and position.
pub open spec fn only_bank_changed(old: Seq<Bank>, new: Seq<Bank>, b: int) -> bool {
    &&& new.len() == old.len()
    &&& forall|j: int| 0 <= j < old.len() && j != b ==> #[trigger] new[j] == old[j]
    &&& new[b].id == old[b].id
    &&& new[b].name == old[b].name
    &&& new[b].order == old[b].order
}

/// What looking a pad up by bank and pad id gives.
pub open spec fn pad_lookup(c: AppConfig, bank_id: Seq<char>, pad_id: Seq<char>) -> Result<Pad, Seq<char>> {
    let b = first_index(c.banks@, bank_id);
    if b < 0 {
        Err(bank_not_found())
    } else {
        let p = first_index(c.banks@[b].pads@, pad_id);
        if p < 0 {
            Err(pad_not_found())
        } else {
            Ok(c.banks@[b].pads@[p])
        }
    }
}

/// Taking the item at `b` out and inserting `x` in its place is updating it.
proof fn lemma_put_back<A>(s: Seq<A>, b: int, x: A)
    requires
        0 <= b < s.len(),
    ensures
        s.remove(b).insert(b, x) == s.update(b, x),
{
    assert(s.remove(b).insert(b, x) =~= s.update(b, x));
}

/// Looking a pad up finds the pad with that id in the bank with that id (the
/// first bank with it): a bank id that no bank has gives "banco no
/// encontrado"; a pad id that the bank does not hold gives "pad no
/// encontrado".
pub proof fn lemma_pad_lookup_law(c: AppConfig, bank_id: Seq<char>, pad_id: Seq<char>)
    ensures
        pad_lookup(c, bank_id, pad_id) matches Ok(p) ==> p.id@ == pad_id && exists|j: int, k: int|
            #![trigger c.banks@[j].pads@[k]]
            0 <= j < c.banks@.len() && c.banks@[j].id@ == bank_id && 0 <= k < c.banks@[j].pads@.len()
                && c.banks@[j].pads@[k] == p,
        (pad_lookup(c, bank_id, pad_id) == Err::<Pad, Seq<char>>(bank_not_found())) <==> forall|j: int|
            0 <= j < c.banks@.len() ==> #[trigger] c.banks@[j].id@ != bank_id,
        pad_lookup(c, bank_id, pad_id) == Err::<Pad, Seq<char>>(pad_not_found()) ==> exists|j: int|
            0 <= j < c.banks@.len() && #[trigger] c.banks@[j].id@ == bank_id && forall|k: int|
                0 <= k < c.banks@[j].pads@.len() ==> (#[trigger] c.banks@[j].pads@[k]).id@ != pad_id,
{
    reveal_strlit("banco no encontrado");
    reveal_strlit("pad no encontrado");
    let banks = c.banks@;
    lemma_index_from_range(banks, bank_id, 0);
    let b = first_index(banks, bank_id);
    assert(bank_not_found() != pad_not_found()) by {
        assert(bank_not_found()[0] != pad_not_found()[0]);
    }
    if b < 0 {
        assert forall|j: int| 0 <= j < banks.len() implies #[trigger] banks[j].id@ != bank_id by {
            assert(banks[j].key() != bank_id);
        }
    } else {
        assert(banks[b].id@ == bank_id);
        let pads = banks[b].pads@;
        lemma_index_from_range(pads, pad_id, 0);
        let p = first_index(pads, pad_id);
        if p >= 0 {
            assert(pads[p].key() == pad_id);
            assert(c.banks@[b].pads@[p] == pads[p]);
        } else {
            assert forall|k: int| 0 <= k < c.banks@[b].pads@.len() implies (#[trigger] c.banks@[b].pads@[k]).id@
                != pad_id by {
                assert(pads[k].key() != pad_id);
            }
        }
    }
}

fn bank_index(config: &AppConfig, bank_id: &str) -> (r: Option<usize>)
    ensures
        match r {
            Some(b) => b as int == first_index(config.banks@, bank_id@) && b < config.banks@.len(),
            None => first_index(config.banks@, bank_id@) == -1,
        },
{
    let wanted = owned(bank_id);
    position_of(&config.banks, &wanted)
}

/// The active bank: the first bank whose id is the active one; `None` when
/// no bank has it (for instance when there are no banks).
pub fn active_bank(config: &AppConfig) -> (r: Option<&Bank>)
    ensures
        ({
            let b = first_index(config.banks@, config.active_bank_id@);
            match r {
                Some(bank) => 0 <= b < config.banks@.len() && *bank == config.banks@[b],
                None => b == -1,
            }
        }),
        r matches Some(bank) ==> bank.id@ == config.active_bank_id@,
        r is None <==> forall|j: int| 0 <= j < config.banks@.len() ==> #[trigger] config.banks@[j].id@ != config.active_bank_id@,
{
    proof {
        lemma_index_from_range(config.banks@, config.active_bank_id@, 0);
        assert(forall|j: int| 0 <= j < config.banks@.len() ==> #[trigger] config.banks@[j].key() == config.banks@[j].id@);
        let b = first_index(config.banks@, config.active_bank_id@);
        if b >= 0 {
            assert(config.banks@[b].id@ == config.active_bank_id@);
        } else {
            assert forall|j: int| 0 <= j < config.banks@.len() implies #[trigger] config.banks@[j].id@
                != config.active_bank_id@ by {
                assert(config.banks@[j].key() != config.active_bank_id@);
            }
        }
    }
    match position_of(&config.banks, &config.active_bank_id) {
        Some(b) => Some(&config.banks[b]),
        None => None,
    }
}

/// The pad with id `pad_id` in the bank with id `bank_id`.
pub fn find_pad<'a>(config: &'a AppConfig, bank_id: &str, pad_id: &str) -> (r: Result<&'a Pad, String>)
    ensures
        match r {
            Ok(p) => pad_lookup(*config, bank_id@, pad_id@) == Ok::<Pad, Seq<char>>(*p),
            Err(e) => pad_lookup(*config, bank_id@, pad_id@) == Err::<Pad, Seq<char>>(e@),
        },
{
    let b = match bank_index(config, bank_id) {
        Some(b) => b,
        None => return Err(owned("banco no encontrado")),
    };
    let wanted = owned(pad_id);
    match position_of(&config.banks[b].pads, &wanted) {
        Some(p) => Ok(&config.banks[b].pads[p]),
        None => Err(owned("pad no encontrado")),
    }
}

/// Replaces a whole pad (trim, loop, name, color, retrigger mode, fades...)
/// within its bank, after checking that its hotkey and MIDI note are free in
/// that bank. On any error the configuration is left as it was.
pub fn update_pad_in(config: &mut AppConfig, bank_id: &str, pad: Pad) -> (r: Result<(), String>)
    ensures
        ({
            let b = first_index(old(config).banks@, bank_id@);
            let pads = old(config).banks@[b].pads@;
            let i = first_index(pads, pad.id@);
            if b < 0 {
                r matches Err(e) && e@ == bank_not_found() && *final(config) == *old(config)
            } else if hotkey_verdict(pads, pad) is Err {
                result_view(r) == hotkey_verdict(pads, pad) && *final(config) == *old(config)
            } else if note_verdict(pads, pad) is Err {
                result_view(r) == note_verdict(pads, pad) && *final(config) == *old(config)
            } else if i < 0 {
                r matches Err(e) && e@ == pad_not_found() && *final(config) == *old(config)
            } else {
                &&& r is Ok
                &&& only_bank_changed(old(config).banks@, final(config).banks@, b)
                &&& final(config).banks@[b].pads@ == pads.update(i, pad)
                &&& same_settings(*final(config), *old(config))
            }
        }),
{
    let b = match bank_index(config, bank_id) {
        Some(b) => b,
        None => return Err(owned("banco no encontrado")),
    };
    let checked = config.banks[b].validate_hotkey(&pad);
    if let Err(e) = checked {
        return Err(e);
    }
    let checked = config.banks[b].validate_midi_note(&pad);
    if let Err(e) = checked {
        return Err(e);
    }
    if position_of(&config.banks[b].pads, &pad.id).is_none() {
        return Err(owned("pad no encontrado"));
    }
    let ghost old_banks = config.banks@;
    let mut bank = config.banks.remove(b);
    let found = bank.replace_pad(pad);
    config.banks.insert(b, bank);
    assert(found);
    proof {
        lemma_put_back(old_banks, b as int, config.banks@[b as int]);
    }
    Ok(())
}

/// Takes the pad out of its bank and hands it back, so that the caller can
/// delete its audio file. On an error the configuration is left as it was.
pub fn remove_pad_entry(config: &mut AppConfig, bank_id: &str, pad_id: &str) -> (r: Result<Pad, String>)
    ensures
        ({
            let b = first_index(old(config).banks@, bank_id@);
            let pads = old(config).banks@[b].pads@;
            let i = first_index(pads, pad_id@);
            if b < 0 {
                r matches Err(e) && e@ == bank_not_found() && *final(config) == *old(config)
            } else if i < 0 {
                r matches Err(e) && e@ == pad_not_found() && *final(config) == *old(config)
            } else {
                &&& r == Ok::<Pad, String>(pads[i])
                &&& only_bank_changed(old(config).banks@, final(config).banks@, b)
                &&& final(config).banks@[b].pads@ == pads.remove(i)
                &&& same_settings(*final(config), *old(config))
            }
        }),
{
    let b = match bank_index(config, bank_id) {
        Some(b) => b,
        None => return Err(owned("banco no encontrado")),
    };
    let wanted = owned(pad_id);
    if position_of(&config.banks[b].pads, &wanted).is_none() {
        return Err(owned("pad no encontrado"));
    }
    let ghost old_banks = config.banks@;
    let mut bank = config.banks.remove(b);
    let removed = bank.remove_pad(pad_id);
    config.banks.insert(b, bank);
    proof {
        lemma_put_back(old_banks, b as int, config.banks@[b as int]);
    }
    match removed {
        Some(p) => Ok(p),
        None => Err(owned("pad no encontrado")),
    }
}

/// Reorders the pads of one bank after a drag and drop.
pub fn reorder_pads_in(config: &mut AppConfig, bank_id: &str, ordered_ids: &[String]) -> (r: Result<(), String>)
    ensures
        ({
            let b = first_index(old(config).banks@, bank_id@);
            if b < 0 {
                r matches Err(e) && e@ == bank_not_found() && *final(config) == *old(config)
            } else {
                &&& r is Ok
                &&& only_bank_changed(old(config).banks@, final(config).banks@, b)
                &&& final(config).banks@[b].pads@ == reordered(old(config).banks@[b].pads@, id_views(ordered_ids@))
                &&& same_settings(*final(config), *old(config))
            }
        }),
{
    let b = match bank_index(config, bank_id) {
        Some(b) => b,
        None => return Err(owned("banco no encontrado")),
    };
    let ghost old_banks = config.banks@;
    let mut bank = config.banks.remove(b);
    bank.reorder_pads(ordered_ids);
    config.banks.insert(b, bank);
    proof {
        lemma_put_back(old_banks, b as int, config.banks@[b as int]);
    }
    Ok(())
}

/// Creates an empty bank at the end, with a fresh id, and makes it the
/// active one: the natural next step is to add pads to it.
pub fn create_bank_in(config: &mut AppConfig, name: String) -> (bank: Bank)
    ensures
        final(config).banks@.len() == old(config).banks@.len() + 1,
        forall|j: int| 0 <= j < old(config).banks@.len() ==> #[trigger] final(config).banks@[j] == old(config).banks@[j],
        ({
            let last = final(config).banks@[old(config).banks@.len() as int];
            &&& last.id == bank.id
            &&& last.name == bank.name
            &&& last.order == bank.order
            &&& last.pads@ == bank.pads@
        }),
        bank.id@.len() == 36,
        bank.name@ == name@,
        bank.order == old(config).banks@.len() as u32,
        bank.pads@.len() == 0,
        final(config).active_bank_id@ == bank.id@,
        same_settings_but_active(*final(config), *old(config)),
{
    let order = #[verifier::truncate] (config.banks.len() as u32);
    let bank = Bank { id: new_id(), name, order, pads: Vec::new() };
    let copy = bank.clone();
    config.active_bank_id = bank.id.clone();
    config.banks.push(bank);
    copy
}

/// Renames a bank.
pub fn rename_bank_in(config: &mut AppConfig, bank_id: &str, name: String) -> (r: Result<(), String>)
    ensures
        ({
            let b = first_index(old(config).banks@, bank_id@);
            if b < 0 {
                r matches Err(e) && e@ == bank_not_found() && *final(config) == *old(config)
            } else {
                &&& r is Ok
                &&& final(config).banks@.len() == old(config).banks@.len()
                &&& forall|j: int| 0 <= j < old(config).banks@.len() && j != b ==> #[trigger] final(config).banks@[j]
                    == old(config).banks@[j]
                &&& final(config).banks@[b].name == name
                &&& final(config).banks@[b].id == old(config).banks@[b].id
                &&& final(config).banks@[b].order == old(config).banks@[b].order
                &&& final(config).banks@[b].pads@ == old(config).banks@[b].pads@
                &&& same_settings(*final(config), *old(config))
            }
        }),
{
    let b = match bank_index(config, bank_id) {
        Some(b) => b,
        None => return Err(owned("banco no encontrado")),
    };
    let ghost old_banks = config.banks@;
    let mut bank = config.banks.remove(b);
    bank.name = name;
    config.banks.insert(b, bank);
    proof {
        lemma_put_back(old_banks, b as int, config.banks@[b as int]);
    }
    Ok(())
}

/// The id of the first bank; empty when there is none.
pub open spec fn first_bank_id(banks: Seq<Bank>) -> Seq<char> {
    if banks.len() > 0 { banks[0].id@ } else { Seq::empty() }
}

/// Takes a bank out of the configuration and hands it back, so that the
/// caller can delete the audio of all its pads. When it was the active bank,
/// the first bank left becomes active (none when it was the last).
pub fn remove_bank_entry(config: &mut AppConfig, bank_id: &str) -> (r: Result<Bank, String>)
    ensures
        ({
            let b = first_index(old(config).banks@, bank_id@);
            if b < 0 {
                r matches Err(e) && e@ == bank_not_found() && *final(config) == *old(config)
            } else {
                &&& r == Ok::<Bank, String>(old(config).banks@[b])
                &&& final(config).banks@ == old(config).banks@.remove(b)
                &&& old(config).active_bank_id@ == bank_id@ ==> final(config).active_bank_id@ == first_bank_id(final(config).banks@)
                &&& old(config).active_bank_id@ != bank_id@ ==> final(config).active_bank_id == old(config).active_bank_id
                &&& same_settings_but_active(*final(config), *old(config))
            }
        }),
{
    let b = match bank_index(config, bank_id) {
        Some(b) => b,
        None => return Err(owned("banco no encontrado")),
    };
    let removed = config.banks.remove(b);
    if text_is(&config.active_bank_id, bank_id) {
        if config.banks.len() > 0 {
            config.active_bank_id = config.banks[0].id.clone();
        } else {
            config.active_bank_id = String::new();
        }
    }
    Ok(removed)
}

/// Makes the bank with id `bank_id` the active one; refuses an unknown id.
pub fn set_active_bank_in(config: &mut AppConfig, bank_id: &str) -> (r: Result<(), String>)
    ensures
        first_index(old(config).banks@, bank_id@) < 0 ==> (r matches Err(e) && e@ == bank_not_found() && *final(config)
            == *old(config)),
        first_index(old(config).banks@, bank_id@) >= 0 ==> r is Ok && final(config).active_bank_id@ == bank_id@
            && final(config).banks == old(config).banks && same_settings_but_active(*final(config), *old(config)),
{
    if bank_index(config, bank_id).is_none() {
        return Err(owned("banco no encontrado"));
    }
    config.active_bank_id = owned(bank_id);
    Ok(())
}

/// Before the first pad is imported into an empty configuration, a bank
/// named "Banco 1" is created for it and made active.
pub fn ensure_first_bank(config: &mut AppConfig)
    ensures
        old(config).banks@.len() > 0 ==> *final(config) == *old(config),
        old(config).banks@.len() == 0 ==> {
            &&& final(config).banks@.len() == 1
            &&& final(config).banks@[0].name@ == first_bank_name()
            &&& final(config).banks@[0].order == 0
            &&& final(config).banks@[0].pads@.len() == 0
            &&& final(config).banks@[0].id@.len() == 36
            &&& final(config).active_bank_id@ == final(config).banks@[0].id@
            &&& same_settings_but_active(*final(config), *old(config))
        },
{
    if config.banks.len() == 0 {
        let bank = Bank { id: new_id(), name: owned("Banco 1"), order: 0, pads: Vec::new() };
        config.active_bank_id = bank.id.clone();
        config.banks.push(bank);
    }
}

/// Adds an imported pad at the end of the active bank, with `order` set to
/// its position, after checking that its hotkey and MIDI note are free in
/// that bank. Hands back the pad as stored. On an error the configuration is
/// left as it was.
pub fn add_pad_to_active_bank(config: &mut AppConfig, pad: Pad) -> (r: Result<Pad, String>)
    ensures
        ({
            let b = first_index(old(config).banks@, old(config).active_bank_id@);
            let pads = old(config).banks@[b].pads@;
            let stored = Pad { order: pads.len() as u32, ..pad };
            if b < 0 {
                r matches Err(e) && e@ == active_bank_not_found() && *final(config) == *old(config)
            } else if hotkey_verdict(pads, stored) is Err {
                r matches Err(e) && Err::<(), Seq<char>>(e@) == hotkey_verdict(pads, stored) && *final(config) == *old(config)
            } else if note_verdict(pads, stored) is Err {
                r matches Err(e) && Err::<(), Seq<char>>(e@) == note_verdict(pads, stored) && *final(config) == *old(config)
            } else {
                &&& r == Ok::<Pad, String>(stored)
                &&& only_bank_changed(old(config).banks@, final(config).banks@, b)
                &&& final(config).banks@[b].pads@ == pads.push(stored)
                &&& same_settings(*final(config), *old(config))
            }
        }),
{
    let b = match position_of(&config.banks, &config.active_bank_id) {
        Some(b) => b,
        None => return Err(owned("banco activo no encontrado")),
    };
    let mut pad = pad;
    pad.order = #[verifier::truncate] (config.banks[b].pads.len() as u32);
    let checked = config.banks[b].validate_hotkey(&pad);
    if let Err(e) = checked {
        return Err(e);
    }
    let checked = config.banks[b].validate_midi_note(&pad);
    if let Err(e) = checked {
        return Err(e);
    }
    let ghost old_banks = config.banks@;
    let stored = pad.clone();
    let mut bank = config.banks.remove(b);
    bank.pads.push(pad);
    config.banks.insert(b, bank);
    proof {
        lemma_put_back(old_banks, b as int, config.banks@[b as int]);
    }
    Ok(stored)
}

/// The trim region of an import: only when both edges are given.
pub fn trim_region_from(start_ms: Option<u32>, end_ms: Option<u32>) -> (r: Option<TrimRegion>)
    ensures
        match (start_ms, end_ms) {
            (Some(s), Some(e)) => r == Some(TrimRegion { start_ms: s, end_ms: e }),
            _ => r is None,
        },
{
    match (start_ms, end_ms) {
        (Some(start_ms), Some(end_ms)) => Some(TrimRegion { start_ms, end_ms }),
        _ => None,
    }
}

/// A trim region snapped to zero crossings, in milliseconds.
#[derive(Debug, Clone, Copy, PartialEq, Eq, Structural)]
pub struct SnappedRegion {
    pub start_ms: u32,
    pub end_ms: u32,
}

/// A frame index at 48 kHz as whole milliseconds, rounded down (and cut to 32 bits).
pub open spec fn frame_to_ms(frame: int) -> u32 {
    ((frame * 1000) / (TARGET_SAMPLE_RATE as int)) as u32
}

/// Where the editor's handle lands: the millisecond position, as a frame at
/// 48 kHz, snapped to the nearest zero crossing, and back to milliseconds.
pub open spec fn snapped_ms(s: Seq<u32>, ms: u32) -> u32 {
    frame_to_ms(snapped(s, ms_to_frame(ms, TARGET_SAMPLE_RATE) as int, ZERO_CROSSING_SEARCH_FRAMES as int))
}

/// The buffers on which `snap_region` converts frames back to milliseconds
/// without overflow.
pub open spec fn snap_region_in_range(len: nat) -> bool {
    len / 2 * 1000 <= u64::MAX
}

fn exec_frame_to_ms(frame: usize) -> (ms: u32)
    requires
        frame * 1000 <= u64::MAX,
    ensures
        ms == frame_to_ms(frame as int),
{
    let f = frame as u64;
    #[verifier::truncate] ((f * 1000 / 48_000) as u32)
}

/// Snaps both edges of a trim region to the nearest zero crossing of the
/// analysed buffer, so that the editor shows where the cut will really fall.
/// Importing snaps again, with the same result.
pub fn snap_region(stereo: &[u32], start_ms: u32, end_ms: u32) -> (r: SnappedRegion)
    requires
        snap_region_in_range(stereo@.len()),
    ensures
        r.start_ms == snapped_ms(stereo@, start_ms),
        r.end_ms == snapped_ms(stereo@, end_ms),
{
    assert(stereo@.len() == stereo.len());
    let s0 = exec_ms_to_frame(start_ms, TARGET_SAMPLE_RATE);
    let e0 = exec_ms_to_frame(end_ms, TARGET_SAMPLE_RATE);
    assert(s0 * 1000 <= u64::MAX) by (nonlinear_arith)
        requires
            s0 as int <= (start_ms as int * 48_000) / 1000,
            start_ms <= u32::MAX,
    ;
    assert(e0 * 1000 <= u64::MAX) by (nonlinear_arith)
        requires
            e0 as int <= (end_ms as int * 48_000) / 1000,
            end_ms <= u32::MAX,
    ;
    let s = snap_to_zero_crossing(stereo, s0, ZERO_CROSSING_SEARCH_FRAMES);
    let e = snap_to_zero_crossing(stereo, e0, ZERO_CROSSING_SEARCH_FRAMES);
    proof {
        lemma_snapped_range(stereo@, s0 as int, ZERO_CROSSING_SEARCH_FRAMES as int);
        lemma_snapped_range(stereo@, e0 as int, ZERO_CROSSING_SEARCH_FRAMES as int);
        if s != s0 {
            assert(s * 1000 <= u64::MAX) by (nonlinear_arith)
                requires
                    s < stereo@.len() / 2,
                    stereo@.len() / 2 * 1000 <= u64::MAX,
            ;
        }
        if e != e0 {
            assert(e * 1000 <= u64::MAX) by (nonlinear_arith)
                requires
                    e < stereo@.len() / 2,
                    stereo@.len() / 2 * 1000 <= u64::MAX,
            ;
        }
    }
    SnappedRegion { start_ms: exec_frame_to_ms(s), end_ms: exec_frame_to_ms(e) }
}

/// What the editor shows is what the import cuts, for an edge that snaps to
/// a whole millisecond (a multiple of 48 frames): the import turns the shown
/// millisecond back into a frame and snaps it again, and lands on the same
/// frame that the editor showed.
pub proof fn lemma_shown_edge_is_cut_edge(s: Seq<u32>, ms: u32)
    requires
        s.len() <= usize::MAX,
        snapped(s, ms_to_frame(ms, TARGET_SAMPLE_RATE) as int, ZERO_CROSSING_SEARCH_FRAMES as int) % 48 == 0,
        snapped(s, ms_to_frame(ms, TARGET_SAMPLE_RATE) as int, ZERO_CROSSING_SEARCH_FRAMES as int) / 48 <= u32::MAX,
    ensures
        snapped(s, ms_to_frame(snapped_ms(s, ms), TARGET_SAMPLE_RATE) as int, ZERO_CROSSING_SEARCH_FRAMES as int)
            == snapped(s, ms_to_frame(ms, TARGET_SAMPLE_RATE) as int, ZERO_CROSSING_SEARCH_FRAMES as int),
{
    let f0 = ms_to_frame(ms, TARGET_SAMPLE_RATE) as int;
    let max = ZERO_CROSSING_SEARCH_FRAMES as int;
    let f = snapped(s, f0, max);
    lemma_snapped_range(s, f0, max);
    assert(0 <= f <= usize::MAX);
    let q = f / 48;
    assert(f == 48 * q);
    assert((f * 1000) / 48_000 == q) by (nonlinear_arith)
        requires
            f == 48 * q,
    ;
    assert(snapped_ms(s, ms) == q);
    assert((q * 48_000) / 1000 == f) by (nonlinear_arith)
        requires
            f == 48 * q,
    ;
    assert(ms_to_frame(snapped_ms(s, ms), TARGET_SAMPLE_RATE) as int == f);
    lemma_snap_idempotent(s, f0, max);
}

/// Counts the 100 ms ticks of the player's polling loop: every 20 ticks
/// (about two seconds) it is time to check that the output device is still
/// there.
pub struct DeviceCheckClock {
    count: u32,
}

/// Number of ticks between two checks of the output device.
pub const DEVICE_CHECK_TICKS: u32 = 20;

impl DeviceCheckClock {
    #[verifier::type_invariant]
    spec fn inv(self) -> bool {
        self.count < DEVICE_CHECK_TICKS
    }

    pub closed spec fn ticks(self) -> u32 {
        self.count
    }

    pub fn new() -> (c: Self)
        ensures
            c.ticks() == 0,
    {
        DeviceCheckClock { count: 0 }
    }

    /// One more tick; says whether the device must be checked now.
    pub fn tick(&mut self) -> (check: bool)
        ensures
            check == (old(self).ticks() + 1 == DEVICE_CHECK_TICKS),
            final(self).ticks() == if check { 0 } else { old(self).ticks() + 1 },
            final(self).ticks() < DEVICE_CHECK_TICKS,
    {
        proof {
            use_type_invariant(&*self);
        }
        let next = self.count + 1;
        if next >= DEVICE_CHECK_TICKS {
            self.count = 0;
            true
        } else {
            self.count = next;
            false
        }
    }
}

} // verus!
