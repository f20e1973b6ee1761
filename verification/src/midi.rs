use vstd::prelude::*;

use crate::listing::{first_index, lemma_index_from_range, position_of, Listed};
use crate::models::{first_pad_from, lemma_first_pad_none, AppConfig, Pad};

verus! {

/// The note of a raw MIDI message when it is a real note-on: three bytes, a
/// note-on status on any channel (omni), and a velocity above zero. Note-offs,
/// note-ons with velocity zero (a disguised note-off) and anything else give
/// `None`.
pub open spec fn note_on_spec(m: Seq<u8>) -> Option<u8> {
    if m.len() == 3 && (m[0] & 0xF0u8) == 0x90u8 && m[2] > 0 {
        Some(m[1])
    } else {
        None
    }
}

/// A message gives a note exactly when it is three bytes long, its status
/// byte is a note-on on any of the sixteen channels (0x90 to 0x9F) and its
/// velocity is above zero; the note is its second byte. A note-off (0x80 to
/// 0x8F) never gives a note, and neither does a note-on with velocity zero.
pub proof fn lemma_note_on_law(m: Seq<u8>)
    ensures
        note_on_spec(m) is Some <==> (m.len() == 3 && 0x90 <= m[0] <= 0x9f && m[2] > 0),
        note_on_spec(m) matches Some(n) ==> n == m[1],
        (m.len() == 3 && 0x80 <= m[0] <= 0x8f) ==> note_on_spec(m) is None,
{
    assert(forall|b: u8| #[trigger] (b & 0xF0u8) == 0x90u8 <==> (0x90u8 <= b && b <= 0x9fu8)) by (bit_vector);
    if m.len() == 3 {
        let b = m[0];
        assert((b & 0xF0u8) == 0x90u8 <==> (0x90u8 <= b && b <= 0x9fu8));
    }
}

/// Reads a raw MIDI message: the note when it is a note-on with a velocity
/// above zero, on any channel.
pub fn parse_note_on(message: &[u8]) -> (note: Option<u8>)
    ensures
        note == note_on_spec(message@),
        note is Some <==> (message@.len() == 3 && 0x90 <= message@[0] <= 0x9f && message@[2] > 0),
        note matches Some(n) ==> n == message@[1],
{
    proof {
        lemma_note_on_law(message@);
    }
    if message.len() != 3 {
        return None;
    }
    let status = message[0];
    let note = message[1];
    let velocity = message[2];
    if status & 0xF0 == 0x90 && velocity > 0 {
        Some(note)
    } else {
        None
    }
}

pub open spec fn has_note(note: u8) -> spec_fn(Pad) -> bool {
    |p: Pad| p.midi_note == Some(note)
}

/// The bank and pad that a note triggers: in the active bank (the first bank
/// with the active id), the first pad bound to the note.
pub open spec fn pad_for_note(c: AppConfig, note: u8) -> Option<(Seq<char>, Seq<char>)> {
    let b = first_index(c.banks@, c.active_bank_id@);
    if b < 0 {
        None
    } else {
        let pads = c.banks@[b].pads@;
        let p = first_pad_from(pads, has_note(note), 0);
        if p < 0 {
            None
        } else {
            Some((c.banks@[b].id@, pads[p].id@))
        }
    }
}

/// The bank that holds the active id: the first bank whose id is the active one.
pub open spec fn is_active_bank(c: AppConfig, j: int) -> bool {
    &&& 0 <= j < c.banks@.len()
    &&& c.banks@[j].id@ == c.active_bank_id@
    &&& forall|i: int| 0 <= i < j ==> #[trigger] c.banks@[i].id@ != c.active_bank_id@
}

/// A note reaches only the active bank: when it triggers a pad, the bank is
/// the active one and the pad is the first of that bank bound to the note;
/// when it triggers nothing, no pad of the active bank is bound to it (pads
/// of other banks never count).
pub proof fn lemma_note_routes_to_the_active_bank(c: AppConfig, note: u8)
    ensures
        pad_for_note(c, note) matches Some((b, p)) ==> {
            &&& b == c.active_bank_id@
            &&& exists|j: int, k: int|
                #![trigger c.banks@[j].pads@[k]]
                {
                    &&& is_active_bank(c, j)
                    &&& 0 <= k < c.banks@[j].pads@.len()
                    &&& c.banks@[j].pads@[k].id@ == p
                    &&& c.banks@[j].pads@[k].midi_note == Some(note)
                    &&& forall|k2: int| 0 <= k2 < k ==> (#[trigger] c.banks@[j].pads@[k2]).midi_note != Some(note)
                }
        },
        pad_for_note(c, note) is None ==> forall|j: int, k: int|
            is_active_bank(c, j) && 0 <= k < c.banks@[j].pads@.len() ==> (#[trigger] c.banks@[j].pads@[k]).midi_note
                != Some(note),
{
    let banks = c.banks@;
    let id = c.active_bank_id@;
    lemma_index_from_range(banks, id, 0);
    let b = first_index(banks, id);
    assert forall|j: int| #[trigger] is_active_bank(c, j) implies j == b by {
        if b == -1 {
            assert(banks[j].key() != id);
        } else if j < b {
            assert(banks[j].key() != id);
        } else if j > b {
            assert(banks[b].id@ != id);
        }
    }
    if b >= 0 {
        assert(is_active_bank(c, b)) by {
            assert forall|i: int| 0 <= i < b implies #[trigger] banks[i].id@ != id by {
                assert(banks[i].key() != id);
            }
        }
        let pads = banks[b].pads@;
        lemma_first_pad_none(pads, has_note(note), 0);
        let p = first_pad_from(pads, has_note(note), 0);
        if p >= 0 {
            assert(pads[p].midi_note == Some(note));
            assert forall|k2: int| 0 <= k2 < p implies (#[trigger] pads[k2]).midi_note != Some(note) by {
                assert(!(has_note(note))(pads[k2]));
            }
            assert(c.banks@[b].pads@[p] == pads[p]);
        } else {
            assert forall|j: int, k: int| is_active_bank(c, j) && 0 <= k < c.banks@[j].pads@.len() implies (
            #[trigger] c.banks@[j].pads@[k]).midi_note != Some(note) by {
                assert(j == b);
                assert(!(has_note(note))(pads[k]));
            }
        }
    } else {
        assert forall|j: int, k: int| is_active_bank(c, j) && 0 <= k < c.banks@[j].pads@.len() implies (
        #[trigger] c.banks@[j].pads@[k]).midi_note != Some(note) by {
            assert(j == b);
        }
    }
}

pub open spec fn pair_view(r: Option<(String, String)>) -> Option<(Seq<char>, Seq<char>)> {
    match r {
        Some((a, b)) => Some((a@, b@)),
        None => None,
    }
}

/// Finds, within the active bank only, the pad bound to a MIDI note; like
/// hotkeys, notes answer only in the active bank. Gives the bank and pad ids.
pub fn find_pad_by_note(config: &AppConfig, note: u8) -> (r: Option<(String, String)>)
    ensures
        pair_view(r) == pad_for_note(*config, note),
        r matches Some((b, _)) ==> b@ == config.active_bank_id@,
{
    proof {
        lemma_note_routes_to_the_active_bank(*config, note);
    }
    let b = match position_of(&config.banks, &config.active_bank_id) {
        Some(b) => b,
        None => return None,
    };
    let bank = &config.banks[b];
    let ghost pred = has_note(note);
    let mut j: usize = 0;
    while j < bank.pads.len()
        invariant
            j <= bank.pads@.len(),
            b < config.banks@.len(),
            b as int == first_index(config.banks@, config.active_bank_id@),
            *bank == config.banks@[b as int],
            pred == has_note(note),
            first_pad_from(bank.pads@, pred, 0) == first_pad_from(bank.pads@, pred, j as int),
        decreases bank.pads@.len() - j,
    {
        let p = &bank.pads[j];
        let hit = match p.midi_note {
            Some(n) => n == note,
            None => false,
        };
        if hit {
            assert(pred(bank.pads@[j as int]));
            assert(first_pad_from(bank.pads@, pred, j as int) == j as int);
            let bank_id = bank.id.clone();
            let pad_id = p.id.clone();
            proof {
                lemma_index_from_range(config.banks@, config.active_bank_id@, 0);
                assert(config.banks@[b as int].key() == config.active_bank_id@);
            }
            return Some((bank_id, pad_id));
        }
        j = j + 1;
    }
    None
}

/// What an incoming note does.
#[derive(Debug, PartialEq)]
pub enum NoteRoute {
    /// MIDI learn was waiting: the note is captured and nothing is triggered.
    Learned(u8),
    /// The note is bound to this pad of the active bank: trigger it.
    Trigger { bank_id: String, pad_id: String },
    /// No pad of the active bank has the note.
    Unbound,
}

/// Decides what a note-on does: when MIDI learn was armed (and is now
/// disarmed by the caller) the note is captured for the learn dialog;
/// otherwise the pad bound to it in the active bank is triggered.
pub fn route_note(learning: bool, config: &AppConfig, note: u8) -> (r: NoteRoute)
    ensures
        learning ==> r == NoteRoute::Learned(note),
        !learning ==> match pad_for_note(*config, note) {
            Some((b, p)) => r matches NoteRoute::Trigger { bank_id, pad_id } && bank_id@ == b && pad_id@ == p,
            None => r == NoteRoute::Unbound,
        },
{
    if learning {
        return NoteRoute::Learned(note);
    }
    match find_pad_by_note(config, note) {
        Some((bank_id, pad_id)) => NoteRoute::Trigger { bank_id, pad_id },
        None => NoteRoute::Unbound,
    }
}

} // verus!
