use vstd::prelude::*;

use crate::models::RetriggerMode;

verus! {

/// What to do when a pad is triggered, given its retrigger mode and how many
/// voices of it are sounding right now.
#[derive(Debug, Clone, Copy, PartialEq, Eq, Structural)]
pub enum TriggerAction {
    /// The pad is idle: start it normally.
    Start,
    /// Stop mode while already sounding: stop it and start nothing new.
    StopOnly,
    /// Restart mode while already sounding: stop it and start again from the beginning.
    RestartFromBeginning,
    /// Ignore mode while already sounding: do nothing.
    DoNothing,
    /// Overlap mode: add a voice; at the cap, evict the oldest one first.
    AddOverlap { evict_oldest: bool },
}

/// The action that `decide_trigger_action` takes.
pub open spec fn trigger_action(mode: RetriggerMode, active_count: nat, max_overlap: nat) -> TriggerAction {
    if active_count == 0 {
        TriggerAction::Start
    } else {
        match mode {
            RetriggerMode::Stop => TriggerAction::StopOnly,
            RetriggerMode::Restart => TriggerAction::RestartFromBeginning,
            RetriggerMode::Ignore => TriggerAction::DoNothing,
            RetriggerMode::Overlap => TriggerAction::AddOverlap { evict_oldest: active_count >= max_overlap },
        }
    }
}

/// Decides what triggering a pad does, from its retrigger mode and the number
/// of its voices that are active now.
pub fn decide_trigger_action(mode: RetriggerMode, active_count: usize, max_overlap: usize) -> (action: TriggerAction)
    ensures
        action == trigger_action(mode, active_count as nat, max_overlap as nat),
{
    if active_count == 0 {
        return TriggerAction::Start;
    }
    match mode {
        RetriggerMode::Stop => TriggerAction::StopOnly,
        RetriggerMode::Restart => TriggerAction::RestartFromBeginning,
        RetriggerMode::Ignore => TriggerAction::DoNothing,
        RetriggerMode::Overlap => TriggerAction::AddOverlap { evict_oldest: active_count >= max_overlap },
    }
}

} // verus!
