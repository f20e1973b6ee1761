//! Verified core of a desktop sound pad: banks of pads, their retrigger
//! rules, trimming and waveform reduction of imported audio, output-device
//! resolution, MIDI and hotkey routing, and the configuration model.

pub mod commands;
pub mod export;
pub mod hotkeys;
mod ids;
pub mod listing;
pub mod midi;
pub mod models;
pub mod seed;
pub mod storage;

pub mod text;
pub mod audio;
