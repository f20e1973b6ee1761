//! Audio logic: device resolution, retrigger decisions, voice bookkeeping,
//! trimming and channel layout of imported sound.

pub mod devices;
pub mod engine;
pub mod normalize;
pub mod playback;
pub mod samples;
pub mod trim;
