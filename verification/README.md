# sound_pad

The verified core of a desktop sound pad for live podcasting and streaming:
banks of pads with sounds, global hotkeys, MIDI control and loudness
normalization.

- `src/` is the library, verified with Verus: the configuration model and its
  bank and pad operations, retrigger decisions and voice bookkeeping (with a
  per-pad voice cap), zero-crossing snapping, trimming and waveform peaks of
  imported audio (samples held as `f32` bit patterns), channel layout,
  output-device resolution and stream negotiation, MIDI note parsing and
  routing, hotkey planning, schema-version checks and archive entry names.
- `tests/` runs the library on concrete values.
- `app/` is the Tauri shell around it: commands, the kira/cpal player, the
  decode/resample/loudness pipeline on `f32` samples, files, MIDI input and
  global shortcuts.
