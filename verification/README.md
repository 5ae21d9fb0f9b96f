# fistula

Turns the detected pitch of a melody into an Otamatone fingering chart.

- `src/` — the verified core, in exact integer units (microseconds, cents above
  MIDI note 0, neck positions as exact fractions of the neck):
  - `analysis/framing.rs` — frame layout over the samples
  - `analysis/median.rs` — five-frame median smoothing
  - `analysis/octave.rs` — repair of isolated octave jumps
  - `analysis/quantize.rs` — semitone quantisation with hysteresis
  - `analysis/postprocess.rs` — note segmentation, transposition and neck placement
  - `analysis/transpose.rs` — octave shift that best fits the instrument's range
  - `mapping/otamatone.rs` — neck position from a profile's calibration
  - `pipeline.rs` — the analysis from voiced frames to placed notes
- `app/` — the command-line program: audio decoding (symphonia), windowing and
  pitch detection (pitch-detection), the JSON model (serde), the audio cache.
- `tests/` — behaviour on concrete inputs.
