# chime

Decoding logic of an audio player for PCM (WAV, AIFF) and DSD (DSF, DFF,
SACD images, DST frames), written in Verus and verified against its
contracts.

- `src/` is the verified library: container parsers (`pcm`, `dsd`), the
  DST frame decoder (`dst`), the integer side of DSD processing (`dsp`:
  DoP framing, channel (de)interleaving, decimation stage plans, resampling
  plans), decoder selection (`detect`) and the playback cursor (`output`).
  Fixed-width integers are read through `byteorder`, behind wrappers in
  `src/bytes.rs`.
- `app/` is the command-line player around it: file reading, floating-point
  filtering and sample conversion, audio output through `cpal`, and the
  error messages shown to the user.
- `tests/` exercises the library on concrete inputs.
