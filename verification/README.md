# swipe_rs

SWIPE' pitch estimator: feed 48 kHz mono audio in chunks of any size, get back one
`(time, pitch, confidence)` frame per 10 ms hop. The library is written in Verus, and what it
computes is stated in contracts and proved.

## Layout

- `src/` is the verified library. It holds no floating point: the estimator is generic over a
  `Backend`, which supplies the number type, its operations and the Fourier transform.
  - `backend.rs`: the arithmetic, and a name for the result of each operation
  - `primes.rs`, `mel.rs`, `windows.rs`, `kernel.rs`, `fold.rs`: the tables
  - `frame.rs`: the analysis of one frame
  - `stream.rs`: the streaming estimator
  - `laws.rs`: what holds of the estimator as a whole
- `app/` is the estimator in `f32` with `realfft`, and a function `run` that turns a WAV file into
  a list of voiced frames.
- `tests/` runs the library in single precision with `realfft`, and its stages in double
  precision.

## Reading the contracts

A contract such as `deterministic::<B>() ==> mel == hz_to_mel_of::<B>(hz)` says: if the backend's
operations are functions of their operands, the result is this formula over them. Everything
about sizes, indices, frame counts and the state of the stream holds without that condition.

The library has no unverified function, and nothing is assumed of a backend. What the numeric
contracts say of a particular backend rests on that backend being deterministic. For `f32` this is
not proved: `app/` is outside the verified part, and the standard library does not promise that
`cos`, `ln`, `exp`, `log2` and `powf` give the same result on every call.

## Presets

| preset | `max_window` | latency | lowest pitch |
|---|---|---|---|
| Realtime | 4096 | ~85 ms | ~94 Hz |
| Balanced (default) | 8192 | ~170 ms | ~47 Hz |
| Full range | 16384 | ~340 ms | ~23 Hz |
