# prcdsp

Audio processing blocks whose behaviour is stated in contracts and proved by Verus.

- `filters::tubestage`: an oversampled single-ended tube stage (polynomial or Koren triode
  waveshaper, output transformer, DC blockers, makeup gain).
- `processors::declipper`: finds flat-topped clip runs and reconstructs the missing peaks, by a
  cubic or by constrained autoregressive interpolation, behind a fixed delay.
- `processors::expander`: an upward/downward expander with a soft knee, crest-factor control and an
  adaptive threshold.
- `processors::truepeak`: a lookahead limiter that follows the true (intersample) peak, as a 4x
  oversampling probe measures it, and lets no sample out above its ceiling.
- `utils::resampling`: a polyphase FIR upsampler for exact rational ratios, and a guard that puts
  the true-peak limiter behind any resampler.

## Arithmetic

Everything is generic over `prcfmt::PrcFmt`, the processing format. A contract names each result by
the format's own operations, in the order in which they are carried out, so it holds of the values
that are computed, rounding included. `fixed::Fixed` is a 32.32 fixed-point format whose operations
are themselves proved: they keep the order, rounding included. Laws that need to know the arithmetic
(the ramp does not overshoot, no sample leaves the limiter above its ceiling, the knee and the plate
current rise) are stated for it. `exact` states what exact arithmetic is, and some laws say what an
algorithm computes but for rounding: the banded solver solves its system, the Levinson-Durbin
recursion solves the Yule-Walker equations, the filters pass a constant with their nominal gain.

Levels that are reported are computed in a format of their own (`prcfmt::Metered`).

## Layout

- `src/`: the verified library. Laws that relate several functions stand in public proof functions
  named `lemma_..`, next to what they speak of or in a file of their own (`.._laws.rs`,
  `branches.rs`, `even_branch.rs`, `capping.rs`, `dc_gain.rs`).
- `tests/`: scenarios, mostly in double precision, with the `rubato` crate as one of the resamplers.
- `app/`: double precision as a processing format, with levels in single precision; the FFT
  resampler of `rubato` for the tube stage; and the way into `rubato`'s resampler interface for the
  upsampler and for the guard around any resampler.
