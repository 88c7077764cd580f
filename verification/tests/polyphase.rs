//! The polyphase upsampler on audio in double precision.

use prcdsp::prcfmt::PrcFmt;
use prcdsp::utils::resampling::design::{design_kaiser_lp, design_prototype, transition_width};
use prcdsp::utils::resampling::kernel::{
    convolve_backward, convolve_backward2, convolve_forward, convolve_forward2, valid_tap_range,
};
use prcdsp::utils::resampling::polyphase::{
    derived_oversampling, gcd, PolyphaseError, PolyphaseFir,
};
use prcdsp::utils::resampling::{frames, Indexing, ResampleError, Resampler};
use prcdsp::utils::window::bessel_i0;
use std::f64::consts::PI;

/// Samples in double precision.
#[derive(Clone, Copy, Debug, PartialEq)]
struct F(f64);

impl PrcFmt for F {
    // Laws of the order: there is nothing to compute.
    fn lt_irreflexive(self) {}
    fn lt_transitive(self, _: F, _: F) {}
    fn le_excludes_gt(self, _: F) {}
    fn max_not_below(self, _: F) {}

    fn of_int(n: i64) -> F {
        F(n as f64)
    }
    fn of_usize(n: usize) -> F {
        F(n as f64)
    }
    fn decimal(digits: i64, places: u32) -> F {
        if places <= 22 {
            F(digits as f64 / 10f64.powi(places as i32))
        } else {
            F(format!("{}e-{}", digits, places).parse().unwrap())
        }
    }
    fn pi() -> F {
        F(std::f64::consts::PI)
    }
    fn plus(self, rhs: F) -> F {
        F(self.0 + rhs.0)
    }
    fn minus(self, rhs: F) -> F {
        F(self.0 - rhs.0)
    }
    fn times(self, rhs: F) -> F {
        F(self.0 * rhs.0)
    }
    fn over(self, rhs: F) -> F {
        F(self.0 / rhs.0)
    }
    fn negated(self) -> F {
        F(-self.0)
    }
    fn abs(self) -> F {
        F(self.0.abs())
    }
    fn max(self, rhs: F) -> F {
        F(self.0.max(rhs.0))
    }
    fn min(self, rhs: F) -> F {
        F(self.0.min(rhs.0))
    }
    fn sqrt(self) -> F {
        F(self.0.sqrt())
    }
    fn exp(self) -> F {
        F(self.0.exp())
    }
    fn ln(self) -> F {
        F(self.0.ln())
    }
    fn log10(self) -> F {
        F(self.0.log10())
    }
    fn powf(self, exponent: F) -> F {
        F(self.0.powf(exponent.0))
    }
    fn sin(self) -> F {
        F(self.0.sin())
    }
    fn tan(self) -> F {
        F(self.0.tan())
    }
    fn lt(self, rhs: F) -> bool {
        self.0 < rhs.0
    }
    fn le(self, rhs: F) -> bool {
        self.0 <= rhs.0
    }
    fn same(self, rhs: F) -> bool {
        self.0 == rhs.0
    }
    fn is_finite(self) -> bool {
        self.0.is_finite()
    }
}

fn wrap(v: &[f64]) -> Vec<F> {
    v.iter().map(|x| F(*x)).collect()
}

fn plain(v: &[F]) -> Vec<f64> {
    v.iter().map(|x| x.0).collect()
}

fn i0(x: f64) -> f64 {
    bessel_i0(F(x)).0
}

fn freq_response_db(h: &[f64], freq_normalized: f64) -> f64 {
    // Evaluate |H(e^{jw})| at the given normalized frequency (0..0.5).
    let mut re = 0.0_f64;
    let mut im = 0.0_f64;
    let w = 2.0 * PI * freq_normalized;
    for (n, v) in h.iter().enumerate() {
        re += *v * (n as f64 * w).cos();
        im -= *v * (n as f64 * w).sin();
    }
    20.0 * (re * re + im * im).sqrt().log10()
}

fn kaiser_lp(len: usize, cutoff: f64, attenuation_db: f64, oversampling: usize) -> Vec<f64> {
    plain(&design_kaiser_lp(len, F(cutoff), F(attenuation_db), oversampling))
}

fn prototype(taps: usize, oversampling: usize) -> Vec<f64> {
    plain(&design_prototype::<F>(taps, oversampling))
}

fn make(
    input_rate: usize,
    output_rate: usize,
    chunk: usize,
    channels: usize,
    taps: usize,
) -> PolyphaseFir<F> {
    PolyphaseFir::new(input_rate, output_rate, chunk, channels, taps).unwrap()
}

fn error_of(
    input_rate: usize,
    output_rate: usize,
    chunk: usize,
    channels: usize,
    taps: usize,
) -> Option<PolyphaseError> {
    PolyphaseFir::<F>::new(input_rate, output_rate, chunk, channels, taps).err()
}

#[test]
fn derived_oversampling_for_target_rates() {
    assert_eq!(derived_oversampling(44_100, 96_000).unwrap(), (320, 147));
    assert_eq!(derived_oversampling(48_000, 96_000).unwrap(), (2, 1));
    assert_eq!(derived_oversampling(88_200, 96_000).unwrap(), (160, 147));
}

#[test]
fn rejects_downsampling_and_huge_ratio() {
    // Downsampling and pass-through are out of scope for this engine.
    assert!(error_of(96_000, 44_100, 128, 2, 32).is_some());
    assert!(error_of(96_000, 96_000, 128, 2, 32).is_some());
    // Coprime rates would need one branch per output-rate hertz.
    assert!(error_of(44_100, 44_101, 128, 2, 32).is_some());
}

#[test]
fn kaiser_lp_is_symmetric() {
    let h = kaiser_lp(257, 0.2, 100.0, 1);
    for n in 0..128 {
        let diff = (h[n] - h[256 - n]).abs();
        assert!(diff < 1e-9, "asymmetry at {n}: {diff}");
    }
}

#[test]
fn kaiser_lp_stopband_meets_120db() {
    // Long Kaiser, cutoff at 0.2, stopband should start near 0.25.
    let h = kaiser_lp(2049, 0.2, 130.0, 1);
    // At 0.35 we should be well into the stopband.
    let resp = freq_response_db(&h, 0.35);
    assert!(resp <= -120.0, "stopband only reached {resp} dB");
}

#[test]
fn stopband_edge_is_at_nyquist() {
    // The stopband is already reached at the source Nyquist (0.5 / L of the upsampled rate),
    // rather than the -6 dB point sitting there.
    let taps = 256;
    let oversampling = 320;
    let proto = prototype(taps, oversampling);
    let nyquist = 0.5 / oversampling as f64;
    let width = transition_width::<F>(taps * oversampling).0;

    let stop = freq_response_db(&proto, nyquist) - 20.0 * (oversampling as f64).log10();
    assert!(
        stop <= -135.0,
        "response at the source Nyquist is only {stop} dB below passband"
    );

    let pass =
        freq_response_db(&proto, nyquist - 1.5 * width) - 20.0 * (oversampling as f64).log10();
    assert!(
        pass >= -0.01,
        "passband droops to {pass} dB just inside the transition"
    );
}

#[test]
fn half_table_matches_full_table() {
    // Every branch above L/2 is evaluated from the mirrored stored branch with the forward kernel;
    // the result must match a straight full-table convolution to rounding.
    let taps = 32;
    let mut r = make(44_100, 96_000, 128, 1, taps);
    let oversampling = r.oversampling;
    let prototype = prototype(taps, oversampling);
    for (idx, sample) in r.buffers[0].iter_mut().enumerate() {
        *sample = F(((idx * 17 % 31) as f64 - 15.0) / 31.0);
    }

    let buf = r.buffers[0].clone();
    let n_p = buf.len() - 1;
    for b in 0..oversampling {
        let mut reference = 0.0_f64;
        let mut magnitude = 0.0_f64;
        for k in 0..taps {
            let term = prototype[k * oversampling + b] * buf[n_p - k].0;
            reference += term;
            magnitude += term.abs();
        }
        let got = r.eval(&buf, b, n_p).0;
        let tol = 1e-12 * magnitude.max(1e-3);
        assert!(
            (got - reference).abs() <= tol,
            "branch {b}: got {got}, reference {reference}"
        );
    }
}

#[test]
fn half_table_matches_full_table_where_the_length_is_odd() {
    // With an odd number of taps and of branches the prototype has an even number of
    // coefficients, and its centre falls between two of them.
    for (input_rate, output_rate, taps) in
        [(32_000, 48_000, 33), (32_000, 48_000, 5), (44_100, 99_225, 7)]
    {
        let mut r = make(input_rate, output_rate, 128, 1, taps);
        let oversampling = r.oversampling;
        assert_eq!((taps * oversampling) % 2, 1);
        let prototype = prototype(taps, oversampling);
        for (idx, sample) in r.buffers[0].iter_mut().enumerate() {
            *sample = F(((idx * 17 % 31) as f64 - 15.0) / 31.0);
        }

        let buf = r.buffers[0].clone();
        let n_p = buf.len() - 1;
        for b in 0..oversampling {
            let mut reference = 0.0_f64;
            let mut magnitude = 0.0_f64;
            for k in 0..taps {
                let term = prototype[k * oversampling + b] * buf[n_p - k].0;
                reference += term;
                magnitude += term.abs();
            }
            let got = r.eval(&buf, b, n_p).0;
            let tol = 1e-12 * magnitude.max(1e-3);
            assert!(
                (got - reference).abs() <= tol,
                "branch {b}: got {got}, reference {reference}"
            );
        }
    }
}

#[test]
fn prototype_has_one_coefficient_more_than_its_branches() {
    for (taps, oversampling) in [(3, 3), (33, 3), (7, 9), (32, 3), (5, 320), (1, 2)] {
        let h = prototype(taps, oversampling);
        let last = taps * oversampling;
        assert_eq!(h.len(), last + 1);
        for m in 0..=last {
            assert_eq!(h[m], h[last - m]);
        }
        let total: f64 = h.iter().sum();
        assert!((total - oversampling as f64).abs() < 1e-9);
    }
    assert_eq!(prototype(3, 3).len(), 10);
}

#[test]
fn output_delay_is_half_the_prototype() {
    for (input_rate, output_rate, taps, expected) in [
        (48_000, 96_000, 32, 32),
        (48_000, 96_000, 33, 33),
        (48_000, 384_000, 5, 20),
        (44_100, 96_000, 64, 69),
        (32_000, 48_000, 33, 24),
    ] {
        assert_eq!(make(input_rate, output_rate, 64, 1, taps).output_delay(), expected);
    }
}

#[test]
fn pair_eval_matches_single_eval() {
    // The coefficient-sharing path must be bit-identical to two single evaluations, on every
    // branch (both kernels) and in the clipped priming region.
    let taps = 32;
    let mut r = make(44_100, 96_000, 128, 2, taps);
    for (idx, sample) in r.buffers[0].iter_mut().enumerate() {
        *sample = F(((idx * 17 % 31) as f64 - 15.0) / 31.0);
    }
    for (idx, sample) in r.buffers[1].iter_mut().enumerate() {
        *sample = F(((idx * 7 % 23) as f64 - 11.0) / 23.0);
    }
    let buf0 = r.buffers[0].clone();
    let buf1 = r.buffers[1].clone();
    for &n_p in &[buf0.len() - 1, taps + 3, 10, 0] {
        for b in 0..r.oversampling {
            let pair = r.eval2(&buf0, &buf1, b, n_p);
            let single = (r.eval(&buf0, b, n_p), r.eval(&buf1, b, n_p));
            assert!(
                pair == single,
                "n_p={n_p} branch {b}: pair {pair:?} != single {single:?}"
            );
        }
    }
}

#[test]
fn odd_and_masked_channel_sets_are_all_written() {
    // Three channels: one pair plus a remainder channel. Then a mask that leaves channels 0 and 2
    // active, so the pair is formed from non-adjacent channels. Each channel is fed its own DC
    // level and must converge to it.
    let chunk = 512;
    let mut r = make(44_100, 96_000, chunk, 3, 64);
    let in_len = r.input_frames_max();
    let levels = [0.25, -0.5, 0.75];
    let waves: Vec<Vec<F>> = levels.iter().map(|l| vec![F(*l); in_len]).collect();
    let mut out = vec![vec![F(0.0); chunk]; 3];

    for mask in [vec![true, true, true], vec![true, false, true]] {
        r.reset();
        let indexing = Indexing {
            input_offset: 0,
            output_offset: 0,
            partial_len: None,
            active_channels_mask: Some(mask.clone()),
        };
        for _ in 0..4 {
            out.iter_mut().for_each(|w| w.iter_mut().for_each(|v| *v = F(0.0)));
            r.process_into_buffer(&waves, &mut out, Some(&indexing)).unwrap();
        }
        for (ch, active) in mask.iter().enumerate() {
            let mid = out[ch][chunk / 2].0;
            let expected = if *active { levels[ch] } else { 0.0 };
            assert!(
                (mid - expected).abs() < 1e-3,
                "mask {mask:?} channel {ch}: got {mid}, expected {expected}"
            );
        }
    }
}

#[test]
fn integer_phase_advances_exactly() {
    // The phase is integer arithmetic, so it cannot drift no matter how many chunks are processed.
    let chunk = 64;
    let taps = 8;
    let mut r = make(44_100, 96_000, chunk, 1, taps);
    let (oversampling, step) = (r.oversampling, r.step);
    let in_len = r.input_frames_max();
    let waves = vec![vec![F(0.0); in_len]; 1];
    let mut out = vec![vec![F(0.0); chunk]; 1];

    let mut consumed_total = 0_usize;
    let mut previous_fill = 0_usize;
    for k in 1..=1000_usize {
        let (read, _) = r.process_into_buffer(&waves, &mut out, None).unwrap();
        // consumed = (fill before slide) - (fill after slide)
        consumed_total += previous_fill + read - r.buffer_fill;
        previous_fill = r.buffer_fill;

        let total_up = k * chunk * step;
        assert_eq!(r.next_sample + consumed_total, total_up / oversampling);
        assert_eq!(r.next_branch, total_up % oversampling);
    }
}

#[test]
fn inactive_channel_history_is_zeroed() {
    let mut r = make(44_100, 96_000, 64, 2, 16);
    let in_len = r.input_frames_max();
    let waves = vec![vec![F(0.5); in_len]; 2];
    let mut out = vec![vec![F(0.0); 64]; 2];
    let indexing = Indexing {
        input_offset: 0,
        output_offset: 0,
        partial_len: None,
        active_channels_mask: Some(vec![true, false]),
    };
    r.process_into_buffer(&waves, &mut out, Some(&indexing)).unwrap();

    assert!(
        r.buffers[1].iter().all(|v| v.0 == 0.0),
        "inactive channel kept a non-zero history"
    );
    assert!(
        r.buffers[0].iter().any(|v| v.0 != 0.0),
        "active channel lost its history"
    );
}

#[test]
fn deactivated_channel_forgets_what_it_held() {
    let mut r = make(44_100, 96_000, 64, 2, 16);
    let waves = vec![vec![F(0.5); r.input_frames_max()]; 2];
    let mut out = vec![vec![F(0.0); 64]; 2];
    r.process_into_buffer(&waves, &mut out, None).unwrap();
    assert!(r.buffers[1].iter().any(|v| v.0 != 0.0));
    let indexing = Indexing {
        input_offset: 0,
        output_offset: 0,
        partial_len: None,
        active_channels_mask: Some(vec![true, false]),
    };
    r.process_into_buffer(&waves, &mut out, Some(&indexing)).unwrap();
    assert!(r.buffers[1].iter().all(|v| v.0 == 0.0));
}

#[test]
fn polyphase_dc_passes_through_with_unity_gain() {
    // Constant input -> constant output of (approximately) the same value.
    let mut r = make(44_100, 96_000, 512, 1, 64);
    let in_len = r.input_frames_max();
    let waves = vec![vec![F(1.0); in_len]; 1];
    let mut out = vec![vec![F(0.0); r.output_frames_max()]; 1];
    // Pump several chunks to flush the priming delay.
    for _ in 0..4 {
        r.process_into_buffer(&waves, &mut out, None).unwrap();
    }
    // Inspect the middle of the last output chunk (away from edges).
    let mid = out[0][r.output_frames_max() / 2].0;
    assert!((mid - 1.0).abs() < 1e-3, "DC gain off: got {mid} (expected ~1.0)");
}

#[test]
fn polyphase_rejects_rate_adjust() {
    let mut r = make(44_100, 48_000, 128, 2, 32);
    assert!(matches!(
        r.set_resample_ratio(F(1.5), false),
        Err(ResampleError::SyncNotAdjustable)
    ));
    assert!(matches!(
        r.set_resample_ratio_relative(F(1.1), false),
        Err(ResampleError::SyncNotAdjustable)
    ));
}

#[test]
fn polyphase_follow_capture_samplerate_reconstruction() {
    // Rate changes are handled by reconstructing the engine. All three supported source rates
    // build and produce full chunks.
    for (in_rate, out_rate) in [(44_100, 96_000), (48_000, 96_000), (88_200, 96_000)] {
        let mut r = make(in_rate, out_rate, 256, 2, 64);
        let in_len = r.input_frames_max();
        let waves = vec![vec![F(0.0); in_len]; 2];
        let mut out = vec![vec![F(0.0); r.output_frames_max()]; 2];
        let (_in_consumed, out_produced) =
            r.process_into_buffer(&waves, &mut out, None).unwrap();
        assert_eq!(out_produced, 256);
    }
}

/// Drive the resampler with a unit-amplitude sine at `freq_hz` until the priming delay is flushed,
/// then collect `collect` output chunks. Exactly `input_frames_next` frames are fed per call.
fn collect_steady_output(
    in_rate: usize,
    out_rate: usize,
    freq_hz: f64,
    taps: usize,
    collect: usize,
) -> Vec<f64> {
    let chunk_out = 1024;
    let mut r = make(in_rate, out_rate, chunk_out, 1, taps);
    let max_in = r.input_frames_max();
    let warmup_chunks = ((r.output_delay() / chunk_out) + 4).max(8);
    let mut collected = Vec::with_capacity(collect * chunk_out);
    let mut out = vec![vec![F(0.0); chunk_out]; 1];
    let mut waves = vec![vec![F(0.0); max_in]; 1];
    let mut sample_counter: usize = 0;
    for chunk_idx in 0..warmup_chunks + collect {
        let needed = r.input_frames_next();
        waves[0].iter_mut().for_each(|v| *v = F(0.0));
        for slot in waves[0].iter_mut().take(needed) {
            let t = sample_counter as f64 / in_rate as f64;
            *slot = F((2.0 * PI * freq_hz * t).sin());
            sample_counter += 1;
        }
        r.process_into_buffer(&waves, &mut out, None).unwrap();
        if chunk_idx >= warmup_chunks {
            collected.extend(out[0].iter().map(|v| v.0));
        }
    }
    collected
}

fn measure_peak_amplitude(in_rate: usize, out_rate: usize, freq_hz: f64, taps: usize) -> f64 {
    collect_steady_output(in_rate, out_rate, freq_hz, taps, 4)
        .into_iter()
        .fold(0.0_f64, |peak, v| peak.max(v.abs()))
}

/// Amplitude of the tone at `probe_hz` in `signal`, in dB relative to a unit-amplitude sine. A
/// Kaiser window (beta 20, sidelobes below -190 dB) keeps a full-scale fundamental from leaking
/// into a far-away probe.
fn tone_amplitude_db(signal: &[f64], rate: usize, probe_hz: f64) -> f64 {
    let n = signal.len();
    let beta = 20.0_f64;
    let i0_beta = i0(beta);
    let half = (n - 1) as f64 / 2.0;
    let w = 2.0 * PI * probe_hz / rate as f64;
    let mut re = 0.0_f64;
    let mut im = 0.0_f64;
    let mut win_sum = 0.0_f64;
    for (idx, v) in signal.iter().enumerate() {
        let x = (idx as f64 - half) / half;
        let win = i0(beta * (1.0 - x * x).max(0.0).sqrt()) / i0_beta;
        win_sum += win;
        let phase = w * idx as f64;
        re += v * win * phase.cos();
        im -= v * win * phase.sin();
    }
    let amplitude = 2.0 * (re * re + im * im).sqrt() / win_sum;
    20.0 * amplitude.max(1e-300).log10()
}

#[test]
fn engine_passband_is_flat() {
    // 44.1k -> 96k. Amplitudes at 1k / 10k / 18k Hz should all be within +-0.5 dB of unity (the
    // input sine has unit amplitude).
    for &freq in &[1000.0_f64, 10_000.0, 18_000.0] {
        let peak = measure_peak_amplitude(44_100, 96_000, freq, 256);
        let db = 20.0 * peak.log10();
        assert!(
            (-0.5..=0.5).contains(&db),
            "passband ripple at {freq} Hz: {db} dB (peak {peak})"
        );
    }
}

#[test]
fn engine_suppresses_images_above_source_nyquist() {
    // Upsampling 44.1k -> 96k replicates the input spectrum around multiples of 44.1 kHz. A 15 kHz
    // tone therefore has an image at 44100 - 15000 = 29100 Hz which the interpolation filter must
    // remove.
    let out_rate = 96_000;
    let signal = collect_steady_output(44_100, out_rate, 15_000.0, 256, 16);
    let fundamental = tone_amplitude_db(&signal, out_rate, 15_000.0);
    assert!(
        (-0.1..=0.1).contains(&fundamental),
        "fundamental should be unity, measured {fundamental} dB"
    );
    let image = tone_amplitude_db(&signal, out_rate, 29_100.0);
    assert!(
        image <= -120.0,
        "image at 29.1 kHz only suppressed to {image} dB"
    );
}

#[test]
fn construction_errors_name_the_fault() {
    assert_eq!(error_of(44_100, 96_000, 0, 2, 32), Some(PolyphaseError::ZeroParameter));
    assert_eq!(error_of(44_100, 96_000, 128, 0, 32), Some(PolyphaseError::ZeroParameter));
    assert_eq!(error_of(44_100, 96_000, 128, 2, 0), Some(PolyphaseError::ZeroParameter));
    assert_eq!(error_of(0, 96_000, 128, 2, 32), Some(PolyphaseError::ZeroRate));
    assert_eq!(derived_oversampling(1, 0), Err(PolyphaseError::ZeroRate));
    assert_eq!(
        error_of(96_000, 96_000, 128, 2, 32),
        Some(PolyphaseError::NotUpsampling { input_rate: 96_000, output_rate: 96_000 })
    );
    assert_eq!(
        error_of(44_100, 44_101, 128, 2, 32),
        Some(PolyphaseError::TooManyBranches {
            input_rate: 44_100,
            output_rate: 44_101,
            oversampling: 44_101
        })
    );
    assert_eq!(gcd(44_100, 96_000), 300);
    assert_eq!(gcd(7, 0), 7);
}

#[test]
fn buffer_errors_name_the_fault() {
    let mut r = make(48_000, 96_000, 8, 2, 4);
    assert_eq!(r.input_frames_next(), 4);
    let wave = |channels: usize, n: usize| vec![vec![F(0.0); n]; channels];
    assert_eq!(
        r.process_into_buffer(&wave(1, 4), &mut wave(2, 8), None),
        Err(ResampleError::WrongNumberOfInputChannels { expected: 2, actual: 1 })
    );
    assert_eq!(
        r.process_into_buffer(&wave(2, 4), &mut wave(3, 8), None),
        Err(ResampleError::WrongNumberOfOutputChannels { expected: 2, actual: 3 })
    );
    assert_eq!(
        r.process_into_buffer(&wave(2, 3), &mut wave(2, 8), None),
        Err(ResampleError::InsufficientInputBufferSize { expected: 4, actual: 3 })
    );
    assert_eq!(
        r.process_into_buffer(&wave(2, 4), &mut wave(2, 7), None),
        Err(ResampleError::InsufficientOutputBufferSize { expected: 8, actual: 7 })
    );
    assert_eq!(r.process_into_buffer(&wave(2, 4), &mut wave(2, 8), None), Ok((4, 8)));
    assert_eq!(frames(&vec![wrap(&[1.0; 3]), wrap(&[1.0; 2])]), 2);
}

#[test]
fn chunk_size_does_not_matter() {
    // The same stream through chunks of 30 and of 6 output frames.
    let stream: Vec<F> = (0..400).map(|n| F(((n * 13 % 29) as f64 - 14.0) / 53.0)).collect();
    let run = |chunk: usize, total: usize| {
        let mut r = make(32_000, 48_000, chunk, 1, 12);
        let mut at = 0;
        let mut all = Vec::new();
        while all.len() < total {
            let needed = r.input_frames_next();
            let mut out = vec![vec![F(0.0); chunk]];
            let (read, _) = r
                .process_into_buffer(&vec![stream[at..at + needed].to_vec()], &mut out, None)
                .unwrap();
            at += read;
            all.extend_from_slice(&out[0]);
        }
        all
    };
    assert_eq!(run(30, 300), run(6, 300));
}

#[test]
fn partial_input_is_followed_by_silence() {
    let mut a = make(48_000, 96_000, 8, 1, 4);
    let mut b = make(48_000, 96_000, 8, 1, 4);
    let indexing = Indexing {
        input_offset: 1,
        output_offset: 2,
        partial_len: Some(2),
        active_channels_mask: None,
    };
    let mut out_a = vec![vec![F(7.0); 10]];
    let r = a.process_into_buffer(&vec![wrap(&[9.0, 1.0, 2.0])], &mut out_a, Some(&indexing));
    assert_eq!(r, Ok((4, 8)));
    let mut out_b = vec![vec![F(7.0); 8]];
    b.process_into_buffer(&vec![wrap(&[1.0, 2.0, 0.0, 0.0])], &mut out_b, None).unwrap();
    assert_eq!(plain(&out_a[0][..2]), vec![7.0, 7.0]);
    assert_eq!(out_a[0][2..].to_vec(), out_b[0]);
}

#[test]
fn kernels_sum_every_product_once() {
    let coeffs = wrap(&[1.0, 2.0, 3.0, 4.0, 5.0, 6.0, 7.0]);
    let buf = wrap(&[1.0, 10.0, 100.0, 1000.0, 1e4, 1e5, 1e6]);
    let rev: Vec<F> = buf.iter().rev().cloned().collect();
    assert_eq!(convolve_forward(&coeffs, &buf), F(7654321.0));
    assert_eq!(convolve_backward(&coeffs, &rev, 6, 0, 7), F(7654321.0));
    assert_eq!(convolve_backward(&coeffs, &rev, 6, 2, 4), F(4300.0));
    assert_eq!(
        convolve_forward2(&coeffs, &buf, &rev),
        (F(7654321.0), F(1234567.0))
    );
    assert_eq!(
        convolve_backward2(&coeffs, &rev, &buf, 6, 0, 7),
        (F(7654321.0), F(1234567.0))
    );
    assert_eq!(valid_tap_range(2, 100, 8), (0, 3));
    assert_eq!(valid_tap_range(50, 100, 8), (0, 8));
    assert_eq!(valid_tap_range(103, 100, 8), (4, 8));
    assert_eq!(valid_tap_range(200, 100, 8), (8, 8));
}

#[test]
fn prototype_is_symmetric_and_scaled() {
    let h = prototype(8, 10);
    assert_eq!(h.len(), 81);
    for m in 0..=80 {
        assert_eq!(h[m], h[80 - m]);
    }
    assert!((h.iter().sum::<f64>() - 10.0).abs() < 1e-12);
    assert!((i0(0.0) - 1.0).abs() < 1e-15);
    assert!((i0(1.0) - 1.2660658777520084).abs() < 1e-12);
}

#[test]
fn delay_and_ratio_of_the_engine() {
    let r = make(44_100, 96_000, 128, 1, 64);
    assert_eq!(r.output_delay(), 32 * 320 / 147);
    assert_eq!(r.resample_ratio(), F(96_000.0 / 44_100.0));
    assert_eq!(r.nbr_channels(), 1);
    assert_eq!(r.output_frames_next(), 128);
    assert_eq!(r.input_frames_max(), 64 + (128 * 147 + 319) / 320 + 6);
}

#[test]
fn offsets_near_the_largest_number_are_answered_with_an_error() {
    let mut r = make(48_000, 96_000, 8, 2, 4);
    let wave = |channels: usize, n: usize| vec![vec![F(0.0); n]; channels];
    let at = |input_offset, output_offset, partial_len| Indexing {
        input_offset,
        output_offset,
        partial_len,
        active_channels_mask: None,
    };
    // Only the frames that are read count towards the end of the input.
    for (partial, offset) in [(0, usize::MAX), (2, usize::MAX - 2), (3, usize::MAX - 3)] {
        assert_eq!(
            r.process_into_buffer(&wave(2, 4), &mut wave(2, 8), Some(&at(offset, 0, Some(partial)))),
            Err(ResampleError::InsufficientInputBufferSize { expected: usize::MAX, actual: 4 })
        );
    }
    // Buffers are refused for their channels before any frame is counted.
    let far = at(usize::MAX, usize::MAX, None);
    assert_eq!(
        r.process_into_buffer(&wave(3, 4), &mut wave(2, 8), Some(&far)),
        Err(ResampleError::WrongNumberOfInputChannels { expected: 2, actual: 3 })
    );
    assert_eq!(
        r.process_into_buffer(&wave(2, 4), &mut wave(1, 8), Some(&far)),
        Err(ResampleError::WrongNumberOfOutputChannels { expected: 2, actual: 1 })
    );
    // The output is looked at only where the input suffices.
    assert_eq!(
        r.process_into_buffer(&wave(2, 3), &mut wave(2, 8), Some(&at(0, usize::MAX, None))),
        Err(ResampleError::InsufficientInputBufferSize { expected: 4, actual: 3 })
    );
    assert_eq!(
        r.process_into_buffer(&wave(2, 4), &mut wave(2, 8), Some(&at(0, usize::MAX - 8, None))),
        Err(ResampleError::InsufficientOutputBufferSize { expected: usize::MAX, actual: 8 })
    );
    // None of the refused calls has left a trace.
    let mut fresh = make(48_000, 96_000, 8, 2, 4);
    let input = vec![vec![F(0.5), F(-0.25), F(1.0), F(0.125)]; 2];
    let (mut a, mut b) = (wave(2, 8), wave(2, 8));
    assert_eq!(r.process_into_buffer(&input, &mut a, None), Ok((4, 8)));
    assert_eq!(fresh.process_into_buffer(&input, &mut b, None), Ok((4, 8)));
    assert_eq!(a, b);
}
