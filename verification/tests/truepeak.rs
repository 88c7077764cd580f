//! The true-peak limiter and the guard around a resampler, on audio in double precision.

use prcdsp::config::{ConfigError, TruePeakParameters};
use prcdsp::prcfmt::{Metered, PrcFmt};
use prcdsp::processors::truepeak::{
    validate_truepeak, TruePeak, TruePeakLimiterCore, TruePeakProbe, LOOKAHEAD_SAMPLES,
};
use prcdsp::utils::resampling::isp_guard::IspGuard;
use prcdsp::utils::resampling::polyphase::PolyphaseFir;
use prcdsp::utils::resampling::{Indexing, ResampleError, Resampler};
use std::f64::consts::PI;

/// Samples in double precision.
#[derive(Clone, Copy, Debug, PartialEq)]
struct F(f64);

impl PrcFmt for F {
    // Laws of the order: there is nothing to compute.
    fn lt_irreflexive(self) {}
    fn lt_transitive(self, _: F, _: F) {}
    fn le_excludes_gt(self, _: F) {}
    fn max_not_below(self, _: F) {}

    fn of_int(n: i64) -> F {
        F(n as f64)
    }
    fn of_usize(n: usize) -> F {
        F(n as f64)
    }
    fn decimal(digits: i64, places: u32) -> F {
        if places <= 22 {
            F(digits as f64 / 10f64.powi(places as i32))
        } else {
            F(format!("{}e-{}", digits, places).parse().unwrap())
        }
    }
    fn pi() -> F {
        F(std::f64::consts::PI)
    }
    fn plus(self, rhs: F) -> F {
        F(self.0 + rhs.0)
    }
    fn minus(self, rhs: F) -> F {
        F(self.0 - rhs.0)
    }
    fn times(self, rhs: F) -> F {
        F(self.0 * rhs.0)
    }
    fn over(self, rhs: F) -> F {
        F(self.0 / rhs.0)
    }
    fn negated(self) -> F {
        F(-self.0)
    }
    fn abs(self) -> F {
        F(self.0.abs())
    }
    fn max(self, rhs: F) -> F {
        F(self.0.max(rhs.0))
    }
    fn min(self, rhs: F) -> F {
        F(self.0.min(rhs.0))
    }
    fn sqrt(self) -> F {
        F(self.0.sqrt())
    }
    fn exp(self) -> F {
        F(self.0.exp())
    }
    fn ln(self) -> F {
        F(self.0.ln())
    }
    fn log10(self) -> F {
        F(self.0.log10())
    }
    fn powf(self, exponent: F) -> F {
        F(self.0.powf(exponent.0))
    }
    fn sin(self) -> F {
        F(self.0.sin())
    }
    fn tan(self) -> F {
        F(self.0.tan())
    }
    fn lt(self, rhs: F) -> bool {
        self.0 < rhs.0
    }
    fn le(self, rhs: F) -> bool {
        self.0 <= rhs.0
    }
    fn same(self, rhs: F) -> bool {
        self.0 == rhs.0
    }
    fn is_finite(self) -> bool {
        self.0.is_finite()
    }
}

fn wrap(v: &[f64]) -> Vec<F> {
    v.iter().map(|x| F(*x)).collect()
}

fn plain(v: &[F]) -> Vec<f64> {
    v.iter().map(|x| x.0).collect()
}

/// Reported levels in single precision.
#[derive(Clone, Copy, Debug, PartialEq)]
struct L(f32);

impl PrcFmt for L {
    // Laws of the order: there is nothing to compute.
    fn lt_irreflexive(self) {}
    fn lt_transitive(self, _: L, _: L) {}
    fn le_excludes_gt(self, _: L) {}
    fn max_not_below(self, _: L) {}

    fn of_int(n: i64) -> L {
        L(n as f32)
    }
    fn of_usize(n: usize) -> L {
        L(n as f32)
    }
    fn decimal(digits: i64, places: u32) -> L {
        if places <= 22 {
            L((digits as f64 / 10f64.powi(places as i32)) as f32)
        } else {
            L(format!("{}e-{}", digits, places).parse().unwrap())
        }
    }
    fn pi() -> L {
        L(std::f32::consts::PI)
    }
    fn plus(self, rhs: L) -> L {
        L(self.0 + rhs.0)
    }
    fn minus(self, rhs: L) -> L {
        L(self.0 - rhs.0)
    }
    fn times(self, rhs: L) -> L {
        L(self.0 * rhs.0)
    }
    fn over(self, rhs: L) -> L {
        L(self.0 / rhs.0)
    }
    fn negated(self) -> L {
        L(-self.0)
    }
    fn abs(self) -> L {
        L(self.0.abs())
    }
    fn max(self, rhs: L) -> L {
        L(self.0.max(rhs.0))
    }
    fn min(self, rhs: L) -> L {
        L(self.0.min(rhs.0))
    }
    fn sqrt(self) -> L {
        L(self.0.sqrt())
    }
    fn exp(self) -> L {
        L(self.0.exp())
    }
    fn ln(self) -> L {
        L(self.0.ln())
    }
    fn log10(self) -> L {
        L(self.0.log10())
    }
    fn powf(self, exponent: L) -> L {
        L(self.0.powf(exponent.0))
    }
    fn sin(self) -> L {
        L(self.0.sin())
    }
    fn tan(self) -> L {
        L(self.0.tan())
    }
    fn lt(self, rhs: L) -> bool {
        self.0 < rhs.0
    }
    fn le(self, rhs: L) -> bool {
        self.0 <= rhs.0
    }
    fn same(self, rhs: L) -> bool {
        self.0 == rhs.0
    }
    fn is_finite(self) -> bool {
        self.0.is_finite()
    }
}

impl Metered for F {
    type Level = L;

    fn metered(self) -> L {
        L(self.0 as f32)
    }
}

fn make_processor(ceiling_dbfs: f64, release_ms: f64) -> TruePeak<F> {
    let params = TruePeakParameters {
        channels: 2,
        ceiling_dbfs: Some(F(ceiling_dbfs)),
        release_ms: F(release_ms),
    };
    TruePeak::from_config("tp", params, 48000)
}

/// A half-Nyquist tone sampled at a phase that peaks *between* samples: the sample values stay
/// well below full scale, but the true (intersample) peak exceeds 0 dBFS. The limiter must pull
/// the 4x-oversampled peak down to the ceiling.
#[test]
fn truepeak_caps_intersample_peaks() {
    let mut tp = make_processor(-1.0, 20.0);
    let ceiling = 10f64.powf(-1.0 / 20.0);
    let amp = 0.99;
    let make_wave = || -> Vec<F> {
        (0..2048)
            .map(|n| {
                let phase = PI * (n as f64) + PI / 4.0; // Fs/2, +45 deg
                F(amp * phase.sin())
            })
            .collect()
    };
    // Run several chunks so the lookahead limiter reaches steady state.
    let mut last = vec![make_wave(), make_wave()];
    for _ in 0..8 {
        last = vec![make_wave(), make_wave()];
        tp.process_chunk(&mut last);
    }
    // Verify the true peak of the limited output stays at/below ceiling.
    let mut probe = TruePeakProbe::new(1);
    let mut max_tp = 0.0_f64;
    let n = last[0].len();
    for &v in &last[0][n / 4..] {
        let tp_val = probe.peak_of_sample(0, v).0.max(v.0.abs());
        if tp_val > max_tp {
            max_tp = tp_val;
        }
    }
    assert!(
        max_tp <= ceiling + 5e-3,
        "true peak {} exceeded ceiling {}",
        max_tp,
        ceiling
    );
}

/// Quiet material well below the ceiling must pass through unattenuated.
#[test]
fn truepeak_quiet_is_transparent() {
    let mut tp = make_processor(-1.0, 20.0);
    let wave: Vec<F> = (0..1024)
        .map(|n| F(0.1 * (2.0 * PI * 0.01 * n as f64).sin()))
        .collect();
    let mut chunk = vec![wave.clone(), wave];
    let mut attenuation = 0.0;
    for _ in 0..4 {
        attenuation = tp.process_chunk(&mut chunk).0;
    }
    assert!(
        attenuation.abs() < 1e-4,
        "quiet material was attenuated by {} dB",
        attenuation
    );
}

/// Limiting must be reported as negative dB on hot material. A fresh full-scale chunk is fed each
/// iteration.
#[test]
fn truepeak_reports_attenuation() {
    let mut tp = make_processor(-1.0, 20.0);
    let mut attenuation = 0.0;
    for _ in 0..8 {
        let wave = vec![F(1.0); 1024];
        let mut chunk = vec![wave.clone(), wave];
        attenuation = tp.process_chunk(&mut chunk).0;
    }
    assert!(
        attenuation < -0.1,
        "expected attenuation on full-scale input, got {} dB",
        attenuation
    );
}

/// The same gain must be applied to every channel (linked limiting), so a hot left channel also
/// pulls down a quiet right channel identically.
#[test]
fn truepeak_gain_is_linked_across_channels() {
    let mut tp = make_processor(-1.0, 20.0);
    let hot = vec![F(1.0); 1024];
    let quiet = vec![F(0.05); 1024];
    let mut chunk = vec![hot, quiet];
    // One chunk: after the lookahead fills, the right channel's steady value should be scaled by
    // the same gain the left channel forced.
    tp.process_chunk(&mut chunk);
    let n = chunk[1].len();
    // Late samples of the quiet channel should be reduced below 0.05.
    let tail = chunk[1][n - 1].0;
    assert!(tail < 0.05, "linked gain not applied to quiet channel: {tail}");
    assert!((tail / 0.05 - chunk[0][n - 1].0).abs() < 1e-12);
}

#[test]
fn truepeak_probe_passes_dc() {
    let mut probe = TruePeakProbe::new(1);
    let mut peak = 0.0;
    for _ in 0..100 {
        peak = probe.peak_of_sample(0, F(0.5)).0;
    }
    assert!((peak - 0.5).abs() < 1e-12, "{peak}");
}

#[test]
fn truepeak_cuts_do_not_matter() {
    let wave: Vec<F> = (0..300).map(|n| F(1.4 * (0.37 * n as f64).sin())).collect();
    let mut whole = vec![wave.clone(), wave.clone()];
    make_processor(-1.0, 20.0).process_chunk(&mut whole);
    let mut tp = make_processor(-1.0, 20.0);
    let mut parts = Vec::new();
    for cut in [&wave[..7], &wave[7..130], &wave[130..]] {
        let mut chunk = vec![cut.to_vec(), cut.to_vec()];
        tp.process_chunk(&mut chunk);
        parts.extend(chunk[0].clone());
    }
    assert_eq!(whole[0], parts);
}

#[test]
fn truepeak_true_peak_probe_runs() {
    // Feed a chirp and verify the probe never panics and returns sane peak values.
    let mut probe = TruePeakProbe::new(1);
    let mut max_peak = 0.0_f64;
    for n in 0..4096 {
        let x = (2.0 * PI * 0.1 * n as f64).sin();
        let p = probe.peak_of_sample(0, F(x)).0;
        if p > max_peak {
            max_peak = p;
        }
    }
    // Reasonable bound: 0 < peak < 1.5 (some headroom for the probe).
    assert!(max_peak > 0.0 && max_peak < 1.5, "peak={max_peak}");
}

fn make_inner() -> PolyphaseFir<F> {
    PolyphaseFir::new(44100, 48000, 256, 2, 32).unwrap()
}

#[test]
fn isp_guard_caps_at_ceiling() {
    let inner = make_inner();
    let mut guard = IspGuard::new(inner, F(-1.0), F(50.0), true, 48000);

    // Drive with full-scale +1.0 input: output should be held at the ceiling.
    let in_len = guard.input_frames_max();
    let waves = vec![vec![F(1.0); in_len]; 2];
    let mut out = vec![vec![F(0.0); guard.output_frames_max()]; 2];

    let ceiling = 10f64.powf(-1.0 / 20.0);

    // Pump enough chunks for the limiter to settle.
    for _ in 0..16 {
        guard.process_into_buffer(&waves, &mut out, None).unwrap();
    }
    // Steady state: every output should be at or below ceiling (with some numerical tolerance and
    // lookahead transient grace).
    let n = out[0].len();
    for ch in 0..2 {
        for &v in &out[ch][n / 4..n] {
            assert!(
                v.0.abs() <= ceiling + 1e-3,
                "ISP guard let through {} (ceiling {})",
                v.0.abs(),
                ceiling
            );
        }
    }
    assert!(guard.report_attenuation().0 < 0.0);
}

#[test]
fn isp_guard_disabled_is_passthrough() {
    let inner = make_inner();
    let mut guard = IspGuard::new(inner, F(-1.0), F(50.0), false, 48000);
    // With enabled=false, attenuation should always be 0 dB.
    let in_len = guard.input_frames_max();
    let waves = vec![vec![F(0.5); in_len]; 2];
    let mut out = vec![vec![F(0.0); guard.output_frames_max()]; 2];
    guard.process_into_buffer(&waves, &mut out, None).unwrap();
    assert_eq!(guard.report_attenuation(), L(0.0));
    // The samples are those of the resampler alone.
    let mut alone = make_inner();
    let mut expected = vec![vec![F(0.0); alone.output_frames_max()]; 2];
    alone.process_into_buffer(&waves, &mut expected, None).unwrap();
    assert_eq!(out, expected);
}

#[test]
fn isp_guard_true_peak_probe_runs() {
    // Feed a chirp and verify the probe never panics and returns sane peak values.
    let mut probe = TruePeakProbe::new(1);
    let mut max_peak = 0.0_f64;
    for n in 0..4096 {
        let x = (2.0 * PI * 0.1 * n as f64).sin();
        let p = probe.peak_of_sample(0, F(x)).0;
        if p > max_peak {
            max_peak = p;
        }
    }
    // Reasonable bound: 0 < peak < 1.5 (some headroom for the probe).
    assert!(max_peak > 0.0 && max_peak < 1.5, "peak={max_peak}");
}

#[test]
fn limiter_delays_by_its_lookahead() {
    let mut core: TruePeakLimiterCore<F> = TruePeakLimiterCore::new(1, F(0.0), F(0.0), 48000);
    assert_eq!(core.lookahead(), LOOKAHEAD_SAMPLES);
    let mut seen = Vec::new();
    for n in 0..40 {
        let mut out = [F(0.0)];
        core.process_frame(&[F(0.001 * n as f64)], &mut out);
        seen.push(out[0].0);
    }
    for n in 0..40 {
        let expected = if n < 16 { 0.0 } else { 0.001 * (n - 16) as f64 };
        assert!((seen[n] - expected).abs() < 1e-15);
    }
    assert!(core.attenuation_db().0.abs() < 1e-12);
}

#[test]
fn limiter_attack_is_instantaneous_and_reset_forgets() {
    let mut core: TruePeakLimiterCore<F> = TruePeakLimiterCore::new(1, F(0.0), F(100.0), 48000);
    let mut out = [F(0.0)];
    core.process_frame(&[F(4.0)], &mut out);
    assert!(core.current_gain.0 <= 0.25 + 1e-12);
    assert!(core.attenuation_db().0 < -12.0);
    core.reset();
    assert_eq!(core.current_gain, F(1.0));
    assert_eq!(core.future_peaks, vec![F(0.0); 16]);
    core.set_params(F(-20.0), F(0.0), 48000);
    assert!((core.ceiling.0 - 0.1).abs() < 1e-15);
    assert_eq!(core.release_coef, F(1.0));
}

/// Runs `frames` through a new limiter and returns the outputs and the gains.
fn limit(dbfs: f64, release_ms: f64, frames: &[[f64; 2]]) -> (Vec<[f64; 2]>, Vec<f64>) {
    let mut limiter: TruePeakLimiterCore<F> =
        TruePeakLimiterCore::new(2, F(dbfs), F(release_ms), 48_000);
    let mut outs = Vec::new();
    let mut gains = Vec::new();
    for frame in frames {
        let mut out = [F(7.0); 3];
        limiter.process_frame(&wrap(frame), &mut out);
        assert_eq!(out[2], F(7.0));
        outs.push([out[0].0, out[1].0]);
        gains.push(limiter.current_gain.0);
    }
    (outs, gains)
}

#[test]
fn limiter_caps_the_output_at_the_ceiling() {
    let loud: Vec<[f64; 2]> = (0..600)
        .map(|n| {
            let x = n as f64;
            [2.5 * (x * 1.9).sin() * (x * 0.03).cos(), if n % 50 == 7 { -10.0 } else { 0.1 }]
        })
        .collect();
    let mut single = vec![[0.0; 2]; 64];
    single[10][0] = 10.0;
    for dbfs in [-12.0, -1.0, 0.0] {
        let ceiling = 10f64.powf(dbfs / 20.0);
        for release_ms in [0.0, 0.05, 20.0, 1000.0] {
            for frames in [&loud, &single] {
                let (outs, gains) = limit(dbfs, release_ms, frames);
                for (t, out) in outs.iter().enumerate() {
                    assert!(0.0 < gains[t] && gains[t] <= 1.0);
                    for ch in 0..2 {
                        let heard = if t < 16 { 0.0 } else { frames[t - 16][ch] };
                        assert_eq!(out[ch], heard * gains[t]);
                        assert!(out[ch].abs() <= ceiling + 1e-6, "{} > {ceiling}", out[ch]);
                    }
                }
            }
        }
    }
}

#[test]
fn limiter_only_delays_below_a_quarter_of_the_ceiling() {
    let ceiling = 10f64.powf(-1.0 / 20.0);
    let frames: Vec<[f64; 2]> = (0..300)
        .map(|n| {
            let v = 0.25 * ceiling * if n * n % 5 < 2 { 1.0 } else { -1.0 };
            [v, -v]
        })
        .collect();
    let (outs, gains) = limit(-1.0, 0.0, &frames);
    assert!(gains.iter().all(|g| *g == 1.0));
    for t in 16..300 {
        assert_eq!(outs[t], frames[t - 16]);
    }
}

#[test]
fn probe_measures_each_channel_alone() {
    let mut two = TruePeakProbe::new(2);
    let mut one = TruePeakProbe::new(1);
    for n in 0..200 {
        let v = (n as f64 * 2.1).sin();
        let r = two.peak_of_sample(0, F(-v)).0;
        two.peak_of_sample(1, F(100.0 * (n as f64).cos()));
        assert!(r >= 0.0);
        assert_eq!(one.peak_of_sample(0, F(v)).0, r);
    }
    for v in [0.5, -0.25, 1e-6] {
        let mut r = 0.0;
        for _ in 0..40 {
            r = one.peak_of_sample(0, F(v)).0;
        }
        assert!((r - v.abs()).abs() <= 1e-9 * v.abs());
    }
}

#[test]
fn release_coefficient_follows_time_constant() {
    let coef = TruePeakLimiterCore::<F>::release_from_ms(F(20.0), 48000).0;
    assert_eq!(coef, 1.0 - (-1.0f64 / (48000.0 * 20.0 / 1000.0)).exp());
    assert_eq!(
        TruePeakLimiterCore::<F>::ceiling_from_dbfs(F(-1.0)).0,
        10f64.powf(-1.0 / 20.0)
    );
}

#[test]
fn short_and_absent_channels_are_silent() {
    let mut tp = make_processor(0.0, 0.0);
    let mut chunk = vec![wrap(&[0.1; 40]), wrap(&[0.2; 5]), wrap(&[0.3; 3])];
    tp.process_chunk(&mut chunk);
    assert_eq!(chunk[0].len(), 40);
    assert_eq!(chunk[0][39], F(0.1));
    assert_eq!(plain(&chunk[1]), vec![0.0; 5]);
    // Channels beyond those of the processor are left untouched.
    assert_eq!(plain(&chunk[2]), vec![0.3; 3]);
}

#[test]
fn truepeak_update_keeps_state() {
    let mut tp = make_processor(-1.0, 20.0);
    assert_eq!(tp.latency(), 16);
    assert_eq!(tp.name(), "tp");
    tp.process_chunk(&mut vec![vec![F(1.0); 64], vec![F(1.0); 64]]);
    let gain = tp.limiter.current_gain;
    tp.update_parameters(TruePeakParameters {
        channels: 2,
        ceiling_dbfs: None,
        release_ms: F(5.0),
    });
    assert_eq!(tp.limiter.current_gain, gain);
    assert_eq!(tp.ceiling_dbfs, F(-1.0));
}

#[test]
fn truepeak_validation_names_the_fault() {
    let make = |channels, ceiling: f64, release: f64| TruePeakParameters {
        channels,
        ceiling_dbfs: Some(F(ceiling)),
        release_ms: F(release),
    };
    assert!(validate_truepeak(&make(32, 0.0, 0.0)).is_ok());
    assert!(matches!(
        validate_truepeak(&make(33, 0.0, 0.0)),
        Err(ConfigError::TooManyChannels { channels: 33, max: 32 })
    ));
    assert!(matches!(
        validate_truepeak(&make(2, 0.5, 0.0)),
        Err(ConfigError::CeilingAboveFullScale)
    ));
    assert!(matches!(
        validate_truepeak(&make(2, -1.0, -0.5)),
        Err(ConfigError::ReleaseNegative)
    ));
}

#[test]
fn guard_passes_errors_and_ratio_through() {
    let mut guard = IspGuard::new(make_inner(), F(-1.0), F(50.0), true, 48000);
    let delay = make_inner().output_delay();
    assert_eq!(guard.output_delay(), delay + 16);
    assert_eq!(guard.nbr_channels(), 2);
    assert!(matches!(
        guard.set_resample_ratio(F(1.5), false),
        Err(ResampleError::SyncNotAdjustable)
    ));
    assert!((guard.resample_ratio().0 - 48000.0 / 44100.0).abs() < 1e-15);
    let mut out = vec![vec![F(0.0); 256]; 2];
    assert_eq!(
        guard.process_into_buffer(&vec![vec![F(0.0); 10]; 2], &mut out, None),
        Err(ResampleError::InsufficientInputBufferSize { expected: 235, actual: 10 })
    );
    // With an offset, only the frames behind it are limited.
    let indexing = Indexing {
        input_offset: 0,
        output_offset: 4,
        partial_len: None,
        active_channels_mask: None,
    };
    let mut out = vec![vec![F(9.0); 260]; 2];
    let waves = vec![vec![F(0.1); 300]; 2];
    let counts = guard.process_into_buffer(&waves, &mut out, Some(&indexing));
    assert_eq!(counts, Ok((235, 256)));
    assert_eq!(plain(&out[0][..4]), vec![9.0; 4]);
    assert_eq!(plain(&out[0][4..20]), vec![0.0; 16]);
    guard.reset();
    assert_eq!(guard.limiter.current_gain, F(1.0));
    assert_eq!(guard.input_frames_next(), 235);
}

/// The level is taken in single precision: the gain is rounded first.
#[test]
fn attenuation_is_reported_in_single_precision() {
    let mut core: TruePeakLimiterCore<F> = TruePeakLimiterCore::new(1, F(-3.0), F(50.0), 48000);
    assert_eq!(core.attenuation_db(), L(0.0));
    for n in 0..200 {
        let mut out = [F(0.0)];
        core.process_frame(&[F(1.3 * (n as f64 * 0.37).sin())], &mut out);
        let expected = 20.0 * (core.current_gain.0.max(1e-9) as f32).log10();
        assert_eq!(core.attenuation_db(), L(expected));
        assert!(core.attenuation_db().0 <= 0.0);
    }
    assert!(core.attenuation_db().0 < -1.0);
    // No gain is reported as less than the smallest level.
    core.current_gain = F(0.0);
    assert_eq!(core.attenuation_db(), L(20.0 * 1e-9f32.log10()));
}

/// With more channels than the guard supports, the error of the resampler is still passed on.
#[test]
fn guard_with_too_many_channels_passes_errors_on() {
    let inner: PolyphaseFir<F> = PolyphaseFir::new(24_000, 48_000, 64, 40, 4).unwrap();
    let mut guard = IspGuard::new(inner, F(-1.0), F(50.0), true, 48_000);
    let waves = vec![vec![F(0.0); 64]; 39];
    let mut out = vec![vec![F(0.0); 64]; 40];
    assert_eq!(
        guard.process_into_buffer(&waves, &mut out, None),
        Err(ResampleError::WrongNumberOfInputChannels { expected: 40, actual: 39 })
    );
    assert_eq!(guard.limiter.current_gain, F(1.0));
}
