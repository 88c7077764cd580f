//! The tube stage on audio in double precision.

use audioadapter_buffers::direct::SequentialSliceOfVecs;
use prcdsp::config::{
    ConfigError, OversamplingBackend, OversamplingFactor, OversamplingParameters,
    PolynomialModelParameters, TransformerParameters, TriodeModelParameters, TubeModel,
    TubeStageParameters,
};
use prcdsp::filters::biquad::{Biquad, BiquadCoefficients, BiquadParameters};
use prcdsp::filters::tubestage::halfband::{make_halfband_coeffs, HalfbandStage, HALFBAND_LENGTH};
use prcdsp::filters::tubestage::oversample::{
    AnyOversampler, HalfbandFirOversampler, IdentityOversampler, Oversampler, RubatoOversampler,
};
use prcdsp::filters::tubestage::polynomial::PolynomialModel;
use prcdsp::filters::tubestage::ramp::RampedValue;
use prcdsp::filters::tubestage::shaper::{DcBlocker, Shaper};
use prcdsp::filters::tubestage::triode::{koren_plate_current, TriodeModel};
use prcdsp::filters::tubestage::{validate_config, ResamplerPair, TubeStage};
use prcdsp::prcfmt::PrcFmt;
use prcdsp::utils::resampling::polyphase::PolyphaseFir;
use prcdsp::utils::resampling::{Indexing, ResampleError, Resampler};
use rubato::{FixedSync, Resampler as FixedResampler};

/// Samples in double precision.
#[derive(Clone, Copy, Debug, PartialEq)]
struct F(f64);

impl PrcFmt for F {
    // Laws of the order: there is nothing to compute.
    fn lt_irreflexive(self) {}
    fn lt_transitive(self, _: F, _: F) {}
    fn le_excludes_gt(self, _: F) {}
    fn max_not_below(self, _: F) {}

    fn of_int(n: i64) -> F {
        F(n as f64)
    }
    fn of_usize(n: usize) -> F {
        F(n as f64)
    }
    fn decimal(digits: i64, places: u32) -> F {
        if places <= 22 {
            F(digits as f64 / 10f64.powi(places as i32))
        } else {
            F(format!("{}e-{}", digits, places).parse().unwrap())
        }
    }
    fn pi() -> F {
        F(std::f64::consts::PI)
    }
    fn plus(self, rhs: F) -> F {
        F(self.0 + rhs.0)
    }
    fn minus(self, rhs: F) -> F {
        F(self.0 - rhs.0)
    }
    fn times(self, rhs: F) -> F {
        F(self.0 * rhs.0)
    }
    fn over(self, rhs: F) -> F {
        F(self.0 / rhs.0)
    }
    fn negated(self) -> F {
        F(-self.0)
    }
    fn abs(self) -> F {
        F(self.0.abs())
    }
    fn max(self, rhs: F) -> F {
        F(self.0.max(rhs.0))
    }
    fn min(self, rhs: F) -> F {
        F(self.0.min(rhs.0))
    }
    fn sqrt(self) -> F {
        F(self.0.sqrt())
    }
    fn exp(self) -> F {
        F(self.0.exp())
    }
    fn ln(self) -> F {
        F(self.0.ln())
    }
    fn log10(self) -> F {
        F(self.0.log10())
    }
    fn powf(self, exponent: F) -> F {
        F(self.0.powf(exponent.0))
    }
    fn sin(self) -> F {
        F(self.0.sin())
    }
    fn tan(self) -> F {
        F(self.0.tan())
    }
    fn lt(self, rhs: F) -> bool {
        self.0 < rhs.0
    }
    fn le(self, rhs: F) -> bool {
        self.0 <= rhs.0
    }
    fn same(self, rhs: F) -> bool {
        self.0 == rhs.0
    }
    fn is_finite(self) -> bool {
        self.0.is_finite()
    }
}

fn wrap(v: &[f64]) -> Vec<F> {
    v.iter().map(|x| F(*x)).collect()
}

fn plain(v: &[F]) -> Vec<f64> {
    v.iter().map(|x| x.0).collect()
}

type Stage = TubeStage<F, PolyphaseFir<F>>;

fn flat_polynomial(drive_db: f64) -> PolynomialModelParameters<F> {
    PolynomialModelParameters {
        drive_db: F(drive_db),
        bias: F(0.0),
        k2: F(0.0),
        k3: F(0.0),
        k4: F(0.0),
    }
}

fn flat_params(
    factor: OversamplingFactor,
    drive_db: f64,
    makeup_gain_db: f64,
) -> TubeStageParameters<F> {
    TubeStageParameters {
        model: TubeModel::Polynomial(flat_polynomial(drive_db)),
        transformer: TransformerParameters {
            enabled: false,
            hf_shelf_freq: F(10000.0),
            hf_shelf_gain_db: F(0.0),
        },
        dc_blocker: false,
        makeup_gain_db: Some(F(makeup_gain_db)),
        oversampling: OversamplingParameters {
            factor,
            backend: OversamplingBackend::HalfbandFir,
        },
    }
}

fn triode_params() -> TriodeModelParameters<F> {
    TriodeModelParameters {
        mu: None,
        kp: None,
        kvb: None,
        kg1: None,
        x: None,
        vbias: None,
        vplate: None,
        drive_db: F(-6.0),
        cathode_bypass_freq: F(1.0),
        coupling_freq_in: F(0.01),
        coupling_freq_out: F(0.01),
        sag_amount: F(0.0),
    }
}

#[test]
fn tubestage_polynomial_runs_clean() {
    let cfg = flat_params(OversamplingFactor::F1, 0.0, 0.0);
    let mut filter: Stage = TubeStage::from_config("t", cfg, 48000, 256, None);
    let mut buf = vec![F(0.5); 256];
    filter.process_waveform(&mut buf);
    // With drive=0 dB, all coefficients zero, transformer & DC blocker off, factor=1, the filter
    // is a passthrough.
    for &v in &buf {
        let v = v.0;
        assert!((v - 0.5).abs() < 1e-12, "expected 0.5, got {v}");
    }
}

#[test]
fn tubestage_polynomial_oversampled_passthrough() {
    // With all coefficients zero, the filter is essentially a (delayed) passthrough through the
    // oversampling chain. Amplitude preservation is verified rather than exact alignment.
    let cfg = flat_params(OversamplingFactor::F2, 0.0, 0.0);
    let mut filter: Stage = TubeStage::from_config("t", cfg, 48000, 1024, None);
    // Prime through a few blocks of zeros so the delay line is settled.
    for _ in 0..3 {
        let mut prime = vec![F(0.0); 1024];
        filter.process_waveform(&mut prime);
    }
    let two_pi = 2.0 * std::f64::consts::PI;
    let original: Vec<f64> = (0..1024)
        .map(|i| 0.5 * (two_pi * 1000.0 * (i as f64) / 48000.0).sin())
        .collect();
    let mut buf = wrap(&original);
    filter.process_waveform(&mut buf);
    let buf = plain(&buf);
    // Compare RMS amplitudes; skip an initial window that may include the tail of the transient
    // from previous blocks.
    let skip = 64usize;
    let n = 1024 - skip;
    let in_rms = (original[skip..].iter().map(|x| x * x).sum::<f64>() / n as f64).sqrt();
    let out_rms = (buf[skip..].iter().map(|x| x * x).sum::<f64>() / n as f64).sqrt();
    let rel = (out_rms - in_rms).abs() / in_rms;
    assert!(
        rel < 0.05,
        "oversampled passthrough amplitude mismatch: in={in_rms} out={out_rms}"
    );
}

#[test]
fn tubestage_hot_swap_drive_no_clicks() {
    // Change the drive at runtime. The output should not have a sample-level discontinuity.
    let cfg = flat_params(OversamplingFactor::F1, 0.0, 0.0);
    let mut filter: Stage = TubeStage::from_config("t", cfg, 48000, 64, None);
    let mut buf = vec![F(1.0); 64];
    filter.process_waveform(&mut buf);

    // Now request a +20 dB drive and a +6 dB makeup gain change. The next block must not jump to
    // the new gain immediately.
    filter.update_parameters(flat_params(OversamplingFactor::F1, 20.0, 6.0), None);
    let mut buf2 = vec![F(1.0); 64];
    filter.process_waveform(&mut buf2);
    let last_old = buf[buf.len() - 1].0;
    let first_new = buf2[0].0;
    assert!(
        (first_new - last_old).abs() < 0.5,
        "click on hot-swap: last_old={last_old} first_new={first_new}"
    );
}

fn rms(a: &[f64]) -> f64 {
    let n = a.len() as f64;
    let s: f64 = a.iter().map(|x| x * x).sum();
    (s / n).sqrt()
}

fn make_sine(n: usize, freq: f64, fs: f64) -> Vec<f64> {
    let two_pi = 2.0 * std::f64::consts::PI;
    (0..n).map(|i| (two_pi * freq * (i as f64) / fs).sin()).collect()
}

#[test]
fn identity_round_trip() {
    let mut over = IdentityOversampler;
    let input = make_sine(256, 1000.0, 44100.0);
    let mut up = vec![F(0.0); 256];
    over.upsample(&wrap(&input), &mut up);
    let mut back = vec![F(0.0); 256];
    over.downsample(&up, &mut back);
    let n = input.len();
    let s: f64 = input
        .iter()
        .zip(back.iter())
        .map(|(x, y)| (x - y.0) * (x - y.0))
        .sum();
    assert!((s / n as f64).sqrt() < 1e-12);
    assert_eq!(Oversampler::<F>::factor(&over), 1);
}

#[test]
fn halfband_round_trip_amplitude_preserved_2x() {
    // The round-trip preserves the RMS amplitude of a low-frequency sine within the filter
    // passband. Exact alignment is not checked as group-delay compensation isn't an integer number
    // of low-rate samples.
    let n = 4096;
    let mut over: HalfbandFirOversampler<F> = HalfbandFirOversampler::new(2, n);
    let input = make_sine(n, 1000.0, 44100.0);
    let mut up = vec![F(0.0); 2 * n];
    let mut back = vec![F(0.0); n];

    // Prime through a couple of blocks to flush the delay lines.
    let zeros = vec![F(0.0); n];
    let mut up_pre = vec![F(0.0); 2 * n];
    let mut back_pre = vec![F(0.0); n];
    for _ in 0..2 {
        over.upsample(&zeros, &mut up_pre);
        over.downsample(&up_pre, &mut back_pre);
    }

    over.upsample(&wrap(&input), &mut up);
    over.downsample(&up, &mut back);

    // Compare RMS of inner window (skip filter transient at start).
    let skip = 64usize;
    let in_rms = rms(&input[..n - skip]);
    let out_rms = rms(&plain(&back[skip..]));
    let err = (out_rms - in_rms).abs() / in_rms;
    assert!(err < 0.02, "halfband 2x amplitude mismatch: {err} (in={in_rms}, out={out_rms})");
}

#[test]
fn halfband_round_trip_amplitude_preserved_4x() {
    let n = 4096;
    let mut over: HalfbandFirOversampler<F> = HalfbandFirOversampler::new(4, n);
    let input = make_sine(n, 1000.0, 44100.0);
    let mut up = vec![F(0.0); 4 * n];
    let mut back = vec![F(0.0); n];

    let zeros = vec![F(0.0); n];
    let mut up_pre = vec![F(0.0); 4 * n];
    let mut back_pre = vec![F(0.0); n];
    for _ in 0..3 {
        over.upsample(&zeros, &mut up_pre);
        over.downsample(&up_pre, &mut back_pre);
    }

    over.upsample(&wrap(&input), &mut up);
    over.downsample(&up, &mut back);

    let skip = 64usize;
    let in_rms = rms(&input[..n - skip]);
    let out_rms = rms(&plain(&back[skip..]));
    let err = (out_rms - in_rms).abs() / in_rms;
    assert!(err < 0.05, "halfband 4x amplitude mismatch: {err} (in={in_rms}, out={out_rms})");
}

#[test]
fn halfband_dc_passthrough() {
    let n = 256;
    let mut over: HalfbandFirOversampler<F> = HalfbandFirOversampler::new(2, n);
    let input = vec![F(1.0); n];
    let mut up = vec![F(0.0); 2 * n];
    over.upsample(&input, &mut up);
    // After flushing the delay line, all up-sampled samples should be ~1.0 (DC passes through with
    // gain 1).
    let tail = &up[2 * (HALFBAND_LENGTH + 4)..];
    for &v in tail {
        let v = v.0;
        assert!((v - 1.0).abs() < 1e-3, "DC not passed through: {v}");
    }
}

fn make_model(drive_lin: f64, bias: f64, k2: f64, k3: f64, k4: f64) -> PolynomialModel<F> {
    let cfg = PolynomialModelParameters {
        drive_db: F(0.0),
        bias: F(bias),
        k2: F(k2),
        k3: F(k3),
        k4: F(k4),
    };
    let mut m = PolynomialModel::from_config(&cfg, 48000);
    // Force-snap the ramped values to the requested ones for deterministic tests (avoids
    // interaction with the smoothing transient).
    m.drive_lin = RampedValue::new(F(drive_lin), F(1e-6), 48000);
    m.bias = RampedValue::new(F(bias), F(1e-6), 48000);
    m
}

#[test]
fn polynomial_zero_input_with_bias() {
    let mut model = make_model(1.0, 0.05, 0.15, 0.02, 0.0);
    let y = model.process_sample(F(0.0)).0;
    let expected = 0.05 + 0.15 * 0.05 * 0.05 + 0.02 * 0.05 * 0.05 * 0.05;
    assert!((y - expected).abs() < 1e-9, "got {y}, expected {expected}");
}

#[test]
fn polynomial_asymmetric_creates_dc_offset() {
    let mut model = make_model(1.0, 0.0, 0.5, 0.0, 0.0);
    let fs: f64 = 48000.0;
    let cycles: f64 = 100.0;
    let n: usize = 4800;
    let freq: f64 = cycles * fs / (n as f64);
    let two_pi = 2.0 * std::f64::consts::PI;
    let amp: f64 = 0.5;
    let mut sum = 0.0;
    for i in 0..n {
        let x = amp * (two_pi * freq * (i as f64) / fs).sin();
        sum += model.process_sample(F(x)).0;
    }
    let mean = sum / (n as f64);
    let expected = 0.5 * amp * amp / 2.0;
    assert!(
        (mean - expected).abs() < 1e-3,
        "DC offset {mean} differs from expected {expected}"
    );
}

#[test]
fn polynomial_drive_change_is_smooth() {
    // Updating the drive does not introduce a sample-level jump.
    let mut model = make_model(1.0, 0.0, 0.0, 0.0, 0.0);
    // Use the default 20 ms ramp.
    let cfg = flat_polynomial(20.0); // 10x linear gain
    model.update(&cfg, 48000);
    let mut prev = model.process_sample(F(1.0)).0;
    for _ in 0..100 {
        let next = model.process_sample(F(1.0)).0;
        assert!(
            (next - prev).abs() < 0.5,
            "drive ramp produced a step: prev={prev} next={next}"
        );
        prev = next;
    }
}

#[test]
fn ramp_converges_to_target() {
    let mut r = RampedValue::new(F(0.0), F(0.005), 48_000);
    r.set_target(F(1.0));
    for _ in 0..10_000 {
        r.tick();
    }
    let v = r.tick().0;
    assert!((v - 1.0).abs() < 1e-6, "ramp did not converge: {v}");
}

#[test]
fn ramp_no_overshoot() {
    let mut r = RampedValue::new(F(0.0), F(0.005), 48_000);
    r.set_target(F(1.0));
    let mut prev = 0.0;
    for _ in 0..1000 {
        let v = r.tick().0;
        assert!(v >= prev - 1e-12);
        assert!(v <= 1.0 + 1e-12);
        prev = v;
    }
}

fn koren(vgk: f64, vpk: f64) -> f64 {
    koren_plate_current(F(vgk), F(vpk), F(3.85), F(4.5), F(140.0), F(1500.0), F(1.4)).0
}

#[test]
fn ramp_never_passes_its_target() {
    for (from, to) in [(0.0, -1.0), (-0.5, 0.5), (0.5, -0.5), (1.0, 0.25), (-2.0, -1.0)] {
        let mut r = RampedValue::new(F(from), F(0.005), 48_000);
        r.set_target(F(to));
        let mut last = from;
        for _ in 0..5000 {
            let v = r.tick().0;
            let distance = r.coeff.0 * (last - to);
            assert!((v - to - distance).abs() < 1e-12);
            assert!(if from < to { v <= to + 1e-12 } else { to - 1e-12 <= v });
            last = v;
        }
    }
}

#[test]
fn koren_never_falls_as_the_grid_rises() {
    for vpk in [0.0, 100.0, 300.0] {
        let mut last = 0.0;
        for n in -400..=400 {
            let ip = koren(n as f64 * 0.5, vpk);
            assert!(last <= ip + 1e-12, "{last} {ip}");
            last = ip;
        }
    }
}

#[test]
fn koren_300b_quiescent_in_reasonable_range() {
    // Vgk = -60 V, Vpk = 300 V: the slope is non-zero and Ip is finite.
    let ip = koren(-60.0, 300.0);
    assert!(ip.is_finite());
    assert!(ip > 0.0, "expected non-zero Ip at quiescent");
}

#[test]
fn triode_static_curve_monotonic() {
    // For fixed Vpk, plate current Ip should grow monotonically with Vgk.
    let mut prev = 0.0;
    for k in -100..0 {
        let vgk = k as f64;
        let ip = koren(vgk, 300.0);
        assert!(
            ip >= prev - 1e-12,
            "Ip not monotonic at vgk={vgk}: prev={prev} ip={ip}"
        );
        prev = ip;
    }
}

#[test]
fn triode_creates_even_harmonics() {
    // Drive a small sine through the triode and check that the output has measurable DC offset
    // (signature of asymmetric distortion).
    let cfg = triode_params();
    let fs = 192_000;
    let mut model = TriodeModel::from_config(&cfg, fs);
    let n = 8192;
    let two_pi = 2.0 * std::f64::consts::PI;
    let mut sum = 0.0;
    let mut count = 0;
    for i in 0..n {
        let x = 0.3 * (two_pi * 1000.0 * (i as f64) / (fs as f64)).sin();
        let y = model.process_sample(F(x)).0;
        // Skip the startup transient.
        if i > 1024 {
            sum += y;
            count += 1;
        }
    }
    let mean = sum / (count as f64);
    assert!(
        mean.abs() > 1e-4,
        "expected non-zero DC offset (asymmetry), got {mean}"
    );
}

#[test]
fn softplus_has_its_asymptotes() {
    // Far above the knee the current is that of the straight line, far below it is zero.
    let big = koren_plate_current(F(1e4), F(0.0), F(1.0), F(1.0), F(1.0), F(2.0), F(1.0)).0;
    assert_eq!(big, (1.0 + 1e4) / 2.0);
    assert_eq!(koren_plate_current(F(-1e4), F(0.0), F(1.0), F(1.0), F(1.0), F(2.0), F(1.0)), F(0.0));
}

#[test]
fn triode_update_keeps_filter_states() {
    let mut model = TriodeModel::from_config(&triode_params(), 48_000);
    for k in 0..50 {
        model.process_sample(F(0.1 * (k as f64).sin()));
    }
    let before = model;
    let mut p = triode_params();
    p.drive_db = F(12.0);
    p.coupling_freq_in = F(20.0);
    p.vplate = Some(F(250.0));
    model.update(&p, 48_000);
    assert_eq!(model.coupling_in.s1, before.coupling_in.s1);
    assert_eq!(model.cathode_bypass.s1, before.cathode_bypass.s1);
    assert_eq!(model.coupling_out.s1, before.coupling_out.s1);
    assert_eq!(model.sag_env, before.sag_env);
    assert_eq!(model.drive_lin.current, before.drive_lin.current);
    assert_eq!(model.drive_lin.target(), F(10f64.powf(12.0 / 20.0)));
    assert_eq!(model.vplate, F(250.0));
    assert!(model.coupling_in.coeffs.b0 != before.coupling_in.coeffs.b0);
}

#[test]
fn retune_keeps_the_value() {
    let mut r = RampedValue::new(F(0.5), F(0.02), 48_000);
    r.set_target(F(2.0));
    r.retune(F(0.01), 96_000);
    assert_eq!(r.current, F(0.5));
    assert_eq!(r.coeff, F((-1.0f64 / (0.01 * 96_000.0)).exp()));
    let c = r.coeff.0;
    assert_eq!(r.tick(), F(c * 0.5 + (1.0 - c) * 2.0));
}

#[test]
fn dc_blocker_and_biquad_formulas() {
    let mut dc = DcBlocker::new(48_000);
    let r = (-2.0 * std::f64::consts::PI * 5.0 / 48_000.0).exp();
    assert_eq!(dc.process_single(F(1.0)), F(1.0));
    assert_eq!(dc.process_single(F(1.0)), F(r));
    let coeffs = BiquadCoefficients::from_config(
        48_000,
        BiquadParameters::HighpassFO { freq: F(100.0) },
    );
    let k = (std::f64::consts::PI * 2.0 * 100.0 / 48_000.0 / 2.0).tan();
    assert!((coeffs.b0.0 - 1.0 / (1.0 + k)).abs() < 1e-15);
    // A highpass blocks DC, a high shelf lifts what is high.
    let mut hp = Biquad::new(coeffs);
    let mut last = 1.0;
    for _ in 0..20_000 {
        last = hp.process_single(F(1.0)).0;
    }
    assert!(last.abs() < 1e-6);
    let mut shelf = Biquad::new(BiquadCoefficients::from_config(
        48_000,
        BiquadParameters::HighshelfFO { freq: F(1000.0), gain: F(6.0) },
    ));
    let mut high = 0.0;
    for n in 0..1000 {
        high = shelf.process_single(F(if n % 2 == 0 { 1.0 } else { -1.0 })).0;
    }
    assert!((high.abs() - 10f64.powf(6.0 / 20.0)).abs() < 1e-6);
}

#[test]
fn halfband_coefficients_are_halfband() {
    let h = plain(&make_halfband_coeffs(31, F(8.0)));
    assert!((h.iter().sum::<f64>() - 1.0).abs() < 1e-12);
    for n in 0..31 {
        assert!((h[n] - h[30 - n]).abs() < 1e-15);
        if n % 2 == 1 && n != 15 {
            assert!(h[n].abs() < 1e-16);
        }
    }
    let mut stage: HalfbandStage<F> = HalfbandStage::new();
    let (y0, y1) = stage.upsample_one(F(1.0));
    assert_eq!((y0.0, y1.0), (2.0 * h[0], 2.0 * h[1]));
    let y = stage.downsample_pair(F(0.0), F(1.0));
    assert_eq!(y.0, h[0]);
    stage.reset();
    assert_eq!(stage.up_dl, vec![F(0.0); 31]);
}

#[test]
fn empty_waveform_changes_nothing() {
    let cfg = flat_params(OversamplingFactor::F4, 0.0, 0.0);
    let mut filter: Stage = TubeStage::from_config("empty", cfg, 48000, 16, None);
    filter.process_waveform(&mut []);
    assert_eq!(filter.chunksize, 16);
    assert_eq!(filter.name(), "empty");
}

#[test]
fn new_length_rebuilds_with_halfband() {
    let cfg = flat_params(OversamplingFactor::F2, 0.0, 0.0);
    let mut filter: Stage = TubeStage::from_config("t", cfg, 48000, 16, None);
    let mut wave = vec![F(0.25); 40];
    filter.process_waveform(&mut wave);
    assert_eq!(filter.chunksize, 40);
    assert_eq!(filter.scratch.len(), 80);
    assert!(matches!(filter.oversampler, AnyOversampler::Halfband(_)));
}

#[test]
fn factor_change_rebuilds_the_oversampler() {
    let cfg = flat_params(OversamplingFactor::F1, 0.0, 0.0);
    let mut filter: Stage = TubeStage::from_config("t", cfg, 48000, 16, None);
    let mut p = flat_params(OversamplingFactor::F8, 0.0, 0.0);
    p.dc_blocker = true;
    p.transformer.enabled = true;
    filter.update_parameters(p, None);
    assert_eq!(filter.factor, 8);
    assert_eq!(filter.scratch.len(), 128);
    assert!(filter.shaper.dc_blocker_in.is_some());
    assert!(filter.shaper.transformer.is_some());
    assert_eq!(filter.oversampler.factor(), 8);
}

#[test]
fn tubestage_validation_names_the_fault() {
    let mut p = flat_params(OversamplingFactor::F2, 0.0, 0.0);
    assert!(validate_config(48000, &p).is_ok());
    p.transformer.enabled = true;
    p.transformer.hf_shelf_freq = F(48000.0);
    assert!(matches!(
        validate_config(48000, &p),
        Err(ConfigError::ShelfFreqOutOfRange {
            freq: F(48000.0),
            max_freq: F(48000.0),
            samplerate: 48000
        })
    ));
    p.transformer.hf_shelf_freq = F(0.0);
    assert!(validate_config(48000, &p).is_err());
    p.transformer.hf_shelf_freq = F(47999.0);
    assert!(validate_config(48000, &p).is_ok());
    let with = |t: TriodeModelParameters<F>| {
        let mut p = flat_params(OversamplingFactor::F1, 0.0, 0.0);
        p.model = TubeModel::Triode(t);
        p
    };
    assert!(validate_config(48000, &with(triode_params())).is_ok());
    let mut t = triode_params();
    t.kg1 = Some(F(0.0));
    assert!(matches!(
        validate_config(48000, &with(t)),
        Err(ConfigError::TriodeCoefficientNotPositive)
    ));
    let mut t = triode_params();
    t.kvb = Some(F(-1.0));
    assert!(matches!(
        validate_config(48000, &with(t)),
        Err(ConfigError::TriodeKvbNotPositive)
    ));
    let mut t = triode_params();
    t.x = Some(F(0.0));
    assert!(matches!(
        validate_config(48000, &with(t)),
        Err(ConfigError::TriodeExponentNotPositive)
    ));
}

#[test]
fn switching_the_model_starts_anew() {
    let cfg = flat_params(OversamplingFactor::F1, 0.0, 0.0);
    let mut filter: Stage = TubeStage::from_config("t", cfg, 48000, 8, None);
    let mut p = flat_params(OversamplingFactor::F1, 0.0, 0.0);
    p.model = TubeModel::Triode(triode_params());
    filter.update_parameters(p, None);
    let mut wave = vec![F(0.1); 8];
    filter.process_waveform(&mut wave);
    let mut alone = TriodeModel::from_config(&triode_params(), 48000);
    for v in &wave {
        assert!((v.0 - alone.process_sample(F(0.1)).0).abs() < 1e-12);
    }
}

#[test]
fn cuts_do_not_matter() {
    let input = wrap(&make_sine(60, 3000.0, 48000.0));
    let (a, b) = (input[..22].to_vec(), input[22..].to_vec());
    let mut whole: HalfbandStage<F> = HalfbandStage::new();
    let mut parts: HalfbandStage<F> = HalfbandStage::new();
    let (mut up, mut up_a, mut up_b) = (Vec::new(), Vec::new(), Vec::new());
    whole.upsample_wave(&input, &mut up);
    parts.upsample_wave(&a, &mut up_a);
    parts.upsample_wave(&b, &mut up_b);
    up_a.extend(up_b);
    assert_eq!(up, up_a);
    let (mut down, mut down_a, mut down_b) = (Vec::new(), Vec::new(), Vec::new());
    whole.downsample_wave(&input, &mut down);
    parts.downsample_wave(&a, &mut down_a);
    parts.downsample_wave(&b, &mut down_b);
    down_a.extend(down_b);
    assert_eq!(down, down_a);
    let mut p = flat_params(OversamplingFactor::F1, 6.0, 3.0);
    p.dc_blocker = true;
    p.model = TubeModel::Triode(triode_params());
    let (mut one, mut two) = (Shaper::from_config(&p, 48_000), Shaper::from_config(&p, 48_000));
    let (mut wave, mut wave_a, mut wave_b) = (input.clone(), a, b);
    one.process_wave(&mut wave);
    two.process_wave(&mut wave_a);
    two.process_wave(&mut wave_b);
    wave_a.extend(wave_b);
    assert_eq!(wave, wave_a);
}

/// A synchronous resampler of the rubato crate, for one channel.
struct Sync(rubato::Fft<f64>);

impl Sync {
    fn new(rate_in: usize, rate_out: usize, chunk_out: usize) -> Sync {
        Sync(rubato::Fft::new(rate_in, rate_out, chunk_out, 2, 1, FixedSync::Output).unwrap())
    }
}

impl Resampler<F> for Sync {
    fn process_into_buffer(
        &mut self,
        buffer_in: &Vec<Vec<F>>,
        buffer_out: &mut Vec<Vec<F>>,
        _indexing: Option<&Indexing>,
    ) -> Result<(usize, usize), ResampleError> {
        let waves: Vec<Vec<f64>> = buffer_in.iter().map(|w| plain(w)).collect();
        let mut out: Vec<Vec<f64>> = buffer_out.iter().map(|w| plain(w)).collect();
        let (n_in, n_out) = (waves[0].len(), out[0].len());
        let input = SequentialSliceOfVecs::new(&waves, 1, n_in).unwrap();
        let mut output = SequentialSliceOfVecs::new_mut(&mut out, 1, n_out).unwrap();
        let done = self.0.process_into_buffer(&input, &mut output, None);
        for (to, from) in buffer_out.iter_mut().zip(out.iter()) {
            *to = wrap(from);
        }
        done.map_err(|_| ResampleError::Backend)
    }
    fn input_frames_max(&self) -> usize {
        self.0.input_frames_max()
    }
    fn input_frames_next(&self) -> usize {
        self.0.input_frames_next()
    }
    fn nbr_channels(&self) -> usize {
        self.0.nbr_channels()
    }
    fn output_frames_max(&self) -> usize {
        self.0.output_frames_max()
    }
    fn output_frames_next(&self) -> usize {
        self.0.output_frames_next()
    }
    fn output_delay(&self) -> usize {
        self.0.output_delay()
    }
    fn set_resample_ratio(&mut self, _ratio: F, _ramp: bool) -> Result<(), ResampleError> {
        Err(ResampleError::SyncNotAdjustable)
    }
    fn resample_ratio(&self) -> F {
        F(self.0.resample_ratio())
    }
    fn set_resample_ratio_relative(&mut self, _: F, _ramp: bool) -> Result<(), ResampleError> {
        Err(ResampleError::SyncNotAdjustable)
    }
    fn reset(&mut self) {
        self.0.reset()
    }
}

fn sync_pair(factor: usize, chunk: usize) -> ResamplerPair<Sync> {
    ResamplerPair {
        up: Sync::new(1, factor, factor * chunk),
        down: Sync::new(factor, 1, chunk),
    }
}

#[test]
fn rubato_round_trip_is_a_delay() {
    let chunk = 256;
    let pair = sync_pair(4, chunk);
    assert_eq!((pair.up.input_frames_next(), pair.up.output_frames_next()), (256, 1024));
    assert_eq!((pair.down.input_frames_next(), pair.down.output_frames_next()), (1024, 256));
    let delay = pair.up.output_delay() / 4 + pair.down.output_delay();
    let mut over: RubatoOversampler<F, Sync> = RubatoOversampler::new(4, chunk, pair.up, pair.down);
    assert_eq!(over.factor(), 4);
    let input = make_sine(16 * chunk, 1000.0, 48000.0);
    let mut got = Vec::new();
    for part in input.chunks(chunk) {
        let mut up = vec![F(0.0); 4 * chunk];
        let mut back = vec![F(0.0); chunk];
        over.upsample(&wrap(part), &mut up);
        over.downsample(&up, &mut back);
        got.extend(plain(&back));
    }
    for n in 8 * chunk..16 * chunk {
        assert!((got[n] - input[n - delay]).abs() < 1e-3, "{} {}", got[n], input[n - delay]);
    }
}

#[test]
fn rubato_backend_is_used_and_dropped_on_a_new_length() {
    let mut p = flat_params(OversamplingFactor::F2, 0.0, 0.0);
    p.oversampling.backend = OversamplingBackend::Rubato;
    let mut filter: TubeStage<F, Sync> =
        TubeStage::from_config("t", p, 48000, 128, Some(sync_pair(2, 128)));
    assert!(matches!(filter.oversampler, AnyOversampler::Rubato(_)));
    for _ in 0..20 {
        let mut wave = vec![F(0.5); 128];
        filter.process_waveform(&mut wave);
        assert_eq!(wave.len(), 128);
    }
    let mut wave = vec![F(0.5); 128];
    filter.process_waveform(&mut wave);
    for v in plain(&wave) {
        assert!((v - 0.5).abs() < 1e-3, "{v}");
    }
    let mut wave = vec![F(0.5); 100];
    filter.process_waveform(&mut wave);
    assert!(matches!(filter.oversampler, AnyOversampler::Halfband(_)));
}

#[test]
fn backend_change_rebuilds_the_oversampler() {
    let chunk = 64;
    let halfband = || flat_params(OversamplingFactor::F4, 0.0, 0.0);
    let synchronous = || {
        let mut p = halfband();
        p.oversampling.backend = OversamplingBackend::Rubato;
        p
    };
    let mut filter: TubeStage<F, Sync> = TubeStage::from_config("t", halfband(), 48000, chunk, None);
    assert!(matches!(filter.oversampler, AnyOversampler::Halfband(_)));

    // To the other backend at the same factor: what follows is what a new filter computes.
    filter.update_parameters(synchronous(), Some(sync_pair(4, chunk)));
    assert!(matches!(filter.oversampler, AnyOversampler::Rubato(_)));
    assert_eq!((filter.factor, filter.backend), (4, OversamplingBackend::Rubato));
    let mut new: TubeStage<F, Sync> =
        TubeStage::from_config("t", synchronous(), 48000, chunk, Some(sync_pair(4, chunk)));
    for k in 0..4 {
        let input = wrap(&make_sine(chunk, 500.0 + k as f64, 48000.0));
        let (mut a, mut b) = (input.clone(), input);
        filter.process_waveform(&mut a);
        new.process_waveform(&mut b);
        assert_eq!(plain(&a), plain(&b));
    }

    // And back, where the cascade starts anew.
    filter.update_parameters(halfband(), None);
    match &filter.oversampler {
        AnyOversampler::Halfband(o) => {
            assert!(o.stages.iter().all(|s| s.up_dl.iter().all(|v| v.0 == 0.0)))
        }
        _ => panic!("the backend was not taken over"),
    }
}

#[test]
fn oversampler_is_kept_where_neither_factor_nor_backend_changes() {
    let mut filter: Stage = TubeStage::from_config(
        "t",
        flat_params(OversamplingFactor::F2, 0.0, 0.0),
        48000,
        64,
        None,
    );
    let mut wave = wrap(&make_sine(64, 1000.0, 48000.0));
    filter.process_waveform(&mut wave);
    let lines = |f: &Stage| match &f.oversampler {
        AnyOversampler::Halfband(o) => {
            o.stages.iter().map(|s| plain(&s.up_dl)).collect::<Vec<Vec<f64>>>()
        }
        _ => Vec::new(),
    };
    let before = lines(&filter);
    assert!(before[0].iter().any(|v| *v != 0.0));
    filter.update_parameters(flat_params(OversamplingFactor::F2, 6.0, 3.0), None);
    assert_eq!(lines(&filter), before);
}
