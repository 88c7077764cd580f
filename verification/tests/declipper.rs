//! The declipper on audio in double precision.

use prcdsp::config::{ConfigError, DeclipMethod, DeclipperParameters};
use prcdsp::prcfmt::PrcFmt;
use prcdsp::processors::declipper::banded::solve_banded_toeplitz;
use prcdsp::processors::declipper::gap::{
    reconstruct_ar, reconstruct_cubic, ArScratch, ArSettings,
};
use prcdsp::processors::declipper::lpc::{autocorrelation, coeff_autocorr, levinson};
use prcdsp::processors::declipper::{build_is_process, validate_declipper, Declipper};

/// Samples in double precision.
#[derive(Clone, Copy, Debug, PartialEq)]
struct F(f64);

impl PrcFmt for F {
    // Laws of the order: there is nothing to compute.
    fn lt_irreflexive(self) {}
    fn lt_transitive(self, _: F, _: F) {}
    fn le_excludes_gt(self, _: F) {}
    fn max_not_below(self, _: F) {}

    fn of_int(n: i64) -> F {
        F(n as f64)
    }
    fn of_usize(n: usize) -> F {
        F(n as f64)
    }
    fn decimal(digits: i64, places: u32) -> F {
        if places <= 22 {
            F(digits as f64 / 10f64.powi(places as i32))
        } else {
            F(format!("{}e-{}", digits, places).parse().unwrap())
        }
    }
    fn pi() -> F {
        F(std::f64::consts::PI)
    }
    fn plus(self, rhs: F) -> F {
        F(self.0 + rhs.0)
    }
    fn minus(self, rhs: F) -> F {
        F(self.0 - rhs.0)
    }
    fn times(self, rhs: F) -> F {
        F(self.0 * rhs.0)
    }
    fn over(self, rhs: F) -> F {
        F(self.0 / rhs.0)
    }
    fn negated(self) -> F {
        F(-self.0)
    }
    fn abs(self) -> F {
        F(self.0.abs())
    }
    fn max(self, rhs: F) -> F {
        F(self.0.max(rhs.0))
    }
    fn min(self, rhs: F) -> F {
        F(self.0.min(rhs.0))
    }
    fn sqrt(self) -> F {
        F(self.0.sqrt())
    }
    fn exp(self) -> F {
        F(self.0.exp())
    }
    fn ln(self) -> F {
        F(self.0.ln())
    }
    fn log10(self) -> F {
        F(self.0.log10())
    }
    fn powf(self, exponent: F) -> F {
        F(self.0.powf(exponent.0))
    }
    fn sin(self) -> F {
        F(self.0.sin())
    }
    fn tan(self) -> F {
        F(self.0.tan())
    }
    fn lt(self, rhs: F) -> bool {
        self.0 < rhs.0
    }
    fn le(self, rhs: F) -> bool {
        self.0 <= rhs.0
    }
    fn same(self, rhs: F) -> bool {
        self.0 == rhs.0
    }
    fn is_finite(self) -> bool {
        self.0.is_finite()
    }
}

fn wrap(v: &[f64]) -> Vec<F> {
    v.iter().map(|x| F(*x)).collect()
}

fn plain(v: &[F]) -> Vec<f64> {
    v.iter().map(|x| x.0).collect()
}

const SR: usize = 48000;
const CHUNK: usize = 256;

fn params(
    method: DeclipMethod,
    clip_threshold: f64,
    min_clip_len: usize,
    max_clip_len: usize,
) -> DeclipperParameters<F> {
    DeclipperParameters {
        channels: 1,
        process_channels: None,
        clip_threshold: F(clip_threshold),
        min_clip_len,
        max_clip_len,
        method,
        ar_order: 24,
        makeup_gain_db: None,
    }
}

fn make(params: DeclipperParameters<F>) -> Declipper<F> {
    Declipper::from_config("test", params, SR, CHUNK)
}

/// Run a single-channel signal through the declipper in chunks, returning the concatenated output
/// and the number of repaired samples.
fn run(dec: &mut Declipper<F>, signal: &[f64]) -> (Vec<f64>, usize) {
    let mut out = Vec::with_capacity(signal.len());
    let mut declipped = 0;
    for block in signal.chunks(CHUNK) {
        let mut waveforms = vec![wrap(block)];
        declipped += dec.process_chunk(&mut waveforms).declipped;
        out.extend_from_slice(&plain(&waveforms[0]));
    }
    (out, declipped)
}

fn sine(len: usize, freq: f64, amp: f64) -> Vec<f64> {
    (0..len)
        .map(|n| amp * (2.0 * std::f64::consts::PI * freq * n as f64 / SR as f64).sin())
        .collect()
}

fn hard_clip(signal: &[f64], level: f64) -> Vec<f64> {
    signal.iter().map(|&x| x.clamp(-level, level)).collect()
}

fn error_energy(a: &[f64], b: &[f64], range: std::ops::Range<usize>) -> f64 {
    range.map(|k| (a[k] - b[k]) * (a[k] - b[k])).sum()
}

#[test]
fn delay_line_is_identity_without_clips() {
    let mut dec = make(params(DeclipMethod::Cubic, 0.985, 2, 64));
    let delay = dec.delay;
    let signal = sine(4096, 1000.0, 0.5);
    let (out, declipped) = run(&mut dec, &signal);
    for k in 0..(signal.len() - delay) {
        assert!(
            (out[delay + k] - signal[k]).abs() < 1e-9,
            "mismatch at {}: {} vs {}",
            k,
            out[delay + k],
            signal[k]
        );
    }
    // Leading samples are the primed silence.
    for v in out.iter().take(delay) {
        assert_eq!(*v, 0.0);
    }
    assert_eq!(declipped, 0);
}

#[test]
fn cubic_reduces_error_and_overshoots() {
    let orig = sine(8192, 1000.0, 0.95);
    let clip_level = 0.7;
    let clipped = hard_clip(&orig, clip_level);
    let mut dec = make(params(DeclipMethod::Cubic, 0.6, 2, 64));
    let delay = dec.delay;
    let (out, declipped) = run(&mut dec, &clipped);

    // Compare over the fully-emitted region, skipping warmup.
    let range = 512..(orig.len() - delay);
    let declipped_aligned: Vec<f64> = range.clone().map(|k| out[delay + k]).collect();
    let orig_slice: Vec<f64> = range.clone().map(|k| orig[k]).collect();
    let clipped_slice: Vec<f64> = range.clone().map(|k| clipped[k]).collect();
    let n = declipped_aligned.len();

    let err_declipped = error_energy(&declipped_aligned, &orig_slice, 0..n);
    let err_clipped = error_energy(&clipped_slice, &orig_slice, 0..n);
    assert!(
        err_declipped < 0.5 * err_clipped,
        "declipped error {} not substantially below clipped error {}",
        err_declipped,
        err_clipped
    );
    // Reconstructed peak must overshoot the clip level.
    let peak = declipped_aligned
        .iter()
        .cloned()
        .fold(0.0_f64, |m, v| m.max(v.abs()));
    assert!(peak > clip_level + 0.05, "peak {} did not overshoot", peak);
    assert!(declipped > 0);
}

#[test]
fn ar_reduces_error() {
    let orig = sine(8192, 1000.0, 0.95);
    let clip_level = 0.7;
    let clipped = hard_clip(&orig, clip_level);
    let mut dec = make(params(DeclipMethod::Ar, 0.6, 2, 64));
    let delay = dec.delay;
    let (out, _) = run(&mut dec, &clipped);
    let range = 512..(orig.len() - delay);
    let n = range.len();
    let declipped_aligned: Vec<f64> = range.clone().map(|k| out[delay + k]).collect();
    let orig_slice: Vec<f64> = range.clone().map(|k| orig[k]).collect();
    let clipped_slice: Vec<f64> = range.map(|k| clipped[k]).collect();
    let err_declipped = error_energy(&declipped_aligned, &orig_slice, 0..n);
    let err_clipped = error_energy(&clipped_slice, &orig_slice, 0..n);
    assert!(
        err_declipped < err_clipped,
        "AR declipped error {} not below clipped error {}",
        err_declipped,
        err_clipped
    );
    // Reconstruction must stay bounded (no runaway extrapolation).
    for v in &declipped_aligned {
        assert!(v.is_finite() && v.abs() < 4.0, "unbounded AR output: {}", v);
    }
}

#[test]
fn repairs_clip_straddling_chunk_boundary() {
    // A single flat-topped plateau straddles the first chunk boundary (index 256).
    let len = 2048;
    let mut signal = sine(len, 500.0, 0.4);
    let plateau_start = CHUNK - 5;
    let plateau_len = 12;
    for s in signal.iter_mut().skip(plateau_start).take(plateau_len) {
        *s = 0.9;
    }
    // The samples on each side of the plateau are a clean rising/falling edge so the plateau is
    // well defined.
    signal[plateau_start - 1] = 0.7;
    signal[plateau_start + plateau_len] = 0.7;

    let mut dec = make(params(DeclipMethod::Cubic, 0.85, 2, 64));
    let delay = dec.delay;
    let (out, declipped) = run(&mut dec, &signal);

    let repaired: Vec<f64> = (plateau_start..plateau_start + plateau_len)
        .map(|k| out[delay + k])
        .collect();
    let max = repaired.iter().cloned().fold(0.0_f64, |m, v| m.max(v));
    let min = repaired.iter().cloned().fold(2.0_f64, |m, v| m.min(v));
    assert!(max > 0.9, "boundary plateau not lifted: max {}", max);
    assert!(max - min > 1e-3, "boundary plateau still flat");
    assert_eq!(declipped, plateau_len);
}

#[test]
fn passes_through_clips_longer_than_max() {
    let len = 2048;
    let mut signal = sine(len, 500.0, 0.4);
    let plateau_start = 600;
    let plateau_len = 30;
    for s in signal.iter_mut().skip(plateau_start).take(plateau_len) {
        *s = 0.9;
    }
    signal[plateau_start - 1] = 0.7;
    signal[plateau_start + plateau_len] = 0.7;

    // max_clip_len smaller than the plateau -> pass through untouched.
    let mut dec = make(params(DeclipMethod::Cubic, 0.85, 2, 8));
    let delay = dec.delay;
    let (out, declipped) = run(&mut dec, &signal);
    for k in plateau_start..plateau_start + plateau_len {
        assert!(
            (out[delay + k] - 0.9).abs() < 1e-9,
            "long clip modified at {}: {}",
            k,
            out[delay + k]
        );
    }
    assert_eq!(declipped, 0);
}

#[test]
fn telemetry_counts_exact_plateau() {
    let len = 2048;
    let mut signal = sine(len, 500.0, 0.4);
    let plateau_start = 700;
    let plateau_len = 10;
    for s in signal.iter_mut().skip(plateau_start).take(plateau_len) {
        *s = -0.95; // negative-going clip
    }
    signal[plateau_start - 1] = -0.7;
    signal[plateau_start + plateau_len] = -0.7;
    let mut dec = make(params(DeclipMethod::Cubic, 0.85, 2, 64));
    let (_, declipped) = run(&mut dec, &signal);
    assert_eq!(declipped, plateau_len);
}

#[test]
fn clip_across_a_chunk_boundary_is_repaired_once() {
    // The bridge over this clip is flat at its top, where it crosses into the next chunk.
    let flat = || {
        let mut p = params(DeclipMethod::Cubic, 0.85, 2, 64);
        p.makeup_gain_db = Some(F(0.0));
        make(p)
    };
    let mut x = vec![0.0; 1024];
    x[313] = 0.5;
    x[314] = 0.7;
    for v in &mut x[315..327] {
        *v = 0.9;
    }
    x[327] = 0.7;
    x[328] = 0.5;

    for chunk in [256, 64, 100, 320, 1] {
        let mut dec = flat();
        assert_eq!(dec.latency(), 192);
        let mut y = Vec::new();
        let mut declipped = 0;
        for piece in x.chunks(chunk) {
            let mut waves = vec![wrap(piece)];
            declipped += dec.process_chunk(&mut waves).declipped;
            y.extend(plain(&waves[0]));
        }
        assert_eq!(declipped, 12, "chunks of {chunk}");
        for k in 315..327 {
            let t = (k - 314) as f64 / 13.0;
            let expected = 0.7 + 2.6 * t * (1.0 - t);
            assert!((y[192 + k] - expected).abs() < 1e-9, "sample {k}: {}", y[192 + k]);
        }
        for k in (0..315).chain(327..1024 - 192) {
            assert_eq!(y[192 + k], x[k]);
        }
    }
    assert_eq!(run(&mut flat(), &x).1, 12);
}

#[test]
fn ignores_short_runs_below_min_len() {
    // A 1-sample full-scale transient must not be treated as a clip.
    let len = 2048;
    let mut signal = sine(len, 500.0, 0.4);
    signal[700] = 0.99;
    signal[699] = 0.5;
    signal[701] = 0.5;
    let mut dec = make(params(DeclipMethod::Cubic, 0.85, 2, 64));
    let delay = dec.delay;
    let (out, declipped) = run(&mut dec, &signal);
    assert_eq!(declipped, 0);
    assert!((out[delay + 700] - 0.99).abs() < 1e-9);
}

/// The banded Cholesky solver must reproduce a dense reference solution for a symmetric
/// positive-definite banded Toeplitz system.
#[test]
fn banded_solver_matches_dense() {
    let order = 4;
    // A diagonally-dominant symmetric band: rc[0] large, decaying off-diagonals.
    let rc = [4.0, -1.5, 0.5, -0.2, 0.05];
    let g = 12;
    // Reference dense solve of A x = rhs via Gaussian elimination.
    let mut mat = vec![vec![0.0_f64; g]; g];
    for i in 0..g {
        for j in 0..g {
            let d = (i as isize - j as isize).unsigned_abs();
            if d <= order {
                mat[i][j] = rc[d];
            }
        }
    }
    let rhs: Vec<f64> = (0..g).map(|i| ((i * 7 + 3) % 11) as f64 - 5.0).collect();
    // Naive dense Gaussian elimination (partial pivoting) for the reference.
    let mut aug: Vec<Vec<f64>> = (0..g)
        .map(|i| {
            let mut row = mat[i].clone();
            row.push(rhs[i]);
            row
        })
        .collect();
    for col in 0..g {
        let mut piv = col;
        for row in (col + 1)..g {
            if aug[row][col].abs() > aug[piv][col].abs() {
                piv = row;
            }
        }
        aug.swap(col, piv);
        let d = aug[col][col];
        for row in (col + 1)..g {
            let f = aug[row][col] / d;
            for k in col..=g {
                aug[row][k] -= f * aug[col][k];
            }
        }
    }
    let mut dense = vec![0.0_f64; g];
    for i in (0..g).rev() {
        let mut s = aug[i][g];
        for j in (i + 1)..g {
            s -= aug[i][j] * dense[j];
        }
        dense[i] = s / aug[i][i];
    }
    // Banded solver.
    let mut band = vec![F(0.0); g * (order + 1)];
    let mut x = vec![F(0.0); g];
    assert!(solve_banded_toeplitz(&wrap(&rc), order, g, &wrap(&rhs), &mut band, &mut x));
    for i in 0..g {
        assert!(
            (x[i].0 - dense[i]).abs() < 1e-4,
            "solver mismatch at {}: {} vs {}",
            i,
            x[i].0,
            dense[i]
        );
    }
}

/// Clipping consistency: every AR-repaired sample must have magnitude at least the clip level with
/// the correct sign, since the true signal was at least that large wherever it flat-topped.
#[test]
fn ar_reconstruction_is_clipping_consistent() {
    // A low-frequency tone clipped hard produces long plateaus with edges where an unconstrained
    // fit would sag below the clip level.
    let orig = sine(8192, 300.0, 0.98);
    let clip_level = 0.55;
    let clipped = hard_clip(&orig, clip_level);
    let mut dec = make(params(DeclipMethod::Ar, 0.5, 2, 64));
    let delay = dec.delay;
    let (out, declipped) = run(&mut dec, &clipped);

    // Walk the clipped input; for every plateau, every corresponding repaired output sample must
    // be at least the clip level (same sign), within a tiny numerical margin.
    let margin = 1e-6;
    let mut checked = 0usize;
    let mut k = 0;
    while k < clipped.len() {
        if clipped[k].abs() < clip_level - 1e-9 {
            k += 1;
            continue;
        }
        let positive = clipped[k] > 0.0;
        let start = k;
        while k < clipped.len()
            && clipped[k].abs() >= clip_level - 1e-9
            && (clipped[k] > 0.0) == positive
        {
            k += 1;
        }
        let len = k - start;
        // Only plateaus the declipper actually repairs (length within limits and with enough
        // emitted context around them).
        if len < 2 || len > 64 || start < 512 || k + delay + 8 >= out.len() {
            continue;
        }
        for j in start..k {
            let v = out[delay + j];
            if positive {
                assert!(
                    v >= clip_level - margin,
                    "positive clip under-restored at {}: {} < {}",
                    j,
                    v,
                    clip_level
                );
            } else {
                assert!(
                    v <= -clip_level + margin,
                    "negative clip under-restored at {}: {} > {}",
                    j,
                    v,
                    -clip_level
                );
            }
        }
        checked += len;
    }
    assert!(checked > 0, "no plateaus were exercised");
    assert!(declipped > 0);
}

/// The least-squares AR reconstruction of a clipped tone should both restore the peak (overshoot
/// the clip level) and land much closer to the original than cubic.
#[test]
fn ar_restores_peak_and_beats_cubic() {
    let orig = sine(8192, 1200.0, 0.97);
    let clip_level = 0.6;
    let clipped = hard_clip(&orig, clip_level);

    let mut dec_ar = make(params(DeclipMethod::Ar, 0.5, 2, 64));
    let mut dec_cu = make(params(DeclipMethod::Cubic, 0.5, 2, 64));
    let delay = dec_ar.delay;
    let (out_ar, _) = run(&mut dec_ar, &clipped);
    let (out_cu, _) = run(&mut dec_cu, &clipped);

    let range = 512..(orig.len() - delay);
    let n = range.len();
    let ar: Vec<f64> = range.clone().map(|k| out_ar[delay + k]).collect();
    let cu: Vec<f64> = range.clone().map(|k| out_cu[delay + k]).collect();
    let og: Vec<f64> = range.map(|k| orig[k]).collect();

    let err_ar = error_energy(&ar, &og, 0..n);
    let err_cu = error_energy(&cu, &og, 0..n);
    assert!(
        err_ar < err_cu,
        "AR error {} should beat cubic error {}",
        err_ar,
        err_cu
    );
    // The restored peak must overshoot the clip level and stay bounded.
    let peak = ar.iter().cloned().fold(0.0_f64, |m, v| m.max(v.abs()));
    assert!(
        peak > clip_level + 0.05,
        "AR peak {} did not overshoot clip level {}",
        peak,
        clip_level
    );
    for v in &ar {
        assert!(v.is_finite() && v.abs() < 4.0, "unbounded AR output: {}", v);
    }
}

#[test]
fn latency_is_lookahead() {
    let dec = make(params(DeclipMethod::Cubic, 0.9, 2, 64));
    // The context is 128 samples for an order of 24 (four times the order is less).
    assert_eq!(dec.latency(), 64 + 128);
    assert_eq!(dec.name(), "test");
    let mut p = params(DeclipMethod::Ar, 0.9, 2, 64);
    p.ar_order = 40;
    assert_eq!(make(p).latency(), 64 + 160);
}

#[test]
fn limits_raise_degenerate_parameters() {
    let mut p = params(DeclipMethod::Cubic, 0.9, 0, 0);
    p.ar_order = 0;
    let dec = make(p);
    assert_eq!((dec.min_clip_len, dec.max_clip_len, dec.ar_order), (1, 1, 1));
}

#[test]
fn silence_stays_silent() {
    let mut dec = make(params(DeclipMethod::Ar, 0.9, 2, 64));
    let (out, declipped) = run(&mut dec, &vec![0.0; 2048]);
    assert_eq!(declipped, 0);
    assert!(out.iter().all(|v| *v == 0.0));
}

#[test]
fn update_keeps_what_was_repaired() {
    let mut p = params(DeclipMethod::Cubic, 0.85, 2, 64);
    p.channels = 2;
    let mut dec = make(p);
    assert_eq!(dec.repaired_to, vec![0, 0]);
    dec.repaired_to[1] = 7;
    let mut q = params(DeclipMethod::Ar, 0.8, 2, 64);
    q.channels = 3;
    dec.update_parameters(q);
    assert_eq!(dec.repaired_to, vec![0, 7, 0]);
    // Samples that leave the line move the mark with them.
    dec.process_chunk(&mut vec![wrap(&[0.0; 3]), wrap(&[0.0; 3]), wrap(&[0.0; 3])]);
    assert_eq!(dec.repaired_to, vec![0, 4, 0]);
}

#[test]
fn chunking_does_not_matter_below_threshold() {
    let signal = sine(1000, 700.0, 0.5);
    let mut whole = make(params(DeclipMethod::Ar, 0.9, 2, 16));
    let mut waveforms = vec![wrap(&signal)];
    whole.process_chunk(&mut waveforms);
    let mut cut = make(params(DeclipMethod::Ar, 0.9, 2, 16));
    let mut out = Vec::new();
    for block in signal.chunks(37) {
        let mut w = vec![wrap(block)];
        cut.process_chunk(&mut w);
        out.extend_from_slice(&w[0]);
    }
    assert_eq!(out, waveforms[0]);
    assert_eq!(plain(&out[cut.delay..cut.delay + 50]), signal[..50].to_vec());
}

#[test]
fn unprocessed_channel_is_only_delayed() {
    let mut p = params(DeclipMethod::Cubic, 0.5, 2, 8);
    p.channels = 2;
    p.process_channels = Some(vec![1]);
    p.makeup_gain_db = Some(F(20.0));
    let mut dec = make(p);
    let mut left = vec![0.1; 400];
    for v in left.iter_mut().skip(50).take(5) {
        *v = 0.8;
    }
    let mut waveforms = vec![wrap(&left), wrap(&left), wrap(&left)];
    let report = dec.process_chunk(&mut waveforms);
    // Only the second channel is repaired, and the third has no delay line.
    assert_eq!(report.declipped, 5);
    assert_eq!(plain(&waveforms[2]), left);
    let delay = dec.delay;
    for k in 0..400 - delay {
        assert!((waveforms[0][delay + k].0 - 10.0 * left[k]).abs() < 1e-12);
    }
    assert!((waveforms[1][delay + 52].0 - 8.0).abs() > 0.1);
}

#[test]
fn long_clip_is_reported_once() {
    let mut dec = make(params(DeclipMethod::Cubic, 0.5, 2, 4));
    let mut signal = vec![0.0; 2000];
    for start in [300, 900] {
        for v in signal.iter_mut().skip(start).take(9) {
            *v = 0.8;
        }
    }
    let mut reported = Vec::new();
    for block in signal.chunks(100) {
        let mut w = vec![wrap(block)];
        if let Some(len) = dec.process_chunk(&mut w).long_clip {
            reported.push(len);
        }
    }
    assert_eq!(reported, vec![9]);
    // New parameters arm the report again.
    dec.update_parameters(params(DeclipMethod::Cubic, 0.5, 2, 4));
    assert!(!dec.long_clip_warned);
}

#[test]
fn update_keeps_pending_wrap() {
    let mut dec = make(params(DeclipMethod::Cubic, 0.9, 2, 16));
    let delay = dec.delay;
    let signal = sine(300, 1000.0, 0.5);
    let mut first = vec![wrap(&signal)];
    dec.process_chunk(&mut first);
    let mut p = params(DeclipMethod::Ar, 0.8, 3, 200);
    p.channels = 2;
    dec.update_parameters(p);
    assert_eq!(dec.latency(), delay);
    assert_eq!(dec.buffers.len(), 2);
    let mut second = vec![wrap(&[0.0; 300]), wrap(&[0.25; 300])];
    dec.process_chunk(&mut second);
    let mut out = plain(&first[0]);
    out.extend_from_slice(&plain(&second[0]));
    assert_eq!(out[delay..delay + 300].to_vec(), signal);
    // The new channel starts with silence.
    assert_eq!(second[1][delay - 1], F(0.0));
    assert_eq!(second[1][delay], F(0.25));
}

#[test]
fn channel_mask_defaults_to_all() {
    assert_eq!(build_is_process(3, &vec![]), vec![true, true, true]);
    assert_eq!(build_is_process(3, &vec![2, 0, 7]), vec![true, false, true]);
}

#[test]
fn declipper_validation_names_the_fault() {
    let good = || params(DeclipMethod::Cubic, 1.0, 1, 1);
    assert!(validate_declipper(&good()).is_ok());
    let mut p = good();
    p.process_channels = Some(vec![0, 4, 9]);
    assert!(matches!(
        validate_declipper(&p),
        Err(ConfigError::InvalidProcessChannel { channel: 4, channels: 1 })
    ));
    for threshold in [0.0, -0.5, 1.5] {
        let mut p = good();
        p.clip_threshold = F(threshold);
        assert!(matches!(validate_declipper(&p), Err(ConfigError::ClipThresholdOutOfRange)));
    }
    let mut p = good();
    p.min_clip_len = 0;
    assert!(matches!(validate_declipper(&p), Err(ConfigError::MinClipLenZero)));
    let mut p = good();
    p.min_clip_len = 5;
    assert!(matches!(validate_declipper(&p), Err(ConfigError::MaxClipLenBelowMin)));
    let mut p = good();
    p.ar_order = 0;
    assert!(matches!(validate_declipper(&p), Err(ConfigError::ArOrderZero)));
}

#[test]
fn cubic_follows_a_straight_line() {
    // The interpolant of a line is the line itself.
    let mut buf = wrap(&[1.0, 2.0, 0.0, 0.0, 0.0, 6.0, 7.0]);
    reconstruct_cubic(&mut buf, 2, 5);
    for (k, v) in buf.iter().enumerate() {
        assert!((v.0 - (k as f64 + 1.0)).abs() < 1e-12);
    }
}

fn scratch(order_cap: usize, gap_cap: usize) -> ArScratch<F> {
    ArScratch {
        r: wrap(&vec![0.0; order_cap + 1]),
        a: wrap(&vec![0.0; order_cap + 1]),
        tmp: wrap(&vec![0.0; order_cap + 1]),
        rc: wrap(&vec![0.0; order_cap + 1]),
        band: wrap(&vec![0.0; gap_cap * (order_cap + 1)]),
        rhs: wrap(&vec![0.0; gap_cap]),
        x: wrap(&vec![0.0; gap_cap]),
    }
}

#[test]
fn gap_that_is_not_taken_up_is_left_alone() {
    let x = sine(96, 1000.0, 0.7);
    let set = ArSettings { max_ctx: 32, threshold: F(0.9), req_order: 8 };
    // Empty, too long for the scratch vectors, or without context on one side.
    for (s, e) in [(40, 40), (30, 40), (0, 3), (1, 3), (93, 96), (92, 95)] {
        let mut buf = wrap(&x);
        assert!(!reconstruct_ar(&mut buf, s, e, &set, &mut scratch(32, 8)));
        assert_eq!(plain(&buf), x, "gap {s}..{e}");
    }
    // With two samples on either side there is a model.
    let mut buf = wrap(&x);
    assert!(reconstruct_ar(&mut buf, 40, 44, &set, &mut scratch(32, 8)));
    assert!(plain(&buf).iter().all(|v| v.is_finite()));
}

#[test]
fn failed_fit_leaves_the_cubic_seed() {
    // A window of unbounded energy has no model.
    let mut x = sine(64, 1000.0, 0.9);
    x[20] = f64::INFINITY;
    let set = ArSettings { max_ctx: 16, threshold: F(0.95), req_order: 4 };
    let mut buf = wrap(&x);
    assert!(!reconstruct_ar(&mut buf, 30, 34, &set, &mut scratch(16, 8)));
    let mut seed = wrap(&x);
    reconstruct_cubic(&mut seed, 30, 34);
    assert_eq!(plain(&buf), plain(&seed));
    assert_ne!(plain(&buf), x);
}

#[test]
fn singular_band_is_refused() {
    let mut band = vec![F(0.0); 4];
    let mut x = vec![F(0.0); 2];
    assert!(!solve_banded_toeplitz(
        &wrap(&[1.0, 1.0]),
        1,
        2,
        &wrap(&[1.0, 2.0]),
        &mut band,
        &mut x
    ));
}

#[test]
fn model_of_first_order_is_exact() {
    let mut r = wrap(&[0.0, 0.0]);
    autocorrelation(&wrap(&[1.0, 2.0, 3.0]), 1, &mut r);
    assert_eq!(r[1], F(8.0));
    assert!((r[0].0 - (14.0 * (1.0 + 1e-6) + 1e-12)).abs() < 1e-15);
    let mut a = wrap(&[0.0, 0.0]);
    let mut tmp = wrap(&[0.0, 0.0]);
    assert!(levinson(&wrap(&[2.0, 1.0]), 1, &mut a, &mut tmp));
    assert_eq!(a, wrap(&[1.0, -0.5]));
    assert!(!levinson(&wrap(&[0.0, 1.0]), 1, &mut a, &mut tmp));
    let mut rc = wrap(&[0.0, 0.0]);
    coeff_autocorr(&wrap(&[1.0, -0.5]), 1, &mut rc);
    assert_eq!(rc, wrap(&[1.25, -0.5]));
}

#[test]
fn levinson_leaves_no_correlation() {
    let order = 6;
    let seg: Vec<f64> =
        (0..200).map(|n| (0.3 * n as f64).sin() + 0.4 * (0.9 * n as f64).cos()).collect();
    let mut r = vec![F(0.0); order + 1];
    autocorrelation(&wrap(&seg), order, &mut r);
    let (mut a, mut tmp) = (vec![F(9.0); order + 1], vec![F(0.0); order + 1]);
    assert!(levinson(&r, order, &mut a, &mut tmp));
    assert_eq!(a[0], F(1.0));
    for i in 1..=order {
        let left: f64 = (0..=order).map(|k| a[k].0 * r[i.abs_diff(k)].0).sum();
        assert!(left.abs() < 1e-6 * r[0].0, "lag {i}: {left}");
    }
    let residual: f64 = (0..=order).map(|k| a[k].0 * r[k].0).sum();
    assert!(residual > 0.0 && residual < r[0].0);
}

#[test]
fn cubic_joins_a_straight_line() {
    // Between samples of a straight line the cubic is that line.
    let mut buf: Vec<F> = (0..12).map(|n| F(0.25 * n as f64)).collect();
    for v in buf[4..8].iter_mut() {
        *v = F(9.0);
    }
    reconstruct_cubic(&mut buf, 4, 8);
    for (n, v) in buf.iter().enumerate() {
        assert!((v.0 - 0.25 * n as f64).abs() < 1e-12, "{n}: {}", v.0);
    }
}
