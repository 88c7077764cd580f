//! The expander on audio in double precision.

use prcdsp::config::{ConfigError, ExpanderMode, ExpanderParameters, LimiterParameters};
use prcdsp::filters::limiter::Limiter;
use prcdsp::prcfmt::PrcFmt;
use prcdsp::processors::expander::{soft_knee_upward, validate_expander, Expander};

/// Samples in double precision.
#[derive(Clone, Copy, Debug, PartialEq)]
struct F(f64);

impl PrcFmt for F {
    // Laws of the order: there is nothing to compute.
    fn lt_irreflexive(self) {}
    fn lt_transitive(self, _: F, _: F) {}
    fn le_excludes_gt(self, _: F) {}
    fn max_not_below(self, _: F) {}

    fn of_int(n: i64) -> F {
        F(n as f64)
    }
    fn of_usize(n: usize) -> F {
        F(n as f64)
    }
    fn decimal(digits: i64, places: u32) -> F {
        if places <= 22 {
            F(digits as f64 / 10f64.powi(places as i32))
        } else {
            F(format!("{}e-{}", digits, places).parse().unwrap())
        }
    }
    fn pi() -> F {
        F(std::f64::consts::PI)
    }
    fn plus(self, rhs: F) -> F {
        F(self.0 + rhs.0)
    }
    fn minus(self, rhs: F) -> F {
        F(self.0 - rhs.0)
    }
    fn times(self, rhs: F) -> F {
        F(self.0 * rhs.0)
    }
    fn over(self, rhs: F) -> F {
        F(self.0 / rhs.0)
    }
    fn negated(self) -> F {
        F(-self.0)
    }
    fn abs(self) -> F {
        F(self.0.abs())
    }
    fn max(self, rhs: F) -> F {
        F(self.0.max(rhs.0))
    }
    fn min(self, rhs: F) -> F {
        F(self.0.min(rhs.0))
    }
    fn sqrt(self) -> F {
        F(self.0.sqrt())
    }
    fn exp(self) -> F {
        F(self.0.exp())
    }
    fn ln(self) -> F {
        F(self.0.ln())
    }
    fn log10(self) -> F {
        F(self.0.log10())
    }
    fn powf(self, exponent: F) -> F {
        F(self.0.powf(exponent.0))
    }
    fn sin(self) -> F {
        F(self.0.sin())
    }
    fn tan(self) -> F {
        F(self.0.tan())
    }
    fn lt(self, rhs: F) -> bool {
        self.0 < rhs.0
    }
    fn le(self, rhs: F) -> bool {
        self.0 <= rhs.0
    }
    fn same(self, rhs: F) -> bool {
        self.0 == rhs.0
    }
    fn is_finite(self) -> bool {
        self.0.is_finite()
    }
}

fn wrap(v: &[f64]) -> Vec<F> {
    v.iter().map(|x| F(*x)).collect()
}

fn plain(v: &[F]) -> Vec<f64> {
    v.iter().map(|x| x.0).collect()
}

const SR: usize = 48000;
const CHUNK: usize = 256;
// Whole-chunk run lengths (the fixed-size scratch requires exact multiples of CHUNK). About 1 s
// and 6 s respectively.
const N_1S: usize = 188 * CHUNK;
const N_6S: usize = 1128 * CHUNK;

fn db_to_linear(db: f64) -> f64 {
    10f64.powf(db / 20.0)
}

/// Base parameters with the crest gate disabled, to isolate the gain law.
fn params(threshold: f64, ratio: f64, mode: ExpanderMode) -> ExpanderParameters<F> {
    ExpanderParameters {
        channels: 1,
        monitor_channels: None,
        process_channels: None,
        attack: F(0.001),
        release: F(0.001),
        threshold: F(threshold),
        ratio: F(ratio),
        max_gain_db: F(6.0),
        mode,
        makeup_gain: None,
        soft_clip: None,
        clip_limit: None,
        crest_gate: Some(false),
        crest_floor_db: F(9.0),
        crest_ceiling_db: F(15.0),
        knee_db: None,
        adaptive_threshold: None,
        relative_offset_db: F(0.0),
        adapt_time: F(1.0),
    }
}

fn make(params: ExpanderParameters<F>) -> Expander<F> {
    Expander::from_config("test", params, SR, CHUNK)
}

/// What was reported last.
#[derive(Clone, Copy)]
struct Report {
    expansion: f64,
    threshold: f64,
}

/// Run a single-channel signal through the expander in CHUNK-sized blocks, returning the
/// concatenated output and the last report.
fn run(exp: &mut Expander<F>, signal: &[f64]) -> (Vec<f64>, Report) {
    let mut out = Vec::with_capacity(signal.len());
    let mut last = Report { expansion: 0.0, threshold: 0.0 };
    for block in signal.chunks(CHUNK) {
        let mut waveforms = vec![wrap(block)];
        let r = exp.process_chunk(&mut waveforms);
        last = Report { expansion: r.expansion.0, threshold: r.threshold.0 };
        out.extend_from_slice(&plain(&waveforms[0]));
    }
    (out, last)
}

fn constant(len: usize, value: f64) -> Vec<f64> {
    vec![value; len]
}

/// Run a signal through the expander and return the largest-magnitude expansion reported across
/// all chunks.
fn run_peak_expansion(exp: &mut Expander<F>, signal: &[f64]) -> f64 {
    let mut peak = 0.0f64;
    for block in signal.chunks(CHUNK) {
        let mut waveforms = vec![wrap(block)];
        let e = exp.process_chunk(&mut waveforms).expansion.0;
        if e.abs() > peak.abs() {
            peak = e;
        }
    }
    peak
}

fn sine(len: usize, freq: f64, amp: f64) -> Vec<f64> {
    (0..len)
        .map(|n| amp * (2.0 * std::f64::consts::PI * freq * n as f64 / SR as f64).sin())
        .collect()
}

/// The steady-state gain of a constant-magnitude signal, measured near the end of the run.
fn steady_gain(out: &[f64], input_value: f64) -> f64 {
    let n = out.len();
    out[n - 64..].iter().map(|v| v / input_value).sum::<f64>() / 64.0
}

fn knee(over: f64, ratio: f64, half: f64) -> f64 {
    soft_knee_upward(F(over), F(ratio), F(half)).0
}

#[test]
fn upward_boosts_loud_by_ratio() {
    // threshold -20 dB, ratio 2 -> gain = (level - threshold) dB.
    let threshold = -20.0;
    let ratio = 2.0;
    // Level ABOVE the threshold: -16 dB -> gain = (-16 - -20)*1 = 4 dB (below the 6 dB ceiling,
    // so unclamped).
    let level_db = -16.0;
    let value = db_to_linear(level_db);
    let mut exp = make(params(threshold, ratio, ExpanderMode::Upward));
    let (out, _) = run(&mut exp, &constant(N_1S, value));
    let expected = db_to_linear((level_db - threshold) * (ratio - 1.0));
    let gain = steady_gain(&out, value);
    assert!(
        (gain - expected).abs() < 0.02 * expected,
        "gain {} not close to expected {}",
        gain,
        expected
    );
}

#[test]
fn upward_leaves_quiet_untouched() {
    let threshold = -20.0;
    let level_db = -30.0; // below threshold
    let value = db_to_linear(level_db);
    let mut exp = make(params(threshold, 2.0, ExpanderMode::Upward));
    let (out, _) = run(&mut exp, &constant(N_1S, value));
    let gain = steady_gain(&out, value);
    assert!((gain - 1.0).abs() < 1e-3, "quiet signal changed, gain {}", gain);
}

#[test]
fn soft_knee_is_continuous_and_matches_asymptotes() {
    let ratio = 3.0;
    let slope = ratio - 1.0;
    let half = 4.0;
    // Well below the knee: no expansion.
    assert_eq!(knee(-10.0, ratio, half), 0.0);
    // Well above the knee: exactly on the hard-knee line.
    assert!((knee(10.0, ratio, half) - 10.0 * slope).abs() < 1e-12);
    // Continuity of value at both knee edges.
    assert!(knee(-half + 1e-6, ratio, half).abs() < 1e-4);
    assert!(
        (knee(half - 1e-6, ratio, half) - half * slope).abs() < 1e-4,
        "value mismatch at upper knee edge"
    );
    // Continuity of slope at the edges (finite-difference derivative).
    let d = 1e-4;
    let deriv = |x: f64| (knee(x + d, ratio, half) - knee(x - d, ratio, half)) / (2.0 * d);
    assert!(deriv(-half).abs() < 1e-2, "slope not ~0 at lower knee edge");
    assert!((deriv(half) - slope).abs() < 1e-2, "slope not ~ratio-1 at upper knee edge");
    // At threshold the soft knee gives a small positive lift; the hard knee 0.
    assert!(knee(0.0, ratio, half) > 0.0);
    assert_eq!(knee(0.0, ratio, 0.0), 0.0);
}

#[test]
fn soft_knee_rises_between_its_asymptotes() {
    for (ratio, half) in [(3.0, 4.0), (1.5, 0.5), (8.0, 12.0)] {
        let mut last = 0.0;
        for n in -300..=300 {
            let over = half * n as f64 / 100.0;
            let g = knee(over, ratio, half);
            assert!(last <= g + 1e-12);
            assert!(g - last <= (ratio - 1.0) * half / 100.0 + 1e-9);
            assert!(knee(over, ratio, 0.0) <= g + 1e-12);
            last = g;
        }
    }
}

#[test]
fn soft_knee_lifts_at_threshold() {
    // A signal sitting exactly at the threshold: the soft knee applies a small positive
    // expansion, whereas a hard knee (knee_db 0) leaves it untouched.
    let threshold = -20.0;
    let value = db_to_linear(threshold);

    let mut soft = params(threshold, 2.0, ExpanderMode::Upward);
    soft.knee_db = Some(F(6.0));
    let mut exp = make(soft);
    let (out, _) = run(&mut exp, &constant(N_1S, value));
    let soft_gain = steady_gain(&out, value);
    assert!(soft_gain > 1.0, "soft knee should lift at-threshold signal, gain {}", soft_gain);

    let mut hard = params(threshold, 2.0, ExpanderMode::Upward);
    hard.knee_db = Some(F(0.0));
    let mut exp = make(hard);
    let (out, _) = run(&mut exp, &constant(N_1S, value));
    let hard_gain = steady_gain(&out, value);
    assert!((hard_gain - 1.0).abs() < 1e-3, "hard knee should not lift, gain {}", hard_gain);
}

#[test]
fn upward_clamps_at_max_gain() {
    let threshold = -20.0;
    let ratio = 4.0;
    // level -8 dB -> raw gain = (12)*(3) = 36 dB, clamped to max_gain 6 dB.
    let level_db = -8.0;
    let value = db_to_linear(level_db);
    let mut exp = make(params(threshold, ratio, ExpanderMode::Upward));
    let (out, _) = run(&mut exp, &constant(N_1S, value));
    let expected = db_to_linear(6.0);
    let gain = steady_gain(&out, value);
    assert!(
        (gain - expected).abs() < 0.02 * expected,
        "gain {} not clamped to {}",
        gain,
        expected
    );
}

#[test]
fn downward_attenuates_quiet() {
    let threshold = -20.0;
    let ratio = 2.0;
    // level -30 dB (below threshold) -> gain = (-10)*(1) = -10 dB, clamped to -6 dB by max_gain.
    let level_db = -30.0;
    let value = db_to_linear(level_db);
    let mut exp = make(params(threshold, ratio, ExpanderMode::Downward));
    let (out, _) = run(&mut exp, &constant(N_1S, value));
    let expected = db_to_linear(-6.0);
    let gain = steady_gain(&out, value);
    assert!(
        (gain - expected).abs() < 0.02 * expected,
        "gain {} not attenuated to {}",
        gain,
        expected
    );
}

#[test]
fn downward_leaves_loud_untouched() {
    let threshold = -20.0;
    let level_db = -10.0; // above threshold
    let value = db_to_linear(level_db);
    let mut exp = make(params(threshold, 2.0, ExpanderMode::Downward));
    let (out, _) = run(&mut exp, &constant(N_1S, value));
    let gain = steady_gain(&out, value);
    assert!((gain - 1.0).abs() < 1e-3, "loud signal changed, gain {}", gain);
}

#[test]
fn attack_coefficient_matches_time_constant() {
    // After one attack time constant the envelope should have covered ~63% of the step from its
    // start value to the target level. On a rising step the decoupled peak follower saturates to
    // the target immediately, so the attack smoother alone sets the rise.
    let attack_s = 0.005;
    let mut p = params(-20.0, 2.0, ExpanderMode::Upward);
    p.attack = F(attack_s);
    let mut exp = make(p);
    // Constant magnitude -> target envelope level in dB.
    let value: f64 = 0.1;
    let target_db = 20.0 * (value.abs() + 1.0e-9).log10();
    let start = exp.level_env.0;
    // Feed the same constant magnitude one sample at a time for exactly one time constant.
    exp.scratch = vec![F(value); 1];
    let n = (SR as f64 * attack_s).round() as usize;
    for _ in 0..n {
        exp.scratch[0] = F(value);
        exp.estimate_loudness();
    }
    let expected = start + (1.0 - (-1.0_f64).exp()) * (target_db - start);
    assert!(
        (exp.level_env.0 - expected).abs() < 0.5,
        "envelope {} after one time constant not near expected {}",
        exp.level_env.0,
        expected
    );
}

#[test]
fn limiter_caps_peaks() {
    // Big makeup gain that would push a loud tone well past full scale; the clip_limit must hold
    // the output at the limit.
    let mut p = params(-40.0, 2.0, ExpanderMode::Upward);
    p.makeup_gain = Some(F(12.0));
    p.clip_limit = Some(F(0.0)); // limit at 0 dBFS (linear 1.0)
    let mut exp = make(p);
    let (out, _) = run(&mut exp, &sine(N_1S, 1000.0, 0.5));
    let peak = out.iter().cloned().fold(0.0_f64, |m, v| m.max(v.abs()));
    assert!(peak <= 1.0 + 1e-6, "limiter failed, peak {}", peak);
    // And it really did reach the limit (gain was applied).
    assert!(peak > 0.99, "expected output driven to the limit, peak {}", peak);
}

#[test]
fn crest_gate_suppresses_dynamic_material() {
    // A high-crest signal: full-scale impulses over near-silence. It must drive the applied
    // expansion toward zero even though the impulses sit well above threshold.
    let threshold = -40.0;
    let mut p = params(threshold, 4.0, ExpanderMode::Upward);
    p.crest_gate = Some(true);
    p.crest_floor_db = F(9.0);
    p.crest_ceiling_db = F(15.0);
    let mut exp = make(p);
    let len = N_6S;
    let mut signal = vec![0.0; len];
    for i in (0..len).step_by(2000) {
        signal[i] = 0.9;
    }
    let (_, report) = run(&mut exp, &signal);
    let reported = report.expansion;
    assert!(
        reported.abs() < 0.5,
        "expected near-zero expansion on dynamic material, got {} dB",
        reported
    );
}

#[test]
fn crest_gate_allows_compressed_material() {
    // A steady tone is low-crest (~3 dB), so the full ratio applies and the loud, above-threshold
    // signal is expanded and reported.
    let threshold = -20.0;
    let mut p = params(threshold, 2.0, ExpanderMode::Upward);
    p.crest_gate = Some(true);
    p.crest_floor_db = F(9.0);
    p.crest_ceiling_db = F(15.0);
    let mut exp = make(p);
    // -6 dB tone: level well above threshold, crest of a sine ~3 dB < floor.
    let (out, report) = run(&mut exp, &sine(N_6S, 1000.0, db_to_linear(-6.0)));
    let reported = report.expansion;
    assert!(
        reported > 1.0,
        "expected positive expansion on compressed material, got {} dB",
        reported
    );
    // The tone should actually be louder than it went in.
    let in_peak = db_to_linear(-6.0);
    let out_peak = out.iter().cloned().fold(0.0_f64, |m, v| m.max(v.abs()));
    assert!(
        out_peak > in_peak * 1.05,
        "compressed tone not expanded: in {} out {}",
        in_peak,
        out_peak
    );
}

#[test]
fn stereo_linking_is_correlation_independent() {
    // Two channels carrying the same tone level, once correlated (L == R) and once anti-correlated
    // (L == -R). The RMS power-sum link must detect the same level in both cases.
    let threshold = -20.0;
    let level_db = -6.0;
    let value = db_to_linear(level_db);
    let tone = sine(N_1S, 1000.0, value);

    let run_stereo = |right: &[f64]| -> f64 {
        let mut p = params(threshold, 2.0, ExpanderMode::Upward);
        p.channels = 2;
        let mut exp = make(p);
        let mut last = 0.0;
        for (lblk, rblk) in tone.chunks(CHUNK).zip(right.chunks(CHUNK)) {
            let mut waveforms = vec![wrap(lblk), wrap(rblk)];
            last = exp.process_chunk(&mut waveforms).expansion.0;
        }
        last
    };

    let correlated = run_stereo(&tone);
    let anti: Vec<f64> = tone.iter().map(|v| -v).collect();
    let anti_correlated = run_stereo(&anti);

    assert!(
        (correlated - anti_correlated).abs() < 0.05,
        "correlation changed detected level: correlated {} dB vs anti {} dB",
        correlated,
        anti_correlated
    );
    assert!(
        correlated > 1.0,
        "expected the above-threshold tone to be expanded, got {} dB",
        correlated
    );
}

#[test]
fn telemetry_idle_on_silence() {
    let mut exp = make(params(-20.0, 2.0, ExpanderMode::Upward));
    let (_, report) = run(&mut exp, &constant(N_1S, 0.0));
    assert!(report.expansion.abs() < 1e-6);
}

#[test]
fn validation_accepts_sane_config() {
    assert!(validate_expander(&params(-20.0, 2.0, ExpanderMode::Upward)).is_ok());
}

#[test]
fn validation_rejects_bad_values() {
    let mut p = params(-20.0, 0.5, ExpanderMode::Upward); // ratio < 1
    assert!(validate_expander(&p).is_err());

    p = params(-20.0, 2.0, ExpanderMode::Upward);
    p.attack = F(0.0);
    assert!(validate_expander(&p).is_err());

    p = params(-20.0, 2.0, ExpanderMode::Upward);
    p.release = F(-1.0);
    assert!(validate_expander(&p).is_err());

    p = params(-20.0, 2.0, ExpanderMode::Upward);
    p.max_gain_db = F(-1.0);
    assert!(validate_expander(&p).is_err());

    // Crest ceiling not above floor (gate enabled).
    p = params(-20.0, 2.0, ExpanderMode::Upward);
    p.crest_gate = Some(true);
    p.crest_floor_db = F(12.0);
    p.crest_ceiling_db = F(10.0);
    assert!(validate_expander(&p).is_err());

    // Out-of-range channel.
    p = params(-20.0, 2.0, ExpanderMode::Upward);
    p.process_channels = Some(vec![5]);
    assert!(validate_expander(&p).is_err());

    // Adaptive with non-positive adapt_time.
    p = params(-20.0, 2.0, ExpanderMode::Upward);
    p.adaptive_threshold = Some(true);
    p.adapt_time = F(0.0);
    assert!(validate_expander(&p).is_err());
}

/// An adaptive-mode parameter set (crest gate left off so it does not interfere with observing the
/// adaptive threshold's behavior).
fn adaptive_params(threshold: f64, ratio: f64) -> ExpanderParameters<F> {
    let mut p = params(threshold, ratio, ExpanderMode::Upward);
    p.adaptive_threshold = Some(true);
    // The default half knee, so that a steady level sits at the knee edge.
    p.relative_offset_db = F(3.0);
    p.adapt_time = F(0.4);
    p
}

/// When a whole passage gets louder, adaptive mode must NOT keep boosting the steady content. With
/// adaptive off, the same loud steady tone is boosted.
#[test]
fn adaptive_ignores_steady_program_level() {
    let threshold = -50.0; // absolute floor well below the signal
    let value = db_to_linear(-10.0); // loud, far above the floor
    // Adaptive: after the slow envelope settles, steady loud -> ~unity.
    let mut exp = make(adaptive_params(threshold, 4.0));
    let (out, _) = run(&mut exp, &constant(N_6S, value));
    let gain = steady_gain(&out, value);
    assert!(
        (gain - 1.0).abs() < 0.03,
        "adaptive steady loud tone should settle to unity, gain {}",
        gain
    );
    // Fixed threshold: the same loud tone sits far above threshold -> boosted (and clamped at
    // max_gain 6 dB).
    let mut exp = make(params(threshold, 4.0, ExpanderMode::Upward));
    let (out, _) = run(&mut exp, &constant(N_6S, value));
    let gain_fixed = steady_gain(&out, value);
    assert!(
        gain_fixed > 1.5,
        "fixed-threshold steady loud tone should be boosted, gain {}",
        gain_fixed
    );
}

/// The expansion bounces on a transient above the running level and returns to ~0 once the slow
/// envelope catches up to the new sustained level.
#[test]
fn adaptive_bounces_on_transient_then_settles() {
    let threshold = -50.0;
    let bed = db_to_linear(-30.0);
    let hot = db_to_linear(-10.0);
    let mut exp = make(adaptive_params(threshold, 4.0));
    // Settle on the bed level.
    let (_, report) = run(&mut exp, &constant(N_6S, bed));
    let bed_gain = report.expansion;
    assert!(bed_gain.abs() < 0.5, "steady bed should read ~0, got {} dB", bed_gain);
    // A single chunk jumping to a much higher level: the fast envelope leads the slow one.
    let (_, report) = run(&mut exp, &constant(CHUNK, hot));
    let bounce = report.expansion;
    assert!(
        bounce > 3.0,
        "expected the transient to bounce the expander up, got {} dB",
        bounce
    );
    // Hold the higher level: the slow envelope catches up and the boost returns toward 0.
    let (_, report) = run(&mut exp, &constant(N_6S, hot));
    let settled = report.expansion;
    assert!(
        settled.abs() < 0.5,
        "sustained loud level should settle back to ~0, got {} dB",
        settled
    );
}

/// The absolute threshold remains a hard floor in adaptive mode: content below it is never boosted,
/// even though the adaptive threshold would sit lower.
#[test]
fn adaptive_respects_absolute_floor() {
    let threshold = -20.0;
    let value = db_to_linear(-30.0); // below the floor
    let mut exp = make(adaptive_params(threshold, 4.0));
    let (out, _) = run(&mut exp, &constant(N_6S, value));
    let gain = steady_gain(&out, value);
    assert!(
        (gain - 1.0).abs() < 1e-3,
        "content below the absolute floor must be untouched, gain {}",
        gain
    );
}

/// The reported threshold tracks the program level: it rises when the sustained level rises, and
/// equals the fixed threshold when adaptive mode is off.
#[test]
fn adaptive_threshold_telemetry_tracks_level() {
    let threshold = -50.0;
    let mut exp = make(adaptive_params(threshold, 4.0));
    let (_, report) = run(&mut exp, &constant(N_6S, db_to_linear(-30.0)));
    let thr_low = report.threshold;
    let (_, report) = run(&mut exp, &constant(N_6S, db_to_linear(-10.0)));
    let thr_high = report.threshold;
    assert!(
        thr_high > thr_low + 10.0,
        "adaptive threshold did not track the level rise: {} -> {}",
        thr_low,
        thr_high
    );
    // Non-adaptive: the fixed threshold is reported.
    let mut exp = make(params(-20.0, 2.0, ExpanderMode::Upward));
    let (_, report) = run(&mut exp, &constant(N_1S, db_to_linear(-6.0)));
    assert!(
        (report.threshold - (-20.0)).abs() < 1e-3,
        "non-adaptive threshold telemetry should equal the fixed threshold, got {}",
        report.threshold
    );
}

/// The crest-driven ratio defaults ON in both modes, and an explicit setting is honored.
#[test]
fn crest_gate_defaults_on() {
    let mut p = params(-20.0, 2.0, ExpanderMode::Upward);
    p.adaptive_threshold = Some(true);
    p.crest_gate = None;
    assert!(make(p).crest_gate, "crest ratio should default on in adaptive mode");

    let mut p = params(-20.0, 2.0, ExpanderMode::Upward);
    p.adaptive_threshold = None;
    p.crest_gate = None;
    assert!(make(p).crest_gate, "crest ratio should default on when not adaptive");

    let mut p = params(-20.0, 2.0, ExpanderMode::Upward);
    p.crest_gate = Some(false);
    assert!(!make(p).crest_gate, "explicit crest_gate=false should be honored");
}

/// In adaptive mode a compressed, low-crest program with small transients is expanded, while an
/// already-dynamic, high-crest program is left essentially alone.
#[test]
fn adaptive_expands_compressed_more_than_dynamic() {
    let threshold = -60.0; // absolute floor well below both signals

    // Compressed: a steady bed with small +3 dB bumps -> low crest.
    let mut pc = adaptive_params(threshold, 4.0);
    pc.crest_gate = Some(true);
    pc.relative_offset_db = F(1.0);
    let mut exp = make(pc);
    let bed = db_to_linear(-12.0);
    let bump = db_to_linear(-9.0);
    let mut compressed = vec![bed; N_6S];
    for i in (0..N_6S).step_by(4000) {
        for s in compressed.iter_mut().skip(i).take(200) {
            *s = bump;
        }
    }
    let compressed_boost = run_peak_expansion(&mut exp, &compressed);

    // Dynamic: sharp full-scale impulses over near-silence -> high crest.
    let mut pd = adaptive_params(threshold, 4.0);
    pd.crest_gate = Some(true);
    pd.relative_offset_db = F(1.0);
    let mut exp = make(pd);
    let mut dynamic = vec![0.0; N_6S];
    for i in (0..N_6S).step_by(4000) {
        dynamic[i] = 0.9;
    }
    let dynamic_boost = run_peak_expansion(&mut exp, &dynamic);

    assert!(
        compressed_boost > 3.0,
        "compressed material should be expanded, got {} dB",
        compressed_boost
    );
    assert!(
        dynamic_boost.abs() < 0.5,
        "already-dynamic material should be left alone, got {} dB",
        dynamic_boost
    );
    assert!(
        compressed_boost > dynamic_boost + 1.0,
        "expected more expansion on compressed ({} dB) than dynamic ({} dB)",
        compressed_boost,
        dynamic_boost
    );
}

#[test]
fn expander_validation_names_the_fault() {
    let good = || params(-20.0, 2.0, ExpanderMode::Both);
    let mut p = good();
    p.attack = F(0.0);
    assert!(matches!(validate_expander(&p), Err(ConfigError::AttackNotPositive)));
    let mut p = good();
    p.release = F(0.0);
    assert!(matches!(validate_expander(&p), Err(ConfigError::ReleaseNotPositive)));
    let mut p = good();
    p.ratio = F(0.99);
    assert!(matches!(validate_expander(&p), Err(ConfigError::RatioBelowOne)));
    let mut p = good();
    p.max_gain_db = F(-0.1);
    assert!(matches!(validate_expander(&p), Err(ConfigError::MaxGainNegative)));
    let mut p = good();
    p.crest_gate = None;
    p.crest_ceiling_db = F(9.0);
    assert!(matches!(validate_expander(&p), Err(ConfigError::CrestCeilingNotAboveFloor)));
    let mut p = good();
    p.adaptive_threshold = Some(true);
    p.adapt_time = F(0.0);
    assert!(matches!(validate_expander(&p), Err(ConfigError::AdaptTimeNotPositive)));
    let mut p = good();
    p.monitor_channels = Some(vec![0, 1]);
    assert!(matches!(
        validate_expander(&p),
        Err(ConfigError::InvalidMonitorChannel { channel: 1, channels: 1 })
    ));
    let mut p = good();
    p.process_channels = Some(vec![3]);
    assert!(matches!(
        validate_expander(&p),
        Err(ConfigError::InvalidProcessChannel { channel: 3, channels: 1 })
    ));
}

#[test]
fn only_listed_channels_are_gained() {
    let mut p = params(-40.0, 2.0, ExpanderMode::Upward);
    p.channels = 3;
    p.monitor_channels = Some(vec![0]);
    p.process_channels = Some(vec![2]);
    p.makeup_gain = Some(F(20.0));
    let mut exp = make(p);
    let wave = wrap(&vec![0.01; CHUNK]);
    let mut waveforms = vec![wave.clone(), wave.clone(), wave.clone()];
    exp.process_chunk(&mut waveforms);
    assert_eq!(waveforms[0], wave);
    assert_eq!(waveforms[1], wave);
    assert!(waveforms[2][0].0 > 0.09);
}

#[test]
fn linked_magnitude_is_root_mean_power() {
    let mut p = params(-20.0, 2.0, ExpanderMode::Upward);
    p.channels = 2;
    let mut exp = Expander::from_config("linked", p, SR, 3);
    assert_eq!(exp.name(), "linked");
    exp.compute_linked_magnitude(&vec![wrap(&[3.0, 1.0, 0.0]), wrap(&[-4.0, 1.0, 0.0])]);
    assert_eq!(plain(&exp.scratch), vec![12.5f64.sqrt(), 1.0, 0.0]);
}

#[test]
fn expansion_stays_within_bounds() {
    let mut exp = make(params(-20.0, 3.0, ExpanderMode::Both));
    exp.scratch = wrap(&[100.0, -100.0, 1.0]);
    let peak = exp.calculate_linear_gain(F(1.0));
    assert_eq!(peak, F(6.0));
    assert!((exp.scratch[0].0 - db_to_linear(6.0)).abs() < 1e-12);
    assert!((exp.scratch[1].0 - db_to_linear(-6.0)).abs() < 1e-12);
    assert!((exp.scratch[2].0 - db_to_linear(2.0)).abs() < 1e-12);
}

#[test]
fn update_keeps_detectors() {
    let mut exp = make(params(-20.0, 2.0, ExpanderMode::Upward));
    run(&mut exp, &constant(CHUNK, 0.3));
    let (env, ms) = (exp.level_env, exp.crest_ms);
    let mut p = params(-30.0, 3.0, ExpanderMode::Downward);
    p.clip_limit = Some(F(-6.0));
    exp.update_parameters(p);
    assert_eq!((exp.level_env, exp.crest_ms), (env, ms));
    assert_eq!(exp.ratio, F(3.0));
    assert!(exp.limiter.is_some());
}

#[test]
fn limiter_curves() {
    let hard = Limiter::from_config(LimiterParameters { clip_limit: F(0.0), soft_clip: None });
    let mut v = wrap(&[0.5, 2.0, -3.0]);
    hard.apply_clip(&mut v);
    assert_eq!(plain(&v), vec![0.5, 1.0, -1.0]);
    let soft = Limiter::from_config(LimiterParameters {
        clip_limit: F(0.0),
        soft_clip: Some(true),
    });
    let mut v = wrap(&[9.0, 0.0]);
    soft.apply_clip(&mut v);
    assert!((v[0].0 - 1.0).abs() < 1e-12);
    assert_eq!(v[1], F(0.0));
}
