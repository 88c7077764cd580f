//! The fixed-point format, alone and under the filters.

use prcdsp::arith::db_to_linear;
use prcdsp::config::{
    DeclipMethod, DeclipperParameters, ExpanderMode, ExpanderParameters, LimiterParameters,
};
use prcdsp::filters::limiter::Limiter;
use prcdsp::filters::tubestage::halfband::make_halfband_coeffs;
use prcdsp::filters::tubestage::ramp::RampedValue;
use prcdsp::filters::tubestage::shaper::DcBlocker;
use prcdsp::filters::tubestage::triode::koren_plate_current;
use prcdsp::fixed::{Fixed, LIMIT, ONE};
use prcdsp::prcfmt::PrcFmt;
use prcdsp::processors::declipper::Declipper;
use prcdsp::processors::expander::{soft_knee_upward, Expander};
use prcdsp::processors::truepeak::branches::ODD_DELAY;
use prcdsp::processors::truepeak::{TruePeakLimiterCore, TruePeakProbe, LOOKAHEAD_SAMPLES};
use prcdsp::utils::resampling::polyphase::PolyphaseFir;
use prcdsp::utils::resampling::Resampler;

fn fx(x: f64) -> Fixed {
    Fixed { raw: (x * ONE as f64).round() as i64 }
}

fn value(x: Fixed) -> f64 {
    x.raw as f64 / ONE as f64
}

fn close(x: Fixed, expected: f64, tolerance: f64) {
    let got = value(x);
    assert!((got - expected).abs() <= tolerance, "got {got}, expected {expected}");
}

#[test]
fn basic_operations_are_exact_where_they_can_be() {
    assert_eq!(fx(1.5).plus(fx(2.25)), fx(3.75));
    assert_eq!(fx(1.5).minus(fx(2.25)), fx(-0.75));
    assert_eq!(fx(-1.5).times(fx(2.25)), fx(-3.375));
    assert_eq!(fx(-3.375).over(fx(2.25)), fx(-1.5));
    assert_eq!(fx(-2.0).abs(), fx(2.0));
    assert_eq!(fx(2.0).negated(), fx(-2.0));
    assert_eq!(fx(2.0).max(fx(3.0)), fx(3.0));
    assert_eq!(fx(2.0).min(fx(3.0)), fx(2.0));
    assert_eq!(Fixed::of_int(-7), fx(-7.0));
    assert_eq!(Fixed::of_usize(7), fx(7.0));
    assert_eq!(Fixed::decimal(-125, 2), fx(-1.25));
    assert!(fx(1.0).lt(fx(2.0)) && fx(1.0).le(fx(1.0)) && !fx(1.0).lt(fx(1.0)));
    assert!(fx(1.0).same(fx(1.0)) && fx(1.0).is_finite());
}

#[test]
fn rounding_is_toward_zero() {
    assert_eq!(Fixed { raw: 1 }.times(fx(0.5)), Fixed { raw: 0 });
    assert_eq!(Fixed { raw: -1 }.times(fx(0.5)), Fixed { raw: 0 });
    assert_eq!(Fixed { raw: -3 }.over(fx(2.0)), Fixed { raw: -1 });
}

#[test]
fn results_saturate() {
    let top = Fixed { raw: LIMIT };
    let bottom = Fixed { raw: -LIMIT };
    assert_eq!(top.plus(fx(1.0)), top);
    assert_eq!(bottom.minus(fx(1.0)), bottom);
    assert_eq!(top.times(fx(-2.0)), bottom);
    assert_eq!(fx(1.0).over(fx(0.0)), top);
    assert_eq!(fx(-1.0).over(fx(0.0)), bottom);
    assert_eq!(Fixed::of_int(i64::MAX), top);
    assert_eq!(Fixed::of_usize(usize::MAX), top);
    assert_eq!(Fixed { raw: i64::MIN }.negated(), top);
    assert_eq!(fx(0.0).ln(), bottom);
    assert_eq!(fx(100.0).exp(), top);
}

#[test]
fn square_roots() {
    assert_eq!(fx(4.0).sqrt(), fx(2.0));
    assert_eq!(fx(2.25).sqrt(), fx(1.5));
    assert_eq!(fx(-1.0).sqrt(), fx(0.0));
    close(fx(2.0).sqrt(), 2f64.sqrt(), 1e-9);
}

#[test]
fn elementary_functions_are_close() {
    for x in [-5.0, -1.0, -0.1, 0.0, 0.3, 1.0, 4.0] {
        let e = f64::exp(x);
        close(fx(x).exp(), e, 1e-6 * (1.0 + e));
        close(fx(x).sin(), x.sin(), 1e-8);
        close(fx(100.0 * x).sin(), (100.0 * x).sin(), 1e-6);
    }
    for x in [0.001, 0.5, 1.0, 1.5, 2.0, 10.0, 96_000.0] {
        close(fx(x).ln(), x.ln(), 1e-6);
        close(fx(x).log10(), x.log10(), 1e-6);
    }
    close(fx(2.0).powf(fx(0.5)), 2f64.sqrt(), 1e-6);
    assert_eq!(fx(0.0).powf(fx(2.0)), fx(0.0));
    close(fx(0.7).tan(), 0.7f64.tan(), 1e-7);
    close(fx(-2.0).tan(), (-2.0f64).tan(), 1e-6);
    close(Fixed::pi(), std::f64::consts::PI, 1e-9);
}

#[test]
fn exponentials_of_negative_numbers_are_fractions() {
    assert_eq!(fx(0.0).exp(), fx(1.0));
    assert_eq!(fx(-22.2).exp(), fx(0.0));
    assert!(fx(-22.1).exp().raw > 0);
    assert_eq!(Fixed { raw: -LIMIT }.exp(), fx(0.0));
    for n in 0..400 {
        let x = -0.08 * n as f64;
        let y = fx(x).exp();
        assert!(0 <= y.raw && y.raw <= ONE);
        close(y, x.exp(), 1e-6);
    }
    // So is the coefficient of every smoother.
    for tau in [0.0, 1e-9, 1e-3, 1.0, 1e6] {
        let r = RampedValue::new(fx(1.0), fx(tau), 48_000);
        assert!(0 <= r.coeff.raw && r.coeff.raw <= ONE);
    }
}

#[test]
fn elementary_functions_keep_the_order() {
    let mut numbers: Vec<i64> = vec![i64::MIN, -LIMIT, LIMIT, LIMIT - 1, 0, 1, 2, 3];
    for scale in [1, 1000, 300_000_000, ONE, 7 * ONE] {
        for n in -40..40 {
            numbers.push(n * scale + n % 3);
        }
    }
    for octave in 1..62 {
        // Both sides of a power of two.
        for step in -2..=2 {
            numbers.push((1i64 << octave) + step);
            numbers.push(-(1i64 << octave) + step);
        }
    }
    numbers.sort();
    for pair in numbers.windows(2) {
        let (a, b) = (Fixed { raw: pair[0] }, Fixed { raw: pair[1] });
        assert!(a.exp().le(b.exp()), "{a:?} {b:?}");
        assert!(a.ln().le(b.ln()), "{a:?} {b:?}");
        assert!(a.log10().le(b.log10()), "{a:?} {b:?}");
        for c in [0.0, 0.3, 1.4, 5.0] {
            assert!(a.powf(fx(c)).le(b.powf(fx(c))), "{a:?} {b:?}");
            assert!(fx(c).times(a).le(fx(c).times(b)));
            assert!(a.over(fx(c + 0.1)).le(b.over(fx(c + 0.1))));
        }
    }
    // One lies between the negative and the positive logarithms.
    assert_eq!(fx(1.0).ln(), fx(0.0));
    assert!(Fixed { raw: ONE - 1 }.ln().raw < 0 && Fixed { raw: ONE + 4 }.ln().raw > 0);
}

#[test]
fn the_plate_current_in_fixed_point_never_falls() {
    for vpk in [0.0, 100.0, 300.0] {
        let koren = |vgk: f64| {
            let tube = (fx(3.85), fx(4.5), fx(140.0), fx(1500.0), fx(1.4));
            koren_plate_current(fx(vgk), fx(vpk), tube.0, tube.1, tube.2, tube.3, tube.4)
        };
        let mut last = koren(-400.0);
        assert!(last.raw >= 0 && (vpk < 300.0 || koren(-60.0).raw > 0));
        for n in -4000..4000 {
            let here = koren(0.1 * n as f64);
            assert!(last.le(here), "{n}: {last:?} {here:?}");
            last = here;
        }
        assert!(last.raw > 0);
    }
    // Across the point from which on the softplus is its asymptote.
    let koren = |raw: i64| {
        let one = fx(1.0);
        koren_plate_current(Fixed { raw }, fx(0.0), one, one, one, one, one).raw
    };
    for step in -50..50 {
        assert!(koren(29 * ONE + step) <= koren(29 * ONE + step + 1));
    }
}

#[test]
fn attenuation_in_fixed_point_tells_limiting() {
    let mut limiter: TruePeakLimiterCore<Fixed> =
        TruePeakLimiterCore::new(1, fx(-1.0), fx(50.0), 48_000);
    assert_eq!(limiter.attenuation_db(), fx(0.0));
    // Every gain below one, by whatever little, is reported as limiting.
    for raw in [ONE - 1, ONE - 2, ONE - 1000, ONE / 2 + 1, ONE / 2, ONE / 3, 5, 1, 0] {
        limiter.current_gain = Fixed { raw };
        assert!(limiter.attenuation_db().raw < 0, "{raw}");
    }
    limiter.current_gain = fx(0.5);
    close(limiter.attenuation_db(), -6.0206, 1e-4);
    close(limiter.attenuation_db(), 20.0 * 0.5f64.log10(), 1e-6);
}

#[test]
fn the_loudest_frames_leave_a_gain_above_zero() {
    let top = Fixed { raw: LIMIT };
    let frames = vec![[top, Fixed { raw: -LIMIT }]; 40];
    for dbfs in [0.0, -6.0] {
        let limiter = limit(dbfs, 0.0, &frames);
        assert!(0 < limiter.current_gain.raw);
    }
}

#[test]
fn a_declipper_in_fixed_point_starts_with_zeros() {
    let mut dec = Declipper::from_config(
        "fixed",
        DeclipperParameters {
            channels: 1,
            process_channels: None,
            clip_threshold: fx(0.99),
            min_clip_len: 3,
            max_clip_len: 16,
            method: DeclipMethod::Cubic,
            ar_order: 8,
            makeup_gain_db: Some(fx(-3.0)),
        },
        48_000,
        64,
    );
    let delay = dec.latency();
    let gain = dec.makeup;
    let wave: Vec<Fixed> = (0..640).map(|n| fx(0.9 * (n as f64 * 0.05).sin())).collect();
    let mut out = Vec::new();
    for chunk in wave.chunks(50) {
        let mut waveforms = vec![chunk.to_vec()];
        assert_eq!(dec.process_chunk(&mut waveforms).declipped, 0);
        out.extend_from_slice(&waveforms[0]);
    }
    for (k, y) in out.iter().enumerate() {
        let expected = if k < delay { fx(0.0) } else { wave[k - delay].times(gain) };
        assert_eq!(*y, expected);
    }
}

#[test]
fn decibels_in_fixed_point() {
    close(db_to_linear(fx(20.0)), 10.0, 1e-4);
    close(db_to_linear(fx(-6.0)), 10f64.powf(-0.3), 1e-6);
}

#[test]
fn a_limiter_runs_in_fixed_point() {
    let limiter = Limiter::from_config(LimiterParameters {
        clip_limit: fx(-6.0),
        soft_clip: Some(false),
    });
    let limit = 10f64.powf(-0.3);
    let mut wave = vec![fx(0.25), fx(0.75), fx(-0.75)];
    limiter.apply_clip(&mut wave);
    assert_eq!(wave[0], fx(0.25));
    close(wave[1], limit, 1e-6);
    close(wave[2], -limit, 1e-6);
}

/// Runs `frames` through a new limiter and checks each output against the delayed input.
fn limit(ceiling_dbfs: f64, release_ms: f64, frames: &[[Fixed; 2]]) -> TruePeakLimiterCore<Fixed> {
    let mut limiter: TruePeakLimiterCore<Fixed> =
        TruePeakLimiterCore::new(2, fx(ceiling_dbfs), fx(release_ms), 48_000);
    assert!(0 <= limiter.release_coef.raw && limiter.release_coef.raw <= ONE);
    for (n, frame) in frames.iter().enumerate() {
        let mut out = [fx(9.0); 3];
        limiter.process_frame(frame, &mut out);
        assert!(0 < limiter.current_gain.raw && limiter.current_gain.raw <= ONE);
        for ch in 0..2 {
            let heard = if n < LOOKAHEAD_SAMPLES {
                fx(0.0)
            } else {
                frames[n - LOOKAHEAD_SAMPLES][ch]
            };
            assert_eq!(out[ch], heard.times(limiter.current_gain));
            assert!(out[ch].abs().raw <= limiter.ceiling.raw, "{} at {n}", value(out[ch]));
        }
        assert_eq!(out[2], fx(9.0));
    }
    limiter
}

#[test]
fn a_true_peak_limiter_holds_its_ceiling_in_fixed_point() {
    let wave = |ch: usize, n: usize| fx(1.7 * ((n * (3 + ch)) as f64 * 0.21).sin());
    let loud: Vec<[Fixed; 2]> = (0..400).map(|n| [wave(0, n), wave(1, n)]).collect();
    // From no release at all to an immediate one.
    for release_ms in [1e6, 50.0, 1.0, 0.01, 1e-5, 1e-9, 0.0] {
        let limiter = limit(-1.0, release_ms, &loud);
        // The program is loud enough to be limited, and is not limited to silence.
        assert!(limiter.attenuation_db().lt(fx(-1.0)));
        assert!(fx(0.1).lt(limiter.current_gain));
    }
    // A single hot sample, on one channel, in silence.
    let mut hot = vec![[fx(0.0); 2]; 80];
    hot[20][1] = fx(-9.5);
    for release_ms in [50.0, 0.0] {
        limit(-3.0, release_ms, &hot);
    }
}

#[test]
fn quiet_material_is_unaltered_in_fixed_point() {
    for dbfs in [-1.0, -12.0] {
        // Samples of either sign at a quarter of the ceiling, in the worst order for the probe.
        let quarter = 10f64.powf(dbfs / 20.0) * 0.249;
        let wave = |n: usize| fx(if n * n % 7 < 3 { quarter } else { -quarter });
        let frames: Vec<[Fixed; 2]> = (0..200).map(|n| [wave(n), wave(n + 3)]).collect();
        let limiter = limit(dbfs, 0.0, &frames);
        assert_eq!(limiter.current_gain, fx(1.0));
        assert_eq!(limiter.attenuation_db(), fx(0.0));
    }
}

#[test]
fn a_reset_limiter_starts_anew_in_fixed_point() {
    let loud: Vec<[Fixed; 2]> =
        (0..100).map(|n| [fx((n as f64).sin()), fx(2.0 * (n as f64).cos())]).collect();
    let mut used = limit(-6.0, 20.0, &loud);
    used.reset();
    let mut new: TruePeakLimiterCore<Fixed> =
        TruePeakLimiterCore::new(2, fx(-6.0), fx(20.0), 48_000);
    assert_eq!(used.attenuation_db(), fx(0.0));
    for frame in &loud {
        let (mut a, mut b) = ([fx(0.0); 2], [fx(0.0); 2]);
        used.process_frame(frame, &mut a);
        new.process_frame(frame, &mut b);
        assert_eq!(a, b);
    }
}

#[test]
fn halfband_filters_in_fixed_point_have_zeros() {
    for length in [3, 7, 31, 35, 99] {
        let h = make_halfband_coeffs(length, fx(8.0));
        for (n, c) in h.iter().enumerate() {
            if n % 2 == 1 && n != length / 2 {
                assert_eq!(*c, fx(0.0), "tap {n} of {length}");
            }
        }
        assert!(h[length / 2].raw > 0);
    }
}

#[test]
fn the_branches_of_the_probe_in_fixed_point() {
    let probe: TruePeakProbe<Fixed> = TruePeakProbe::new(1);
    // The odd branch passes the sample in the middle and nothing else.
    for (k, c) in probe.branch_b.iter().enumerate() {
        assert_eq!(*c, if k == ODD_DELAY { fx(1.0) } else { fx(0.0) });
    }
    // The even branch at most doubles, and has unity gain but for rounding.
    let weight: i64 = probe.branch_a.iter().map(|c| c.raw.abs()).sum();
    let total: i64 = probe.branch_a.iter().map(|c| c.raw).sum();
    assert!(ONE <= weight && weight <= 2 * ONE, "{weight}");
    assert!((total - ONE).abs() <= 16, "{total}");
}

#[test]
fn the_probe_in_fixed_point_ignores_sign_and_other_channels() {
    let mut both: TruePeakProbe<Fixed> = TruePeakProbe::new(2);
    let mut alone: TruePeakProbe<Fixed> = TruePeakProbe::new(1);
    for n in 0..60 {
        let v = fx(0.8 * (n as f64 * 1.3).sin());
        let r = both.peak_of_sample(1, v.negated());
        both.peak_of_sample(0, fx(3.0 * (n as f64 * 0.7).cos()));
        assert_eq!(alone.peak_of_sample(0, v), r);
        assert!(r.raw >= 0);
    }
    // On a constant it measures the magnitude.
    for x in [0.7, -0.7, 100.0, -3e-9] {
        let v = fx(x);
        let mut last = fx(0.0);
        for _ in 0..25 {
            last = alone.peak_of_sample(0, v);
        }
        assert!(v.abs().raw <= last.raw && last.raw <= v.abs().raw + 60 + v.abs().raw / (ONE / 40));
    }
}

#[test]
fn a_ramp_runs_in_fixed_point() {
    let mut r = RampedValue::new(fx(0.0), fx(0.005), 48_000);
    r.set_target(fx(1.0));
    let mut last = 0.0;
    for _ in 0..2000 {
        let v = value(r.tick());
        assert!(v >= last && v <= 1.0);
        last = v;
    }
    assert!((last - 1.0).abs() < 1e-3);
}

#[test]
fn ramps_in_fixed_point_do_not_overshoot() {
    for (from, to) in [(0.0, -1.0), (-0.2, -1.0), (0.1, 0.9)] {
        // Away from zero the target is never passed.
        let mut r = RampedValue::new(fx(from), fx(0.005), 48_000);
        r.set_target(fx(to));
        let mut mirror = RampedValue::new(fx(-from), fx(0.005), 48_000);
        mirror.set_target(fx(-to));
        for _ in 0..4000 {
            let v = r.tick();
            assert!(v.abs().raw <= fx(to).abs().raw);
            assert_eq!(mirror.tick(), v.negated());
        }
    }
    for (from, to) in [(1.0, 0.3), (-1.0, -0.3), (-0.5, 0.5), (0.5, -0.5), (-1.0, 0.0)] {
        // Anywhere else it is passed by no more than the rounding.
        let mut r = RampedValue::new(fx(from), fx(0.005), 48_000);
        let slack = 2 * ONE / (ONE - r.coeff.raw) + 1;
        r.set_target(fx(to));
        for _ in 0..4000 {
            let beyond = r.tick().raw - fx(to).raw;
            assert!(if from < to { beyond <= slack } else { -slack <= beyond });
        }
    }
}

#[test]
fn the_knee_in_fixed_point_rises_between_its_asymptotes() {
    for (ratio, half) in [(3.0, 4.0), (1.5, 0.5), (8.0, 12.0), (2.0, 1e-4)] {
        let slack = ONE as i128 / (4 * fx(half).raw as i128) + 3;
        let slope = fx(ratio).raw as i128 - ONE as i128;
        let mut last = soft_knee_upward(fx(-3.0 * half), fx(ratio), fx(half)).raw;
        assert_eq!(last, 0);
        let mut before = fx(-3.0 * half);
        for n in -300..=300 {
            let over = fx(half * n as f64 / 100.0);
            let g = soft_knee_upward(over, fx(ratio), fx(half)).raw;
            let hard = soft_knee_upward(over, fx(ratio), fx(0.0)).raw;
            assert!(last <= g);
            assert!(hard as i128 <= g as i128 + slack);
            let rise = (g - last) as i128 - slack;
            assert!(rise * ONE as i128 <= slope * (over.raw - before.raw) as i128);
            last = g;
            before = over;
        }
    }
}

#[test]
fn a_dc_blocker_in_fixed_point_removes_a_constant() {
    let mut dc = DcBlocker::new(48_000);
    let mut last = dc.process_single(fx(0.5)).raw;
    assert_eq!(last, fx(0.5).raw);
    for _ in 0..40_000 {
        let y = dc.process_single(fx(0.5)).raw;
        assert!(0 <= y && (y < last || last == 0));
        last = y;
    }
    assert_eq!(last, 0);
}

#[test]
fn an_upsampler_runs_in_fixed_point() {
    let mut r: PolyphaseFir<Fixed> = PolyphaseFir::new(48_000, 96_000, 64, 1, 32).unwrap();
    let mut out = vec![vec![fx(0.0); 64]];
    for _ in 0..4 {
        let needed = r.input_frames_next();
        r.process_into_buffer(&vec![vec![fx(0.5); needed]], &mut out, None).unwrap();
    }
    for v in &out[0] {
        close(*v, 0.5, 1e-3);
    }
}

fn expander(mode: ExpanderMode, crest_gate: bool) -> Expander<Fixed> {
    let config = ExpanderParameters {
        channels: 1,
        monitor_channels: None,
        process_channels: None,
        attack: fx(0.01),
        release: fx(0.1),
        threshold: fx(-20.0),
        ratio: fx(2.0),
        max_gain_db: fx(6.0),
        mode,
        makeup_gain: None,
        soft_clip: None,
        clip_limit: None,
        crest_gate: Some(crest_gate),
        crest_floor_db: fx(6.0),
        crest_ceiling_db: fx(12.0),
        knee_db: None,
        adaptive_threshold: None,
        relative_offset_db: fx(3.0),
        adapt_time: fx(3.0),
    };
    Expander::from_config("fixed", config, 48_000, 64)
}

#[test]
fn an_expander_in_fixed_point_has_one_direction() {
    let excess: Vec<Fixed> = (-16..16).map(|n| fx(n as f64)).collect();
    let mut up = expander(ExpanderMode::Upward, false);
    up.scratch = excess.clone();
    let largest = up.calculate_linear_gain(fx(1.0));
    assert_eq!(largest, fx(6.0));
    assert!(up.scratch.iter().all(|g| value(*g) >= 1.0 - 1e-6));
    let mut down = expander(ExpanderMode::Downward, false);
    down.scratch = excess.clone();
    assert_eq!(down.calculate_linear_gain(fx(1.0)), fx(-6.0));
    assert!(down.scratch.iter().all(|g| value(*g) <= 1.0 + 1e-6));
    // At scale zero nothing is expanded.
    let mut idle = expander(ExpanderMode::Both, true);
    idle.scratch = excess;
    assert_eq!(idle.calculate_linear_gain(fx(0.0)), fx(0.0));
}

#[test]
fn the_crest_scale_in_fixed_point_is_a_fraction() {
    let mut gated = expander(ExpanderMode::Upward, true);
    for level in [0.0, 0.01, 0.3, 0.9] {
        for v in gated.scratch.iter_mut() {
            *v = fx(level);
        }
        let scale = gated.update_crest_scale();
        assert!(fx(0.0).le(scale) && scale.le(fx(1.0)));
    }
    // The knee: nothing below it, the full slope above it, a parabola between.
    assert_eq!(soft_knee_upward(fx(-3.0), fx(2.0), fx(3.0)), fx(0.0));
    assert_eq!(soft_knee_upward(fx(4.0), fx(2.0), fx(3.0)), fx(4.0));
    assert_eq!(soft_knee_upward(fx(0.0), fx(2.0), fx(3.0)), fx(0.75));
}
