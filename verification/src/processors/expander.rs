//! Upward expander: source-domain dynamics restoration.
//!
//! The inverse of the downward compressor. Where the compressor attenuates signal above a
//! threshold, the expander boosts it, re-opening the macro-dynamics that loudness-war mastering
//! crushes.
//!
//! Channels are linked by an RMS (power) sum, so the detected level is independent of
//! inter-channel correlation. The level in dB is followed with a smooth decoupled peak detector
//! (Giannoulis, Massberg & Reiss, "Digital Dynamic Range Compressor Design", JAES 2012), which
//! decouples the effective attack time from the release state. An optional peak-safety limiter
//! follows the gain, and the expansion depth is driven by the program's crest factor so that it
//! stays near-dormant on material that is already dynamic.

use crate::arith::{
    clamp, db_to_linear, filled, lemma_clamp_within, s_clamp, s_db_to_linear, s_one, s_zero,
};
use crate::config::{
    channels_exist, first_missing_channel, lemma_first_missing_channel, listed, listed_or_all,
    missing_channel, or_else, ConfigError, ExpanderMode, ExpanderParameters, LimiterParameters,
};
use crate::filters::limiter::Limiter;
use crate::prcfmt::PrcFmt;
use vstd::prelude::*;

verus! {

/// The expander.
pub struct Expander<T: PrcFmt> {
    pub name: String,
    pub channels: usize,
    pub monitor_channels: Vec<usize>,
    pub process_channels: Vec<usize>,
    pub attack: T,
    pub release: T,
    pub threshold: T,
    pub ratio: T,
    pub max_gain: T,
    /// Half the soft-knee width (dB). Zero gives a hard knee.
    pub half_knee: T,
    pub mode: ExpanderMode,
    pub makeup_gain: T,
    pub limiter: Option<Limiter<T>>,
    pub samplerate: usize,
    pub scratch: Vec<T>,
    /// Instantaneous-attack / exponential-release peak follower (dB).
    pub level_peak: T,
    /// Attack-smoothed output of the peak follower, which drives the gain computer (dB).
    pub level_env: T,
    /// Whether the threshold tracks the program level. The fixed threshold is then a floor.
    pub adaptive: bool,
    pub relative_offset: T,
    /// Slow envelope of the program level (dB).
    pub level_slow: T,
    pub slow_coef: T,
    /// Effective threshold (dB) of the last processed sample.
    pub last_eff_threshold: T,
    /// Whether the program crest scales the effective expansion ratio.
    pub crest_gate: bool,
    pub crest_floor_db: T,
    pub crest_ceiling_db: T,
    /// Running crest estimator state.
    pub crest_ms: T,
    pub crest_peak: T,
    pub crest_ms_coeff: T,
    pub crest_peak_coeff: T,
}

/// What to report of a chunk.
pub struct ExpanderReport<T> {
    /// The signed applied expansion (dB, before makeup) of largest magnitude.
    pub expansion: T,
    /// The threshold in effect at the end of the chunk.
    pub threshold: T,
}

/// The coefficient of a one-pole follower: `exp(-1 / rate / seconds)`.
pub open spec fn follower<T: PrcFmt>(samplerate: int, seconds: T) -> T {
    T::s_int(-1).s_div(T::s_int(samplerate)).s_div(seconds).s_exp()
}

fn follower_coeff<T: PrcFmt>(samplerate: usize, seconds: T) -> (r: T)
    ensures
        r == follower(samplerate as int, seconds),
{
    T::of_int(-1).over(T::of_usize(samplerate)).over(seconds).exp()
}

/// `coeff * state + (1 - coeff) * input`.
pub open spec fn smoothed<T: PrcFmt>(coeff: T, state: T, input: T) -> T {
    coeff.s_mul(state).s_add(s_one::<T>().s_sub(coeff).s_mul(input))
}

fn smooth<T: PrcFmt>(coeff: T, state: T, input: T) -> (r: T)
    ensures
        r == smoothed(coeff, state, input),
{
    coeff.times(state).plus(T::of_int(1).minus(coeff).times(input))
}

/// The floor for the running mean-square and peak, so that the crest ratio stays finite during
/// silence.
pub open spec fn s_crest_floor<T: PrcFmt>() -> T {
    T::s_dec(1, 20)
}

fn crest_floor<T: PrcFmt>() -> (r: T)
    ensures
        r == s_crest_floor::<T>(),
{
    T::decimal(1, 20)
}

// ------------------------------- Linked magnitude -------------------------------

/// The sum of the squares of sample `i` over the first `m` monitored channels. A first channel
/// that is too short leaves `held` in place of its square, others add nothing.
pub open spec fn power_sum<T: PrcFmt>(
    held: T,
    waves: Seq<Vec<T>>,
    monitors: Seq<usize>,
    i: int,
    m: int,
) -> T
    decreases m,
{
    if m <= 0 {
        held
    } else {
        let wave = waves[monitors[m - 1] as int]@;
        let before = power_sum(held, waves, monitors, i, m - 1);
        if i >= wave.len() {
            before
        } else if m == 1 {
            wave[i].s_mul(wave[i])
        } else {
            before.s_add(wave[i].s_mul(wave[i]))
        }
    }
}

/// The linked magnitudes: the root of the mean power over the monitored channels.
pub open spec fn linked<T: PrcFmt>(
    scratch: Seq<T>,
    waves: Seq<Vec<T>>,
    monitors: Seq<usize>,
) -> Seq<T> {
    Seq::new(
        scratch.len(),
        |i: int|
            power_sum(scratch[i], waves, monitors, i, monitors.len() as int).s_mul(
                s_one::<T>().s_div(T::s_int(monitors.len() as int)),
            ).s_sqrt(),
    )
}

// ------------------------------- Crest factor -------------------------------

/// The state of the crest estimator.
pub struct Crest<T> {
    pub ms: T,
    pub peak: T,
}

/// The crest estimator after a magnitude.
pub open spec fn crest_step<T: PrcFmt>(c: Crest<T>, ms_coeff: T, peak_coeff: T, v: T) -> Crest<T> {
    Crest {
        ms: smoothed(ms_coeff, c.ms, v.s_mul(v)),
        peak: if c.peak.s_lt(v.s_abs()) {
            v.s_abs()
        } else {
            c.peak.s_mul(peak_coeff)
        },
    }
}

/// The crest estimator after the first `n` magnitudes.
pub open spec fn crest_after<T: PrcFmt>(
    c: Crest<T>,
    ms_coeff: T,
    peak_coeff: T,
    wave: Seq<T>,
    n: int,
) -> Crest<T>
    decreases n,
{
    if n <= 0 {
        c
    } else {
        crest_step(
            crest_after(c, ms_coeff, peak_coeff, wave, n - 1),
            ms_coeff,
            peak_coeff,
            wave[n - 1],
        )
    }
}

/// The crest factor in decibels.
pub open spec fn crest_db<T: PrcFmt>(c: Crest<T>) -> T {
    T::s_int(20).s_mul(
        c.peak.s_max(s_crest_floor()).s_div(c.ms.s_max(s_crest_floor()).s_sqrt()).s_log10(),
    )
}

/// How much of the ratio applies at a crest factor: all of it at or below the floor, none at or
/// above the ceiling, a straight line between.
pub open spec fn crest_scale<T: PrcFmt>(gate: bool, db: T, floor: T, ceiling: T) -> T {
    if !gate {
        s_one()
    } else if db.s_le(floor) {
        s_one()
    } else if ceiling.s_le(db) {
        s_zero()
    } else {
        ceiling.s_sub(db).s_div(ceiling.s_sub(floor))
    }
}

// ------------------------------- Level detector -------------------------------

/// The state of the level detector, in decibels.
pub struct Level<T> {
    pub peak: T,
    pub env: T,
    pub slow: T,
}

/// What governs the level detector.
pub struct Ballistics<T> {
    pub attack: T,
    pub release: T,
    pub slow: T,
}

/// The level of a magnitude in decibels.
pub open spec fn level_db<T: PrcFmt>(v: T) -> T {
    T::s_int(20).s_mul(v.s_add(T::s_dec(1, 9)).s_log10())
}

/// The level detector after a magnitude: the peak follower jumps up to the level and decays toward
/// it with the release coefficient; its output is smoothed by the attack coefficient, and by a
/// slower one.
pub open spec fn level_step<T: PrcFmt>(l: Level<T>, b: Ballistics<T>, v: T) -> Level<T> {
    let peak = level_db(v).s_max(smoothed(b.release, l.peak, level_db(v)));
    Level {
        peak,
        env: smoothed(b.attack, l.env, peak),
        slow: smoothed(b.slow, l.slow, peak),
    }
}

/// The level detector after the first `n` magnitudes.
pub open spec fn level_after<T: PrcFmt>(l: Level<T>, b: Ballistics<T>, wave: Seq<T>, n: int) -> Level<
    T,
>
    decreases n,
{
    if n <= 0 {
        l
    } else {
        level_step(level_after(l, b, wave, n - 1), b, wave[n - 1])
    }
}

/// The threshold in effect: in adaptive mode it follows the program level, with the fixed
/// threshold as its floor.
pub open spec fn effective_threshold<T: PrcFmt>(
    adaptive: bool,
    threshold: T,
    offset: T,
    slow: T,
) -> T {
    if adaptive {
        threshold.s_max(slow.s_add(offset))
    } else {
        threshold
    }
}

// ------------------------------- Gain law -------------------------------

/// The parabola through the knee.
pub open spec fn knee_parabola<T: PrcFmt>(over: T, ratio: T, half_knee: T) -> T {
    let t = over.s_add(half_knee);
    ratio.s_sub(s_one()).s_mul(t).s_mul(t).s_div(T::s_int(4).s_mul(half_knee))
}

/// Soft-knee gain law: dB expansion as a function of how far the envelope sits above threshold.
/// Zero at and below the lower edge of the knee, the full slope at and above the upper edge, a
/// parabola between.
pub open spec fn soft_knee<T: PrcFmt>(over: T, ratio: T, half_knee: T) -> T {
    let slope = ratio.s_sub(s_one());
    if half_knee.s_le(s_zero()) || half_knee.s_le(over) {
        over.s_max(s_zero()).s_mul(slope)
    } else if over.s_le(half_knee.s_neg()) {
        s_zero()
    } else {
        knee_parabola(over, ratio, half_knee)
    }
}

/// Soft-knee gain law for an upward expander: dB expansion as a function of how far the envelope
/// sits above threshold (`over`). Implements the quadratic knee of Giannoulis, Massberg & Reiss
/// (JAES 2012). With a knee of no width it collapses to the hard knee. Downward expansion reuses
/// this by mirroring.
pub fn soft_knee_upward<T: PrcFmt>(over: T, ratio: T, half_knee: T) -> (r: T)
    ensures
        r == soft_knee(over, ratio, half_knee),
{
    let zero: T = T::of_int(0);
    let slope: T = ratio.minus(T::of_int(1));
    if half_knee.le(zero) || half_knee.le(over) {
        over.max(zero).times(slope)
    } else if over.le(half_knee.negated()) {
        zero
    } else {
        let t: T = over.plus(half_knee);
        slope.times(t).times(t).over(T::of_int(4).times(half_knee))
    }
}

/// The ratio in effect: `1 + (ratio - 1) * scale`.
pub open spec fn effective_ratio<T: PrcFmt>(ratio: T, scale: T) -> T {
    s_one::<T>().s_add(ratio.s_sub(s_one()).s_mul(scale))
}

/// The expansion in decibels before it is bounded.
pub open spec fn raw_expansion<T: PrcFmt>(mode: ExpanderMode, over: T, ratio: T, half_knee: T) -> T {
    match mode {
        ExpanderMode::Upward => soft_knee(over, ratio, half_knee),
        ExpanderMode::Downward => soft_knee(over.s_neg(), ratio, half_knee).s_neg(),
        ExpanderMode::Both => over.s_mul(ratio.s_sub(s_one())),
    }
}

/// The gain to apply to a waveform, and the limiter behind it.
pub open spec fn gained<T: PrcFmt>(
    wave: Seq<T>,
    gains: Seq<T>,
    limiter: Option<Limiter<T>>,
) -> Seq<T> {
    Seq::new(
        wave.len(),
        |i: int|
            {
                let v = if i < gains.len() {
                    wave[i].s_mul(gains[i])
                } else {
                    wave[i]
                };
                match limiter {
                    Some(limiter) => limiter.clipped(v),
                    None => v,
                }
            },
    )
}

/// Channel `ch` after the first `n` channels of a list have been processed, one after the other.
pub open spec fn channel_after<T: PrcFmt>(
    list: Seq<usize>,
    n: int,
    ch: int,
    wave: Seq<T>,
    gains: Seq<T>,
    limiter: Option<Limiter<T>>,
) -> Seq<T>
    decreases n,
{
    if n <= 0 {
        wave
    } else {
        let before = channel_after(list, n - 1, ch, wave, gains, limiter);
        if list[n - 1] == ch {
            gained(before, gains, limiter)
        } else {
            before
        }
    }
}

impl<T: PrcFmt> Expander<T> {
    /// The state of the crest estimator.
    pub open spec fn crest(self) -> Crest<T> {
        Crest { ms: self.crest_ms, peak: self.crest_peak }
    }

    /// The state of the level detector.
    pub open spec fn level(self) -> Level<T> {
        Level { peak: self.level_peak, env: self.level_env, slow: self.level_slow }
    }

    /// What governs the level detector.
    pub open spec fn ballistics(self) -> Ballistics<T> {
        Ballistics { attack: self.attack, release: self.release, slow: self.slow_coef }
    }

    /// The crest estimator after some magnitudes.
    pub open spec fn crest_for(self, wave: Seq<T>) -> Crest<T> {
        crest_after(
            self.crest(),
            self.crest_ms_coeff,
            self.crest_peak_coeff,
            wave,
            wave.len() as int,
        )
    }

    /// The scale of the ratio after some magnitudes.
    pub open spec fn scale_for(self, wave: Seq<T>) -> T {
        crest_scale(
            self.crest_gate,
            crest_db(self.crest_for(wave)),
            self.crest_floor_db,
            self.crest_ceiling_db,
        )
    }

    /// The threshold in effect after the first `n` magnitudes.
    pub open spec fn threshold_after(self, wave: Seq<T>, n: int) -> T {
        if n <= 0 {
            self.last_eff_threshold
        } else {
            effective_threshold(
                self.adaptive,
                self.threshold,
                self.relative_offset,
                level_after(self.level(), self.ballistics(), wave, n).slow,
            )
        }
    }

    /// How far the envelope exceeds the threshold, for each magnitude.
    pub open spec fn excess(self, wave: Seq<T>) -> Seq<T> {
        Seq::new(
            wave.len(),
            |i: int|
                level_after(self.level(), self.ballistics(), wave, i + 1).env.s_sub(
                    self.threshold_after(wave, i + 1),
                ),
        )
    }

    /// The expansion that is applied at an excess, in decibels: bounded to the maximum gain either
    /// way.
    pub open spec fn applied(self, over: T, scale: T) -> T {
        s_clamp(
            raw_expansion(self.mode, over, effective_ratio(self.ratio, scale), self.half_knee),
            self.max_gain.s_neg(),
            self.max_gain,
        )
    }

    /// The gains for some excesses.
    pub open spec fn gains(self, over: Seq<T>, scale: T) -> Seq<T> {
        Seq::new(
            over.len(),
            |i: int| s_db_to_linear(self.applied(over[i], scale).s_add(self.makeup_gain)),
        )
    }

    /// The applied expansion of largest magnitude among the first `n` excesses.
    pub open spec fn largest_expansion(self, over: Seq<T>, scale: T, n: int) -> T
        decreases n,
    {
        if n <= 0 {
            s_zero()
        } else {
            let before = self.largest_expansion(over, scale, n - 1);
            let here = self.applied(over[n - 1], scale);
            if before.s_abs().s_lt(here.s_abs()) {
                here
            } else {
                before
            }
        }
    }

    /// What is applied depends on the parameters alone.
    proof fn lemma_gain_by_setup(self, other: Self, over: Seq<T>, scale: T, n: int)
        requires
            self.same_setup(other),
        ensures
            self.gains(over, scale) == other.gains(over, scale),
            self.largest_expansion(over, scale, n) == other.largest_expansion(over, scale, n),
        decreases n,
    {
        assert(self.gains(over, scale) =~= other.gains(over, scale));
        if n > 0 {
            self.lemma_gain_by_setup(other, over, scale, n - 1);
        }
    }

    /// Whether the parameters of `self` are those of `config`.
    pub open spec fn follows(self, config: ExpanderParameters<T>) -> bool {
        &&& self.channels == config.channels
        &&& self.monitor_channels@ == listed_or_all(
            config.monitor_channels,
            config.channels as int,
        )
        &&& self.process_channels@ == listed_or_all(
            config.process_channels,
            config.channels as int,
        )
        &&& self.attack == follower(self.samplerate as int, config.attack)
        &&& self.release == follower(self.samplerate as int, config.release)
        &&& self.slow_coef == follower(self.samplerate as int, config.adapt_time)
        &&& self.threshold == config.threshold
        &&& self.ratio == config.ratio
        &&& self.max_gain == config.max_gain_db
        &&& self.half_knee == T::s_dec(5, 1).s_mul(config.s_knee_db())
        &&& self.mode == config.mode
        &&& self.makeup_gain == config.s_makeup_gain()
        &&& self.adaptive == or_else(config.adaptive_threshold, false)
        &&& self.relative_offset == config.relative_offset_db
        &&& self.crest_gate == or_else(config.crest_gate, true)
        &&& self.crest_floor_db == config.crest_floor_db
        &&& self.crest_ceiling_db == config.crest_ceiling_db
        &&& self.limiter == limiter_of(config)
    }

    /// Whether `self` has the parameters of `other`.
    pub open spec fn same_setup(self, other: Self) -> bool {
        self == (Expander {
            scratch: self.scratch,
            level_peak: self.level_peak,
            level_env: self.level_env,
            level_slow: self.level_slow,
            last_eff_threshold: self.last_eff_threshold,
            crest_ms: self.crest_ms,
            crest_peak: self.crest_peak,
            ..other
        })
    }

    /// Creates an Expander from a config struct. The crest estimator starts with a high crest
    /// (silent RMS floor, full-scale peak), so that the expander stays dormant until it has
    /// measured the program to be compressed.
    pub fn from_config(
        name: &str,
        config: ExpanderParameters<T>,
        samplerate: usize,
        chunksize: usize,
    ) -> (r: Self)
        ensures
            r.name@ == name@,
            r.samplerate == samplerate,
            r.follows(config),
            r.scratch@ == crate::arith::copies(chunksize as nat, s_zero::<T>()),
            r.level() == (Level {
                peak: T::s_int(-100),
                env: T::s_int(-100),
                slow: T::s_int(-100),
            }),
            r.last_eff_threshold == config.threshold,
            r.crest() == (Crest { ms: s_crest_floor(), peak: s_one::<T>() }),
            r.crest_ms_coeff == follower(samplerate as int, T::s_dec(4, 1)),
            r.crest_peak_coeff == follower(samplerate as int, s_one::<T>()),
    {
        let idle: T = T::of_int(-100);
        Expander {
            name: name.to_owned(),
            channels: config.channels,
            monitor_channels: config.monitored(),
            process_channels: config.processed(),
            attack: follower_coeff(samplerate, config.attack),
            release: follower_coeff(samplerate, config.release),
            threshold: config.threshold,
            ratio: config.ratio,
            max_gain: config.max_gain_db,
            half_knee: T::decimal(5, 1).times(config.knee_db()),
            mode: config.mode,
            makeup_gain: config.makeup_gain(),
            limiter: make_limiter(&config),
            samplerate,
            scratch: filled(chunksize, T::of_int(0)),
            level_peak: idle,
            level_env: idle,
            adaptive: config.adaptive_threshold(),
            relative_offset: config.relative_offset_db,
            level_slow: idle,
            slow_coef: follower_coeff(samplerate, config.adapt_time),
            last_eff_threshold: config.threshold,
            crest_gate: config.crest_gate(),
            crest_floor_db: config.crest_floor_db,
            crest_ceiling_db: config.crest_ceiling_db,
            crest_ms: crest_floor(),
            crest_peak: T::of_int(1),
            crest_ms_coeff: follower_coeff(samplerate, T::decimal(4, 1)),
            crest_peak_coeff: follower_coeff(samplerate, T::of_int(1)),
        }
    }

    /// The name of this processor.
    pub fn name(&self) -> (r: &str)
        ensures
            r@ == self.name@,
    {
        self.name.as_str()
    }

    /// Link the monitored channels into a single per-sample magnitude in the scratch buffer, using
    /// an RMS (power) sum. Unlike a plain sample sum this is independent of inter-channel
    /// correlation, so correlated and anti-correlated program are detected at the same level.
    pub fn compute_linked_magnitude(&mut self, waveforms: &Vec<Vec<T>>)
        requires
            old(self).monitor_channels@.len() > 0,
            forall|k: int|
                0 <= k < old(self).monitor_channels@.len() ==> (
                #[trigger] old(self).monitor_channels@[k]) < waveforms@.len(),
        ensures
            *final(self) == (Expander { scratch: final(self).scratch, ..*old(self) }),
            final(self).scratch@ == linked(
                old(self).scratch@,
                waveforms@,
                old(self).monitor_channels@,
            ),
    {
        let ghost before = self.scratch@;
        let ghost monitors = self.monitor_channels@;
        let ghost waves = waveforms@;
        let mut m: usize = 0;
        while m < self.monitor_channels.len()
            invariant
                m <= monitors.len(),
                *self == (Expander { scratch: self.scratch, ..*old(self) }),
                monitors == old(self).monitor_channels@,
                before == old(self).scratch@,
                waves == waveforms@,
                forall|k: int| 0 <= k < monitors.len() ==> (#[trigger] monitors[k]) < waves.len(),
                self.scratch@.len() == before.len(),
                forall|i: int|
                    0 <= i < before.len() ==> #[trigger] self.scratch@[i] == power_sum(
                        before[i],
                        waves,
                        monitors,
                        i,
                        m as int,
                    ),
            decreases monitors.len() - m,
        {
            let ch: usize = self.monitor_channels[m];
            let wave: &Vec<T> = &waveforms[ch];
            let mut i: usize = 0;
            while i < self.scratch.len() && i < wave.len()
                invariant
                    i <= before.len(),
                    i <= wave@.len(),
                    m < monitors.len(),
                    *self == (Expander { scratch: self.scratch, ..*old(self) }),
                    self.scratch@.len() == before.len(),
                    wave@ == waves[monitors[m as int] as int]@,
                    forall|j: int|
                        0 <= j < before.len() ==> #[trigger] self.scratch@[j] == power_sum(
                            before[j],
                            waves,
                            monitors,
                            j,
                            if j < i {
                                m + 1
                            } else {
                                m as int
                            },
                        ),
                decreases before.len() - i,
            {
                let v: T = wave[i];
                let sq: T = v.times(v);
                self.scratch[i] = if m == 0 {
                    sq
                } else {
                    self.scratch[i].plus(sq)
                };
                i += 1;
            }
            m += 1;
        }
        let norm: T = T::of_int(1).over(T::of_usize(self.monitor_channels.len()));
        let ghost sums = self.scratch@;
        let mut i: usize = 0;
        while i < self.scratch.len()
            invariant
                i <= sums.len(),
                *self == (Expander { scratch: self.scratch, ..*old(self) }),
                self.scratch@.len() == sums.len(),
                forall|j: int|
                    0 <= j < sums.len() ==> #[trigger] self.scratch@[j] == if j < i {
                        sums[j].s_mul(norm).s_sqrt()
                    } else {
                        sums[j]
                    },
            decreases sums.len() - i,
        {
            let v: T = self.scratch[i].times(norm).sqrt();
            self.scratch[i] = v;
            i += 1;
        }
        assert(self.scratch@ =~= linked(before, waves, monitors));
    }

    /// Update the running crest estimate from the linked magnitudes in the scratch buffer, and
    /// return the scale that drives the effective expansion ratio.
    pub fn update_crest_scale(&mut self) -> (r: T)
        ensures
            *final(self) == (Expander {
                crest_ms: old(self).crest_for(old(self).scratch@).ms,
                crest_peak: old(self).crest_for(old(self).scratch@).peak,
                ..*old(self)
            }),
            r == old(self).scale_for(old(self).scratch@),
    {
        let ghost wave = self.scratch@;
        let mut i: usize = 0;
        while i < self.scratch.len()
            invariant
                i <= wave.len(),
                wave == old(self).scratch@,
                *self == (Expander {
                    crest_ms: self.crest_ms,
                    crest_peak: self.crest_peak,
                    ..*old(self)
                }),
                self.crest() == crest_after(
                    old(self).crest(),
                    old(self).crest_ms_coeff,
                    old(self).crest_peak_coeff,
                    wave,
                    i as int,
                ),
            decreases wave.len() - i,
        {
            let val: T = self.scratch[i];
            self.crest_ms = smooth(self.crest_ms_coeff, self.crest_ms, val.times(val));
            let mag: T = val.abs();
            if self.crest_peak.lt(mag) {
                self.crest_peak = mag;
            } else {
                self.crest_peak = self.crest_peak.times(self.crest_peak_coeff);
            }
            i += 1;
        }
        let rms: T = self.crest_ms.max(crest_floor()).sqrt();
        let peak: T = self.crest_peak.max(crest_floor());
        let db: T = T::of_int(20).times(peak.over(rms).log10());
        if !self.crest_gate {
            return T::of_int(1);
        }
        if db.le(self.crest_floor_db) {
            T::of_int(1)
        } else if self.crest_ceiling_db.le(db) {
            T::of_int(0)
        } else {
            self.crest_ceiling_db.minus(db).over(self.crest_ceiling_db.minus(self.crest_floor_db))
        }
    }

    /// Follow the loudness envelope (dB) of the linked magnitudes in the scratch buffer, replacing
    /// each with its dB excess above the (possibly adaptive) threshold.
    pub fn estimate_loudness(&mut self)
        ensures
            final(self).same_setup(*old(self)),
            final(self).crest() == old(self).crest(),
            final(self).level() == level_after(
                old(self).level(),
                old(self).ballistics(),
                old(self).scratch@,
                old(self).scratch@.len() as int,
            ),
            final(self).last_eff_threshold == old(self).threshold_after(
                old(self).scratch@,
                old(self).scratch@.len() as int,
            ),
            final(self).scratch@ == old(self).excess(old(self).scratch@),
    {
        let ghost wave = self.scratch@;
        let mut i: usize = 0;
        while i < self.scratch.len()
            invariant
                i <= wave.len(),
                wave == old(self).scratch@,
                self.scratch@.len() == wave.len(),
                *self == (Expander {
                    scratch: self.scratch,
                    level_peak: self.level_peak,
                    level_env: self.level_env,
                    level_slow: self.level_slow,
                    last_eff_threshold: self.last_eff_threshold,
                    ..*old(self)
                }),
                self.level() == level_after(
                    old(self).level(),
                    old(self).ballistics(),
                    wave,
                    i as int,
                ),
                self.last_eff_threshold == old(self).threshold_after(wave, i as int),
                forall|j: int| i <= j < wave.len() ==> #[trigger] self.scratch@[j] == wave[j],
                forall|j: int|
                    0 <= j < i ==> #[trigger] self.scratch@[j] == old(self).excess(wave)[j],
            decreases wave.len() - i,
        {
            let val: T = self.scratch[i];
            let level: T = T::of_int(20).times(val.plus(T::decimal(1, 9)).log10());
            let released: T = smooth(self.release, self.level_peak, level);
            self.level_peak = level.max(released);
            self.level_env = smooth(self.attack, self.level_env, self.level_peak);
            self.level_slow = smooth(self.slow_coef, self.level_slow, self.level_peak);
            let eff_threshold: T = if self.adaptive {
                self.threshold.max(self.level_slow.plus(self.relative_offset))
            } else {
                self.threshold
            };
            self.last_eff_threshold = eff_threshold;
            self.scratch[i] = self.level_env.minus(eff_threshold);
            i += 1;
        }
        assert(self.scratch@ =~= old(self).excess(wave));
    }

    /// Calculate linear gain from the per-sample threshold excess in the scratch buffer, replacing
    /// it with the per-sample linear gain. Returns the signed applied expansion (dB, before
    /// makeup) of largest magnitude across the chunk.
    pub fn calculate_linear_gain(&mut self, crest_scale: T) -> (r: T)
        requires
            old(self).max_gain.s_neg().s_le(old(self).max_gain),
        ensures
            *final(self) == (Expander { scratch: final(self).scratch, ..*old(self) }),
            final(self).scratch@ == old(self).gains(old(self).scratch@, crest_scale),
            r == old(self).largest_expansion(
                old(self).scratch@,
                crest_scale,
                old(self).scratch@.len() as int,
            ),
    {
        let ghost over_all = self.scratch@;
        let one: T = T::of_int(1);
        let ratio: T = one.plus(self.ratio.minus(one).times(crest_scale));
        let mut peak_expansion: T = T::of_int(0);
        let mut i: usize = 0;
        while i < self.scratch.len()
            invariant
                i <= over_all.len(),
                over_all == old(self).scratch@,
                one == s_one::<T>(),
                ratio == effective_ratio(old(self).ratio, crest_scale),
                self.scratch@.len() == over_all.len(),
                *self == (Expander { scratch: self.scratch, ..*old(self) }),
                peak_expansion == old(self).largest_expansion(over_all, crest_scale, i as int),
                forall|j: int|
                    i <= j < over_all.len() ==> #[trigger] self.scratch@[j] == over_all[j],
                forall|j: int|
                    0 <= j < i ==> #[trigger] self.scratch@[j] == old(self).gains(
                        over_all,
                        crest_scale,
                    )[j],
            decreases over_all.len() - i,
        {
            let over: T = self.scratch[i];
            let expansion: T = match self.mode {
                ExpanderMode::Upward => soft_knee_upward(over, ratio, self.half_knee),
                ExpanderMode::Downward => soft_knee_upward(
                    over.negated(),
                    ratio,
                    self.half_knee,
                ).negated(),
                ExpanderMode::Both => over.times(ratio.minus(one)),
            };
            let applied: T = clamp(expansion, self.max_gain.negated(), self.max_gain);
            if peak_expansion.abs().lt(applied.abs()) {
                peak_expansion = applied;
            }
            self.scratch[i] = db_to_linear(applied.plus(self.makeup_gain));
            i += 1;
        }
        assert(self.scratch@ =~= old(self).gains(over_all, crest_scale));
        peak_expansion
    }

    /// Multiplies a waveform by the gains in the scratch buffer.
    pub fn apply_gain(&self, input: &mut Vec<T>)
        ensures
            final(input)@ == gained(old(input)@, self.scratch@, None),
    {
        let ghost before = input@;
        let mut i: usize = 0;
        while i < input.len() && i < self.scratch.len()
            invariant
                i <= input@.len(),
                i <= self.scratch@.len(),
                before == old(input)@,
                input@.len() == before.len(),
                forall|j: int|
                    0 <= j < before.len() ==> #[trigger] input@[j] == if j < i {
                        before[j].s_mul(self.scratch@[j])
                    } else {
                        before[j]
                    },
            decreases input@.len() - i,
        {
            let v: T = input[i].times(self.scratch[i]);
            input[i] = v;
            i += 1;
        }
        assert(input@ =~= gained(before, self.scratch@, None));
    }

    /// Puts a waveform through the limiter, if there is one.
    pub fn apply_limiter(&self, input: &mut Vec<T>)
        ensures
            final(input)@ == gained(old(input)@, Seq::empty(), self.limiter),
    {
        let ghost before = input@;
        if let Some(limiter) = &self.limiter {
            limiter.apply_clip(input);
        }
        assert(input@ =~= gained(before, Seq::empty(), self.limiter));
    }

    /// Apply the expander to a chunk of waveforms, modifying it in-place.
    pub fn process_chunk(&mut self, waveforms: &mut Vec<Vec<T>>) -> (r: ExpanderReport<T>)
        requires
            old(self).monitor_channels@.len() > 0,
            forall|k: int|
                0 <= k < old(self).monitor_channels@.len() ==> (
                #[trigger] old(self).monitor_channels@[k]) < old(waveforms)@.len(),
            forall|k: int|
                0 <= k < old(self).process_channels@.len() ==> (
                #[trigger] old(self).process_channels@[k]) < old(waveforms)@.len(),
            old(self).max_gain.s_neg().s_le(old(self).max_gain),
        ensures
            final(self).same_setup(*old(self)),
            ({
                let mags = linked(
                    old(self).scratch@,
                    old(waveforms)@,
                    old(self).monitor_channels@,
                );
                let scale = old(self).scale_for(mags);
                let over = old(self).excess(mags);
                let gains = old(self).gains(over, scale);
                let n = mags.len() as int;
                &&& final(self).crest() == old(self).crest_for(mags)
                &&& final(self).level() == level_after(
                    old(self).level(),
                    old(self).ballistics(),
                    mags,
                    n,
                )
                &&& final(self).last_eff_threshold == old(self).threshold_after(mags, n)
                &&& final(self).scratch@ == gains
                &&& r.expansion == old(self).largest_expansion(over, scale, n)
                &&& r.threshold == final(self).last_eff_threshold
                &&& final(waveforms)@.len() == old(waveforms)@.len()
                &&& forall|ch: int|
                    0 <= ch < old(waveforms)@.len() ==> (#[trigger] final(waveforms)@[ch])@
                        == channel_after(
                        old(self).process_channels@,
                        old(self).process_channels@.len() as int,
                        ch,
                        old(waveforms)@[ch]@,
                        gains,
                        old(self).limiter,
                    )
            }),
    {
        let ghost start = *self;
        self.compute_linked_magnitude(waveforms);
        let ghost mags = self.scratch@;
        let scale: T = self.update_crest_scale();
        assert(self.excess(mags) =~= start.excess(mags));
        self.estimate_loudness();
        proof {
            self.lemma_gain_by_setup(start, self.scratch@, scale, mags.len() as int);
        }
        let expansion: T = self.calculate_linear_gain(scale);
        let ghost gains = self.scratch@;
        let mut k: usize = 0;
        while k < self.process_channels.len()
            invariant
                k <= self.process_channels@.len(),
                self.process_channels == old(self).process_channels,
                self.limiter == old(self).limiter,
                gains == self.scratch@,
                forall|j: int|
                    0 <= j < self.process_channels@.len() ==> (
                    #[trigger] self.process_channels@[j]) < old(waveforms)@.len(),
                waveforms@.len() == old(waveforms)@.len(),
                forall|ch: int|
                    0 <= ch < waveforms@.len() ==> (#[trigger] waveforms@[ch])@ == channel_after(
                        self.process_channels@,
                        k as int,
                        ch,
                        old(waveforms)@[ch]@,
                        gains,
                        self.limiter,
                    ),
            decreases self.process_channels@.len() - k,
        {
            let ch: usize = self.process_channels[k];
            let ghost wave = waveforms@[ch as int]@;
            self.apply_gain(&mut waveforms[ch]);
            self.apply_limiter(&mut waveforms[ch]);
            assert(waveforms@[ch as int]@ =~= gained(wave, gains, self.limiter));
            k += 1;
        }
        ExpanderReport { expansion, threshold: self.last_eff_threshold }
    }

    /// Takes over new parameters. The detectors go on from where they are.
    pub fn update_parameters(&mut self, config: ExpanderParameters<T>)
        ensures
            final(self).follows(config),
            final(self).name == old(self).name,
            final(self).samplerate == old(self).samplerate,
            final(self).scratch == old(self).scratch,
            final(self).level() == old(self).level(),
            final(self).crest() == old(self).crest(),
            final(self).last_eff_threshold == old(self).last_eff_threshold,
            final(self).crest_ms_coeff == old(self).crest_ms_coeff,
            final(self).crest_peak_coeff == old(self).crest_peak_coeff,
    {
        self.channels = config.channels;
        self.monitor_channels = config.monitored();
        self.process_channels = config.processed();
        self.attack = follower_coeff(self.samplerate, config.attack);
        self.release = follower_coeff(self.samplerate, config.release);
        self.threshold = config.threshold;
        self.ratio = config.ratio;
        self.max_gain = config.max_gain_db;
        self.half_knee = T::decimal(5, 1).times(config.knee_db());
        self.mode = config.mode;
        self.makeup_gain = config.makeup_gain();
        self.adaptive = config.adaptive_threshold();
        self.relative_offset = config.relative_offset_db;
        self.slow_coef = follower_coeff(self.samplerate, config.adapt_time);
        self.crest_gate = config.crest_gate();
        self.crest_floor_db = config.crest_floor_db;
        self.crest_ceiling_db = config.crest_ceiling_db;
        self.limiter = make_limiter(&config);
    }
}

/// The limiter that the parameters ask for, if any.
pub open spec fn limiter_of<T: PrcFmt>(config: ExpanderParameters<T>) -> Option<Limiter<T>> {
    match config.clip_limit {
        Some(clip_limit) => Some(
            Limiter::of(LimiterParameters { clip_limit, soft_clip: config.soft_clip }),
        ),
        None => None,
    }
}

fn make_limiter<T: PrcFmt>(config: &ExpanderParameters<T>) -> (r: Option<Limiter<T>>)
    ensures
        r == limiter_of(*config),
{
    match config.clip_limit {
        Some(clip_limit) => Some(
            Limiter::from_config(LimiterParameters { clip_limit, soft_clip: config.soft_clip }),
        ),
        None => None,
    }
}

/// What the first failing test of the parameters says, if one fails.
pub open spec fn expander_error<T: PrcFmt>(config: ExpanderParameters<T>) -> Option<
    ConfigError<T>,
> {
    let monitor = first_missing_channel(listed(config.monitor_channels), config.channels, 0);
    let process = first_missing_channel(listed(config.process_channels), config.channels, 0);
    if config.attack.s_le(s_zero()) {
        Some(ConfigError::AttackNotPositive)
    } else if config.release.s_le(s_zero()) {
        Some(ConfigError::ReleaseNotPositive)
    } else if config.ratio.s_lt(s_one()) {
        Some(ConfigError::RatioBelowOne)
    } else if config.max_gain_db.s_lt(s_zero()) {
        Some(ConfigError::MaxGainNegative)
    } else if or_else(config.crest_gate, true) && config.crest_ceiling_db.s_le(
        config.crest_floor_db,
    ) {
        Some(ConfigError::CrestCeilingNotAboveFloor)
    } else if or_else(config.adaptive_threshold, false) && config.adapt_time.s_le(s_zero()) {
        Some(ConfigError::AdaptTimeNotPositive)
    } else if monitor is Some {
        Some(
            ConfigError::InvalidMonitorChannel { channel: monitor->0, channels: config.channels },
        )
    } else if process is Some {
        Some(
            ConfigError::InvalidProcessChannel { channel: process->0, channels: config.channels },
        )
    } else {
        None
    }
}

/// Validate the expander config.
pub fn validate_expander<T: PrcFmt>(config: &ExpanderParameters<T>) -> (r: Result<
    (),
    ConfigError<T>,
>)
    ensures
        match expander_error(*config) {
            Some(e) => r == Err::<(), ConfigError<T>>(e),
            None => r is Ok,
        },
{
    let zero: T = T::of_int(0);
    if config.attack.le(zero) {
        return Err(ConfigError::AttackNotPositive);
    }
    if config.release.le(zero) {
        return Err(ConfigError::ReleaseNotPositive);
    }
    if config.ratio.lt(T::of_int(1)) {
        return Err(ConfigError::RatioBelowOne);
    }
    if config.max_gain_db.lt(zero) {
        return Err(ConfigError::MaxGainNegative);
    }
    if config.crest_gate() && config.crest_ceiling_db.le(config.crest_floor_db) {
        return Err(ConfigError::CrestCeilingNotAboveFloor);
    }
    if config.adaptive_threshold() && config.adapt_time.le(zero) {
        return Err(ConfigError::AdaptTimeNotPositive);
    }
    let monitors: Vec<usize> = config.monitor_channels();
    if let Some(channel) = missing_channel(&monitors, config.channels) {
        return Err(ConfigError::InvalidMonitorChannel { channel, channels: config.channels });
    }
    let process: Vec<usize> = config.process_channels();
    if let Some(channel) = missing_channel(&process, config.channels) {
        return Err(ConfigError::InvalidProcessChannel { channel, channels: config.channels });
    }
    Ok(())
}

// ------------------------------- Laws -------------------------------

/// Every channel that an expander with valid parameters measures or processes exists, and there is
/// one to measure.
pub proof fn lemma_valid_parameters_name_channels<T: PrcFmt>(
    config: ExpanderParameters<T>,
    exp: Expander<T>,
)
    requires
        expander_error(config) is None,
        exp.follows(config),
        0 < config.channels,
    ensures
        exp.monitor_channels@.len() > 0,
        channels_exist(exp.monitor_channels@, config.channels as int),
        channels_exist(exp.process_channels@, config.channels as int),
{
    lemma_first_missing_channel(listed(config.monitor_channels), config.channels, 0);
    lemma_first_missing_channel(listed(config.process_channels), config.channels, 0);
}

/// The applied expansion never exceeds the maximum gain, either way.
pub proof fn lemma_expansion_is_bounded<T: PrcFmt>(exp: Expander<T>, over: T, scale: T)
    requires
        exp.max_gain.s_neg().s_le(exp.max_gain),
    ensures
        !exp.max_gain.s_lt(exp.applied(over, scale)),
        !exp.applied(over, scale).s_lt(exp.max_gain.s_neg()),
{
    lemma_clamp_within(
        raw_expansion(exp.mode, over, effective_ratio(exp.ratio, scale), exp.half_knee),
        exp.max_gain.s_neg(),
        exp.max_gain,
    );
}

/// The fixed threshold is a floor: however the program level moves, the threshold in effect never
/// lies below it, and without the adaptive mode it is the fixed threshold.
pub proof fn lemma_adaptive_respects_absolute_floor<T: PrcFmt>(
    exp: Expander<T>,
    wave: Seq<T>,
    n: int,
)
    requires
        0 < n <= wave.len(),
    ensures
        !exp.threshold_after(wave, n).s_lt(exp.threshold),
        !exp.adaptive ==> exp.threshold_after(wave, n) == exp.threshold,
{
    exp.threshold.lt_irreflexive();
    exp.threshold.max_not_below(
        level_after(exp.level(), exp.ballistics(), wave, n).slow.s_add(exp.relative_offset),
    );
}

/// A channel that is not in the list is left as it is.
pub proof fn lemma_other_channels_untouched<T: PrcFmt>(
    list: Seq<usize>,
    n: int,
    ch: int,
    wave: Seq<T>,
    gains: Seq<T>,
    limiter: Option<Limiter<T>>,
)
    requires
        0 <= n <= list.len(),
        forall|k: int| 0 <= k < n ==> #[trigger] list[k] != ch,
    ensures
        channel_after(list, n, ch, wave, gains, limiter) == wave,
    decreases n,
{
    if n > 0 {
        lemma_other_channels_untouched(list, n - 1, ch, wave, gains, limiter);
    }
}

/// The knee joins its asymptotes: at and above its upper edge, or where it has no width, the law is
/// the hard one; at and below its lower edge there is no expansion.
pub proof fn lemma_knee_joins_asymptotes<T: PrcFmt>(over: T, ratio: T, half_knee: T)
    ensures
        half_knee.s_le(s_zero()) || half_knee.s_le(over) ==> soft_knee(over, ratio, half_knee)
            == over.s_max(s_zero()).s_mul(ratio.s_sub(s_one())),
        !half_knee.s_le(s_zero()) && !half_knee.s_le(over) && over.s_le(half_knee.s_neg())
            ==> soft_knee(over, ratio, half_knee) == s_zero::<T>(),
{
}

/// The crest factor drives the ratio between its two ends: compressed material gets the full
/// scale, already dynamic material none, and where it is not used the scale is full.
pub proof fn lemma_crest_scale_ends<T: PrcFmt>(gate: bool, db: T, floor: T, ceiling: T)
    ensures
        !gate || db.s_le(floor) ==> crest_scale(gate, db, floor, ceiling) == s_one::<T>(),
        gate && !db.s_le(floor) && ceiling.s_le(db) ==> crest_scale(gate, db, floor, ceiling)
            == s_zero::<T>(),
{
}

/// The level that channels are detected at does not depend on their signs: a sample and its
/// negative have the same share in the linked magnitude, where squaring ignores the sign.
pub proof fn lemma_linking_ignores_sign<T: PrcFmt>(
    scratch: Seq<T>,
    waves: Seq<Vec<T>>,
    flipped: Seq<Vec<T>>,
    monitors: Seq<usize>,
)
    requires
        forall|a: T| #[trigger] a.s_neg().s_mul(a.s_neg()) == a.s_mul(a),
        waves.len() == flipped.len(),
        forall|k: int| 0 <= k < monitors.len() ==> (#[trigger] monitors[k]) < waves.len(),
        forall|ch: int|
            0 <= ch < waves.len() ==> (#[trigger] waves[ch])@.len() == flipped[ch]@.len(),
        forall|ch: int, i: int|
            0 <= ch < waves.len() && 0 <= i < waves[ch]@.len() ==> #[trigger] flipped[ch]@[i]
                == waves[ch]@[i] || flipped[ch]@[i] == waves[ch]@[i].s_neg(),
    ensures
        linked(scratch, flipped, monitors) == linked(scratch, waves, monitors),
{
    assert forall|i: int| 0 <= i < scratch.len() implies #[trigger] linked(
        scratch,
        flipped,
        monitors,
    )[i] == linked(scratch, waves, monitors)[i] by {
        lemma_power_sum_ignores_sign(
            scratch[i],
            waves,
            flipped,
            monitors,
            i,
            monitors.len() as int,
        );
    }
    assert(linked(scratch, flipped, monitors) =~= linked(scratch, waves, monitors));
}

proof fn lemma_power_sum_ignores_sign<T: PrcFmt>(
    held: T,
    waves: Seq<Vec<T>>,
    flipped: Seq<Vec<T>>,
    monitors: Seq<usize>,
    i: int,
    m: int,
)
    requires
        0 <= i,
        0 <= m <= monitors.len(),
        forall|a: T| #[trigger] a.s_neg().s_mul(a.s_neg()) == a.s_mul(a),
        waves.len() == flipped.len(),
        forall|k: int| 0 <= k < monitors.len() ==> (#[trigger] monitors[k]) < waves.len(),
        forall|ch: int|
            0 <= ch < waves.len() ==> (#[trigger] waves[ch])@.len() == flipped[ch]@.len(),
        forall|ch: int, i: int|
            0 <= ch < waves.len() && 0 <= i < waves[ch]@.len() ==> #[trigger] flipped[ch]@[i]
                == waves[ch]@[i] || flipped[ch]@[i] == waves[ch]@[i].s_neg(),
    ensures
        power_sum(held, flipped, monitors, i, m) == power_sum(held, waves, monitors, i, m),
    decreases m,
{
    if m > 0 {
        lemma_power_sum_ignores_sign(held, waves, flipped, monitors, i, m - 1);
        let ch = monitors[m - 1] as int;
        if i < waves[ch]@.len() {
            assert(flipped[ch]@[i] == waves[ch]@[i] || flipped[ch]@[i] == waves[ch]@[i].s_neg());
        }
    }
}

} // verus!
