//! Parameters of the filters and processors, and what can be wrong with them.

use crate::arith::s_zero;
use crate::prcfmt::PrcFmt;
use vstd::prelude::*;

verus! {

/// What a validation found wrong.
#[derive(Debug)]
pub enum ConfigError<T> {
    /// A channel to process does not exist.
    InvalidProcessChannel { channel: usize, channels: usize },
    /// A channel to monitor does not exist.
    InvalidMonitorChannel { channel: usize, channels: usize },
    /// The clip threshold must be in the range (0, 1].
    ClipThresholdOutOfRange,
    /// The minimum clip length must be at least 1.
    MinClipLenZero,
    /// The maximum clip length must be greater than or equal to the minimum.
    MaxClipLenBelowMin,
    /// The model order must be at least 1.
    ArOrderZero,
    /// The attack time must be larger than zero.
    AttackNotPositive,
    /// The release time must be larger than zero.
    ReleaseNotPositive,
    /// The ratio must be greater than or equal to one.
    RatioBelowOne,
    /// The maximum gain must be greater than or equal to zero.
    MaxGainNegative,
    /// The crest ceiling must be greater than the crest floor.
    CrestCeilingNotAboveFloor,
    /// The adaption time must be larger than zero when the adaptive threshold is enabled.
    AdaptTimeNotPositive,
    /// More channels than the limiter supports.
    TooManyChannels { channels: usize, max: usize },
    /// The ceiling must be at or below full scale.
    CeilingAboveFullScale,
    /// The release time must not be negative.
    ReleaseNegative,
    /// The shelf frequency must lie above zero and below half the oversampled rate.
    ShelfFreqOutOfRange { freq: T, max_freq: T, samplerate: usize },
    /// The triode coefficients `mu`, `kp` and `kg1` must be positive.
    TriodeCoefficientNotPositive,
    /// The triode coefficient `kvb` must be positive.
    TriodeKvbNotPositive,
    /// The triode exponent `x` must be positive.
    TriodeExponentNotPositive,
}

/// The first of the channel numbers from position `i` on that does not lie below `channels`.
pub open spec fn first_missing_channel(list: Seq<usize>, channels: usize, i: int) -> Option<usize>
    decreases list.len() - i,
{
    if i >= list.len() {
        None
    } else if list[i] >= channels {
        Some(list[i])
    } else {
        first_missing_channel(list, channels, i + 1)
    }
}

/// Looks for a channel number that does not lie below `channels`.
pub fn missing_channel(list: &Vec<usize>, channels: usize) -> (r: Option<usize>)
    ensures
        r == first_missing_channel(list@, channels, 0),
{
    let mut i: usize = 0;
    while i < list.len()
        invariant
            i <= list@.len(),
            first_missing_channel(list@, channels, 0) == first_missing_channel(
                list@,
                channels,
                i as int,
            ),
        decreases list@.len() - i,
    {
        if list[i] >= channels {
            return Some(list[i]);
        }
        i += 1;
    }
    None
}

/// Every channel number in `list` lies below `channels`.
pub open spec fn channels_exist(list: Seq<usize>, channels: int) -> bool {
    forall|i: int| 0 <= i < list.len() ==> list[i] < channels
}

/// No channel is missing exactly where every one exists.
pub proof fn lemma_first_missing_channel(list: Seq<usize>, channels: usize, i: int)
    requires
        0 <= i <= list.len(),
    ensures
        first_missing_channel(list, channels, i) is None <==> forall|j: int|
            i <= j < list.len() ==> list[j] < channels,
    decreases list.len() - i,
{
    if i < list.len() {
        lemma_first_missing_channel(list, channels, i + 1);
    }
}

/// A channel list that may be left out.
pub open spec fn listed(list: Option<Vec<usize>>) -> Seq<usize> {
    match list {
        Some(v) => v@,
        None => Seq::empty(),
    }
}

fn list_or_empty(list: &Option<Vec<usize>>) -> (r: Vec<usize>)
    ensures
        r@ == listed(*list),
{
    match list {
        Some(v) => crate::arith::copied(v.as_slice()),
        None => Vec::new(),
    }
}

// ------------------------------- Declipper -------------------------------

/// How a clipped peak is reconstructed.
#[derive(Clone, Copy, Debug, PartialEq, Eq, Structural)]
pub enum DeclipMethod {
    /// Cubic Hermite interpolation.
    Cubic,
    /// Autoregressive interpolation, with the cubic as fallback.
    Ar,
}

/// Parameters of the declipper.
pub struct DeclipperParameters<T> {
    pub channels: usize,
    /// Channels to repair. None, or an empty list, stands for all of them.
    pub process_channels: Option<Vec<usize>>,
    pub clip_threshold: T,
    pub min_clip_len: usize,
    pub max_clip_len: usize,
    pub method: DeclipMethod,
    pub ar_order: usize,
    /// Gain applied to the output, 0 dB if left out.
    pub makeup_gain_db: Option<T>,
}

impl<T: PrcFmt> DeclipperParameters<T> {
    /// The channels to repair, as listed.
    pub fn process_channels(&self) -> (r: Vec<usize>)
        ensures
            r@ == listed(self.process_channels),
    {
        list_or_empty(&self.process_channels)
    }

    /// The output gain in decibels.
    pub open spec fn s_makeup_gain_db(self) -> T {
        match self.makeup_gain_db {
            Some(db) => db,
            None => s_zero(),
        }
    }

    pub fn makeup_gain_db(&self) -> (r: T)
        ensures
            r == self.s_makeup_gain_db(),
    {
        match self.makeup_gain_db {
            Some(db) => db,
            None => T::of_int(0),
        }
    }
}

// ------------------------------- TruePeak -------------------------------

/// Parameters of the true-peak limiter.
pub struct TruePeakParameters<T> {
    pub channels: usize,
    /// Level that the true peak is held at, -1 dBFS if left out.
    pub ceiling_dbfs: Option<T>,
    pub release_ms: T,
}

impl<T: PrcFmt> TruePeakParameters<T> {
    /// The ceiling in dBFS.
    pub open spec fn s_ceiling_dbfs(self) -> T {
        match self.ceiling_dbfs {
            Some(db) => db,
            None => T::s_int(-1),
        }
    }

    pub fn ceiling_dbfs(&self) -> (r: T)
        ensures
            r == self.s_ceiling_dbfs(),
    {
        match self.ceiling_dbfs {
            Some(db) => db,
            None => T::of_int(-1),
        }
    }
}

// ------------------------------- TubeStage -------------------------------

/// Parameters of the polynomial waveshaper.
pub struct PolynomialModelParameters<T> {
    pub drive_db: T,
    pub bias: T,
    pub k2: T,
    pub k3: T,
    pub k4: T,
}

/// Parameters of the triode model. What is left out of the tube itself is that of a 300B.
pub struct TriodeModelParameters<T> {
    pub mu: Option<T>,
    pub kp: Option<T>,
    pub kvb: Option<T>,
    pub kg1: Option<T>,
    pub x: Option<T>,
    pub vbias: Option<T>,
    pub vplate: Option<T>,
    pub drive_db: T,
    pub cathode_bypass_freq: T,
    pub coupling_freq_in: T,
    pub coupling_freq_out: T,
    pub sag_amount: T,
}

/// A value that may be left out.
pub open spec fn or_else<T>(v: Option<T>, default: T) -> T {
    match v {
        Some(v) => v,
        None => default,
    }
}

impl<T: PrcFmt> TriodeModelParameters<T> {
    /// The amplification factor, 3.85 by default.
    pub open spec fn s_mu(self) -> T {
        or_else(self.mu, T::s_dec(385, 2))
    }

    /// The knee factor, 4.5 by default.
    pub open spec fn s_kp(self) -> T {
        or_else(self.kp, T::s_dec(45, 1))
    }

    /// The knee voltage, 140 by default.
    pub open spec fn s_kvb(self) -> T {
        or_else(self.kvb, T::s_int(140))
    }

    /// The current scale, 1500 by default.
    pub open spec fn s_kg1(self) -> T {
        or_else(self.kg1, T::s_int(1500))
    }

    /// The exponent, 1.4 by default.
    pub open spec fn s_x(self) -> T {
        or_else(self.x, T::s_dec(14, 1))
    }

    /// The grid bias, -60 V by default.
    pub open spec fn s_vbias(self) -> T {
        or_else(self.vbias, T::s_int(-60))
    }

    /// The plate voltage, 300 V by default.
    pub open spec fn s_vplate(self) -> T {
        or_else(self.vplate, T::s_int(300))
    }

    pub fn mu(&self) -> (r: T)
        ensures
            r == self.s_mu(),
    {
        match self.mu {
            Some(v) => v,
            None => T::decimal(385, 2),
        }
    }

    pub fn kp(&self) -> (r: T)
        ensures
            r == self.s_kp(),
    {
        match self.kp {
            Some(v) => v,
            None => T::decimal(45, 1),
        }
    }

    pub fn kvb(&self) -> (r: T)
        ensures
            r == self.s_kvb(),
    {
        match self.kvb {
            Some(v) => v,
            None => T::of_int(140),
        }
    }

    pub fn kg1(&self) -> (r: T)
        ensures
            r == self.s_kg1(),
    {
        match self.kg1 {
            Some(v) => v,
            None => T::of_int(1500),
        }
    }

    pub fn x(&self) -> (r: T)
        ensures
            r == self.s_x(),
    {
        match self.x {
            Some(v) => v,
            None => T::decimal(14, 1),
        }
    }

    pub fn vbias(&self) -> (r: T)
        ensures
            r == self.s_vbias(),
    {
        match self.vbias {
            Some(v) => v,
            None => T::of_int(-60),
        }
    }

    pub fn vplate(&self) -> (r: T)
        ensures
            r == self.s_vplate(),
    {
        match self.vplate {
            Some(v) => v,
            None => T::of_int(300),
        }
    }
}

/// Which waveshaper a tube stage uses.
pub enum TubeModel<T> {
    Polynomial(PolynomialModelParameters<T>),
    Triode(TriodeModelParameters<T>),
}

/// Parameters of the output transformer.
pub struct TransformerParameters<T> {
    pub enabled: bool,
    pub hf_shelf_freq: T,
    pub hf_shelf_gain_db: T,
}

/// The oversampling factor.
#[derive(Clone, Copy, Debug, PartialEq, Eq, Structural)]
pub enum OversamplingFactor {
    F1,
    F2,
    F4,
    F8,
}

impl OversamplingFactor {
    /// The factor as a number.
    pub open spec fn s_factor(self) -> usize {
        match self {
            OversamplingFactor::F1 => 1,
            OversamplingFactor::F2 => 2,
            OversamplingFactor::F4 => 4,
            OversamplingFactor::F8 => 8,
        }
    }

    pub fn factor(&self) -> (r: usize)
        ensures
            r == self.s_factor(),
    {
        match self {
            OversamplingFactor::F1 => 1,
            OversamplingFactor::F2 => 2,
            OversamplingFactor::F4 => 4,
            OversamplingFactor::F8 => 8,
        }
    }
}

/// How the oversampling is done.
#[derive(Clone, Copy, Debug, PartialEq, Eq, Structural)]
pub enum OversamplingBackend {
    /// Cascade of halfband FIR stages.
    HalfbandFir,
    /// Synchronous FFT resampler.
    Rubato,
}

/// Parameters of the oversampling.
#[derive(Clone, Copy, Debug, PartialEq, Eq, Structural)]
pub struct OversamplingParameters {
    pub factor: OversamplingFactor,
    pub backend: OversamplingBackend,
}

/// Parameters of the tube stage.
pub struct TubeStageParameters<T> {
    pub model: TubeModel<T>,
    pub transformer: TransformerParameters<T>,
    pub dc_blocker: bool,
    /// Gain applied to the output, 0 dB if left out.
    pub makeup_gain_db: Option<T>,
    pub oversampling: OversamplingParameters,
}

impl<T: PrcFmt> TubeStageParameters<T> {
    /// The output gain in decibels.
    pub open spec fn s_makeup_gain_db(self) -> T {
        or_else(self.makeup_gain_db, s_zero())
    }

    pub fn makeup_gain_db(&self) -> (r: T)
        ensures
            r == self.s_makeup_gain_db(),
    {
        match self.makeup_gain_db {
            Some(db) => db,
            None => T::of_int(0),
        }
    }
}

// ------------------------------- Expander -------------------------------

/// Parameters of the limiter.
pub struct LimiterParameters<T> {
    /// The level to clip at, in dBFS.
    pub clip_limit: T,
    /// Soft rather than hard clipping, off if left out.
    pub soft_clip: Option<bool>,
}

impl<T> LimiterParameters<T> {
    pub fn soft_clip(&self) -> (r: bool)
        ensures
            r == or_else(self.soft_clip, false),
    {
        match self.soft_clip {
            Some(v) => v,
            None => false,
        }
    }
}

/// On which side of the threshold an expander acts.
#[derive(Clone, Copy, Debug, PartialEq, Eq, Structural)]
pub enum ExpanderMode {
    /// Boosts what lies above the threshold.
    Upward,
    /// Attenuates what lies below the threshold.
    Downward,
    /// Both.
    Both,
}

/// Parameters of the expander.
pub struct ExpanderParameters<T> {
    pub channels: usize,
    /// Channels that the level is measured on. None, or an empty list, stands for all of them.
    pub monitor_channels: Option<Vec<usize>>,
    /// Channels that the gain is applied to. None, or an empty list, stands for all of them.
    pub process_channels: Option<Vec<usize>>,
    /// Attack and release time in seconds.
    pub attack: T,
    pub release: T,
    pub threshold: T,
    pub ratio: T,
    pub max_gain_db: T,
    pub mode: ExpanderMode,
    /// Gain applied to the output, 0 dB if left out.
    pub makeup_gain: Option<T>,
    pub soft_clip: Option<bool>,
    /// Level of the output limiter in dBFS. There is none if it is left out.
    pub clip_limit: Option<T>,
    /// Whether the crest factor drives the ratio, on if left out.
    pub crest_gate: Option<bool>,
    pub crest_floor_db: T,
    pub crest_ceiling_db: T,
    /// Width of the knee, 6 dB if left out.
    pub knee_db: Option<T>,
    /// Whether the threshold follows the program level, off if left out.
    pub adaptive_threshold: Option<bool>,
    pub relative_offset_db: T,
    pub adapt_time: T,
}

/// The listed channels, or all where the list is empty.
pub open spec fn listed_or_all(list: Option<Vec<usize>>, channels: int) -> Seq<usize> {
    if listed(list).len() == 0 {
        Seq::new(channels as nat, |ch: int| ch as usize)
    } else {
        listed(list)
    }
}

fn list_or_all(list: &Option<Vec<usize>>, channels: usize) -> (r: Vec<usize>)
    ensures
        r@ == listed_or_all(*list, channels as int),
{
    let mut r: Vec<usize> = list_or_empty(list);
    if r.len() == 0 {
        let mut ch: usize = 0;
        while ch < channels
            invariant
                ch <= channels,
                r@.len() == ch,
                forall|k: int| 0 <= k < ch ==> #[trigger] r@[k] == k,
            decreases channels - ch,
        {
            r.push(ch);
            ch += 1;
        }
        assert(r@ =~= Seq::new(channels as nat, |ch: int| ch as usize));
    }
    r
}

impl<T: PrcFmt> ExpanderParameters<T> {
    /// The channels to measure, as listed.
    pub fn monitor_channels(&self) -> (r: Vec<usize>)
        ensures
            r@ == listed(self.monitor_channels),
    {
        list_or_empty(&self.monitor_channels)
    }

    /// The channels to process, as listed.
    pub fn process_channels(&self) -> (r: Vec<usize>)
        ensures
            r@ == listed(self.process_channels),
    {
        list_or_empty(&self.process_channels)
    }

    /// The channels to measure.
    pub fn monitored(&self) -> (r: Vec<usize>)
        ensures
            r@ == listed_or_all(self.monitor_channels, self.channels as int),
    {
        list_or_all(&self.monitor_channels, self.channels)
    }

    /// The channels to process.
    pub fn processed(&self) -> (r: Vec<usize>)
        ensures
            r@ == listed_or_all(self.process_channels, self.channels as int),
    {
        list_or_all(&self.process_channels, self.channels)
    }

    /// The output gain in decibels.
    pub open spec fn s_makeup_gain(self) -> T {
        or_else(self.makeup_gain, s_zero())
    }

    pub fn makeup_gain(&self) -> (r: T)
        ensures
            r == self.s_makeup_gain(),
    {
        match self.makeup_gain {
            Some(db) => db,
            None => T::of_int(0),
        }
    }

    /// The knee width in decibels.
    pub open spec fn s_knee_db(self) -> T {
        or_else(self.knee_db, T::s_int(6))
    }

    pub fn knee_db(&self) -> (r: T)
        ensures
            r == self.s_knee_db(),
    {
        match self.knee_db {
            Some(db) => db,
            None => T::of_int(6),
        }
    }

    pub fn crest_gate(&self) -> (r: bool)
        ensures
            r == or_else(self.crest_gate, true),
    {
        match self.crest_gate {
            Some(v) => v,
            None => true,
        }
    }

    pub fn adaptive_threshold(&self) -> (r: bool)
        ensures
            r == or_else(self.adaptive_threshold, false),
    {
        match self.adaptive_threshold {
            Some(v) => v,
            None => false,
        }
    }
}

} // verus!
