//! Tube stage filter: simulates an audiophile single-ended-triode amplifier. Pipeline (executed at
//! the oversampled rate, except for the initial up- and final down-sampling): upsample, DC blocker,
//! waveshaper (polynomial or triode), transformer high-frequency shelf, DC blocker, makeup gain,
//! downsample.

pub mod gain_laws;
pub mod halfband;
pub mod halfband_laws;
pub mod oversample;
pub mod oversample_laws;
pub mod polynomial;
pub mod ramp;
pub mod shape_laws;
pub mod shaper;
pub mod triode;
pub mod triode_laws;
pub mod window_laws;

use crate::arith::{filled, s_zero};
use crate::config::{
    ConfigError, OversamplingBackend, OversamplingParameters, TubeModel, TubeStageParameters,
};
use crate::filters::tubestage::oversample::{
    is_power_of_two, AnyOversampler, HalfbandFirOversampler, IdentityOversampler, Oversampler,
    RubatoOversampler,
};
use crate::filters::tubestage::shaper::Shaper;
use crate::prcfmt::PrcFmt;
use crate::utils::resampling::Resampler;
use vstd::prelude::*;

verus! {

/// A resampler for each direction.
pub struct ResamplerPair<R> {
    pub up: R,
    pub down: R,
}

impl<R> ResamplerPair<R> {
    /// Whether the pair takes chunks of `chunksize` samples to `factor` times the rate and back.
    pub open spec fn suits<T: PrcFmt>(self, factor: int, chunksize: int) -> bool where
        R: Resampler<T>,
     {
        &&& self.up.wf()
        &&& self.up.s_nbr_channels() == 1
        &&& self.up.serves(chunksize, factor * chunksize)
        &&& self.down.wf()
        &&& self.down.s_nbr_channels() == 1
        &&& self.down.serves(factor * chunksize, chunksize)
    }
}

/// The tube stage. `R` is the resampler that the synchronous backend uses.
pub struct TubeStage<T: PrcFmt, R> {
    pub name: String,
    pub samplerate: usize,
    pub chunksize: usize,
    pub oversampler: AnyOversampler<T, R>,
    pub factor: usize,
    /// The oversampling backend that the parameters ask for.
    pub backend: OversamplingBackend,
    pub shaper: Shaper<T>,
    /// Scratch buffer for the oversampled domain (length = factor * chunksize).
    pub scratch: Vec<T>,
}

/// Whether an oversampler with the synchronous backend has to be built.
pub open spec fn needs_pair(p: OversamplingParameters) -> bool {
    p.factor.s_factor() > 1 && p.backend == OversamplingBackend::Rubato
}

/// Whether `o` is the oversampler that is used where the given resamplers cannot be: none at
/// factor one, else a halfband cascade that has seen no audio yet.
pub open spec fn is_fresh_halfband<T: PrcFmt, R>(o: AnyOversampler<T, R>, factor: int) -> bool {
    if factor == 1 {
        o is Identity
    } else {
        &&& o is Halfband
        &&& o->Halfband_0.wf()
        &&& o->Halfband_0.factor == factor
        &&& forall|s: int|
            0 <= s < o->Halfband_0.stages@.len() ==> (
            #[trigger] o->Halfband_0.stages@[s]).is_fresh()
    }
}

/// Whether `o` is what the parameters ask for.
pub open spec fn is_built<T: PrcFmt, R: Resampler<T>>(
    o: AnyOversampler<T, R>,
    p: OversamplingParameters,
    chunksize: int,
    pair: Option<ResamplerPair<R>>,
) -> bool {
    if needs_pair(p) {
        &&& o is Rubato
        &&& o->Rubato_0.wf()
        &&& o->Rubato_0.factor == p.factor.s_factor()
        &&& o->Rubato_0.chunksize == chunksize
        &&& o->Rubato_0.upsampler == pair->0.up
        &&& o->Rubato_0.downsampler == pair->0.down
    } else {
        is_fresh_halfband(o, p.factor.s_factor() as int)
    }
}

fn build_halfband<T: PrcFmt, R>(factor: usize, chunksize: usize) -> (r: AnyOversampler<T, R>)
    requires
        factor >= 1,
        is_power_of_two(factor as int),
        factor * chunksize <= usize::MAX,
    ensures
        is_fresh_halfband(r, factor as int),
{
    if factor == 1 {
        AnyOversampler::Identity(IdentityOversampler)
    } else {
        AnyOversampler::Halfband(HalfbandFirOversampler::new(factor, chunksize))
    }
}

fn build_oversampler<T: PrcFmt, R: Resampler<T>>(
    p: &OversamplingParameters,
    chunksize: usize,
    pair: Option<ResamplerPair<R>>,
) -> (r: AnyOversampler<T, R>)
    requires
        p.factor.s_factor() * chunksize <= usize::MAX,
        needs_pair(*p) ==> pair is Some && pair->0.suits::<T>(
            p.factor.s_factor() as int,
            chunksize as int,
        ),
    ensures
        is_built(r, *p, chunksize as int, pair),
{
    proof {
        reveal_with_fuel(is_power_of_two, 4);
    }
    let factor: usize = p.factor.factor();
    if factor > 1 && p.backend == OversamplingBackend::Rubato {
        if let Some(pair) = pair {
            return AnyOversampler::Rubato(
                RubatoOversampler::new(factor, chunksize, pair.up, pair.down),
            );
        }
    }
    build_halfband(factor, chunksize)
}

impl<T: PrcFmt, R: Resampler<T>> TubeStage<T, R> {
    /// What holds of the filter between calls.
    pub open spec fn wf(self) -> bool {
        &&& self.oversampler.wf()
        &&& self.oversampler.s_factor() == self.factor
        &&& self.oversampler.takes(self.chunksize as int)
        &&& 1 <= self.factor <= 8
        &&& is_power_of_two(self.factor as int)
        &&& self.scratch@.len() == self.factor * self.chunksize
    }

    /// The rate that the waveshaper runs at.
    pub open spec fn oversampled_fs(self) -> int {
        self.samplerate * self.factor
    }

    /// Builds the filter. A pair of resamplers is handed in for the synchronous backend.
    pub fn from_config(
        name: &str,
        params: TubeStageParameters<T>,
        samplerate: usize,
        chunksize: usize,
        pair: Option<ResamplerPair<R>>,
    ) -> (r: Self)
        requires
            samplerate * params.oversampling.factor.s_factor() <= usize::MAX,
            params.oversampling.factor.s_factor() * chunksize <= usize::MAX,
            needs_pair(params.oversampling) ==> pair is Some && pair->0.suits::<T>(
                params.oversampling.factor.s_factor() as int,
                chunksize as int,
            ),
        ensures
            r.wf(),
            r.name@ == name@,
            r.samplerate == samplerate,
            r.chunksize == chunksize,
            r.factor == params.oversampling.factor.s_factor(),
            r.backend == params.oversampling.backend,
            is_built(r.oversampler, params.oversampling, chunksize as int, pair),
            r.shaper == Shaper::resting(params, r.oversampled_fs()),
    {
        proof {
            reveal_with_fuel(is_power_of_two, 4);
        }
        let factor: usize = params.oversampling.factor.factor();
        let oversampled_fs: usize = samplerate * factor;
        let oversampler: AnyOversampler<T, R> = build_oversampler(
            &params.oversampling,
            chunksize,
            pair,
        );
        let shaper: Shaper<T> = Shaper::from_config(&params, oversampled_fs);
        TubeStage {
            name: name.to_owned(),
            samplerate,
            chunksize,
            oversampler,
            factor,
            backend: params.oversampling.backend,
            shaper,
            scratch: filled(factor * chunksize, T::of_int(0)),
        }
    }

    /// The name of this filter.
    pub fn name(&self) -> (r: &str)
        ensures
            r@ == self.name@,
    {
        self.name.as_str()
    }

    /// Whether the way from `wave` to `out` goes up by the oversampler `begin`, through the
    /// waveshaper, and down again.
    pub open spec fn passed(
        self,
        after: Self,
        begin: AnyOversampler<T, R>,
        mid: AnyOversampler<T, R>,
        wave: Seq<T>,
        high: Seq<T>,
        out: Seq<T>,
    ) -> bool {
        &&& high.len() == self.factor * wave.len()
        &&& begin.upsampled(&mid, wave, high)
        &&& mid.downsampled(&after.oversampler, self.shaper.shaped(high), out)
        &&& after.shaper == self.shaper.after_wave(high, high.len() as int)
    }

    /// Processes a waveform in place. Where its length is not the one that the filter is prepared
    /// for, the filter is rebuilt for the new length, with the halfband backend.
    pub fn process_waveform(&mut self, waveform: &mut [T])
        requires
            old(self).wf(),
            old(self).factor * old(waveform)@.len() <= usize::MAX,
        ensures
            final(self).wf(),
            final(self).name == old(self).name,
            final(self).samplerate == old(self).samplerate,
            final(self).factor == old(self).factor,
            final(self).backend == old(self).backend,
            final(waveform)@.len() == old(waveform)@.len(),
            old(waveform)@.len() == 0 ==> *final(self) == *old(self),
            old(waveform)@.len() > 0 ==> {
                &&& final(self).chunksize == old(waveform)@.len()
                &&& exists|begin: AnyOversampler<T, R>, mid: AnyOversampler<T, R>, high: Seq<T>|
                    {
                        &&& if old(waveform)@.len() == old(self).chunksize {
                            begin == old(self).oversampler
                        } else {
                            is_fresh_halfband(begin, old(self).factor as int)
                        }
                        &&& #[trigger] old(self).passed(
                            *final(self),
                            begin,
                            mid,
                            old(waveform)@,
                            high,
                            final(waveform)@,
                        )
                    }
            },
    {
        let n: usize = waveform.len();
        if n == 0 {
            return ;
        }
        let ghost wave = waveform@;
        let expected_high: usize = self.factor * n;
        if n != self.chunksize {
            self.scratch = filled(expected_high, T::of_int(0));
            self.chunksize = n;
            self.oversampler = build_halfband(self.factor, n);
        }
        let ghost begin = self.oversampler;
        self.oversampler.upsample(waveform, self.scratch.as_mut_slice());
        let ghost mid = self.oversampler;
        let ghost high = self.scratch@;
        self.shaper.process_wave(&mut self.scratch);
        self.oversampler.downsample(self.scratch.as_slice(), waveform);
        assert(old(self).passed(*self, begin, mid, wave, high, waveform@));
    }

    /// Whether new parameters ask for another oversampler.
    pub open spec fn rebuilds(self, p: OversamplingParameters) -> bool {
        p.factor.s_factor() != self.factor || p.backend != self.backend
    }

    /// Takes over new parameters. The oversampler is rebuilt only if the factor or the backend
    /// changed; the waveshaper is updated in place when possible.
    pub fn update_parameters(
        &mut self,
        params: TubeStageParameters<T>,
        pair: Option<ResamplerPair<R>>,
    )
        requires
            old(self).wf(),
            old(self).samplerate * params.oversampling.factor.s_factor() <= usize::MAX,
            params.oversampling.factor.s_factor() * old(self).chunksize <= usize::MAX,
            old(self).rebuilds(params.oversampling) && needs_pair(
                params.oversampling,
            ) ==> pair is Some && pair->0.suits::<T>(
                params.oversampling.factor.s_factor() as int,
                old(self).chunksize as int,
            ),
        ensures
            final(self).wf(),
            final(self).name == old(self).name,
            final(self).samplerate == old(self).samplerate,
            final(self).chunksize == old(self).chunksize,
            final(self).factor == params.oversampling.factor.s_factor(),
            final(self).backend == params.oversampling.backend,
            if old(self).rebuilds(params.oversampling) {
                is_built(
                    final(self).oversampler,
                    params.oversampling,
                    old(self).chunksize as int,
                    pair,
                )
            } else {
                final(self).oversampler == old(self).oversampler
            },
            final(self).shaper == old(self).shaper.redirected(
                params,
                final(self).oversampled_fs(),
            ),
    {
        proof {
            reveal_with_fuel(is_power_of_two, 4);
        }
        let new_factor: usize = params.oversampling.factor.factor();
        if new_factor != self.factor || params.oversampling.backend != self.backend {
            self.factor = new_factor;
            self.backend = params.oversampling.backend;
            self.scratch = filled(new_factor * self.chunksize, T::of_int(0));
            self.oversampler = build_oversampler(&params.oversampling, self.chunksize, pair);
        }
        let oversampled_fs: usize = self.samplerate * self.factor;
        self.shaper.update(&params, oversampled_fs);
    }
}

/// The highest frequency at the oversampled rate: half of it.
pub open spec fn nyquist<T: PrcFmt>(samplerate: int, factor: int) -> T {
    T::s_int(samplerate).s_mul(T::s_int(factor)).s_div(T::s_int(2))
}

/// What the first failing test of the parameters says, if one fails.
pub open spec fn tubestage_error<T: PrcFmt>(
    samplerate: usize,
    params: TubeStageParameters<T>,
) -> Option<ConfigError<T>> {
    let max_freq = nyquist::<T>(
        samplerate as int,
        params.oversampling.factor.s_factor() as int,
    );
    let freq = params.transformer.hf_shelf_freq;
    if params.transformer.enabled && (freq.s_le(s_zero()) || max_freq.s_le(freq)) {
        Some(ConfigError::ShelfFreqOutOfRange { freq, max_freq, samplerate })
    } else {
        match params.model {
            TubeModel::Polynomial(_) => None,
            TubeModel::Triode(p) => if p.s_mu().s_le(s_zero()) || p.s_kp().s_le(s_zero())
                || p.s_kg1().s_le(s_zero()) {
                Some(ConfigError::TriodeCoefficientNotPositive)
            } else if p.s_kvb().s_le(s_zero()) {
                Some(ConfigError::TriodeKvbNotPositive)
            } else if p.s_x().s_le(s_zero()) {
                Some(ConfigError::TriodeExponentNotPositive)
            } else {
                None
            },
        }
    }
}

/// Validate the tube-stage config. Returns Ok if no obvious problem is found.
pub fn validate_config<T: PrcFmt>(samplerate: usize, params: &TubeStageParameters<T>) -> (r: Result<
    (),
    ConfigError<T>,
>)
    ensures
        match tubestage_error(samplerate, *params) {
            Some(e) => r == Err::<(), ConfigError<T>>(e),
            None => r is Ok,
        },
{
    let zero: T = T::of_int(0);
    let factor: usize = params.oversampling.factor.factor();
    let max_freq: T = T::of_usize(samplerate).times(T::of_usize(factor)).over(T::of_int(2));
    if params.transformer.enabled {
        let freq: T = params.transformer.hf_shelf_freq;
        if freq.le(zero) || max_freq.le(freq) {
            return Err(ConfigError::ShelfFreqOutOfRange { freq, max_freq, samplerate });
        }
    }
    if let TubeModel::Triode(p) = &params.model {
        if p.mu().le(zero) || p.kp().le(zero) || p.kg1().le(zero) {
            return Err(ConfigError::TriodeCoefficientNotPositive);
        }
        if p.kvb().le(zero) {
            return Err(ConfigError::TriodeKvbNotPositive);
        }
        if p.x().le(zero) {
            return Err(ConfigError::TriodeExponentNotPositive);
        }
    }
    Ok(())
}

} // verus!
