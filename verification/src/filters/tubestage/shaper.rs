//! What the tube stage does to a sample at the oversampled rate.

use crate::arith::{db_to_linear, s_db_to_linear, s_zero};
use crate::config::{TransformerParameters, TubeModel, TubeStageParameters};
use crate::filters::biquad::{coefficients_of, Biquad, BiquadCoefficients, BiquadParameters};
use crate::filters::tubestage::polynomial::{s_smooth_tau, smooth_tau, PolynomialModel};
use crate::filters::tubestage::ramp::RampedValue;
use crate::filters::tubestage::triode::TriodeModel;
use crate::fixed::{magnitude, Fixed, ONE};
use crate::prcfmt::PrcFmt;
use vstd::prelude::*;

verus! {

/// One-pole high-pass: `y[n] = x[n] - x[n-1] + r * y[n-1]`.
#[derive(Clone, Copy)]
pub struct DcBlocker<T: PrcFmt> {
    pub x1: T,
    pub y1: T,
    pub r: T,
}

impl<T: PrcFmt> DcBlocker<T> {
    /// A blocker that has seen no audio yet. Its corner is at 5 Hz, to remove DC and infrasonic
    /// content without affecting the audio band.
    pub open spec fn at_rest(fs: int) -> Self {
        DcBlocker {
            x1: s_zero(),
            y1: s_zero(),
            r: T::s_int(-2).s_mul(T::s_pi()).s_mul(T::s_int(5)).s_div(T::s_int(fs)).s_exp(),
        }
    }

    /// The output for the input `x`.
    pub open spec fn output(self, x: T) -> T {
        x.s_sub(self.x1).s_add(self.r.s_mul(self.y1))
    }

    /// The blocker after the input `x`.
    pub open spec fn after(self, x: T) -> Self {
        DcBlocker { x1: x, y1: self.output(x), r: self.r }
    }

    pub fn new(fs: usize) -> (r: Self)
        ensures
            r == Self::at_rest(fs as int),
    {
        let r: T = T::of_int(-2).times(T::pi()).times(T::of_int(5)).over(T::of_usize(fs)).exp();
        DcBlocker { x1: T::of_int(0), y1: T::of_int(0), r }
    }

    pub fn process_single(&mut self, x: T) -> (r: T)
        ensures
            r == old(self).output(x),
            *final(self) == old(self).after(x),
    {
        let y: T = x.minus(self.x1).plus(self.r.times(self.y1));
        self.x1 = x;
        self.y1 = y;
        y
    }
}

/// The waveshaper in use.
#[derive(Clone, Copy)]
pub enum Model<T: PrcFmt> {
    Polynomial(PolynomialModel<T>),
    Triode(TriodeModel<T>),
}

impl<T: PrcFmt> Model<T> {
    /// The model that rests at the given parameters.
    pub open spec fn resting(p: TubeModel<T>, fs: int) -> Self {
        match p {
            TubeModel::Polynomial(p) => Model::Polynomial(PolynomialModel::resting(p, fs)),
            TubeModel::Triode(p) => Model::Triode(TriodeModel::resting(p, fs)),
        }
    }

    /// The model on its way to the given parameters. A model of the other kind starts anew.
    pub open spec fn redirected(self, p: TubeModel<T>, fs: int) -> Self {
        match (self, p) {
            (Model::Polynomial(m), TubeModel::Polynomial(q)) => Model::Polynomial(
                m.redirected(q, fs),
            ),
            (Model::Triode(m), TubeModel::Triode(q)) => Model::Triode(m.redirected(q, fs)),
            _ => Self::resting(p, fs),
        }
    }

    /// The output for the input `x`.
    pub open spec fn output(self, x: T) -> T {
        match self {
            Model::Polynomial(m) => m.output(x),
            Model::Triode(m) => m.output(x),
        }
    }

    /// The model after the input `x`.
    pub open spec fn after(self, x: T) -> Self {
        match self {
            Model::Polynomial(m) => Model::Polynomial(m.ticked()),
            Model::Triode(m) => Model::Triode(m.after(x)),
        }
    }

    pub fn from_config(p: &TubeModel<T>, fs: usize) -> (r: Self)
        ensures
            r == Self::resting(*p, fs as int),
    {
        match p {
            TubeModel::Polynomial(p) => Model::Polynomial(PolynomialModel::from_config(p, fs)),
            TubeModel::Triode(p) => Model::Triode(TriodeModel::from_config(p, fs)),
        }
    }

    /// Update the active model in place when possible to avoid clicks.
    pub fn update(&mut self, p: &TubeModel<T>, fs: usize)
        ensures
            *final(self) == old(self).redirected(*p, fs as int),
    {
        let next: Model<T> = match (*self, p) {
            (Model::Polynomial(mut m), TubeModel::Polynomial(q)) => {
                m.update(q, fs);
                Model::Polynomial(m)
            },
            (Model::Triode(mut m), TubeModel::Triode(q)) => {
                m.update(q, fs);
                Model::Triode(m)
            },
            _ => Self::from_config(p, fs),
        };
        *self = next;
    }

    pub fn process_sample(&mut self, x: T) -> (r: T)
        ensures
            r == old(self).output(x),
            *final(self) == old(self).after(x),
    {
        match self {
            Model::Polynomial(m) => m.process_sample(x),
            Model::Triode(m) => m.process_sample(x),
        }
    }
}

/// The high-frequency shelf of the output transformer.
pub fn make_transformer_shelf<T: PrcFmt>(freq: T, gain_db: T, fs: usize) -> (r: Biquad<T>)
    ensures
        r == Biquad::at_rest(
            coefficients_of(fs as int, BiquadParameters::HighshelfFO { freq, gain: gain_db }),
        ),
{
    Biquad::new(
        BiquadCoefficients::from_config(fs, BiquadParameters::HighshelfFO { freq, gain: gain_db }),
    )
}

/// The transformer shelf at rest, where it is enabled.
pub open spec fn shelf_at_rest<T: PrcFmt>(p: TransformerParameters<T>, fs: int) -> Option<
    Biquad<T>,
> {
    if p.enabled {
        Some(
            Biquad::at_rest(
                coefficients_of(
                    fs,
                    BiquadParameters::HighshelfFO {
                        freq: p.hf_shelf_freq,
                        gain: p.hf_shelf_gain_db,
                    },
                ),
            ),
        )
    } else {
        None
    }
}

fn make_shelf<T: PrcFmt>(p: &TransformerParameters<T>, fs: usize) -> (r: Option<Biquad<T>>)
    ensures
        r == shelf_at_rest(*p, fs as int),
{
    if p.enabled {
        Some(make_transformer_shelf(p.hf_shelf_freq, p.hf_shelf_gain_db, fs))
    } else {
        None
    }
}

/// A DC blocker after an update: one that is there stays, one that is missing starts at rest.
pub open spec fn blocker_kept<T: PrcFmt>(
    enabled: bool,
    before: Option<DcBlocker<T>>,
    fs: int,
) -> Option<DcBlocker<T>> {
    if enabled {
        match before {
            Some(dc) => Some(dc),
            None => Some(DcBlocker::at_rest(fs)),
        }
    } else {
        None
    }
}

fn keep_blocker<T: PrcFmt>(
    enabled: bool,
    before: Option<DcBlocker<T>>,
    fs: usize,
) -> (r: Option<DcBlocker<T>>)
    ensures
        r == blocker_kept(enabled, before, fs as int),
{
    if enabled {
        match before {
            Some(dc) => Some(dc),
            None => Some(DcBlocker::new(fs)),
        }
    } else {
        None
    }
}

/// The chain at the oversampled rate: DC blocker, waveshaper, transformer shelf, DC blocker, makeup
/// gain.
#[derive(Clone, Copy)]
pub struct Shaper<T: PrcFmt> {
    pub dc_blocker_in: Option<DcBlocker<T>>,
    pub model: Model<T>,
    pub transformer: Option<Biquad<T>>,
    pub dc_blocker_out: Option<DcBlocker<T>>,
    pub makeup_gain: RampedValue<T>,
}

impl<T: PrcFmt> Shaper<T> {
    /// The chain that rests at the given parameters.
    pub open spec fn resting(p: TubeStageParameters<T>, fs: int) -> Self {
        Shaper {
            dc_blocker_in: blocker_kept(p.dc_blocker, None, fs),
            model: Model::resting(p.model, fs),
            transformer: shelf_at_rest(p.transformer, fs),
            dc_blocker_out: blocker_kept(p.dc_blocker, None, fs),
            makeup_gain: RampedValue::resting(
                s_db_to_linear(p.s_makeup_gain_db()),
                s_smooth_tau(),
                fs,
            ),
        }
    }

    /// The chain on its way to the given parameters. The waveshaper, the DC blockers and the
    /// makeup gain go on from where they are; the transformer shelf starts at rest.
    pub open spec fn redirected(self, p: TubeStageParameters<T>, fs: int) -> Self {
        Shaper {
            dc_blocker_in: blocker_kept(p.dc_blocker, self.dc_blocker_in, fs),
            model: self.model.redirected(p.model, fs),
            transformer: shelf_at_rest(p.transformer, fs),
            dc_blocker_out: blocker_kept(p.dc_blocker, self.dc_blocker_out, fs),
            makeup_gain: self.makeup_gain.redirected(
                s_db_to_linear(p.s_makeup_gain_db()),
                s_smooth_tau(),
                fs,
            ),
        }
    }

    /// The signal behind the first DC blocker.
    pub open spec fn blocked_in(self, x: T) -> T {
        match self.dc_blocker_in {
            Some(dc) => dc.output(x),
            None => x,
        }
    }

    /// The signal behind the transformer shelf.
    pub open spec fn transformed(self, x: T) -> T {
        let s = self.model.output(self.blocked_in(x));
        match self.transformer {
            Some(b) => b.output(s),
            None => s,
        }
    }

    /// The signal behind the second DC blocker.
    pub open spec fn blocked_out(self, x: T) -> T {
        match self.dc_blocker_out {
            Some(dc) => dc.output(self.transformed(x)),
            None => self.transformed(x),
        }
    }

    /// The output for the input `x`.
    pub open spec fn output(self, x: T) -> T {
        self.blocked_out(x).s_mul(self.makeup_gain.ticked().current)
    }

    /// The chain after the input `x`.
    pub open spec fn after(self, x: T) -> Self {
        Shaper {
            dc_blocker_in: match self.dc_blocker_in {
                Some(dc) => Some(dc.after(x)),
                None => None,
            },
            model: self.model.after(self.blocked_in(x)),
            transformer: match self.transformer {
                Some(b) => Some(b.after(self.model.output(self.blocked_in(x)))),
                None => None,
            },
            dc_blocker_out: match self.dc_blocker_out {
                Some(dc) => Some(dc.after(self.transformed(x))),
                None => None,
            },
            makeup_gain: self.makeup_gain.ticked(),
        }
    }

    /// The chain after the first `n` samples of a waveform.
    pub open spec fn after_wave(self, wave: Seq<T>, n: int) -> Self
        decreases n,
    {
        if n <= 0 {
            self
        } else {
            self.after_wave(wave, n - 1).after(wave[n - 1])
        }
    }

    /// The output for a waveform.
    pub open spec fn shaped(self, wave: Seq<T>) -> Seq<T> {
        Seq::new(wave.len(), |i: int| self.after_wave(wave, i).output(wave[i]))
    }

    pub fn from_config(p: &TubeStageParameters<T>, fs: usize) -> (r: Self)
        ensures
            r == Self::resting(*p, fs as int),
    {
        Shaper {
            dc_blocker_in: keep_blocker(p.dc_blocker, None, fs),
            model: Model::from_config(&p.model, fs),
            transformer: make_shelf(&p.transformer, fs),
            dc_blocker_out: keep_blocker(p.dc_blocker, None, fs),
            makeup_gain: RampedValue::new(db_to_linear(p.makeup_gain_db()), smooth_tau(), fs),
        }
    }

    pub fn update(&mut self, p: &TubeStageParameters<T>, fs: usize)
        ensures
            *final(self) == old(self).redirected(*p, fs as int),
    {
        self.model.update(&p.model, fs);
        self.transformer = make_shelf(&p.transformer, fs);
        self.dc_blocker_in = keep_blocker(p.dc_blocker, self.dc_blocker_in, fs);
        self.dc_blocker_out = keep_blocker(p.dc_blocker, self.dc_blocker_out, fs);
        self.makeup_gain.set_target(db_to_linear(p.makeup_gain_db()));
        self.makeup_gain.retune(smooth_tau(), fs);
    }

    /// Processes one sample.
    pub fn process_sample(&mut self, x: T) -> (r: T)
        ensures
            r == old(self).output(x),
            *final(self) == old(self).after(x),
    {
        let mut s: T = x;
        if let Some(dc) = self.dc_blocker_in.as_mut() {
            s = dc.process_single(s);
        }
        s = self.model.process_sample(s);
        if let Some(b) = self.transformer.as_mut() {
            s = b.process_single(s);
        }
        if let Some(dc) = self.dc_blocker_out.as_mut() {
            s = dc.process_single(s);
        }
        s.times(self.makeup_gain.tick())
    }

    /// Processes a waveform in place.
    pub fn process_wave(&mut self, wave: &mut Vec<T>)
        ensures
            *final(self) == old(self).after_wave(old(wave)@, old(wave)@.len() as int),
            final(wave)@ == old(self).shaped(old(wave)@),
    {
        let ghost before = wave@;
        let mut i: usize = 0;
        while i < wave.len()
            invariant
                i <= wave@.len(),
                before == old(wave)@,
                wave@.len() == before.len(),
                *self == old(self).after_wave(before, i as int),
                forall|j: int| i <= j < before.len() ==> #[trigger] wave@[j] == before[j],
                forall|j: int|
                    0 <= j < i ==> #[trigger] wave@[j] == old(self).shaped(before)[j],
            decreases wave@.len() - i,
        {
            let y: T = self.process_sample(wave[i]);
            wave[i] = y;
            i += 1;
        }
        assert(wave@ =~= old(self).shaped(before));
    }
}

proof fn lemma_after_wave_cut<T: PrcFmt>(s: Shaper<T>, a: Seq<T>, b: Seq<T>, n: int)
    ensures
        0 <= n <= a.len() ==> s.after_wave(a + b, n) == s.after_wave(a, n),
        a.len() <= n <= a.len() + b.len() ==> s.after_wave(a + b, n) == s.after_wave(
            a,
            a.len() as int,
        ).after_wave(b, n - a.len()),
    decreases n,
{
    if n > 0 {
        lemma_after_wave_cut(s, a, b, n - 1);
    }
}

/// The chain does not depend on how the audio is cut: two waveforms one after the other give what
/// they give as one.
pub proof fn lemma_shaping_ignores_cuts<T: PrcFmt>(s: Shaper<T>, a: Seq<T>, b: Seq<T>)
    ensures
        s.shaped(a + b) == s.shaped(a) + s.after_wave(a, a.len() as int).shaped(b),
        s.after_wave(a + b, (a + b).len() as int) == s.after_wave(a, a.len() as int).after_wave(
            b,
            b.len() as int,
        ),
{
    let whole = s.shaped(a + b);
    let parts = s.shaped(a) + s.after_wave(a, a.len() as int).shaped(b);
    lemma_after_wave_cut(s, a, b, (a + b).len() as int);
    assert forall|i: int| 0 <= i < whole.len() implies whole[i] == parts[i] by {
        lemma_after_wave_cut(s, a, b, i);
    }
    assert(whole =~= parts);
}

/// A parameter change does not jump: drive, bias and makeup gain go on from the values they have,
/// the first sample after the change is one step of the smoother away from them, and the states of
/// the triode filters, its sag envelope and the DC blockers in use are kept.
pub proof fn lemma_hot_swap_keeps_running_values<T: PrcFmt>(
    s: Shaper<T>,
    p: TubeStageParameters<T>,
    fs: int,
)
    ensures
        s.redirected(p, fs).makeup_gain.current == s.makeup_gain.current,
        (s.model is Polynomial && p.model is Polynomial) ==> {
            let m = s.model->Polynomial_0;
            let n = s.redirected(p, fs).model->Polynomial_0;
            &&& s.redirected(p, fs).model is Polynomial
            &&& n.drive_lin.current == m.drive_lin.current
            &&& n.bias.current == m.bias.current
        },
        (s.model is Triode && p.model is Triode) ==> {
            let m = s.model->Triode_0;
            let n = s.redirected(p, fs).model->Triode_0;
            &&& s.redirected(p, fs).model is Triode
            &&& n.drive_lin.current == m.drive_lin.current
            &&& n.sag_env == m.sag_env
            &&& n.coupling_in.s1 == m.coupling_in.s1 && n.coupling_in.s2 == m.coupling_in.s2
            &&& n.coupling_out.s1 == m.coupling_out.s1 && n.coupling_out.s2 == m.coupling_out.s2
            &&& n.cathode_bypass.s1 == m.cathode_bypass.s1
            &&& n.cathode_bypass.s2 == m.cathode_bypass.s2
        },
        p.dc_blocker && s.dc_blocker_in is Some ==> s.redirected(p, fs).dc_blocker_in
            == s.dc_blocker_in,
        p.dc_blocker && s.dc_blocker_out is Some ==> s.redirected(p, fs).dc_blocker_out
            == s.dc_blocker_out,
{
}

/// A blocker after `n` more samples of the value `x`.
pub open spec fn after_constant<T: PrcFmt>(dc: DcBlocker<T>, x: T, n: nat) -> DcBlocker<T>
    decreases n,
{
    if n == 0 {
        dc
    } else {
        after_constant(dc, x, (n - 1) as nat).after(x)
    }
}

/// DC is removed: in fixed point the output for a constant shrinks with every sample, and becomes
/// exactly zero and stays there.
pub proof fn lemma_constant_is_removed(dc: DcBlocker<Fixed>, x: Fixed, n: nat)
    requires
        0 <= dc.r.raw < ONE,
        dc.x1 == x,
    ensures
        ({
            let left = magnitude(dc.y1.raw as int) - n;
            let y = magnitude(after_constant(dc, x, n).y1.raw as int);
            y <= if left < 0 {
                0
            } else {
                left
            }
        }),
        after_constant(dc, x, n).x1 == x,
        after_constant(dc, x, n).r == dc.r,
    decreases n,
{
    if n > 0 {
        lemma_constant_is_removed(dc, x, (n - 1) as nat);
        let before = after_constant(dc, x, (n - 1) as nat);
        let m = magnitude(before.y1.raw as int);
        let q = dc.r.raw * m / (ONE as int);
        assert(0 <= q <= m && (m > 0 ==> q < m)) by (nonlinear_arith)
            requires
                q == dc.r.raw * m / (ONE as int),
                0 <= dc.r.raw < ONE,
                0 <= m,
        ;
        assert(magnitude(before.r.s_mul(before.y1).raw as int) <= q);
        assert(x.s_sub(before.x1).raw == 0);
    }
}

} // verus!
