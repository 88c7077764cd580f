//! Clipping at a fixed level.

use crate::arith::{clamp, db_to_linear, s_clamp, s_db_to_linear, s_one};
use crate::config::{or_else, LimiterParameters};
use crate::prcfmt::PrcFmt;
use vstd::prelude::*;

verus! {

/// Clips at `clip_limit`, hard or by a cubic.
#[derive(Clone, Copy)]
pub struct Limiter<T: PrcFmt> {
    pub soft_clip: bool,
    pub clip_limit: T,
}

/// The cubic clipping curve for a sample in units of the limit: `x - x^3 / 6.75`, with `x` held
/// within one and a half.
pub open spec fn cubic_clip<T: PrcFmt>(scaled: T) -> T {
    let x = s_clamp(scaled, T::s_dec(-15, 1), T::s_dec(15, 1));
    x.s_sub(s_one::<T>().s_div(T::s_dec(675, 2)).s_mul(x.s_mul(x).s_mul(x)))
}

impl<T: PrcFmt> Limiter<T> {
    /// What becomes of a sample.
    pub open spec fn clipped(self, x: T) -> T {
        if self.soft_clip {
            cubic_clip(x.s_div(self.clip_limit)).s_mul(self.clip_limit)
        } else {
            s_clamp(x, self.clip_limit.s_neg(), self.clip_limit)
        }
    }

    /// The limiter that the parameters ask for.
    pub open spec fn of(config: LimiterParameters<T>) -> Self {
        Limiter {
            soft_clip: or_else(config.soft_clip, false),
            clip_limit: s_db_to_linear(config.clip_limit),
        }
    }

    pub fn from_config(config: LimiterParameters<T>) -> (r: Self)
        ensures
            r == Self::of(config),
    {
        Limiter { soft_clip: config.soft_clip(), clip_limit: db_to_linear(config.clip_limit) }
    }

    fn clip_one(&self, x: T) -> (r: T)
        ensures
            r == self.clipped(x),
    {
        if self.soft_clip {
            let scaled: T = clamp(x.over(self.clip_limit), T::decimal(-15, 1), T::decimal(15, 1));
            let cubed: T = scaled.times(scaled).times(scaled);
            scaled.minus(T::of_int(1).over(T::decimal(675, 2)).times(cubed)).times(self.clip_limit)
        } else {
            clamp(x, self.clip_limit.negated(), self.clip_limit)
        }
    }

    /// Clips every sample of a waveform.
    pub fn apply_clip(&self, input: &mut Vec<T>)
        ensures
            final(input)@ == Seq::new(old(input)@.len(), |i: int| self.clipped(old(input)@[i])),
    {
        let ghost before = input@;
        let mut i: usize = 0;
        while i < input.len()
            invariant
                i <= input@.len(),
                before == old(input)@,
                input@.len() == before.len(),
                forall|j: int|
                    0 <= j < before.len() ==> #[trigger] input@[j] == if j < i {
                        self.clipped(before[j])
                    } else {
                        before[j]
                    },
            decreases input@.len() - i,
        {
            let y: T = self.clip_one(input[i]);
            input[i] = y;
            i += 1;
        }
        assert(input@ =~= Seq::new(before.len(), |i: int| self.clipped(before[i])));
    }
}

} // verus!
