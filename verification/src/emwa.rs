//! An exponentially weighted moving average over integer samples.  The
//! decay weight is a per-mille factor, so the state stays in plain
//! integers: a new sample `v` moves the average to
//! `(v * decay + value * (1000 - decay)) / 1000`.
use vstd::prelude::*;

verus! {

pub struct MovingAverage {
    pub value: u64,
    pub decay: u64,
}

/// The averaged value after taking one sample, as `add` computes it.
pub open spec fn emwa_step(value: u64, decay: u64, sample: u64) -> int {
    if value == 0 {
        sample as int
    } else {
        (sample * decay + value * (1000 - decay)) / 1000
    }
}

impl MovingAverage {
    pub open spec fn wf(&self) -> bool {
        self.decay <= 1000
    }

    pub open spec fn spec_value(&self) -> u64 {
        self.value
    }

    /// A fresh average with the given per-mille decay weight and no
    /// samples yet.
    pub fn new(decay: u64) -> (r: MovingAverage)
        requires
            decay <= 1000,
        ensures
            r.wf(),
            r.spec_value() == 0,
            r.decay == decay,
    {
        MovingAverage { value: 0, decay }
    }

    /// Takes one sample: the first sample becomes the average, a later
    /// one is folded in under the decay weight.  The average never
    /// leaves the range spanned by its inputs.
    pub fn add(&mut self, value: u64)
        requires
            old(self).wf(),
        ensures
            final(self).wf(),
            final(self).decay == old(self).decay,
            final(self).spec_value() == emwa_step(old(self).spec_value(), old(self).decay, value),
    {
        if self.value == 0 {
            self.value = value;
        } else {
            let v: u128 = value as u128;
            let d: u128 = self.decay as u128;
            let cur: u128 = self.value as u128;
            proof {
                assert(v * d <= 0xffff_ffff_ffff_ffff * 1000) by (nonlinear_arith)
                    requires
                        0 <= v <= 0xffff_ffff_ffff_ffff,
                        0 <= d <= 1000,
                ;
                assert(cur * (1000 - d) <= 0xffff_ffff_ffff_ffff * 1000) by (nonlinear_arith)
                    requires
                        0 <= cur <= 0xffff_ffff_ffff_ffff,
                        0 <= d <= 1000,
                ;
            }
            let mixed: u128 = (v * d + cur * (1000 - d)) / 1000;
            proof {
                let max: int = if v >= cur {
                    v as int
                } else {
                    cur as int
                };
                assert((v * d + cur * (1000 - d)) / 1000 <= max) by (nonlinear_arith)
                    requires
                        0 <= d <= 1000,
                        0 <= v <= max,
                        0 <= cur <= max,
                ;
            }
            self.value = mixed as u64;
        }
    }

    /// The current average; zero while no sample has been taken.
    pub fn value(&self) -> (r: u64)
        ensures
            r == self.spec_value(),
    {
        self.value
    }

    /// Overwrites the average.
    pub fn set(&mut self, value: u64)
        requires
            old(self).wf(),
        ensures
            final(self).wf(),
            final(self).decay == old(self).decay,
            final(self).spec_value() == value,
    {
        self.value = value;
    }
}

} // verus!
