//! Two-dimensional execution cost: a time-like and a size-like component.
//! A weight budget is consumed monotonically during message execution.

use vstd::prelude::*;

verus! {

/// Cost value with a time-like (`ref_time`) and a size-like (`proof_size`)
/// component.
#[derive(Clone, Copy, PartialEq, Eq, Structural, Debug)]
pub struct Weight {
    pub ref_time: u64,
    pub proof_size: u64,
}

impl Weight {
    pub open spec fn spec_zero() -> Weight {
        Weight { ref_time: 0, proof_size: 0 }
    }

    /// Both components fit within `limit`'s.
    pub open spec fn spec_fits(self, limit: Weight) -> bool {
        self.ref_time <= limit.ref_time && self.proof_size <= limit.proof_size
    }

    /// Component-wise sum, if it does not overflow.
    pub open spec fn spec_add(self, other: Weight) -> Option<Weight> {
        if self.ref_time + other.ref_time <= u64::MAX && self.proof_size + other.proof_size
            <= u64::MAX {
            Some(
                Weight {
                    ref_time: (self.ref_time + other.ref_time) as u64,
                    proof_size: (self.proof_size + other.proof_size) as u64,
                },
            )
        } else {
            None
        }
    }

    pub fn zero() -> (r: Weight)
        ensures
            r == Weight::spec_zero(),
    {
        Weight { ref_time: 0, proof_size: 0 }
    }

    pub fn from_parts(ref_time: u64, proof_size: u64) -> (r: Weight)
        ensures
            r == (Weight { ref_time, proof_size }),
    {
        Weight { ref_time, proof_size }
    }

    pub fn fits(&self, limit: &Weight) -> (r: bool)
        ensures
            r == self.spec_fits(*limit),
    {
        self.ref_time <= limit.ref_time && self.proof_size <= limit.proof_size
    }

    pub fn checked_add(&self, other: &Weight) -> (r: Option<Weight>)
        ensures
            r == self.spec_add(*other),
    {
        match (self.ref_time.checked_add(other.ref_time), self.proof_size.checked_add(
            other.proof_size,
        )) {
            (Some(rt), Some(ps)) => Some(Weight { ref_time: rt, proof_size: ps }),
            _ => None,
        }
    }
}

/// Cap a message execution may state for itself: either boundless or a
/// definite weight.
#[derive(Clone, Copy, PartialEq, Eq, Structural, Debug)]
pub enum WeightLimit {
    Unlimited,
    Limited(Weight),
}

} // verus!
