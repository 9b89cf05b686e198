use vstd::prelude::*;

verus! {

/// A two-dimensional amount of resources: execution time and proof size.
#[derive(Clone, Copy, Debug, PartialEq, Eq, Structural)]
pub struct Weight {
    pub ref_time: u64,
    pub proof_size: u64,
}

/// Saturating subtraction of one `u64` from another, as a mathematical value.
pub open spec fn sat_sub(a: u64, b: u64) -> u64 {
    if a >= b {
        (a - b) as u64
    } else {
        0
    }
}

impl Weight {
    /// Every dimension of `self` is at most the same dimension of `other`.
    pub open spec fn lte(self, other: Weight) -> bool {
        self.ref_time <= other.ref_time && self.proof_size <= other.proof_size
    }

    /// Some dimension of `self` is zero.
    pub open spec fn has_zero(self) -> bool {
        self.ref_time == 0 || self.proof_size == 0
    }

    pub fn zero() -> (r: Weight)
        ensures
            r.ref_time == 0,
            r.proof_size == 0,
    {
        Weight { ref_time: 0, proof_size: 0 }
    }

    pub fn from_parts(ref_time: u64, proof_size: u64) -> (r: Weight)
        ensures
            r.ref_time == ref_time,
            r.proof_size == proof_size,
    {
        Weight { ref_time, proof_size }
    }

    pub fn ref_time(&self) -> (r: u64)
        ensures
            r == self.ref_time,
    {
        self.ref_time
    }

    pub fn proof_size(&self) -> (r: u64)
        ensures
            r == self.proof_size,
    {
        self.proof_size
    }

    /// Whether every dimension of `self` is at most that of `other`.
    pub fn all_lte(&self, other: &Weight) -> (r: bool)
        ensures
            r == self.lte(*other),
    {
        self.ref_time <= other.ref_time && self.proof_size <= other.proof_size
    }

    /// Whether some dimension of `self` is below that of `other`.
    pub fn any_lt(&self, other: &Weight) -> (r: bool)
        ensures
            r == (self.ref_time < other.ref_time || self.proof_size < other.proof_size),
    {
        self.ref_time < other.ref_time || self.proof_size < other.proof_size
    }

    /// Whether some dimension is zero.
    pub fn any_zero(&self) -> (r: bool)
        ensures
            r == self.has_zero(),
    {
        self.ref_time == 0 || self.proof_size == 0
    }

    /// Subtracts dimension by dimension, stopping at zero.
    pub fn saturating_sub(&self, other: &Weight) -> (r: Weight)
        ensures
            r.ref_time == sat_sub(self.ref_time, other.ref_time),
            r.proof_size == sat_sub(self.proof_size, other.proof_size),
    {
        let ref_time: u64 = if self.ref_time >= other.ref_time {
            self.ref_time - other.ref_time
        } else {
            0
        };
        let proof_size: u64 = if self.proof_size >= other.proof_size {
            self.proof_size - other.proof_size
        } else {
            0
        };
        Weight { ref_time, proof_size }
    }

    /// Adds dimension by dimension; `None` when a dimension would overflow.
    pub fn checked_add(&self, other: &Weight) -> (r: Option<Weight>)
        ensures
            r is None <==> (self.ref_time + other.ref_time > u64::MAX || self.proof_size
                + other.proof_size > u64::MAX),
            r matches Some(w) ==> w.ref_time == self.ref_time + other.ref_time && w.proof_size
                == self.proof_size + other.proof_size,
    {
        let ref_time = self.ref_time.checked_add(other.ref_time);
        let proof_size = self.proof_size.checked_add(other.proof_size);
        match (ref_time, proof_size) {
            (Some(ref_time), Some(proof_size)) => Some(Weight { ref_time, proof_size }),
            _ => None,
        }
    }
}

/// Meters the weight consumed against a fixed limit.
///
/// The consumed weight never exceeds the limit in any dimension, and the
/// limit never changes once the meter is made.
pub struct WeightMeter {
    consumed: Weight,
    limit: Weight,
}

impl WeightMeter {
    pub closed spec fn spec_consumed(&self) -> Weight {
        self.consumed
    }

    pub closed spec fn spec_limit(&self) -> Weight {
        self.limit
    }

    pub open spec fn wf(&self) -> bool {
        self.spec_consumed().lte(self.spec_limit())
    }

    /// What is left of the limit, dimension by dimension.
    pub open spec fn spec_remaining(&self) -> Weight {
        Weight {
            ref_time: sat_sub(self.spec_limit().ref_time, self.spec_consumed().ref_time),
            proof_size: sat_sub(self.spec_limit().proof_size, self.spec_consumed().proof_size),
        }
    }

    /// A meter has moved from `self` to `next` by consuming weight only.
    pub open spec fn advanced_to(&self, next: &WeightMeter) -> bool {
        &&& next.spec_limit() == self.spec_limit()
        &&& self.spec_consumed().lte(next.spec_consumed())
        &&& next.wf()
    }

    pub fn with_limit(limit: Weight) -> (r: WeightMeter)
        ensures
            r.spec_limit() == limit,
            r.spec_consumed() == Weight::zero_spec(),
            r.wf(),
    {
        WeightMeter { consumed: Weight::zero(), limit }
    }

    pub fn consumed(&self) -> (r: Weight)
        ensures
            r == self.spec_consumed(),
    {
        self.consumed
    }

    pub fn limit(&self) -> (r: Weight)
        ensures
            r == self.spec_limit(),
    {
        self.limit
    }

    pub fn remaining(&self) -> (r: Weight)
        ensures
            r == self.spec_remaining(),
    {
        self.limit.saturating_sub(&self.consumed)
    }

    /// Whether `w` can be consumed without passing the limit.
    pub fn can_consume(&self, w: Weight) -> (r: bool)
        ensures
            r == (self.spec_consumed().ref_time + w.ref_time <= self.spec_limit().ref_time
                && self.spec_consumed().proof_size + w.proof_size <= self.spec_limit().proof_size),
    {
        match self.consumed.checked_add(&w) {
            Some(next) => next.all_lte(&self.limit),
            None => {
                proof {
                    assert(self.limit.ref_time <= u64::MAX);
                }
                false
            },
        }
    }

    /// Consumes `w` if the limit allows it; otherwise leaves the meter as it is
    /// and returns `Err(())`.
    pub fn try_consume(&mut self, w: Weight) -> (r: Result<(), ()>)
        requires
            old(self).wf(),
        ensures
            final(self).wf(),
            final(self).spec_limit() == old(self).spec_limit(),
            r is Ok <==> (old(self).spec_consumed().ref_time + w.ref_time
                <= old(self).spec_limit().ref_time && old(self).spec_consumed().proof_size
                + w.proof_size <= old(self).spec_limit().proof_size),
            r is Ok ==> final(self).spec_consumed().ref_time == old(self).spec_consumed().ref_time
                + w.ref_time && final(self).spec_consumed().proof_size
                == old(self).spec_consumed().proof_size + w.proof_size,
            r is Err ==> *final(self) == *old(self),
    {
        match self.consumed.checked_add(&w) {
            Some(next) => {
                if next.all_lte(&self.limit) {
                    self.consumed = next;
                    Ok(())
                } else {
                    Err(())
                }
            },
            None => Err(()),
        }
    }
}

impl Weight {
    pub open spec fn zero_spec() -> Weight {
        Weight { ref_time: 0, proof_size: 0 }
    }
}

} // verus!
