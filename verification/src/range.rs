//! Non-empty ranges of addresses.

use vstd::prelude::*;

verus! {

/// An inclusive range of addresses that holds at least one address.
#[derive(Clone, Copy, Debug, PartialEq, Eq, Structural)]
pub struct NonemptyRange {
    min: usize,
    max: usize,
}

impl NonemptyRange {
    /// The lowest address of the range.
    pub closed spec fn spec_min(self) -> usize {
        self.min
    }

    /// The highest address of the range.
    pub closed spec fn spec_max(self) -> usize {
        self.max
    }

    /// The range from `min` to `max`.
    pub closed spec fn spec_from_min_max(min: usize, max: usize) -> Self {
        Self { min, max }
    }

    /// A range is known by its bounds.
    pub proof fn lemma_from_min_max(min: usize, max: usize)
        ensures
            Self::spec_from_min_max(min, max).spec_min() == min,
            Self::spec_from_min_max(min, max).spec_max() == max,
    {
    }

    /// The bounds are ordered. Every constructor establishes this.
    pub open spec fn wf(self) -> bool {
        self.spec_min() <= self.spec_max()
    }

    /// The number of addresses in the range, which may exceed `usize::MAX` by one.
    pub open spec fn spec_len(self) -> int {
        self.spec_max() - self.spec_min() + 1
    }

    /// The address `x` lies in the range.
    pub open spec fn spec_contains(self, x: usize) -> bool {
        self.spec_min() <= x <= self.spec_max()
    }

    /// The two ranges share an address.
    pub open spec fn spec_intersects(self, other: Self) -> bool {
        exists|x: usize| self.spec_contains(x) && other.spec_contains(x)
    }

    /// Every address of `other` lies in the range.
    pub open spec fn spec_contains_range(self, other: Self) -> bool {
        forall|x: usize| other.spec_contains(x) ==> self.spec_contains(x)
    }

    pub fn from_min_max(min: usize, max: usize) -> (r: Self)
        requires
            min <= max,
        ensures
            r.wf(),
            r == Self::spec_from_min_max(min, max),
            r.spec_min() == min,
            r.spec_max() == max,
    {
        Self { min, max }
    }

    pub fn from_start_len(start: usize, len: usize) -> (r: Self)
        requires
            len > 0,
            start + len - 1 <= usize::MAX,
        ensures
            r.wf(),
            r == Self::spec_from_min_max(start, (start + len - 1) as usize),
            r.spec_min() == start,
            r.spec_len() == len,
    {
        Self::from_min_max(start, start + (len - 1))
    }

    #[verifier::when_used_as_spec(spec_min)]
    pub fn min(self) -> (r: usize)
        ensures
            r == self.spec_min(),
    {
        self.min
    }

    #[verifier::when_used_as_spec(spec_max)]
    pub fn max(self) -> (r: usize)
        ensures
            r == self.spec_max(),
    {
        self.max
    }

    pub fn len(self) -> (r: usize)
        requires
            self.wf(),
            self.spec_len() <= usize::MAX,
        ensures
            r == self.spec_len(),
    {
        self.max - self.min + 1
    }

    pub fn intersects(self, other: Self) -> (r: bool)
        requires
            self.wf(),
            other.wf(),
        ensures
            r == self.spec_intersects(other),
    {
        let r = !(self.max < other.min || other.max < self.min);
        proof {
            if r {
                let x = if self.min >= other.min {
                    self.min
                } else {
                    other.min
                };
                assert(self.spec_contains(x) && other.spec_contains(x));
            }
        }
        r
    }

    pub fn contains(self, x: usize) -> (r: bool)
        ensures
            r == self.spec_contains(x),
    {
        self.min <= x && x <= self.max
    }

    pub fn contains_range(self, other: Self) -> (r: bool)
        requires
            other.wf(),
        ensures
            r == self.spec_contains_range(other),
    {
        let r = self.min <= other.min && other.max <= self.max;
        proof {
            if !r {
                assert(other.spec_contains(other.min));
                assert(other.spec_contains(other.max));
            }
        }
        r
    }
}

} // verus!
