use vstd::prelude::*;

use core::cmp::Ordering;

verus! {

/// What applying a bound returns: values below `min` and above `max` are
/// clipped to the nearer edge, or, with `wrap`, re-enter from the opposite
/// edge by modular arithmetic over the `max - min + 1` values of the range.
pub open spec fn apply_spec(min: int, max: int, wrap: bool, n: int) -> int
    recommends
        min <= max,
{
    let range = max - min + 1;
    if n < min {
        if wrap {
            let diff = (min - n) % range;
            if diff == 0 {
                min
            } else {
                max - diff + 1
            }
        } else {
            min
        }
    } else if n > max {
        if wrap {
            let diff = (n - max) % range;
            if diff == 0 {
                max
            } else {
                min + diff - 1
            }
        } else {
            max
        }
    } else {
        n
    }
}

/// A wrappable inclusive bound `[min, max]`.
pub struct Bound {
    pub min: i64,
    pub max: i64,
    wrap: bool,
}

impl Bound {
    pub closed spec fn spec_min(&self) -> i64 {
        self.min
    }

    pub closed spec fn spec_max(&self) -> i64 {
        self.max
    }

    /// Whether out-of-range values wrap around instead of stopping at an edge.
    pub closed spec fn spec_wrap(&self) -> bool {
        self.wrap
    }

    /// Invariant: the bound is not empty.
    pub open spec fn wf(&self) -> bool {
        self.spec_min() <= self.spec_max()
    }

    /// Constructor.  An inverted bound (`min > max`) is invalid and excluded
    /// by contract.
    pub fn new(min: i64, max: i64, wrap: bool) -> (r: Bound)
        requires
            min <= max,
        ensures
            r.spec_min() == min,
            r.spec_max() == max,
            r.spec_wrap() == wrap,
            r.wf(),
    {
        Bound { min, max, wrap }
    }

    pub fn wrap(&self) -> (r: bool)
        ensures
            r == self.spec_wrap(),
    {
        self.wrap
    }

    /// Where `n` stands relative to the bound: below it, above it, or within.
    pub fn check(&self, n: i64) -> (r: Ordering)
        ensures
            r == if n < self.spec_min() {
                Ordering::Less
            } else if n > self.spec_max() {
                Ordering::Greater
            } else {
                Ordering::Equal
            },
    {
        if n < self.min {
            Ordering::Less
        } else if n > self.max {
            Ordering::Greater
        } else {
            Ordering::Equal
        }
    }

    /// Applies this bound to a value; the result always lies in
    /// `[min, max]`.  The requirements beyond the invariant only keep the
    /// intermediate differences representable in the value type.
    pub fn apply(&self, n: i64) -> (r: i64)
        requires
            self.wf(),
            self.spec_max() - self.spec_min() < i64::MAX,
            self.spec_min() - n <= i64::MAX,
            n - self.spec_max() <= i64::MAX,
        ensures
            r == apply_spec(self.spec_min() as int, self.spec_max() as int, self.spec_wrap(), n as int),
            self.spec_min() <= r <= self.spec_max(),
    {
        let range = self.max - self.min + 1;
        if n < self.min {
            if self.wrap {
                let diff = (self.min - n) % range;
                proof {
                    vstd::arithmetic::div_mod::lemma_mod_bound(
                        self.min - n,
                        range as int,
                    );
                }
                if diff == 0 {
                    self.min
                } else {
                    self.max - diff + 1
                }
            } else {
                self.min
            }
        } else if n > self.max {
            if self.wrap {
                let diff = (n - self.max) % range;
                proof {
                    vstd::arithmetic::div_mod::lemma_mod_bound(
                        n - self.max,
                        range as int,
                    );
                }
                if diff == 0 {
                    self.max
                } else {
                    self.min + diff - 1
                }
            } else {
                self.max
            }
        } else {
            n
        }
    }
}

} // verus!
