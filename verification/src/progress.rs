use vstd::prelude::*;

verus! {

/// Progression toward a ceiling: a current amount that never exceeds `max`.
pub struct Progress {
    current: u64,
    max: u64,
}

impl Progress {
    /// Current amount.
    pub closed spec fn spec_current(&self) -> u64 {
        self.current
    }

    /// Ceiling of the progression.
    pub closed spec fn spec_max(&self) -> u64 {
        self.max
    }

    /// Invariant: the current amount never exceeds the ceiling.
    pub open spec fn wf(&self) -> bool {
        self.spec_current() <= self.spec_max()
    }

    /// Constructor.  A current amount above the ceiling violates the
    /// invariant and is excluded by contract.
    pub fn new(current: u64, max: u64) -> (r: Progress)
        requires
            current <= max,
        ensures
            r.spec_current() == current,
            r.spec_max() == max,
            r.wf(),
    {
        Progress { current, max }
    }

    pub fn current(&self) -> (r: u64)
        ensures
            r == self.spec_current(),
    {
        self.current
    }

    /// Sets the current amount, clipped at the ceiling.
    pub fn set_current(&mut self, n: u64)
        ensures
            final(self).spec_max() == old(self).spec_max(),
            final(self).spec_current() == if n > old(self).spec_max() {
                old(self).spec_max()
            } else {
                n
            },
            final(self).wf(),
    {
        if n > self.max {
            self.current = self.max;
        } else {
            self.current = n;
        }
    }

    pub fn max(&self) -> (r: u64)
        ensures
            r == self.spec_max(),
    {
        self.max
    }

    /// Sets the ceiling; the current amount is clipped to it if necessary.
    pub fn set_max(&mut self, n: u64)
        ensures
            final(self).spec_max() == n,
            final(self).spec_current() == if old(self).spec_current() > n {
                n
            } else {
                old(self).spec_current()
            },
            final(self).wf(),
    {
        if self.current > n {
            self.current = n;
        }
        self.max = n;
    }

    /// Adds `n` to the progress; returns the rest that did not fit below the
    /// ceiling (zero when everything fit).
    pub fn add(&mut self, n: u64) -> (rest: u64)
        requires
            old(self).wf(),
            old(self).spec_current() + n <= u64::MAX,
        ensures
            final(self).spec_max() == old(self).spec_max(),
            final(self).wf(),
            old(self).spec_current() + n > old(self).spec_max() ==> final(self).spec_current()
                == old(self).spec_max() && rest == old(self).spec_current() + n - old(self).spec_max(),
            old(self).spec_current() + n <= old(self).spec_max() ==> final(self).spec_current()
                == old(self).spec_current() + n && rest == 0,
    {
        let added = self.current + n;
        if added > self.max {
            self.current = self.max;
            added - self.max
        } else {
            self.current = added;
            0
        }
    }

    /// Subtracts `n` from the progress; returns the rest that would have gone
    /// below zero (zero when everything was covered).
    pub fn sub(&mut self, n: u64) -> (rest: u64)
        ensures
            final(self).spec_max() == old(self).spec_max(),
            old(self).wf() ==> final(self).wf(),
            old(self).spec_current() < n ==> final(self).spec_current() == 0 && rest == n - old(self).spec_current(),
            old(self).spec_current() >= n ==> final(self).spec_current() == old(self).spec_current()
                - n && rest == 0,
    {
        if self.current < n {
            let rest = n - self.current;
            self.current = 0;
            rest
        } else {
            self.current = self.current - n;
            0
        }
    }
}

} // verus!
