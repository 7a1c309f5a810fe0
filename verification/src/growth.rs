use vstd::prelude::*;

use crate::evaluate::Evaluate;
use crate::progress::Progress;

verus! {

/// Growing value by level: an evaluation maps each level to the progress
/// ceiling that the accumulator gets when that level is applied.
pub struct Growth<Eval: Evaluate> {
    evaluation: Eval,
    progress: Progress,
}

impl<Eval: Evaluate> Growth<Eval> {
    pub closed spec fn spec_evaluation(&self) -> Eval {
        self.evaluation
    }

    pub closed spec fn spec_progress(&self) -> Progress {
        self.progress
    }

    pub fn new(evaluation: Eval, progress: Progress) -> (r: Growth<Eval>)
        ensures
            r.spec_evaluation() == evaluation,
            r.spec_progress() == progress,
    {
        Growth { evaluation, progress }
    }

    pub fn progress(&self) -> (r: &Progress)
        ensures
            *r == self.spec_progress(),
    {
        &self.progress
    }

    /// Re-evaluates the ceiling for `level` and installs it on the progress,
    /// clipping the current amount if it stood above the new ceiling.
    pub fn apply_level(&mut self, level: u64)
        requires
            old(self).spec_evaluation().spec_domain(level),
        ensures
            ({
                let ceiling = old(self).spec_evaluation().spec_value(level);
                let before = old(self).spec_progress();
                let after = final(self).spec_progress();
                &&& final(self).spec_evaluation() == old(self).spec_evaluation()
                &&& after.spec_max() == ceiling
                &&& after.spec_current() == if before.spec_current() > ceiling {
                    ceiling
                } else {
                    before.spec_current()
                }
                &&& after.wf()
            }),
    {
        let new_max = self.evaluation.evaluate(level);
        self.progress.set_max(new_max);
    }

    /// Adds earned amount to the progress; returns the overflow past the
    /// ceiling.
    pub fn add_progress(&mut self, n: u64) -> (rest: u64)
        requires
            old(self).spec_progress().wf(),
            old(self).spec_progress().spec_current() + n <= u64::MAX,
        ensures
            ({
                let before = old(self).spec_progress();
                let after = final(self).spec_progress();
                &&& final(self).spec_evaluation() == old(self).spec_evaluation()
                &&& after.wf()
                &&& after.spec_max() == before.spec_max()
                &&& before.spec_current() + n > before.spec_max() ==> after.spec_current()
                    == before.spec_max() && rest == before.spec_current() + n - before.spec_max()
                &&& before.spec_current() + n <= before.spec_max() ==> after.spec_current()
                    == before.spec_current() + n && rest == 0
            }),
    {
        self.progress.add(n)
    }

    /// Subtracts spent amount from the progress; returns the underflow below
    /// zero.
    pub fn sub_progress(&mut self, n: u64) -> (rest: u64)
        ensures
            ({
                let before = old(self).spec_progress();
                let after = final(self).spec_progress();
                &&& final(self).spec_evaluation() == old(self).spec_evaluation()
                &&& after.spec_max() == before.spec_max()
                &&& before.wf() ==> after.wf()
                &&& before.spec_current() < n ==> after.spec_current() == 0 && rest == n
                    - before.spec_current()
                &&& before.spec_current() >= n ==> after.spec_current() == before.spec_current() - n
                    && rest == 0
            }),
    {
        self.progress.sub(n)
    }
}

} // verus!
