use vstd::prelude::*;

pub mod expression;
pub mod value_map;

verus! {

/// Evaluation from an input to an output value.
///
/// `spec_domain` names the inputs an implementation accepts, `spec_value` the
/// value it returns for each of them; `evaluate` must produce exactly that
/// value.
pub trait Evaluate {
    spec fn spec_domain(&self, x: u64) -> bool;

    spec fn spec_value(&self, x: u64) -> u64;

    fn evaluate(&self, x: u64) -> (y: u64)
        requires
            self.spec_domain(x),
        ensures
            y == self.spec_value(x),
    ;
}

} // verus!
