use vstd::prelude::*;

use std::collections::HashMap;

verus! {

/// Evaluation backed by an explicit input-to-output map: defined exactly on
/// the keys of the map, returning the value stored under the input.
pub struct Evaluate(pub HashMap<u64, u64>);

impl crate::evaluate::Evaluate for Evaluate {
    open spec fn spec_domain(&self, x: u64) -> bool {
        self.0@.contains_key(x)
    }

    open spec fn spec_value(&self, x: u64) -> u64 {
        self.0@[x]
    }

    fn evaluate(&self, x: u64) -> (y: u64) {
        *self.0.get(&x).unwrap()
    }
}

} // verus!
