//! Analyses of zero-knowledge circuits and of their SMT specifications.
use vstd::prelude::*;

pub mod text;
pub mod pretty;
pub mod strings;
pub mod tags;
pub mod specification;
pub mod component_walk;
pub mod signal_names;
pub mod resolve;
pub mod mixed_graph;
pub mod r1cs;
pub mod air;
pub mod formula;
pub mod options;
pub mod instances;
pub mod resolved_json;
pub mod correspondence;
pub mod guided;
pub mod dzn;
pub mod label_propagation;
pub mod orientation;
pub mod pdag;
pub mod distance_classes;
pub mod minizinc_data;
pub mod safety;
pub mod hierarchy;
pub mod fingerprinting;

verus! {

/// Strict order between `(distance to inputs, distance to outputs)` pairs.
pub fn lt(x: (usize, usize), y: (usize, usize)) -> (r: bool)
    ensures
        r == crate::mixed_graph::precedes(x, y),
{
    (x.0 < y.0 && y.1 <= x.1) || (x.0 == y.0 && y.1 < x.1)
}

} // verus!
