//! Whether a diagram has a model.

use crate::bigint::{big_eq, big_zero};
use crate::query::count::model_count;
use crate::tdd::{model_count_spec, Tdd};
use vstd::prelude::*;

verus! {

/// Whether the output has a model.
pub fn output_is_satisfiable(tdd: &Tdd) -> (r: bool)
    requires
        tdd.wf(),
        tdd.unweighted(),
        !tdd.poisoned,
    ensures
        r == (model_count_spec(*tdd) > 0),
{
    !big_eq(&model_count(tdd), &big_zero())
}

} // verus!
