//! Tree decision diagrams: compact circuits for Boolean functions over the
//! variables of a vtree, with exact model counting and minimization.

pub mod big_side;
pub mod bigint;
pub mod build;
pub mod canonical;
pub mod clock;
pub mod config;
pub mod conjoin;
pub mod counts;
pub mod fold;
pub mod fx;
pub mod growth;
pub mod level;
pub mod limits;
pub mod marg_ref;
pub mod marg_slots;
pub mod meets_apart;
pub mod mem_pressure;
pub mod minimize;
pub mod query;
pub mod rat_sums;
pub mod rational;
pub mod rational_laws;
pub mod reserve;
pub mod runs;
pub mod small_list;
pub mod sums;
pub mod tdd;
pub mod vtree;
pub mod vtree_laws;
pub mod weights;
