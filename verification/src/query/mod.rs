//! Reading values off a diagram.

pub mod count;
pub mod level_fold;
pub mod one_sided;
pub mod pins;
pub mod reduction;
pub mod sat;
pub mod semiring;
pub mod weight;
pub mod weighted;
