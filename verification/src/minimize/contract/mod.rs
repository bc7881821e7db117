//! Twin contraction.

pub mod commit;
pub mod content_twin;
pub mod contract_leaf;
pub mod dup_resolve;
pub mod dup_weight;
pub mod fingerprint;
pub mod fusion_close;
pub mod fusion_rest;
pub mod fusion_sweep;
pub mod fusion_value;
pub mod fusion_weight;
pub mod merge;
pub mod p_fusion;
pub mod plan;
pub mod rewrite;
pub mod scratch;
pub mod strategies;
pub mod twin_value;
pub mod twin_weight;
pub mod twins;
