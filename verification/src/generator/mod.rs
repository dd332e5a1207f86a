//! Drafting support for new Source Packs: which OCSF paths a draft may
//! target, and the deterministic rules that read a cluster of samples.
pub mod llm;
pub mod ocsf_paths;
pub mod rank;
pub mod repetition;
pub mod names;
pub mod drain;
pub mod tokens;
pub mod sampler;
pub mod profile;
pub mod heuristic;
pub mod assemble;
