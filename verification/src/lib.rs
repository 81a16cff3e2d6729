//! Neural quorum governance: turns ballots into a numeric outcome per
//! submission, with exact three-digit fixed-point arithmetic throughout.
//!
//! Every map of the library is walked in key order, so every result is a
//! function of the state alone, whatever the order in which it came about.

pub mod types;

pub mod decimal_number_persist;
pub mod decimal_number_wrapper;
pub mod decimal_text;

pub mod ordered_map;

pub mod external_data_provider;
pub mod page_rank;
pub mod rank_mass;
pub mod sample_data;
pub mod trust_graph;

pub mod layer;
pub mod neural_governance;
pub mod neurons;

pub mod ballots;
pub mod decomposed;
pub mod governance;
pub mod quorum;
pub mod voting;
