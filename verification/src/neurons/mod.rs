//! The scoring functions. Each one maps a voter, a submission, the outside
//! data and the value carried in from the previous layer to a raw vote.

pub mod assigned_reputation_neuron;
pub mod dummy_neuron;
pub mod prior_voting_history_neuron;
pub mod trust_graph_neuron;
