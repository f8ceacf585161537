//! Inference of partially specified Boolean networks from observed steady
//! states.
//!
//! Two engines take a network, in which some update functions are left open,
//! and observations of states that the network is to have as fixed points.
//! The first puts the constraints of the network and of the observations
//! together as a weighted query for an optimizing solver, whose model gives
//! the open functions a meaning ([`InferenceProblem`]). The second computes
//! all fixed points of the network symbolically and searches for the fewest
//! observed values that have to be given up for the rest to be met
//! ([`run_naive_inference`]).

pub mod combinations;
pub mod confidence;
pub mod csv_reader;
pub mod decision_diagram;
pub mod engine_limits;
pub mod expression_generators;
pub mod formula;
pub mod inference_problem;
pub mod naive_inference;
pub mod name_map;
pub mod network;
pub mod observations;
pub mod smt;
pub mod smt_state;
pub mod state_specification;
pub mod symbolic;
pub mod text;
pub mod truth_table;

pub use confidence::Confidence;
pub use expression_generators::{boolean_symbol, fn_update_to_smt};
pub use inference_problem::InferenceProblem;
pub use naive_inference::{loosen_specification, run_naive_inference};
pub use name_map::NameMap;
pub use network::{
    BinaryOp, FnUpdate, Monotonicity, NetworkModel, Regulation, UninterpretedFunction,
};
pub use observations::{Dataset, Observation};
pub use smt_state::SmtState;
pub use state_specification::{Assertion, StateSpecification};
