//! Optimal assignment of agents to slots from ranked preference lists.
//!
//! Each agent ranks the slots it would like. A rank becomes a weight through
//! the cost model, the weights of all agents form a matrix, and the solver
//! finds an assignment of the agents to distinct slots whose total weight is
//! as large as it can be.
//!
//! - [`table`] and [`input`] turn a CSV table into agents.
//! - [`prefs`] and [`validate`] say what a well-formed preference set is, and
//!   check it.
//! - [`config`] holds the options of a run, [`cost`] the cost model, and
//!   [`weights`] builds the weight [`matrix`].
//! - [`matching`] says what an optimal assignment is, [`method`] which one
//!   the primal-dual method finds, and [`solver`] finds it.
//! - [`report`] derives the rank that each agent achieved and the statistics.
//! - [`assign`] runs all of it.

pub mod assign;
pub mod config;
pub mod cost;
pub mod error;
pub mod input;
pub mod matching;
pub mod matrix;
pub mod method;
pub mod prefs;
pub mod report;
pub mod solver;
pub mod table;
pub mod validate;
pub mod weights;
