//! Liveness analysis for functions in SSA form: which values are live at
//! each point, how many registers of each file they need, and how far away
//! the next use of each value is.
//!
//! - [`ir`] is the part of the intermediate representation that liveness
//!   reads.
//! - [`dataflow`] is a solver for backward dataflow problems.
//! - [`simple`] is the classic analysis of live-in and live-out sets, and
//!   [`next_use`] the analysis that also knows the next use of each value;
//!   both hand out what [`block_liveness`] and [`liveness`] ask for.
//! - [`live_set`] is the set of live values that a walk through a block
//!   carries along, and [`liveness`] walks a whole function with it to find
//!   the highest register pressure.
//! - [`value_set`] and [`value_map`] are the collections of SSA values that
//!   all of these are built on; [`fx`] is the hashing underneath, which is
//!   taken on trust.

pub mod block_liveness;
pub mod dataflow;
pub mod fx;
pub mod ir;
pub mod live_set;
pub mod liveness;
pub mod next_use;
pub mod seq_facts;
pub mod set_sum;
pub mod simple;
pub mod value_map;
pub mod value_set;
