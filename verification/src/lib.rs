//! Buffer insertion for gate-level netlists: the job format, the net-splitting rules and the
//! greedy insertion loop, with the timing engine kept behind plain timing snapshots.

pub mod text;
pub mod cli;
pub mod emit;
pub mod engine;
pub mod job;
pub mod netlist;
pub mod optimize;
pub mod order;
