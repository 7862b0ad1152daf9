//! A sample-by-sample audio process algebra: stateful units composed into
//! graphs, with the timing, triggering and envelope decisions proved correct.

pub mod config;
pub mod process;
pub mod adsr;
pub mod timing;
pub mod lookahead;
