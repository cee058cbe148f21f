//! The command loop and peek engine of a dataflow worker.
//!
//! The worker holds named arranged traces, local inputs and sinks, applies a
//! totally ordered stream of commands to them, and answers peeks: snapshot
//! reads of a trace at a timestamp, once the trace's upper frontier has passed
//! that timestamp.

pub mod frontier;
pub mod row;
pub mod peek;
pub mod worker;
