//! An interpreter for an eight-symbol instruction language that drives a
//! single data pointer over an unbounded tape of byte cells.
//!
//! * [`tape`] holds the tape: its mathematical model and the executable band.
//! * [`tape_laws`] states what holds of the tape whatever is done to it.
//! * [`console`] holds the input and output streams of a run.
//! * [`engine`] holds the meaning of a run and the engine that performs it.
//! * [`run_laws`] states what holds of every run.
//! * [`program`] holds the instruction alphabet and the pairing of brackets.
//! * [`bracket_laws`] states what holds of that pairing.
pub mod bracket_laws;
pub mod console;
pub mod engine;
pub mod program;
pub mod run_laws;
pub mod tape;
pub mod tape_laws;
