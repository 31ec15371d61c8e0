//! Simulation of a net: the runtime and the interactive loop's decisions.
pub mod readiness;
pub mod runtime;
pub mod repl;
