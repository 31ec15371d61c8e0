//! Petri: a small language for modelling, checking and simulating place/transition nets.
//!
//! The crate is organised as the pipeline it implements: `grammar` turns source text into a
//! program, `analysis` checks the program and builds a semantic model, `repl` runs the net, and
//! `export` renders it as a Graphviz graph.
use vstd::prelude::*;

pub mod analysis;
pub mod args;
pub mod export;
pub mod grammar;
pub mod repl;
pub mod span;
pub mod text;
pub mod traits;

verus! {

} // verus!
