//! Export of a net to other formats.
pub mod graphviz;
