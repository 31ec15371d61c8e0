//! Static checks of a parsed program and the semantic model built from it.
pub mod report;
pub mod symbol;
pub mod semantic_model;
pub mod analyzer;
