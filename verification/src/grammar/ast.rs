//! The syntax tree of a net description.
use vstd::prelude::*;

use crate::span::Span;

verus! {

/// A program is its statements in source order.
pub type Program = Vec<Statement>;

/// One statement of a net description.
pub enum Statement {
    /// `place name ["label"] [tokens = n];`
    Place { location: Span, name: String, tokens: usize, label: Option<String> },
    /// `transition name ["label"];`
    Transition { location: Span, name: String, label: Option<String> },
    /// A chain of nodes joined by arrows, with the arcs it declares as `(from, to, weight)`.
    Arc { location: Span, pairs: Vec<(String, String, usize)> },
}

/// The view of a statement, with text as sequences of characters.
pub enum SpecStatement {
    Place { location: Span, name: Seq<char>, tokens: usize, label: Option<Seq<char>> },
    Transition { location: Span, name: Seq<char>, label: Option<Seq<char>> },
    Arc { location: Span, pairs: Seq<(Seq<char>, Seq<char>, usize)> },
}

/// The view of an arc triple.
pub open spec fn pair_view(p: (String, String, usize)) -> (Seq<char>, Seq<char>, usize) {
    (p.0@, p.1@, p.2)
}

/// The views of the arc triples of an arc statement.
pub open spec fn pairs_view(ps: Seq<(String, String, usize)>) -> Seq<(Seq<char>, Seq<char>, usize)> {
    ps.map_values(|p: (String, String, usize)| pair_view(p))
}

/// The view of an optional text.
pub open spec fn label_view(l: Option<String>) -> Option<Seq<char>> {
    match l {
        Some(s) => Some(s@),
        None => None,
    }
}

impl View for Statement {
    type V = SpecStatement;

    open spec fn view(&self) -> SpecStatement {
        match self {
            Statement::Place { location, name, tokens, label } => SpecStatement::Place {
                location: *location,
                name: name@,
                tokens: *tokens,
                label: label_view(*label),
            },
            Statement::Transition { location, name, label } => SpecStatement::Transition {
                location: *location,
                name: name@,
                label: label_view(*label),
            },
            Statement::Arc { location, pairs } => SpecStatement::Arc {
                location: *location,
                pairs: pairs_view(pairs@),
            },
        }
    }
}

/// The views of the statements of a program.
pub open spec fn program_view(p: Seq<Statement>) -> Seq<SpecStatement> {
    p.map_values(|s: Statement| s@)
}

} // verus!
