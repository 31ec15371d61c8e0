//! Traits the parser is written against.
use vstd::prelude::*;

use crate::grammar::lexer::Token;
use crate::span::Span;

verus! {

/// Something that a single token may carry: a marker type per kind of token, whose `extract`
/// yields the token's payload when the token is of that kind.
pub trait Extract {
    type Output;

    /// The payload of `token` when it is of this kind.
    spec fn spec_extract(token: Token) -> Option<Self::Output>;

    fn extract(token: Token) -> (r: Option<Self::Output>)
        ensures
            r == Self::spec_extract(token),
    ;
}

/// Merging of ranges.
pub trait RangeExt: Sized {
    fn merge(&self, other: &Self) -> Self;
}

impl RangeExt for Span {
    /// The smallest range that covers both ranges.
    fn merge(&self, other: &Self) -> (r: Self)
        ensures
            r == self.spec_merge(*other),
    {
        Span::new(
            if self.start <= other.start { self.start } else { other.start },
            if self.end >= other.end { self.end } else { other.end },
        )
    }
}

} // verus!
