//! One marker type per kind of token, for `Parser::expect` and `Parser::peek`.
use vstd::prelude::*;

use crate::grammar::lexer::Token;
use crate::grammar::traits::Extract;

verus! {

/// The keyword `place`.
pub struct Place;

/// The keyword `transition`.
pub struct Transition;

/// The keyword `tokens`.
pub struct Tokens;

/// A name; yields its text.
pub struct Identifier;

/// A number; yields its value.
pub struct IntegerLiteral;

/// A string literal; yields its text.
pub struct StringLiteral;

/// `->`.
pub struct Arrow;

/// `[`.
pub struct LeftBracket;

/// `]`.
pub struct RightBracket;

/// `;`.
pub struct Semicolon;

/// `=`.
pub struct Equals;

impl Extract for Place {
    type Output = ();

    open spec fn spec_extract(token: Token) -> Option<()> {
        match token {
            Token::Place => Some(()),
            _ => None,
        }
    }

    fn extract(token: Token) -> (r: Option<()>) {
        match token {
            Token::Place => Some(()),
            _ => None,
        }
    }
}

impl Extract for Transition {
    type Output = ();

    open spec fn spec_extract(token: Token) -> Option<()> {
        match token {
            Token::Transition => Some(()),
            _ => None,
        }
    }

    fn extract(token: Token) -> (r: Option<()>) {
        match token {
            Token::Transition => Some(()),
            _ => None,
        }
    }
}

impl Extract for Tokens {
    type Output = ();

    open spec fn spec_extract(token: Token) -> Option<()> {
        match token {
            Token::Tokens => Some(()),
            _ => None,
        }
    }

    fn extract(token: Token) -> (r: Option<()>) {
        match token {
            Token::Tokens => Some(()),
            _ => None,
        }
    }
}

impl Extract for Identifier {
    type Output = String;

    open spec fn spec_extract(token: Token) -> Option<String> {
        match token {
            Token::Identifier(identifier) => Some(identifier),
            _ => None,
        }
    }

    fn extract(token: Token) -> (r: Option<String>) {
        match token {
            Token::Identifier(identifier) => Some(identifier),
            _ => None,
        }
    }
}

impl Extract for IntegerLiteral {
    type Output = usize;

    open spec fn spec_extract(token: Token) -> Option<usize> {
        match token {
            Token::Integer(integer) => Some(integer),
            _ => None,
        }
    }

    fn extract(token: Token) -> (r: Option<usize>) {
        match token {
            Token::Integer(integer) => Some(integer),
            _ => None,
        }
    }
}

impl Extract for StringLiteral {
    type Output = String;

    open spec fn spec_extract(token: Token) -> Option<String> {
        match token {
            Token::String(string) => Some(string),
            _ => None,
        }
    }

    fn extract(token: Token) -> (r: Option<String>) {
        match token {
            Token::String(string) => Some(string),
            _ => None,
        }
    }
}

impl Extract for Arrow {
    type Output = ();

    open spec fn spec_extract(token: Token) -> Option<()> {
        match token {
            Token::Arrow => Some(()),
            _ => None,
        }
    }

    fn extract(token: Token) -> (r: Option<()>) {
        match token {
            Token::Arrow => Some(()),
            _ => None,
        }
    }
}

impl Extract for LeftBracket {
    type Output = ();

    open spec fn spec_extract(token: Token) -> Option<()> {
        match token {
            Token::LeftBracket => Some(()),
            _ => None,
        }
    }

    fn extract(token: Token) -> (r: Option<()>) {
        match token {
            Token::LeftBracket => Some(()),
            _ => None,
        }
    }
}

impl Extract for RightBracket {
    type Output = ();

    open spec fn spec_extract(token: Token) -> Option<()> {
        match token {
            Token::RightBracket => Some(()),
            _ => None,
        }
    }

    fn extract(token: Token) -> (r: Option<()>) {
        match token {
            Token::RightBracket => Some(()),
            _ => None,
        }
    }
}

impl Extract for Semicolon {
    type Output = ();

    open spec fn spec_extract(token: Token) -> Option<()> {
        match token {
            Token::Semicolon => Some(()),
            _ => None,
        }
    }

    fn extract(token: Token) -> (r: Option<()>) {
        match token {
            Token::Semicolon => Some(()),
            _ => None,
        }
    }
}

impl Extract for Equals {
    type Output = ();

    open spec fn spec_extract(token: Token) -> Option<()> {
        match token {
            Token::Equals => Some(()),
            _ => None,
        }
    }

    fn extract(token: Token) -> (r: Option<()>) {
        match token {
            Token::Equals => Some(()),
            _ => None,
        }
    }
}

} // verus!
