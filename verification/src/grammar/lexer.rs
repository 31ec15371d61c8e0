//! The lexer: turns source text into tokens with their byte ranges.
use vstd::prelude::*;

use crate::span::Span;
use crate::text::{
    byte_offset, char_is_alphabetic, char_is_numeric, char_is_whitespace, char_len_utf8,
    is_alphabetic_char, is_alphanumeric_char, is_numeric_char, is_whitespace_char, parse_usize,
    parsed_usize, push_char, chars_of, utf8_len, lemma_byte_offset_bounds, lemma_byte_offset_step,
    lemma_byte_offset_strict,
};

use crate::traits::{lemma_span_chars, span_chars, span_fits};

verus! {

/// A token and the bytes of the source that it was read from.
pub type SpannedToken = (Token, Span);

/// The tokens of the language.
pub enum Token {
    // Keywords
    Place,
    Transition,
    Tokens,
    Identifier(String),
    // Literals
    Integer(usize),
    String(String),
    // Delimiters
    Arrow,
    LeftBracket,
    RightBracket,
    Semicolon,
    Equals,
    // Special
    Unexpected(char),
}

/// The view of a token, with its text as a sequence of characters.
pub enum SpecToken {
    Place,
    Transition,
    Tokens,
    Identifier(Seq<char>),
    Integer(usize),
    String(Seq<char>),
    Arrow,
    LeftBracket,
    RightBracket,
    Semicolon,
    Equals,
    Unexpected(char),
}

impl View for Token {
    type V = SpecToken;

    open spec fn view(&self) -> SpecToken {
        match self {
            Token::Place => SpecToken::Place,
            Token::Transition => SpecToken::Transition,
            Token::Tokens => SpecToken::Tokens,
            Token::Identifier(s) => SpecToken::Identifier(s@),
            Token::Integer(n) => SpecToken::Integer(*n),
            Token::String(s) => SpecToken::String(s@),
            Token::Arrow => SpecToken::Arrow,
            Token::LeftBracket => SpecToken::LeftBracket,
            Token::RightBracket => SpecToken::RightBracket,
            Token::Semicolon => SpecToken::Semicolon,
            Token::Equals => SpecToken::Equals,
            Token::Unexpected(c) => SpecToken::Unexpected(*c),
        }
    }
}

impl Clone for Token {
    fn clone(&self) -> (r: Self)
        ensures
            r == *self,
    {
        match self {
            Token::Place => Token::Place,
            Token::Transition => Token::Transition,
            Token::Tokens => Token::Tokens,
            Token::Identifier(s) => Token::Identifier(s.clone()),
            Token::Integer(n) => Token::Integer(*n),
            Token::String(s) => Token::String(s.clone()),
            Token::Arrow => Token::Arrow,
            Token::LeftBracket => Token::LeftBracket,
            Token::RightBracket => Token::RightBracket,
            Token::Semicolon => Token::Semicolon,
            Token::Equals => Token::Equals,
            Token::Unexpected(c) => Token::Unexpected(*c),
        }
    }
}

/// The kind of a token, without its payload.
#[derive(Clone, Copy, Debug, PartialEq, Eq, Structural)]
pub enum TokenKind {
    Place,
    Transition,
    Tokens,
    Identifier,
    Integer,
    String,
    Arrow,
    LeftBracket,
    RightBracket,
    Semicolon,
    Equals,
    Unexpected,
}

/// The kind of a token's view.
pub open spec fn kind_of(t: SpecToken) -> TokenKind {
    match t {
        SpecToken::Place => TokenKind::Place,
        SpecToken::Transition => TokenKind::Transition,
        SpecToken::Tokens => TokenKind::Tokens,
        SpecToken::Identifier(_) => TokenKind::Identifier,
        SpecToken::Integer(_) => TokenKind::Integer,
        SpecToken::String(_) => TokenKind::String,
        SpecToken::Arrow => TokenKind::Arrow,
        SpecToken::LeftBracket => TokenKind::LeftBracket,
        SpecToken::RightBracket => TokenKind::RightBracket,
        SpecToken::Semicolon => TokenKind::Semicolon,
        SpecToken::Equals => TokenKind::Equals,
        SpecToken::Unexpected(_) => TokenKind::Unexpected,
    }
}

impl Token {
    /// The kind of this token.
    pub fn kind(&self) -> (r: TokenKind)
        ensures
            r == kind_of(self@),
    {
        match self {
            Token::Place => TokenKind::Place,
            Token::Transition => TokenKind::Transition,
            Token::Tokens => TokenKind::Tokens,
            Token::Identifier(_) => TokenKind::Identifier,
            Token::Integer(_) => TokenKind::Integer,
            Token::String(_) => TokenKind::String,
            Token::Arrow => TokenKind::Arrow,
            Token::LeftBracket => TokenKind::LeftBracket,
            Token::RightBracket => TokenKind::RightBracket,
            Token::Semicolon => TokenKind::Semicolon,
            Token::Equals => TokenKind::Equals,
            Token::Unexpected(_) => TokenKind::Unexpected,
        }
    }
}

/// The classes of characters that the lexer consumes runs of.
pub enum CharClass {
    /// Anything but a line feed: the body of a comment.
    NotNewline,
    /// Unicode white space.
    Whitespace,
    /// Letters, digits and `_`: the tail of an identifier.
    IdentifierTail,
    /// Unicode numeric characters: the tail of a number.
    Numeric,
    /// One given character.
    Exactly(char),
}

/// True when `c` belongs to the class `k`.
pub open spec fn class_holds(k: CharClass, c: char) -> bool {
    match k {
        CharClass::NotNewline => c != '\n',
        CharClass::Whitespace => is_whitespace_char(c),
        CharClass::IdentifierTail => is_alphanumeric_char(c) || c == '_',
        CharClass::Numeric => is_numeric_char(c),
        CharClass::Exactly(x) => c == x,
    }
}

/// The index of the first character at or after `i` that is not of class `k` (or the end).
pub open spec fn skip_class(cs: Seq<char>, i: int, k: CharClass) -> int
    decreases cs.len() - i,
{
    if 0 <= i < cs.len() && class_holds(k, cs[i]) {
        skip_class(cs, i + 1, k)
    } else {
        i
    }
}

/// The character that an escape sequence `\c` inside a string literal stands for.
pub open spec fn unescape(c: char) -> char {
    if c == 'n' {
        '\n'
    } else if c == 't' {
        '\t'
    } else if c == 'r' {
        '\r'
    } else {
        c
    }
}

/// The text of a string literal whose body starts at `i`, and the index just after it: the body
/// runs to the next unescaped `"` (which is consumed) or to the end of the input.
pub open spec fn string_body(cs: Seq<char>, i: int) -> (Seq<char>, int)
    decreases cs.len() - i,
{
    if i < 0 || i >= cs.len() {
        (Seq::empty(), i)
    } else if cs[i] == '"' {
        (Seq::empty(), i + 1)
    } else if cs[i] == '\\' {
        if i + 1 < cs.len() {
            let rest = string_body(cs, i + 2);
            (seq![unescape(cs[i + 1])] + rest.0, rest.1)
        } else {
            (Seq::empty(), i + 1)
        }
    } else {
        let rest = string_body(cs, i + 1);
        (seq![cs[i]] + rest.0, rest.1)
    }
}

/// The token for a word: a keyword or an identifier.
pub open spec fn word_token(word: Seq<char>) -> SpecToken {
    if word == seq!['p', 'l', 'a', 'c', 'e'] {
        SpecToken::Place
    } else if word == seq!['t', 'r', 'a', 'n', 's', 'i', 't', 'i', 'o', 'n'] {
        SpecToken::Transition
    } else if word == seq!['t', 'o', 'k', 'e', 'n', 's'] {
        SpecToken::Tokens
    } else {
        SpecToken::Identifier(word)
    }
}

/// One lexeme: the token, the character indices it spans, and whether it can be produced
/// (a number that `str::parse::<usize>` rejects cannot).
pub struct Lexeme {
    pub token: SpecToken,
    pub start: int,
    pub end: int,
    pub fits: bool,
}

/// The next lexeme at or after character index `i`, after white space and comments.
pub open spec fn scan_token(cs: Seq<char>, i: int) -> Option<Lexeme>
    decreases cs.len() - i,
{
    if i < 0 || i >= cs.len() {
        None
    } else {
        let c = cs[i];
        if c == '[' {
            Some(Lexeme { token: SpecToken::LeftBracket, start: i, end: i + 1, fits: true })
        } else if c == ']' {
            Some(Lexeme { token: SpecToken::RightBracket, start: i, end: i + 1, fits: true })
        } else if c == ';' {
            Some(Lexeme { token: SpecToken::Semicolon, start: i, end: i + 1, fits: true })
        } else if c == '=' {
            Some(Lexeme { token: SpecToken::Equals, start: i, end: i + 1, fits: true })
        } else if c == '-' {
            if i + 1 < cs.len() && cs[i + 1] == '>' {
                Some(Lexeme { token: SpecToken::Arrow, start: i, end: i + 2, fits: true })
            } else {
                Some(Lexeme { token: SpecToken::Unexpected('-'), start: i, end: i + 1, fits: true })
            }
        } else if c == '#' {
            let j = skip_class(cs, i + 1, CharClass::NotNewline);
            if i < j <= cs.len() {
                scan_token(cs, j)
            } else {
                None
            }
        } else if c == '"' {
            let body = string_body(cs, i + 1);
            Some(Lexeme { token: SpecToken::String(body.0), start: i, end: body.1, fits: true })
        } else if is_whitespace_char(c) {
            let j = skip_class(cs, i + 1, CharClass::Whitespace);
            if i < j <= cs.len() {
                scan_token(cs, j)
            } else {
                None
            }
        } else if is_alphabetic_char(c) {
            let j = skip_class(cs, i + 1, CharClass::IdentifierTail);
            Some(Lexeme { token: word_token(cs.subrange(i, j)), start: i, end: j, fits: true })
        } else if is_numeric_char(c) {
            let j = skip_class(cs, i + 1, CharClass::Numeric);
            let n = parsed_usize(cs.subrange(i, j));
            Some(
                Lexeme {
                    token: SpecToken::Integer(
                        match n {
                            Some(v) => v,
                            None => 0,
                        },
                    ),
                    start: i,
                    end: j,
                    fits: n is Some,
                },
            )
        } else {
            Some(Lexeme { token: SpecToken::Unexpected(c), start: i, end: i + 1, fits: true })
        }
    }
}

/// The byte range of a lexeme.
pub open spec fn lexeme_span(cs: Seq<char>, l: Lexeme) -> Span {
    Span { start: byte_offset(cs, l.start) as usize, end: byte_offset(cs, l.end) as usize }
}

/// The tokens, with their byte ranges, that the lexer produces from character index `i` on.
pub open spec fn tokens_from(cs: Seq<char>, i: int) -> Seq<(SpecToken, Span)>
    decreases cs.len() - i,
{
    match scan_token(cs, i) {
        Some(l) => if i < l.end <= cs.len() {
            seq![(l.token, lexeme_span(cs, l))] + tokens_from(cs, l.end)
        } else {
            Seq::empty()
        },
        None => Seq::empty(),
    }
}

/// True when every lexeme from character index `i` on can be produced.
pub open spec fn lexable_from(cs: Seq<char>, i: int) -> bool
    decreases cs.len() - i,
{
    match scan_token(cs, i) {
        Some(l) => if i < l.end <= cs.len() {
            l.fits && lexable_from(cs, l.end)
        } else {
            true
        },
        None => true,
    }
}

/// The tokens that can be produced from character index `i` on: those before the first number
/// that cannot be read.
pub open spec fn readable_tokens(cs: Seq<char>, i: int) -> Seq<(SpecToken, Span)>
    decreases cs.len() - i,
{
    match scan_token(cs, i) {
        Some(l) => if i < l.end <= cs.len() && l.fits {
            seq![(l.token, lexeme_span(cs, l))] + readable_tokens(cs, l.end)
        } else {
            Seq::empty()
        },
        None => Seq::empty(),
    }
}

/// When every lexeme can be produced, the readable tokens are all the tokens.
pub proof fn lemma_readable_tokens(cs: Seq<char>, i: int)
    requires
        lexable_from(cs, i),
    ensures
        readable_tokens(cs, i) == tokens_from(cs, i),
    decreases cs.len() - i,
{
    if let Some(l) = scan_token(cs, i) {
        if i < l.end <= cs.len() {
            lemma_readable_tokens(cs, l.end);
        }
    }
}

/// `skip_class` stops inside the input, after a run of characters of its class.
pub proof fn lemma_skip_class(cs: Seq<char>, i: int, k: CharClass)
    requires
        0 <= i <= cs.len(),
    ensures
        i <= skip_class(cs, i, k) <= cs.len(),
        forall|j: int| i <= j < skip_class(cs, i, k) ==> class_holds(k, #[trigger] cs[j]),
        skip_class(cs, i, k) < cs.len() ==> !class_holds(k, cs[skip_class(cs, i, k)]),
    decreases cs.len() - i,
{
    if i < cs.len() && class_holds(k, cs[i]) {
        lemma_skip_class(cs, i + 1, k);
    }
}

/// A string literal's body ends inside the input, after its start.
pub proof fn lemma_string_body(cs: Seq<char>, i: int)
    requires
        0 <= i <= cs.len(),
    ensures
        i <= string_body(cs, i).1 <= cs.len(),
    decreases cs.len() - i,
{
    if i < cs.len() {
        if cs[i] == '"' {
        } else if cs[i] == '\\' {
            if i + 1 < cs.len() {
                lemma_string_body(cs, i + 2);
            }
        } else {
            lemma_string_body(cs, i + 1);
        }
    }
}

/// A lexeme found at or after `i` lies inside the input and is not empty.
pub proof fn lemma_scan_token(cs: Seq<char>, i: int)
    requires
        0 <= i,
    ensures
        scan_token(cs, i) matches Some(l) ==> i <= l.start < l.end <= cs.len(),
    decreases cs.len() - i,
{
    if 0 <= i < cs.len() {
        let c = cs[i];
        if c == '#' {
            lemma_skip_class(cs, i + 1, CharClass::NotNewline);
            lemma_scan_token(cs, skip_class(cs, i + 1, CharClass::NotNewline));
        } else if c == '"' {
            lemma_string_body(cs, i + 1);
        } else if is_whitespace_char(c) {
            lemma_skip_class(cs, i + 1, CharClass::Whitespace);
            lemma_scan_token(cs, skip_class(cs, i + 1, CharClass::Whitespace));
        } else if is_alphabetic_char(c) {
            lemma_skip_class(cs, i + 1, CharClass::IdentifierTail);
        } else if is_numeric_char(c) {
            lemma_skip_class(cs, i + 1, CharClass::Numeric);
        }
    }
}

/// The tokens of a text come in source order: each covers a non-empty range of bytes of the
/// text, and each range ends at or before the start of the next one.
pub proof fn law_token_ranges_ordered(cs: Seq<char>, i: int)
    requires
        0 <= i <= cs.len(),
        utf8_len(cs) <= usize::MAX,
    ensures
        forall|k: int|
            0 <= k < tokens_from(cs, i).len() ==> byte_offset(cs, i) <= (#[trigger] tokens_from(
                cs,
                i,
            )[k]).1.start < tokens_from(cs, i)[k].1.end <= utf8_len(cs),
        forall|k: int, m: int|
            0 <= k < m < tokens_from(cs, i).len() ==> (#[trigger] tokens_from(cs, i)[k]).1.end
                <= (#[trigger] tokens_from(cs, i)[m]).1.start,
    decreases cs.len() - i,
{
    lemma_scan_token(cs, i);
    if let Some(l) = scan_token(cs, i) {
        if i < l.end <= cs.len() {
            let ts = tokens_from(cs, i);
            let rest = tokens_from(cs, l.end);
            law_token_ranges_ordered(cs, l.end);
            lemma_byte_offset_bounds(cs, i, l.start);
            lemma_byte_offset_bounds(cs, l.end, cs.len() as int);
            lemma_byte_offset_strict(cs, l.start, l.end);
            assert(ts == seq![(l.token, lexeme_span(cs, l))] + rest);
            assert forall|k: int| 0 <= k < ts.len() implies byte_offset(cs, i) <= (
            #[trigger] ts[k]).1.start < ts[k].1.end <= utf8_len(cs) by {
                if k > 0 {
                    assert(ts[k] == rest[k - 1]);
                    lemma_byte_offset_bounds(cs, i, l.end);
                }
            }
            assert forall|k: int, m: int| 0 <= k < m < ts.len() implies (#[trigger] ts[k]).1.end
                <= (#[trigger] ts[m]).1.start by {
                assert(ts[m] == rest[m - 1]);
                if k > 0 {
                    assert(ts[k] == rest[k - 1]);
                }
            }
        }
    }
}

/// True when the characters `cs[a..b]` are a run of white space and comments (a comment runs
/// from `#` up to the next line feed, or to the end of the text).
pub open spec fn skippable(cs: Seq<char>, a: int, b: int) -> bool
    decreases b - a,
{
    if a >= b {
        a == b
    } else if 0 <= a && is_whitespace_char(cs[a]) {
        skippable(cs, a + 1, b)
    } else if 0 <= a && cs[a] == '#' {
        let e = skip_class(cs, a + 1, CharClass::NotNewline);
        if a < e <= b {
            skippable(cs, e, b)
        } else {
            false
        }
    } else {
        false
    }
}

/// The lexemes, by character indices, that the lexer reads from character index `i` on.
pub open spec fn lexemes_from(cs: Seq<char>, i: int) -> Seq<Lexeme>
    decreases cs.len() - i,
{
    match scan_token(cs, i) {
        Some(l) => if i < l.end <= cs.len() {
            seq![l] + lexemes_from(cs, l.end)
        } else {
            Seq::empty()
        },
        None => Seq::empty(),
    }
}

/// True when a lexeme spells its token: a word is the text it covers, and a keyword covers its
/// keyword.
pub open spec fn spells(cs: Seq<char>, l: Lexeme) -> bool {
    let text = cs.subrange(l.start, l.end);
    match l.token {
        SpecToken::Identifier(x) => x == text,
        SpecToken::Place => text == seq!['p', 'l', 'a', 'c', 'e'],
        SpecToken::Transition => text == seq!['t', 'r', 'a', 'n', 's', 'i', 't', 'i', 'o', 'n'],
        SpecToken::Tokens => text == seq!['t', 'o', 'k', 'e', 'n', 's'],
        _ => true,
    }
}

/// What comes before the next lexeme is white space and comments, and the lexeme spells its
/// token; with no lexeme left, the rest of the text is white space and comments.
pub proof fn lemma_scan_skips(cs: Seq<char>, i: int)
    requires
        0 <= i <= cs.len(),
    ensures
        match scan_token(cs, i) {
            Some(l) => skippable(cs, i, l.start) && spells(cs, l),
            None => skippable(cs, i, cs.len() as int),
        },
    decreases cs.len() - i,
{
    lemma_scan_token(cs, i);
    if i < cs.len() {
        let c = cs[i];
        if c == '#' {
            lemma_skip_class(cs, i + 1, CharClass::NotNewline);
            let j = skip_class(cs, i + 1, CharClass::NotNewline);
            lemma_scan_skips(cs, j);
            lemma_scan_token(cs, j);
        } else if c == '"' || c == '[' || c == ']' || c == ';' || c == '=' || c == '-' {
        } else if is_whitespace_char(c) {
            lemma_skip_class(cs, i + 1, CharClass::Whitespace);
            let j = skip_class(cs, i + 1, CharClass::Whitespace);
            lemma_scan_skips(cs, j);
            lemma_scan_token(cs, j);
            lemma_whitespace_run_skippable(cs, i + 1, j, match scan_token(cs, j) {
                Some(l) => l.start,
                None => cs.len() as int,
            });
        } else if is_alphabetic_char(c) {
            lemma_skip_class(cs, i + 1, CharClass::IdentifierTail);
        }
    }
}

/// A run of white space followed by white space and comments is white space and comments.
proof fn lemma_whitespace_run_skippable(cs: Seq<char>, a: int, j: int, b: int)
    requires
        0 <= a <= j <= b <= cs.len(),
        forall|m: int| a <= m < j ==> is_whitespace_char(#[trigger] cs[m]),
        skippable(cs, j, b),
    ensures
        skippable(cs, a, b),
    decreases j - a,
{
    if a < j {
        lemma_whitespace_run_skippable(cs, a + 1, j, b);
    }
}

/// The tokens of a text spell it: each identifier token covers exactly its name and each
/// keyword token its keyword, in the bytes of its range; and everything between the tokens,
/// before the first and after the last, is white space and comments.
pub proof fn law_tokens_spell_the_source(cs: Seq<char>, i: int)
    requires
        0 <= i <= cs.len(),
        utf8_len(cs) <= usize::MAX,
    ensures
        ({
            let ls = lexemes_from(cs, i);
            let ts = tokens_from(cs, i);
            &&& ts.len() == ls.len()
            &&& forall|k: int|
                0 <= k < ls.len() ==> {
                    &&& ts[k] == (ls[k].token, lexeme_span(cs, #[trigger] ls[k]))
                    &&& i <= ls[k].start < ls[k].end <= cs.len()
                    &&& spells(cs, ls[k])
                    &&& span_fits(cs, ts[k].1)
                    &&& span_chars(cs, ts[k].1) == cs.subrange(ls[k].start, ls[k].end)
                }
            &&& ls.len() == 0 ==> skippable(cs, i, cs.len() as int)
            &&& ls.len() > 0 ==> skippable(cs, i, ls[0].start)
            &&& ls.len() > 0 ==> skippable(cs, ls.last().end, cs.len() as int)
            &&& forall|k: int|
                0 <= k < ls.len() - 1 ==> skippable(cs, (#[trigger] ls[k]).end, ls[k + 1].start)
        }),
    decreases cs.len() - i,
{
    lemma_scan_token(cs, i);
    lemma_scan_skips(cs, i);
    if let Some(l) = scan_token(cs, i) {
        let ls = lexemes_from(cs, i);
        let ts = tokens_from(cs, i);
        let rl = lexemes_from(cs, l.end);
        let rt = tokens_from(cs, l.end);
        law_tokens_spell_the_source(cs, l.end);
        lemma_byte_offset_bounds(cs, l.start, l.end);
        lemma_byte_offset_bounds(cs, l.end, cs.len() as int);
        lemma_span_chars(cs, lexeme_span(cs, l), l.start, l.end);
        assert(ls == seq![l] + rl);
        assert(ts == seq![(l.token, lexeme_span(cs, l))] + rt);
        assert forall|k: int| 0 <= k < ls.len() implies {
            &&& ts[k] == (ls[k].token, lexeme_span(cs, #[trigger] ls[k]))
            &&& i <= ls[k].start < ls[k].end <= cs.len()
            &&& spells(cs, ls[k])
            &&& span_fits(cs, ts[k].1)
            &&& span_chars(cs, ts[k].1) == cs.subrange(ls[k].start, ls[k].end)
        } by {
            if k > 0 {
                assert(ls[k] == rl[k - 1]);
                assert(ts[k] == rt[k - 1]);
            }
        }
        if rl.len() == 0 {
            assert(ls.last() == l);
        } else {
            assert(ls.last() == rl.last());
            assert(rl[0] == ls[1]);
        }
        assert forall|k: int| 0 <= k < ls.len() - 1 implies skippable(
            cs,
            (#[trigger] ls[k]).end,
            ls[k + 1].start,
        ) by {
            assert(ls[k + 1] == rl[k]);
            if k > 0 {
                assert(ls[k] == rl[k - 1]);
            }
        }
    }
}

/// The view of a token with its range.
pub open spec fn spanned_view(t: SpannedToken) -> (SpecToken, Span) {
    (t.0@, t.1)
}

/// The views of a sequence of tokens with their ranges.
pub open spec fn spanned_views(ts: Seq<SpannedToken>) -> Seq<(SpecToken, Span)> {
    ts.map_values(|t: SpannedToken| spanned_view(t))
}

/// What reading one lexeme from character index `i` of `cs` gives, with the cursor left at `j`:
/// nothing at the end of the input, the token when it can be produced, and the range of a number
/// that cannot be parsed otherwise.
pub open spec fn lexeme_result(
    cs: Seq<char>,
    i: int,
    r: Option<Result<SpannedToken, Span>>,
    j: int,
) -> bool {
    match scan_token(cs, i) {
        None => r is None && j == cs.len(),
        Some(l) => j == l.end && match r {
            Some(Ok(t)) => l.fits && spanned_view(t) == (l.token, lexeme_span(cs, l)),
            Some(Err(sp)) => !l.fits && sp == lexeme_span(cs, l),
            None => false,
        },
    }
}

/// The lexer: a cursor over the characters of the source text.
pub struct Lexer {
    chars: Vec<char>,
    index: usize,
    position: usize,
}

/// True when `c` belongs to the class `k`.
fn class_matches(k: &CharClass, c: char) -> (r: bool)
    ensures
        r == class_holds(*k, c),
{
    match k {
        CharClass::NotNewline => c != '\n',
        CharClass::Whitespace => char_is_whitespace(c),
        CharClass::IdentifierTail => char_is_alphabetic(c) || char_is_numeric(c) || c == '_',
        CharClass::Numeric => char_is_numeric(c),
        CharClass::Exactly(x) => c == *x,
    }
}

/// True when the characters `cs[start..end]` spell `word`.
fn range_spells(cs: &Vec<char>, start: usize, end: usize, word: &[char]) -> (r: bool)
    requires
        start <= end <= cs.len(),
    ensures
        r == (cs@.subrange(start as int, end as int) == word@),
{
    if end - start != word.len() {
        return false;
    }
    let mut k: usize = 0;
    while k < word.len()
        invariant
            start <= end <= cs.len(),
            end - start == word.len(),
            k <= word.len(),
            forall|m: int| 0 <= m < k ==> cs@[start + m] == word@[m],
        decreases word.len() - k,
    {
        if cs[start + k] != word[k] {
            assert(cs@.subrange(start as int, end as int)[k as int] != word@[k as int]);
            return false;
        }
        k = k + 1;
    }
    assert(cs@.subrange(start as int, end as int) =~= word@);
    true
}

impl Lexer {
    /// The characters of the source text.
    pub closed spec fn source(&self) -> Seq<char> {
        self.chars@
    }

    /// The index of the next character to read.
    pub closed spec fn cursor(&self) -> int {
        self.index as int
    }

    /// The cursor lies inside the text, the byte position matches it, and every byte offset fits
    /// in a `usize`.
    pub closed spec fn wf(&self) -> bool {
        &&& self.index <= self.chars.len()
        &&& self.position == byte_offset(self.chars@, self.index as int)
        &&& utf8_len(self.chars@) <= usize::MAX
    }

    /// The tokens that remain to be read.
    pub open spec fn remaining(&self) -> Seq<(SpecToken, Span)> {
        tokens_from(self.source(), self.cursor())
    }

    /// True when every remaining token can be produced.
    pub open spec fn lexable(&self) -> bool {
        lexable_from(self.source(), self.cursor())
    }

    /// A lexer at the start of `input`.
    pub fn new(input: &str) -> (r: Lexer)
        requires
            utf8_len(input@) <= usize::MAX,
        ensures
            r.wf(),
            r.source() == input@,
            r.cursor() == 0,
    {
        let chars = chars_of(input);
        proof {
            lemma_byte_offset_bounds(chars@, 0, 0);
        }
        Lexer { chars, index: 0, position: 0 }
    }

    /// Reads the next character if there is one.
    fn next_char(&mut self) -> (r: Option<char>)
        requires
            old(self).wf(),
        ensures
            final(self).wf(),
            final(self).source() == old(self).source(),
            old(self).cursor() < old(self).source().len() ==> {
                &&& r == Some(old(self).source()[old(self).cursor()])
                &&& final(self).cursor() == old(self).cursor() + 1
            },
            old(self).cursor() >= old(self).source().len() ==> {
                &&& r is None
                &&& final(self).cursor() == old(self).cursor()
            },
    {
        if self.index < self.chars.len() {
            let c = self.chars[self.index];
            proof {
                lemma_byte_offset_step(self.chars@, self.index as int);
                lemma_byte_offset_bounds(self.chars@, self.index + 1, self.chars.len() as int);
            }
            self.position = self.position + char_len_utf8(c);
            self.index = self.index + 1;
            Some(c)
        } else {
            None
        }
    }

    /// Reads the next character if it belongs to the class `k`.
    fn next_char_if(&mut self, k: &CharClass) -> (r: Option<char>)
        requires
            old(self).wf(),
        ensures
            final(self).wf(),
            final(self).source() == old(self).source(),
            ({
                let cs = old(self).source();
                let i = old(self).cursor();
                if i < cs.len() && class_holds(*k, cs[i]) {
                    r == Some(cs[i]) && final(self).cursor() == i + 1
                } else {
                    r is None && final(self).cursor() == i
                }
            }),
    {
        if self.index < self.chars.len() && class_matches(k, self.chars[self.index]) {
            self.next_char()
        } else {
            None
        }
    }

    /// Reads the run of characters of class `k` that starts at the cursor.
    fn skip_run(&mut self, k: &CharClass)
        requires
            old(self).wf(),
        ensures
            final(self).wf(),
            final(self).source() == old(self).source(),
            final(self).cursor() == skip_class(old(self).source(), old(self).cursor(), *k),
    {
        let ghost cs = self.chars@;
        let ghost i0 = self.index as int;
        loop
            invariant
                self.wf(),
                self.chars@ == cs,
                skip_class(cs, self.index as int, *k) == skip_class(cs, i0, *k),
            ensures
                self.wf(),
                self.chars@ == cs,
                self.index == skip_class(cs, i0, *k),
            decreases cs.len() - self.index,
        {
            if self.next_char_if(k).is_none() {
                break;
            }
        }
    }

    /// The text of the characters `start..end`.
    fn text_between(&self, start: usize, end: usize) -> (r: String)
        requires
            start <= end <= self.source().len(),
        ensures
            r@ == self.source().subrange(start as int, end as int),
    {
        let mut text = String::new();
        let mut k = start;
        while k < end
            invariant
                start <= k <= end <= self.chars.len(),
                text@ == self.chars@.subrange(start as int, k as int),
            decreases end - k,
        {
            push_char(&mut text, self.chars[k]);
            k = k + 1;
            assert(text@ =~= self.chars@.subrange(start as int, k as int));
        }
        text
    }

    /// Reads the body of a string literal, up to and including its closing quote.
    fn read_string_body(&mut self) -> (r: String)
        requires
            old(self).wf(),
        ensures
            final(self).wf(),
            final(self).source() == old(self).source(),
            r@ == string_body(old(self).source(), old(self).cursor()).0,
            final(self).cursor() == string_body(old(self).source(), old(self).cursor()).1,
    {
        let ghost cs = self.chars@;
        let ghost i0 = self.index as int;
        let mut string = String::new();
        loop
            invariant_except_break
                string@ + string_body(cs, self.index as int).0 == string_body(cs, i0).0,
                string_body(cs, self.index as int).1 == string_body(cs, i0).1,
            invariant
                self.wf(),
                self.chars@ == cs,
            ensures
                string@ == string_body(cs, i0).0,
                self.index == string_body(cs, i0).1,
            decreases cs.len() - self.index,
        {
            let ghost j = self.index as int;
            match self.next_char() {
                None => {
                    assert(string@ =~= string@ + string_body(cs, j).0);
                    break;
                },
                Some(c) => {
                    if c == '"' {
                        assert(string@ =~= string@ + string_body(cs, j).0);
                        assert(string_body(cs, j).1 == j + 1);
                        break;
                    } else if c == '\\' {
                        match self.next_char() {
                            Some(e) => {
                                let u = if e == 'n' {
                                    '\n'
                                } else if e == 't' {
                                    '\t'
                                } else if e == 'r' {
                                    '\r'
                                } else {
                                    e
                                };
                                let ghost before = string@;
                                push_char(&mut string, u);
                                assert(string@ + string_body(cs, self.index as int).0 =~= before
                                    + string_body(cs, j).0);
                            },
                            None => {},
                        }
                    } else {
                        let ghost before = string@;
                        push_char(&mut string, c);
                        assert(string@ + string_body(cs, self.index as int).0 =~= before
                            + string_body(cs, j).0);
                    }
                },
            }
        }
        string
    }

    /// Reads the next lexeme, skipping white space and comments: the token, or the range of a
    /// number that does not parse as a `usize`.
    fn next_lexeme(&mut self) -> (r: Option<Result<SpannedToken, Span>>)
        requires
            old(self).wf(),
        ensures
            final(self).wf(),
            final(self).source() == old(self).source(),
            lexeme_result(old(self).source(), old(self).cursor(), r, final(self).cursor()),
    {
        let ghost cs = self.chars@;
        let ghost i0 = self.index as int;
        loop
            invariant
                self.wf(),
                self.chars@ == cs,
                cs == old(self).source(),
                i0 == old(self).cursor(),
                0 <= i0 <= self.index,
                scan_token(cs, self.index as int) == scan_token(cs, i0),
            decreases cs.len() - self.index,
        {
            let start = self.index;
            let current_position = self.position;
            proof {
                lemma_scan_token(cs, start as int);
            }
            let c = match self.next_char() {
                Some(c) => c,
                None => {
                    return None;
                },
            };
            if c == '[' {
                return Some(Ok(self.emit_token(current_position, Token::LeftBracket)));
            } else if c == ']' {
                return Some(Ok(self.emit_token(current_position, Token::RightBracket)));
            } else if c == ';' {
                return Some(Ok(self.emit_token(current_position, Token::Semicolon)));
            } else if c == '=' {
                return Some(Ok(self.emit_token(current_position, Token::Equals)));
            } else if c == '-' {
                if self.next_char_if(&CharClass::Exactly('>')).is_some() {
                    return Some(Ok(self.emit_token(current_position, Token::Arrow)));
                } else {
                    return Some(Ok(self.emit_token(current_position, Token::Unexpected('-'))));
                }
            } else if c == '#' {
                proof {
                    lemma_skip_class(cs, start + 1, CharClass::NotNewline);
                }
                self.skip_run(&CharClass::NotNewline);
            } else if c == '"' {
                proof {
                    lemma_string_body(cs, start + 1);
                }
                let string = self.read_string_body();
                return Some(Ok(self.emit_token(current_position, Token::String(string))));
            } else if char_is_whitespace(c) {
                proof {
                    lemma_skip_class(cs, start + 1, CharClass::Whitespace);
                }
                self.skip_run(&CharClass::Whitespace);
            } else if char_is_alphabetic(c) {
                proof {
                    lemma_skip_class(cs, start + 1, CharClass::IdentifierTail);
                }
                self.skip_run(&CharClass::IdentifierTail);
                let end = self.index;
                let place_word: [char; 5] = ['p', 'l', 'a', 'c', 'e'];
                let transition_word: [char; 10] = [
                    't',
                    'r',
                    'a',
                    'n',
                    's',
                    'i',
                    't',
                    'i',
                    'o',
                    'n',
                ];
                let tokens_word: [char; 6] = ['t', 'o', 'k', 'e', 'n', 's'];
                assert(place_word@ =~= seq!['p', 'l', 'a', 'c', 'e']);
                assert(transition_word@ =~= seq!['t', 'r', 'a', 'n', 's', 'i', 't', 'i', 'o', 'n']);
                assert(tokens_word@ =~= seq!['t', 'o', 'k', 'e', 'n', 's']);
                let token = if range_spells(&self.chars, start, end, &place_word) {
                    Token::Place
                } else if range_spells(&self.chars, start, end, &transition_word) {
                    Token::Transition
                } else if range_spells(&self.chars, start, end, &tokens_word) {
                    Token::Tokens
                } else {
                    Token::Identifier(self.text_between(start, end))
                };
                return Some(Ok(self.emit_token(current_position, token)));
            } else if char_is_numeric(c) {
                proof {
                    lemma_skip_class(cs, start + 1, CharClass::Numeric);
                }
                self.skip_run(&CharClass::Numeric);
                let end = self.index;
                return match parse_usize(&self.chars, start, end) {
                    Some(value) => Some(Ok(self.emit_token(current_position, Token::Integer(value)))),
                    None => Some(Err(Span::new(current_position, self.position))),
                };
            } else {
                return Some(Ok(self.emit_token(current_position, Token::Unexpected(c))));
            }
        }
    }

    /// Reads the next token, skipping white space and comments; `None` at the end of the input.
    pub fn next_token(&mut self) -> (r: Option<SpannedToken>)
        requires
            old(self).wf(),
            scan_token(old(self).source(), old(self).cursor()) matches Some(l) ==> l.fits,
        ensures
            final(self).wf(),
            final(self).source() == old(self).source(),
            match scan_token(old(self).source(), old(self).cursor()) {
                None => r is None && final(self).cursor() == old(self).source().len(),
                Some(l) => {
                    &&& final(self).cursor() == l.end
                    &&& r matches Some(t)
                    &&& spanned_view(t) == (l.token, lexeme_span(old(self).source(), l))
                },
            },
    {
        match self.next_lexeme() {
            Some(Ok(t)) => Some(t),
            _ => None,
        }
    }

    /// Reads the remaining tokens up to the first number that does not parse as a `usize`, and
    /// tells whether all of them could be read.
    pub fn tokenize(&mut self) -> (r: (Vec<SpannedToken>, bool))
        requires
            old(self).wf(),
        ensures
            final(self).wf(),
            final(self).source() == old(self).source(),
            spanned_views(r.0@) == readable_tokens(old(self).source(), old(self).cursor()),
            r.1 == old(self).lexable(),
            r.1 ==> spanned_views(r.0@) == old(self).remaining(),
    {
        let ghost cs = self.chars@;
        let ghost i0 = self.index as int;
        let mut tokens: Vec<SpannedToken> = Vec::new();
        loop
            invariant
                self.wf(),
                self.chars@ == cs,
                cs == old(self).source(),
                i0 == old(self).cursor(),
                0 <= i0 <= self.index,
                spanned_views(tokens@) + readable_tokens(cs, self.index as int) == readable_tokens(cs, i0),
                lexable_from(cs, self.index as int) == lexable_from(cs, i0),
            decreases cs.len() - self.index,
        {
            let ghost i = self.index as int;
            proof {
                lemma_scan_token(cs, i);
            }
            match self.next_lexeme() {
                None => {
                    assert(spanned_views(tokens@) =~= spanned_views(tokens@) + readable_tokens(cs, i));
                    proof {
                        if lexable_from(cs, i0) {
                            lemma_readable_tokens(cs, i0);
                        }
                    }
                    return (tokens, true);
                },
                Some(Err(_)) => {
                    assert(spanned_views(tokens@) =~= spanned_views(tokens@) + readable_tokens(cs, i));
                    return (tokens, false);
                },
                Some(Ok(t)) => {
                    let ghost before = tokens@;
                    tokens.push(t);
                    assert(spanned_views(tokens@) =~= spanned_views(before) + seq![spanned_view(t)]);
                    assert(spanned_views(tokens@) + readable_tokens(cs, self.index as int) =~= spanned_views(before) + readable_tokens(cs, i));
                },
            }
        }
    }

    /// True when every remaining token can be produced, that is, when no number among them is
    /// too large for a `usize` or written with digits other than `0` to `9`.
    pub fn is_lexable(&self) -> (r: bool)
        requires
            self.wf(),
        ensures
            r == self.lexable(),
    {
        let mut probe = Lexer { chars: self.chars.clone(), index: self.index, position: self.position };
        assert(probe.chars@ =~= self.chars@);
        probe.tokenize().1
    }

    /// The token `token` spanning from byte `start` to the cursor.
    fn emit_token(&self, start: usize, token: Token) -> (r: SpannedToken)
        ensures
            r.0 == token,
            r.1 == (Span { start, end: self.position }),
    {
        (token, Span::new(start, self.position))
    }
}

} // verus!
