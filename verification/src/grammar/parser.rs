//! The parser: a recursive-descent reader of statements over the token stream.
use vstd::prelude::*;

use crate::grammar::ast::{
    Program, SpecStatement, Statement, label_view, pair_view, pairs_view, program_view,
};
use crate::grammar::extract::{
    Arrow, Equals, Identifier, IntegerLiteral, LeftBracket, Place, RightBracket, Semicolon,
    StringLiteral, Tokens, Transition,
};
use crate::grammar::lexer::{readable_tokens, 
    Lexer, SpannedToken, SpecToken, Token, TokenKind, kind_of, spanned_view, spanned_views,
};
use crate::grammar::traits::{Extract, RangeExt};
use crate::span::Span;

verus! {

/// Why a program could not be parsed.
pub enum ParseError {
    /// The input ended where a token was expected.
    UnexpectedEoF,
    /// A token of the wrong kind.
    UnexpectedToken(SpannedToken),
}

/// The view of a parse error.
pub enum SpecParseError {
    UnexpectedEoF,
    UnexpectedToken((SpecToken, Span)),
}

impl View for ParseError {
    type V = SpecParseError;

    open spec fn view(&self) -> SpecParseError {
        match self {
            ParseError::UnexpectedEoF => SpecParseError::UnexpectedEoF,
            ParseError::UnexpectedToken(t) => SpecParseError::UnexpectedToken(spanned_view(*t)),
        }
    }
}

/// The range of the token at `i` when it is of kind `k`; otherwise the error that expecting
/// such a token there raises.
pub open spec fn expect_at(ts: Seq<(SpecToken, Span)>, i: int, k: TokenKind) -> Result<
    Span,
    SpecParseError,
> {
    if i < 0 || i >= ts.len() {
        Err(SpecParseError::UnexpectedEoF)
    } else if kind_of(ts[i].0) == k {
        Ok(ts[i].1)
    } else {
        Err(SpecParseError::UnexpectedToken(ts[i]))
    }
}

/// True when the token at `i` exists and is of kind `k`.
pub open spec fn peek_at(ts: Seq<(SpecToken, Span)>, i: int, k: TokenKind) -> bool {
    0 <= i < ts.len() && kind_of(ts[i].0) == k
}

/// The text of an identifier or string literal.
pub open spec fn text_of(t: SpecToken) -> Seq<char> {
    match t {
        SpecToken::Identifier(s) => s,
        SpecToken::String(s) => s,
        _ => Seq::empty(),
    }
}

/// The value of a number.
pub open spec fn value_of(t: SpecToken) -> usize {
    match t {
        SpecToken::Integer(n) => n,
        _ => 0,
    }
}

/// `place name ["label"] [tokens = n] ;` at index `i`: the statement and the index after it.
pub open spec fn spec_place_declaration(ts: Seq<(SpecToken, Span)>, i: int) -> Result<
    (SpecStatement, int),
    SpecParseError,
> {
    match expect_at(ts, i, TokenKind::Place) {
        Err(e) => Err(e),
        Ok(start) => match expect_at(ts, i + 1, TokenKind::Identifier) {
            Err(e) => Err(e),
            Ok(_) => {
                let has_label = peek_at(ts, i + 2, TokenKind::String);
                let label = if has_label {
                    Some(text_of(ts[i + 2].0))
                } else {
                    None
                };
                let j = if has_label {
                    i + 3
                } else {
                    i + 2
                };
                let counted: Result<(usize, int), SpecParseError> = if peek_at(
                    ts,
                    j,
                    TokenKind::Tokens,
                ) {
                    match expect_at(ts, j + 1, TokenKind::Equals) {
                        Err(e) => Err(e),
                        Ok(_) => match expect_at(ts, j + 2, TokenKind::Integer) {
                            Err(e) => Err(e),
                            Ok(_) => Ok((value_of(ts[j + 2].0), j + 3)),
                        },
                    }
                } else {
                    Ok((0, j))
                };
                match counted {
                    Err(e) => Err(e),
                    Ok((n, k)) => match expect_at(ts, k, TokenKind::Semicolon) {
                        Err(e) => Err(e),
                        Ok(end) => Ok(
                            (
                                SpecStatement::Place {
                                    location: start.spec_merge(end),
                                    name: text_of(ts[i + 1].0),
                                    tokens: n,
                                    label,
                                },
                                k + 1,
                            ),
                        ),
                    },
                }
            },
        },
    }
}

/// `transition name ["label"] ;` at index `i`: the statement and the index after it.
pub open spec fn spec_transition_declaration(ts: Seq<(SpecToken, Span)>, i: int) -> Result<
    (SpecStatement, int),
    SpecParseError,
> {
    match expect_at(ts, i, TokenKind::Transition) {
        Err(e) => Err(e),
        Ok(start) => match expect_at(ts, i + 1, TokenKind::Identifier) {
            Err(e) => Err(e),
            Ok(_) => {
                let has_label = peek_at(ts, i + 2, TokenKind::String);
                let label = if has_label {
                    Some(text_of(ts[i + 2].0))
                } else {
                    None
                };
                let j = if has_label {
                    i + 3
                } else {
                    i + 2
                };
                match expect_at(ts, j, TokenKind::Semicolon) {
                    Err(e) => Err(e),
                    Ok(end) => Ok(
                        (
                            SpecStatement::Transition {
                                location: start.spec_merge(end),
                                name: text_of(ts[i + 1].0),
                                label,
                            },
                            j + 1,
                        ),
                    ),
                }
            },
        },
    }
}

/// `-> ` or `->[n]` at index `i`: the weight (1 when none is written) and the index after it.
pub open spec fn spec_weighted_arrow(ts: Seq<(SpecToken, Span)>, i: int) -> Result<
    (usize, int),
    SpecParseError,
> {
    match expect_at(ts, i, TokenKind::Arrow) {
        Err(e) => Err(e),
        Ok(_) => if peek_at(ts, i + 1, TokenKind::LeftBracket) {
            match expect_at(ts, i + 2, TokenKind::Integer) {
                Err(e) => Err(e),
                Ok(_) => match expect_at(ts, i + 3, TokenKind::RightBracket) {
                    Err(e) => Err(e),
                    Ok(_) => Ok((value_of(ts[i + 2].0), i + 4)),
                },
            }
        } else {
            Ok((1, i + 1))
        },
    }
}

/// The rest of an arc chain from index `k`: each further `arrow name` as `(name, weight)`, then
/// the closing `;`, its range and the index after it.
pub open spec fn spec_arc_links(ts: Seq<(SpecToken, Span)>, k: int) -> Result<
    (Seq<(Seq<char>, usize)>, Span, int),
    SpecParseError,
>
    decreases ts.len() - k,
{
    if peek_at(ts, k, TokenKind::Semicolon) {
        Ok((Seq::empty(), ts[k].1, k + 1))
    } else {
        match spec_weighted_arrow(ts, k) {
            Err(e) => Err(e),
            Ok((w, j)) => match expect_at(ts, j, TokenKind::Identifier) {
                Err(e) => Err(e),
                Ok(_) => if k < j + 1 <= ts.len() {
                    match spec_arc_links(ts, j + 1) {
                        Err(e) => Err(e),
                        Ok((rest, end, m)) => Ok((seq![(text_of(ts[j].0), w)] + rest, end, m)),
                    }
                } else {
                    Err(SpecParseError::UnexpectedEoF)
                },
            },
        }
    }
}

/// The arcs of a chain `first ->[w_0] n_1 ->[w_1] n_2 ...`, given its first name and, for
/// each arrow, the name after it with the arrow's weight: arc `k` joins the name before arrow `k`
/// to the name after it, with that arrow's weight.
pub open spec fn chain_pairs(first: Seq<char>, nodes: Seq<(Seq<char>, usize)>) -> Seq<
    (Seq<char>, Seq<char>, usize),
> {
    Seq::new(
        nodes.len(),
        |k: int|
            (
                if k == 0 {
                    first
                } else {
                    nodes[k - 1].0
                },
                nodes[k].0,
                nodes[k].1,
            ),
    )
}

/// `name ->[w] name (->[w] name)* ;` at index `i`: the statement and the index after it.
pub open spec fn spec_arc_declaration(ts: Seq<(SpecToken, Span)>, i: int) -> Result<
    (SpecStatement, int),
    SpecParseError,
> {
    match expect_at(ts, i, TokenKind::Identifier) {
        Err(e) => Err(e),
        Ok(start) => match spec_weighted_arrow(ts, i + 1) {
            Err(e) => Err(e),
            Ok((w, j)) => match expect_at(ts, j, TokenKind::Identifier) {
                Err(e) => Err(e),
                Ok(_) => match spec_arc_links(ts, j + 1) {
                    Err(e) => Err(e),
                    Ok((rest, end, m)) => Ok(
                        (
                            SpecStatement::Arc {
                                location: start.spec_merge(end),
                                pairs: chain_pairs(text_of(ts[i].0), seq![(text_of(ts[j].0), w)] + rest),
                            },
                            m,
                        ),
                    ),
                },
            },
        },
    }
}

/// The statement at index `i`, chosen by its first token, and the index after it.
pub open spec fn spec_statement(ts: Seq<(SpecToken, Span)>, i: int) -> Result<
    (SpecStatement, int),
    SpecParseError,
> {
    if i < 0 || i >= ts.len() {
        Err(SpecParseError::UnexpectedEoF)
    } else {
        match ts[i].0 {
            SpecToken::Place => spec_place_declaration(ts, i),
            SpecToken::Transition => spec_transition_declaration(ts, i),
            SpecToken::Identifier(_) => spec_arc_declaration(ts, i),
            _ => Err(SpecParseError::UnexpectedToken(ts[i])),
        }
    }
}

/// The statements from index `i` to the end of the tokens, or the first error.
pub open spec fn spec_program(ts: Seq<(SpecToken, Span)>, i: int) -> Result<
    Seq<SpecStatement>,
    SpecParseError,
>
    decreases ts.len() - i,
{
    if i < 0 || i >= ts.len() {
        Ok(Seq::empty())
    } else {
        match spec_statement(ts, i) {
            Err(e) => Err(e),
            Ok((s, j)) => if i < j <= ts.len() {
                match spec_program(ts, j) {
                    Err(e) => Err(e),
                    Ok(rest) => Ok(seq![s] + rest),
                }
            } else {
                Err(SpecParseError::UnexpectedEoF)
            },
        }
    }
}

/// A place declaration that parses reads `place`, then its name, then its label when a string
/// comes next (whatever follows it), then `tokens = n` when `tokens` comes next, and ends at a
/// `;`: the place has that name, that label (none without a string), `n` tokens (0 without a
/// `tokens` clause), and spans from `place` to `;`.
pub proof fn law_place_declaration_reads_its_parts(ts: Seq<(SpecToken, Span)>, i: int)
    requires
        0 <= i,
    ensures
        spec_place_declaration(ts, i) matches Ok((st, j)) ==> {
            let has_label = ts[i + 2].0 is String;
            let k = if has_label {
                i + 3
            } else {
                i + 2
            };
            &&& i + 3 <= j <= ts.len()
            &&& ts[i].0 is Place
            &&& ts[j - 1].0 is Semicolon
            &&& st matches SpecStatement::Place { location, name, tokens, label } && {
                &&& ts[i + 1].0 == SpecToken::Identifier(name)
                &&& ts[i + 2].0 matches SpecToken::String(l) ==> label == Some(l)
                &&& !has_label ==> label is None
                &&& ts[k].0 is Tokens ==> ts[k + 1].0 is Equals && ts[k + 2].0 == SpecToken::Integer(
                    tokens,
                ) && j == k + 4
                &&& !(ts[k].0 is Tokens) ==> tokens == 0 && j == k + 1
                &&& location == ts[i].1.spec_merge(ts[j - 1].1)
            }
        },
{
}

/// A transition declaration that parses reads `transition`, then its name, then its label when
/// a string comes next, and ends at a `;`: the transition has that name and that label (none
/// without a string), and spans from `transition` to `;`.
pub proof fn law_transition_declaration_reads_its_parts(ts: Seq<(SpecToken, Span)>, i: int)
    requires
        0 <= i,
    ensures
        spec_transition_declaration(ts, i) matches Ok((st, j)) ==> {
            let has_label = ts[i + 2].0 is String;
            &&& j == (if has_label {
                i + 4
            } else {
                i + 3
            })
            &&& j <= ts.len()
            &&& ts[i].0 is Transition
            &&& ts[j - 1].0 is Semicolon
            &&& st matches SpecStatement::Transition { location, name, label } && {
                &&& ts[i + 1].0 == SpecToken::Identifier(name)
                &&& ts[i + 2].0 matches SpecToken::String(l) ==> label == Some(l)
                &&& !has_label ==> label is None
                &&& location == ts[i].1.spec_merge(ts[j - 1].1)
            }
        },
{
}

/// A chain declares one arc per arrow: the first arc starts at the first name, each arc ends at
/// the name after its arrow and carries that arrow's weight, and each further arc starts where
/// the one before it ended.
pub proof fn law_chain_declares_an_arc_per_arrow(first: Seq<char>, nodes: Seq<(Seq<char>, usize)>)
    ensures
        chain_pairs(first, nodes).len() == nodes.len(),
        nodes.len() > 0 ==> chain_pairs(first, nodes)[0].0 == first,
        forall|k: int|
            0 <= k < nodes.len() ==> (#[trigger] chain_pairs(first, nodes)[k]).1 == nodes[k].0
                && chain_pairs(first, nodes)[k].2 == nodes[k].1,
        forall|k: int|
            0 < k < nodes.len() ==> (#[trigger] chain_pairs(first, nodes)[k]).0 == chain_pairs(
                first,
                nodes,
            )[k - 1].1,
{
}

/// A weighted arrow that parses ends after its start, inside the tokens.
pub proof fn lemma_weighted_arrow(ts: Seq<(SpecToken, Span)>, i: int)
    requires
        0 <= i,
    ensures
        spec_weighted_arrow(ts, i) matches Ok((_, j)) ==> i < j <= ts.len(),
{
}

/// The rest of an arc chain that parses ends after its start, inside the tokens.
pub proof fn lemma_arc_links(ts: Seq<(SpecToken, Span)>, k: int)
    requires
        0 <= k,
    ensures
        spec_arc_links(ts, k) matches Ok((_, _, m)) ==> k < m <= ts.len(),
    decreases ts.len() - k,
{
    lemma_weighted_arrow(ts, k);
    if !peek_at(ts, k, TokenKind::Semicolon) {
        if let Ok((w, j)) = spec_weighted_arrow(ts, k) {
            if k < j + 1 <= ts.len() {
                lemma_arc_links(ts, j + 1);
            }
        }
    }
}

/// A statement that parses ends after its start, inside the tokens.
pub proof fn lemma_statement(ts: Seq<(SpecToken, Span)>, i: int)
    requires
        0 <= i,
    ensures
        spec_statement(ts, i) matches Ok((_, j)) ==> i < j <= ts.len(),
{
    lemma_weighted_arrow(ts, i + 1);
    if let Ok((w, j)) = spec_weighted_arrow(ts, i + 1) {
        lemma_arc_links(ts, j + 1);
    }
}


/// The views of the `(name, weight)` nodes of an arc chain.
pub open spec fn nodes_view(ns: Seq<(String, usize)>) -> Seq<(Seq<char>, usize)> {
    ns.map_values(|n: (String, usize)| (n.0@, n.1))
}

/// `prefix` in front of the nodes of a parsed chain tail.
pub open spec fn prepend_links(
    prefix: Seq<(Seq<char>, usize)>,
    r: Result<(Seq<(Seq<char>, usize)>, Span, int), SpecParseError>,
) -> Result<(Seq<(Seq<char>, usize)>, Span, int), SpecParseError> {
    match r {
        Ok((rest, end, m)) => Ok((prefix + rest, end, m)),
        Err(e) => Err(e),
    }
}

/// `prefix` in front of the statements of a parsed program tail.
pub open spec fn prepend_statements(
    prefix: Seq<SpecStatement>,
    r: Result<Seq<SpecStatement>, SpecParseError>,
) -> Result<Seq<SpecStatement>, SpecParseError> {
    match r {
        Ok(rest) => Ok(prefix + rest),
        Err(e) => Err(e),
    }
}

/// Prepending in two steps is prepending the concatenation.
pub proof fn lemma_prepend_links(
    a: Seq<(Seq<char>, usize)>,
    b: Seq<(Seq<char>, usize)>,
    r: Result<(Seq<(Seq<char>, usize)>, Span, int), SpecParseError>,
)
    ensures
        prepend_links(a + b, r) == prepend_links(a, prepend_links(b, r)),
{
    if let Ok((rest, end, m)) = r {
        assert((a + b) + rest =~= a + (b + rest));
    }
}

/// Prepending in two steps is prepending the concatenation.
pub proof fn lemma_prepend_statements(
    a: Seq<SpecStatement>,
    b: Seq<SpecStatement>,
    r: Result<Seq<SpecStatement>, SpecParseError>,
)
    ensures
        prepend_statements(a + b, r) == prepend_statements(a, prepend_statements(b, r)),
{
    if let Ok(rest) = r {
        assert((a + b) + rest =~= a + (b + rest));
    }
}

/// The arc statement that starts at `start`, given its parsed chain.
pub open spec fn arc_from_links(
    first: Seq<char>,
    start: Span,
    r: Result<(Seq<(Seq<char>, usize)>, Span, int), SpecParseError>,
) -> Result<(SpecStatement, int), SpecParseError> {
    match r {
        Ok((nodes, end, m)) => Ok(
            (
                SpecStatement::Arc {
                    location: start.spec_merge(end),
                    pairs: chain_pairs(first, nodes),
                },
                m,
            ),
        ),
        Err(e) => Err(e),
    }
}

/// Where a reader that started at `start` leaves the cursor when it fails with `e`: at the end
/// of the tokens when they ran out, and just after the unexpected token otherwise.
pub open spec fn error_cursor(
    ts: Seq<(SpecToken, Span)>,
    start: int,
    e: SpecParseError,
    cursor: int,
) -> bool {
    match e {
        SpecParseError::UnexpectedEoF => cursor == ts.len(),
        SpecParseError::UnexpectedToken(t) => start < cursor <= ts.len() && ts[cursor - 1] == t,
    }
}

/// True when the token at `i` can start a statement.
pub open spec fn starts_statement(ts: Seq<(SpecToken, Span)>, i: int) -> bool {
    0 <= i < ts.len() && (ts[i].0 is Place || ts[i].0 is Transition || ts[i].0 is Identifier)
}

/// True when `r` is what the statement reader `expected` describes, with the parser's cursor
/// left at `cursor` on success.
pub open spec fn statement_outcome(
    r: Result<Statement, ParseError>,
    expected: Result<(SpecStatement, int), SpecParseError>,
    cursor: int,
) -> bool {
    match expected {
        Ok((s, j)) => r matches Ok(st) && st@ == s && cursor == j,
        Err(e) => r matches Err(err) && err@ == e,
    }
}

/// The view of the result of parsing a program.
pub open spec fn program_result_view(r: Result<Program, ParseError>) -> Result<
    Seq<SpecStatement>,
    SpecParseError,
> {
    match r {
        Ok(p) => Ok(program_view(p@)),
        Err(e) => Err(e@),
    }
}

/// True when a reader's outcome came from running out of tokens.
pub open spec fn ran_out<T>(r: Result<T, SpecParseError>) -> bool {
    r matches Err(SpecParseError::UnexpectedEoF)
}

/// The parser: the tokens of a source text, a cursor into them, and whether they are all the
/// tokens of the text. When a number of the text cannot be read, the tokens stop in front of it,
/// and reading must not reach that point.
pub struct Parser {
    tokens: Vec<SpannedToken>,
    position: usize,
    complete: bool,
}

impl Parser {
    /// The tokens being parsed.
    pub closed spec fn token_seq(&self) -> Seq<SpannedToken> {
        self.tokens@
    }

    /// The views of the tokens being parsed.
    pub open spec fn tokens(&self) -> Seq<(SpecToken, Span)> {
        spanned_views(self.token_seq())
    }

    /// The index of the next token.
    pub closed spec fn cursor(&self) -> int {
        self.position as int
    }

    /// True when the tokens are all the tokens of the text: no number in it failed to be read.
    pub closed spec fn complete(&self) -> bool {
        self.complete
    }

    /// The cursor lies inside the tokens.
    pub closed spec fn wf(&self) -> bool {
        self.position <= self.tokens.len()
    }

    /// A parser over the remaining tokens of `input`, up to the first number that cannot be
    /// read.
    pub fn new(input: Lexer) -> (r: Parser)
        requires
            input.wf(),
        ensures
            r.wf(),
            r.tokens() == readable_tokens(input.source(), input.cursor()),
            r.complete() == input.lexable(),
            r.complete() ==> r.tokens() == input.remaining(),
            r.cursor() == 0,
    {
        let mut input = input;
        let (tokens, complete) = input.tokenize();
        Parser { tokens, position: 0, complete }
    }

    /// True when parsing from the cursor would reach the number that could not be read: that
    /// is, when some number failed to be read and the parse does not stop earlier at an
    /// unexpected token.
    pub fn reaches_unreadable_number(&mut self) -> (r: bool)
        requires
            old(self).wf(),
        ensures
            final(self).wf(),
            final(self).tokens() == old(self).tokens(),
            final(self).cursor() == old(self).cursor(),
            final(self).complete() == old(self).complete(),
            r == (!old(self).complete() && !(spec_program(old(self).tokens(), old(self).cursor())
                matches Err(SpecParseError::UnexpectedToken(_)))),
    {
        if self.complete {
            return false;
        }
        let position = self.position;
        self.complete = true;
        let outcome = self.parse();
        self.position = position;
        self.complete = false;
        match outcome {
            Err(ParseError::UnexpectedToken(_)) => false,
            _ => true,
        }
    }

    /// Parses the whole input into a program.
    pub fn parse(&mut self) -> (r: Result<Program, ParseError>)
        requires
            old(self).wf(),
            old(self).complete() || spec_program(old(self).tokens(), old(self).cursor()) matches Err(
                SpecParseError::UnexpectedToken(_),
            ),
        ensures
            final(self).wf(),
            final(self).tokens() == old(self).tokens(),
            final(self).complete() == old(self).complete(),
            program_result_view(r) == spec_program(old(self).tokens(), old(self).cursor()),
    {
        let ghost ts = self.tokens();
        let ghost i0 = self.cursor();
        let mut statements: Vec<Statement> = Vec::new();
        while !self.is_eof()
            invariant
                self.wf(),
                self.tokens() == ts,
                ts == old(self).tokens(),
                i0 == old(self).cursor(),
                prepend_statements(program_view(statements@), spec_program(ts, self.cursor()))
                    == spec_program(ts, i0),
                self.complete() == old(self).complete(),
                old(self).complete() || spec_program(ts, self.cursor()) matches Err(
                    SpecParseError::UnexpectedToken(_),
                ),
            decreases ts.len() - self.cursor(),
        {
            let ghost i = self.cursor();
            proof {
                lemma_statement(ts, i);
            }
            match self.expect_statement() {
                Ok(statement) => {
                    assert(spec_statement(ts, i) is Ok);
                    let ghost j = spec_statement(ts, i)->Ok_0.1;
                    assert(spec_program(ts, i) == prepend_statements(seq![statement@], spec_program(ts, j)));
                    let ghost before = statements@;
                    statements.push(statement);
                    assert(program_view(statements@) =~= program_view(before) + seq![statement@]);
                    proof {
                        lemma_prepend_statements(
                            program_view(before),
                            seq![statement@],
                            spec_program(ts, j),
                        );
                    }
                },
                Err(e) => {
                    return Err(e);
                },
            }
        }
        assert(program_view(statements@) =~= program_view(statements@) + Seq::<SpecStatement>::empty());
        Ok(statements)
    }

    /// Reads one statement, chosen by its first token.
    pub fn expect_statement(&mut self) -> (r: Result<Statement, ParseError>)
        requires
            old(self).wf(),
            old(self).complete() || !ran_out(spec_statement(old(self).tokens(), old(self).cursor())),
        ensures
            final(self).wf(),
            final(self).tokens() == old(self).tokens(),
            final(self).complete() == old(self).complete(),
            statement_outcome(
                r,
                spec_statement(old(self).tokens(), old(self).cursor()),
                final(self).cursor(),
            ),
            r matches Err(e) ==> if starts_statement(old(self).tokens(), old(self).cursor()) {
                error_cursor(old(self).tokens(), old(self).cursor(), e@, final(self).cursor())
            } else {
                final(self).cursor() == old(self).cursor()
            },
    {
        if self.position >= self.tokens.len() {
            return Err(ParseError::UnexpectedEoF);
        }
        let (token, span) = (&self.tokens[self.position].0, self.tokens[self.position].1);
        match token {
            Token::Place => self.expect_place_declaration(),
            Token::Transition => self.expect_transition_declaration(),
            Token::Identifier(_) => self.expect_arc_declaration(),
            _ => Err(ParseError::UnexpectedToken((token.clone(), span))),
        }
    }

    /// Reads `place name ["label"] [tokens = n] ;`.
    pub fn expect_place_declaration(&mut self) -> (r: Result<Statement, ParseError>)
        requires
            old(self).wf(),
            old(self).complete() || !ran_out(spec_place_declaration(old(self).tokens(), old(self).cursor())),
        ensures
            final(self).wf(),
            final(self).tokens() == old(self).tokens(),
            final(self).complete() == old(self).complete(),
            statement_outcome(
                r,
                spec_place_declaration(old(self).tokens(), old(self).cursor()),
                final(self).cursor(),
            ),
            r matches Err(e) ==> error_cursor(
                old(self).tokens(),
                old(self).cursor(),
                e@,
                final(self).cursor(),
            ),
    {
        let start = match self.expect::<Place>() {
            Ok((_, span)) => span,
            Err(e) => {
                return Err(e);
            },
        };
        let name = match self.expect::<Identifier>() {
            Ok((name, _)) => name,
            Err(e) => {
                return Err(e);
            },
        };
        let label = if self.peek::<StringLiteral>() {
            match self.expect::<StringLiteral>() {
                Ok((label, _)) => Some(label),
                Err(e) => {
                    return Err(e);
                },
            }
        } else {
            None
        };
        let tokens = if self.peek::<Tokens>() {
            match self.expect::<Tokens>() {
                Ok(_) => {},
                Err(e) => {
                    return Err(e);
                },
            }
            match self.expect::<Equals>() {
                Ok(_) => {},
                Err(e) => {
                    return Err(e);
                },
            }
            match self.expect::<IntegerLiteral>() {
                Ok((n, _)) => n,
                Err(e) => {
                    return Err(e);
                },
            }
        } else {
            0
        };
        let end = match self.expect::<Semicolon>() {
            Ok((_, span)) => span,
            Err(e) => {
                return Err(e);
            },
        };
        Ok(Statement::Place { location: start.merge(&end), name, tokens, label })
    }

    /// Reads `transition name ["label"] ;`.
    pub fn expect_transition_declaration(&mut self) -> (r: Result<Statement, ParseError>)
        requires
            old(self).wf(),
            old(self).complete() || !ran_out(spec_transition_declaration(old(self).tokens(), old(self).cursor())),
        ensures
            final(self).wf(),
            final(self).tokens() == old(self).tokens(),
            final(self).complete() == old(self).complete(),
            statement_outcome(
                r,
                spec_transition_declaration(old(self).tokens(), old(self).cursor()),
                final(self).cursor(),
            ),
            r matches Err(e) ==> error_cursor(
                old(self).tokens(),
                old(self).cursor(),
                e@,
                final(self).cursor(),
            ),
    {
        let start = match self.expect::<Transition>() {
            Ok((_, span)) => span,
            Err(e) => {
                return Err(e);
            },
        };
        let name = match self.expect::<Identifier>() {
            Ok((name, _)) => name,
            Err(e) => {
                return Err(e);
            },
        };
        let label = if self.peek::<StringLiteral>() {
            match self.expect::<StringLiteral>() {
                Ok((label, _)) => Some(label),
                Err(e) => {
                    return Err(e);
                },
            }
        } else {
            None
        };
        let end = match self.expect::<Semicolon>() {
            Ok((_, span)) => span,
            Err(e) => {
                return Err(e);
            },
        };
        Ok(Statement::Transition { location: start.merge(&end), name, label })
    }

    /// Reads an arc chain `name ->[w] name (->[w] name)* ;`.
    pub fn expect_arc_declaration(&mut self) -> (r: Result<Statement, ParseError>)
        requires
            old(self).wf(),
            old(self).complete() || !ran_out(spec_arc_declaration(old(self).tokens(), old(self).cursor())),
        ensures
            final(self).wf(),
            final(self).tokens() == old(self).tokens(),
            final(self).complete() == old(self).complete(),
            statement_outcome(
                r,
                spec_arc_declaration(old(self).tokens(), old(self).cursor()),
                final(self).cursor(),
            ),
            r matches Err(e) ==> error_cursor(
                old(self).tokens(),
                old(self).cursor(),
                e@,
                final(self).cursor(),
            ),
    {
        let ghost ts = self.tokens();
        let (fst, start) = match self.expect::<Identifier>() {
            Ok((name, span)) => (name, span),
            Err(e) => {
                return Err(e);
            },
        };
        let weight = match self.expect_weighted_arrow() {
            Ok(w) => w,
            Err(e) => {
                return Err(e);
            },
        };
        let snd = match self.expect::<Identifier>() {
            Ok((name, _)) => name,
            Err(e) => {
                return Err(e);
            },
        };
        let mut nodes: Vec<(String, usize)> = Vec::new();
        nodes.push((snd, weight));
        let ghost j0 = self.cursor();
        let ghost first = nodes_view(nodes@);
        assert(first =~= seq![(text_of(ts[j0 - 1].0), weight)]);
        assert(spec_arc_declaration(ts, old(self).cursor()) == arc_from_links(
            fst@,
            start,
            prepend_links(first, spec_arc_links(ts, j0)),
        ));
        while !self.peek::<Semicolon>()
            invariant
                self.wf(),
                self.tokens() == ts,
                ts == old(self).tokens(),
                nodes@.len() >= 1,
                spec_arc_declaration(ts, old(self).cursor()) == arc_from_links(
                    fst@,
                    start,
                    prepend_links(first, spec_arc_links(ts, j0)),
                ),
                prepend_links(nodes_view(nodes@), spec_arc_links(ts, self.cursor()))
                    == prepend_links(first, spec_arc_links(ts, j0)),
                self.complete() == old(self).complete(),
                old(self).complete() || !ran_out(spec_arc_links(ts, self.cursor())),
                old(self).cursor() < self.cursor(),
            decreases ts.len() - self.cursor(),
        {
            let ghost k = self.cursor();
            proof {
                lemma_weighted_arrow(ts, k);
            }
            let weight = match self.expect_weighted_arrow() {
                Ok(w) => w,
                Err(e) => {
                    return Err(e);
                },
            };
            let node = match self.expect::<Identifier>() {
                Ok((name, _)) => name,
                Err(e) => {
                    return Err(e);
                },
            };
            let ghost before = nodes@;
            nodes.push((node, weight));
            assert(nodes_view(nodes@) =~= nodes_view(before) + seq![(node@, weight)]);
            proof {
                lemma_prepend_links(
                    nodes_view(before),
                    seq![(node@, weight)],
                    spec_arc_links(ts, self.cursor()),
                );
            }
        }
        let end = match self.expect::<Semicolon>() {
            Ok((_, span)) => span,
            Err(e) => {
                return Err(e);
            },
        };
        assert(nodes_view(nodes@) =~= nodes_view(nodes@) + Seq::<(Seq<char>, usize)>::empty());
        let mut pairs: Vec<(String, String, usize)> = Vec::new();
        let mut k: usize = 0;
        while k < nodes.len()
            invariant
                k <= nodes.len(),
                pairs@.len() == k,
                forall|m: int| 0 <= m < k ==> pair_view(#[trigger] pairs@[m]) == chain_pairs(
                    fst@,
                    nodes_view(nodes@),
                )[m],
            decreases nodes.len() - k,
        {
            let left = if k == 0 {
                fst.clone()
            } else {
                nodes[k - 1].0.clone()
            };
            pairs.push((left, nodes[k].0.clone(), nodes[k].1));
            k = k + 1;
        }
        assert(pairs_view(pairs@) =~= chain_pairs(fst@, nodes_view(nodes@)));
        Ok(Statement::Arc { location: start.merge(&end), pairs })
    }

    /// Reads `->` or `->[n]` and gives the weight, 1 when none is written.
    pub fn expect_weighted_arrow(&mut self) -> (r: Result<usize, ParseError>)
        requires
            old(self).wf(),
            old(self).complete() || !(ran_out(spec_weighted_arrow(old(self).tokens(), old(self).cursor()))
                || old(self).cursor() + 1 == old(self).tokens().len() && spec_weighted_arrow(
                old(self).tokens(),
                old(self).cursor(),
            ) is Ok),
        ensures
            final(self).wf(),
            final(self).tokens() == old(self).tokens(),
            final(self).complete() == old(self).complete(),
            match spec_weighted_arrow(old(self).tokens(), old(self).cursor()) {
                Ok((w, j)) => r == Ok::<usize, ParseError>(w) && final(self).cursor() == j,
                Err(e) => r matches Err(err) && err@ == e,
            },
            r matches Err(e) ==> error_cursor(
                old(self).tokens(),
                old(self).cursor(),
                e@,
                final(self).cursor(),
            ),
    {
        match self.expect::<Arrow>() {
            Ok(_) => {},
            Err(e) => {
                return Err(e);
            },
        }
        let weight = if self.peek::<LeftBracket>() {
            match self.expect::<LeftBracket>() {
                Ok(_) => {},
                Err(e) => {
                    return Err(e);
                },
            }
            let weight = match self.expect::<IntegerLiteral>() {
                Ok((w, _)) => w,
                Err(e) => {
                    return Err(e);
                },
            };
            match self.expect::<RightBracket>() {
                Ok(_) => {},
                Err(e) => {
                    return Err(e);
                },
            }
            weight
        } else {
            1
        };
        Ok(weight)
    }

    /// Reads the next token, which must be of the kind `E`, and gives its payload and range.
    pub fn expect<E: Extract>(&mut self) -> (r: Result<(E::Output, Span), ParseError>)
        requires
            old(self).wf(),
            old(self).complete() || old(self).cursor() < old(self).tokens().len(),
        ensures
            final(self).wf(),
            final(self).tokens() == old(self).tokens(),
            final(self).complete() == old(self).complete(),
            old(self).cursor() >= old(self).tokens().len() ==> {
                &&& r matches Err(e)
                &&& e == ParseError::UnexpectedEoF
                &&& final(self).cursor() == old(self).cursor()
            },
            old(self).cursor() < old(self).tokens().len() ==> {
                let t = old(self).token_seq()[old(self).cursor()];
                &&& final(self).cursor() == old(self).cursor() + 1
                &&& match E::spec_extract(t.0) {
                    Some(v) => r matches Ok(p) && p == (v, t.1),
                    None => r matches Err(e) && e == ParseError::UnexpectedToken(t),
                }
            },
    {
        if self.position >= self.tokens.len() {
            return Err(ParseError::UnexpectedEoF);
        }
        let token = self.tokens[self.position].0.clone();
        let span = self.tokens[self.position].1;
        self.position = self.position + 1;
        match E::extract(token.clone()) {
            Some(value) => Ok((value, span)),
            None => Err(ParseError::UnexpectedToken((token, span))),
        }
    }

    /// True when the next token exists and is of the kind `E`.
    pub fn peek<E: Extract>(&mut self) -> (r: bool)
        requires
            old(self).wf(),
            old(self).complete() || old(self).cursor() < old(self).tokens().len(),
        ensures
            *final(self) == *old(self),
            r == (old(self).cursor() < old(self).tokens().len() && E::spec_extract(
                old(self).token_seq()[old(self).cursor()].0,
            ) is Some),
    {
        if self.position >= self.tokens.len() {
            return false;
        }
        E::extract(self.tokens[self.position].0.clone()).is_some()
    }

    /// True when every token has been read.
    pub fn is_eof(&mut self) -> (r: bool)
        requires
            old(self).wf(),
            old(self).complete() || old(self).cursor() < old(self).tokens().len(),
        ensures
            *final(self) == *old(self),
            r == (old(self).cursor() >= old(self).tokens().len()),
    {
        self.position >= self.tokens.len()
    }
}

} // verus!
