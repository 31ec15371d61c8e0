use petri::grammar::ast::{Program, Statement};
use petri::grammar::extract::{Identifier, Semicolon};
use petri::grammar::lexer::{Lexer, Token};
use petri::grammar::parser::{ParseError, Parser};
use petri::span::Span;

fn parser_of(input: &str) -> Parser {
    Parser::new(Lexer::new(input))
}

fn parse(input: &str) -> Result<Program, ParseError> {
    parser_of(input).parse()
}

fn program(input: &str) -> Program {
    match parse(input) {
        Ok(p) => p,
        Err(_) => panic!("expected a program"),
    }
}

#[test]
fn parses_a_place_with_label_and_tokens() {
    let p = program("place p \"start\" tokens = 3;");
    assert_eq!(p.len(), 1);
    match &p[0] {
        Statement::Place { location, name, tokens, label } => {
            assert_eq!(*location, Span { start: 0, end: 27 });
            assert_eq!(name, "p");
            assert_eq!(*tokens, 3);
            assert_eq!(label.as_deref(), Some("start"));
        }
        _ => panic!("expected a place"),
    }
}

#[test]
fn place_without_tokens_has_none() {
    let p = program("place q;");
    match &p[0] {
        Statement::Place { location, name, tokens, label } => {
            assert_eq!(*location, Span { start: 0, end: 8 });
            assert_eq!(name, "q");
            assert_eq!(*tokens, 0);
            assert!(label.is_none());
        }
        _ => panic!("expected a place"),
    }
}

#[test]
fn parses_a_transition() {
    let p = program("transition t \"go\";\ntransition u;");
    assert_eq!(p.len(), 2);
    match &p[0] {
        Statement::Transition { location, name, label } => {
            assert_eq!(*location, Span { start: 0, end: 18 });
            assert_eq!(name, "t");
            assert_eq!(label.as_deref(), Some("go"));
        }
        _ => panic!("expected a transition"),
    }
    match &p[1] {
        Statement::Transition { location, name, label } => {
            assert_eq!(*location, Span { start: 19, end: 32 });
            assert_eq!(name, "u");
            assert!(label.is_none());
        }
        _ => panic!("expected a transition"),
    }
}

#[test]
fn single_arrow_declares_one_arc() {
    let p = program("p -> t;");
    match &p[0] {
        Statement::Arc { location, pairs } => {
            assert_eq!(*location, Span { start: 0, end: 7 });
            assert_eq!(pairs.len(), 1);
            assert_eq!(pairs[0], ("p".to_string(), "t".to_string(), 1));
        }
        _ => panic!("expected an arc"),
    }
}

#[test]
fn each_arrow_of_a_chain_is_an_arc_with_its_own_weight() {
    let p = program("x ->[4] p ->[2] t -> q;");
    match &p[0] {
        Statement::Arc { location, pairs } => {
            assert_eq!(*location, Span { start: 0, end: 23 });
            assert_eq!(pairs.len(), 3);
            assert_eq!(pairs[0], ("x".to_string(), "p".to_string(), 4));
            assert_eq!(pairs[1], ("p".to_string(), "t".to_string(), 2));
            assert_eq!(pairs[2], ("t".to_string(), "q".to_string(), 1));
        }
        _ => panic!("expected an arc"),
    }
    let mut parser = parser_of("a -> [2] b -> c;");
    match parser.expect_arc_declaration() {
        Ok(Statement::Arc { location, pairs }) => {
            assert_eq!(location, Span { start: 0, end: 16 });
            assert_eq!(pairs, vec![
                ("a".to_string(), "b".to_string(), 2),
                ("b".to_string(), "c".to_string(), 1),
            ]);
        }
        _ => panic!("expected an arc"),
    }
    assert!(parser.is_eof());
}

#[test]
fn failing_readers_leave_the_cursor_after_the_unexpected_token() {
    let mut parser = parser_of("; place p;");
    assert!(matches!(parser.expect_statement(), Err(ParseError::UnexpectedToken((Token::Semicolon, _)))));
    match parser.expect::<Semicolon>() {
        Ok((_, span)) => assert_eq!(span, Span { start: 0, end: 1 }),
        Err(_) => panic!("the semicolon should still be there"),
    }
    let mut parser = parser_of("place 3 ;");
    assert!(matches!(parser.expect_statement(), Err(ParseError::UnexpectedToken((Token::Integer(3), _)))));
    assert!(parser.peek::<Semicolon>());
    let mut parser = parser_of("");
    assert!(matches!(parser.expect_statement(), Err(ParseError::UnexpectedEoF)));
}

#[test]
fn empty_input_is_an_empty_program() {
    let p = program("");
    assert!(p.is_empty());
    let p = program("# nothing here\n");
    assert!(p.is_empty());
}

#[test]
fn missing_semicolon_is_unexpected_end() {
    assert!(matches!(parse("place p"), Err(ParseError::UnexpectedEoF)));
    assert!(matches!(parse("transition"), Err(ParseError::UnexpectedEoF)));
}

#[test]
fn wrong_token_is_reported_with_its_range() {
    match parse("place 3;") {
        Err(ParseError::UnexpectedToken((Token::Integer(3), span))) => {
            assert_eq!(span, Span { start: 6, end: 7 });
        }
        _ => panic!("expected an unexpected token"),
    }
    match parse("; place p;") {
        Err(ParseError::UnexpectedToken((Token::Semicolon, span))) => {
            assert_eq!(span, Span { start: 0, end: 1 });
        }
        _ => panic!("expected an unexpected token"),
    }
    match parse("p -> [x] q;") {
        Err(ParseError::UnexpectedToken((Token::Identifier(s), _))) => assert_eq!(s, "x"),
        _ => panic!("expected an unexpected token"),
    }
}

#[test]
fn expect_and_peek_read_tokens_by_kind() {
    let mut parser = parser_of("p ;");
    assert!(parser.peek::<Identifier>());
    assert!(!parser.peek::<Semicolon>());
    match parser.expect::<Identifier>() {
        Ok((name, span)) => {
            assert_eq!(name, "p");
            assert_eq!(span, Span { start: 0, end: 1 });
        }
        Err(_) => panic!("expected an identifier"),
    }
    assert!(!parser.is_eof());
    assert!(matches!(parser.expect::<Identifier>(), Err(ParseError::UnexpectedToken((Token::Semicolon, _)))));
    assert!(parser.is_eof());
    assert!(matches!(parser.expect::<Semicolon>(), Err(ParseError::UnexpectedEoF)));
}

#[test]
fn weighted_arrow_defaults_to_one() {
    let mut parser = parser_of("-> ->[7]");
    assert!(matches!(parser.expect_weighted_arrow(), Ok(1)));
    assert!(matches!(parser.expect_weighted_arrow(), Ok(7)));
}

#[test]
fn statement_dispatch_rejects_other_tokens() {
    let mut parser = parser_of("tokens");
    assert!(matches!(parser.expect_statement(), Err(ParseError::UnexpectedToken((Token::Tokens, _)))));
    let mut parser = parser_of("");
    assert!(matches!(parser.expect_statement(), Err(ParseError::UnexpectedEoF)));
}

#[test]
fn unreadable_number_is_reached_only_when_parsing_gets_there() {
    let mut parser = parser_of("place p tokens = 99999999999999999999999999;");
    assert!(parser.reaches_unreadable_number());
    let mut parser = parser_of("place p;\nplace q tokens = 99999999999999999999999999;");
    assert!(parser.reaches_unreadable_number());
    let mut parser = parser_of("; place p tokens = 99999999999999999999999999;");
    assert!(!parser.reaches_unreadable_number());
    match parser.parse() {
        Err(ParseError::UnexpectedToken((Token::Semicolon, span))) => {
            assert_eq!(span, Span { start: 0, end: 1 })
        }
        _ => panic!("expected an unexpected token"),
    }
    let mut parser = parser_of("place p;");
    assert!(!parser.reaches_unreadable_number());
    assert!(parser.parse().is_ok());
}
