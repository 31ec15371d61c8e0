use petri::grammar::lexer::{Lexer, Token, TokenKind};
use petri::span::Span;

fn tokens_of(input: &str) -> Vec<(Token, Span)> {
    let mut lexer = Lexer::new(input);
    let (tokens, complete) = lexer.tokenize();
    assert!(complete);
    tokens
}

#[test]
fn lexes_a_place_declaration() {
    let tokens = tokens_of("place p \"start\" tokens = 3;");
    assert_eq!(tokens.len(), 7);
    assert!(matches!(tokens[0].0, Token::Place));
    assert_eq!(tokens[0].1, Span { start: 0, end: 5 });
    assert!(matches!(&tokens[1].0, Token::Identifier(s) if s == "p"));
    assert!(matches!(&tokens[2].0, Token::String(s) if s == "start"));
    assert!(matches!(tokens[3].0, Token::Tokens));
    assert!(matches!(tokens[4].0, Token::Equals));
    assert!(matches!(tokens[5].0, Token::Integer(3)));
    assert!(matches!(tokens[6].0, Token::Semicolon));
    assert_eq!(tokens[6].1, Span { start: 26, end: 27 });
}

#[test]
fn lexes_keywords_and_identifiers() {
    let tokens = tokens_of("place transition tokens placed t_1 x9");
    assert_eq!(tokens.len(), 6);
    assert!(matches!(tokens[0].0, Token::Place));
    assert!(matches!(tokens[1].0, Token::Transition));
    assert!(matches!(tokens[2].0, Token::Tokens));
    assert!(matches!(&tokens[3].0, Token::Identifier(s) if s == "placed"));
    assert!(matches!(&tokens[4].0, Token::Identifier(s) if s == "t_1"));
    assert!(matches!(&tokens[5].0, Token::Identifier(s) if s == "x9"));
    assert_eq!(tokens[1].1, Span { start: 6, end: 16 });
}

#[test]
fn lexes_arrows_brackets_and_weights() {
    let tokens = tokens_of("a ->[2] b;");
    assert_eq!(tokens.len(), 7);
    assert!(matches!(tokens[1].0, Token::Arrow));
    assert_eq!(tokens[1].1, Span { start: 2, end: 4 });
    assert!(matches!(tokens[2].0, Token::LeftBracket));
    assert!(matches!(tokens[3].0, Token::Integer(2)));
    assert!(matches!(tokens[4].0, Token::RightBracket));
    assert!(matches!(&tokens[5].0, Token::Identifier(s) if s == "b"));
    assert!(matches!(tokens[6].0, Token::Semicolon));
}

#[test]
fn lone_minus_is_unexpected() {
    let tokens = tokens_of("- > @");
    assert_eq!(tokens.len(), 3);
    assert!(matches!(tokens[0].0, Token::Unexpected('-')));
    assert!(matches!(tokens[1].0, Token::Unexpected('>')));
    assert!(matches!(tokens[2].0, Token::Unexpected('@')));
    assert_eq!(tokens[2].1, Span { start: 4, end: 5 });
}

#[test]
fn skips_comments_and_whitespace() {
    let tokens = tokens_of("# a comment\n  place # another\n\tp;");
    assert_eq!(tokens.len(), 3);
    assert!(matches!(tokens[0].0, Token::Place));
    assert_eq!(tokens[0].1, Span { start: 14, end: 19 });
    assert!(matches!(&tokens[1].0, Token::Identifier(s) if s == "p"));
    assert!(matches!(tokens[2].0, Token::Semicolon));
}

#[test]
fn comment_at_end_of_input_gives_nothing() {
    let tokens = tokens_of("# only a comment");
    assert!(tokens.is_empty());
    let tokens = tokens_of("");
    assert!(tokens.is_empty());
}

#[test]
fn string_escapes_are_decoded() {
    let tokens = tokens_of("\"a\\nb\\t\\\"c\\\\\"");
    assert_eq!(tokens.len(), 1);
    assert!(matches!(&tokens[0].0, Token::String(s) if s == "a\nb\t\"c\\"));
    assert_eq!(tokens[0].1, Span { start: 0, end: 13 });
}

#[test]
fn unterminated_string_runs_to_end() {
    let tokens = tokens_of("\"open");
    assert_eq!(tokens.len(), 1);
    assert!(matches!(&tokens[0].0, Token::String(s) if s == "open"));
    assert_eq!(tokens[0].1, Span { start: 0, end: 5 });
}

#[test]
fn spans_count_bytes_of_multibyte_characters() {
    let tokens = tokens_of("\"äö\" ü");
    assert_eq!(tokens.len(), 2);
    assert!(matches!(&tokens[0].0, Token::String(s) if s == "äö"));
    assert_eq!(tokens[0].1, Span { start: 0, end: 6 });
    assert!(matches!(&tokens[1].0, Token::Identifier(s) if s == "ü"));
    assert_eq!(tokens[1].1, Span { start: 7, end: 9 });
}

#[test]
fn next_token_reads_one_at_a_time() {
    let mut lexer = Lexer::new("p ; ");
    let first = lexer.next_token();
    assert!(matches!(&first, Some((Token::Identifier(s), sp)) if s == "p" && *sp == Span { start: 0, end: 1 }));
    let second = lexer.next_token();
    assert!(matches!(second, Some((Token::Semicolon, _))));
    assert!(lexer.next_token().is_none());
    assert!(lexer.next_token().is_none());
}

#[test]
fn number_too_large_is_not_lexable() {
    let lexer = Lexer::new("place p tokens = 99999999999999999999999999;");
    assert!(!lexer.is_lexable());
    let mut lexer = Lexer::new("place p tokens = 99999999999999999999999999;");
    let (tokens, complete) = lexer.tokenize();
    assert!(!complete);
    assert_eq!(tokens.len(), 4);
    assert!(matches!(tokens[3].0, Token::Equals));
    let lexer = Lexer::new("place p tokens = 18446744073709551615;");
    assert!(lexer.is_lexable());
}

#[test]
fn token_kinds_match_tokens() {
    let tokens = tokens_of("place x 1 \"s\" = ;");
    assert_eq!(tokens[0].0.kind(), TokenKind::Place);
    assert_eq!(tokens[1].0.kind(), TokenKind::Identifier);
    assert_eq!(tokens[2].0.kind(), TokenKind::Integer);
    assert_eq!(tokens[3].0.kind(), TokenKind::String);
    assert_eq!(tokens[4].0.kind(), TokenKind::Equals);
    assert_eq!(tokens[5].0.kind(), TokenKind::Semicolon);
}

#[test]
fn token_ranges_are_ordered_and_disjoint() {
    let input = "place p \"ä\" tokens = 3; # c\nx -> p ->[2] t;";
    let tokens = tokens_of(input);
    for (k, (_, span)) in tokens.iter().enumerate() {
        assert!(span.start < span.end);
        assert!(span.end <= input.len());
        if k + 1 < tokens.len() {
            assert!(span.end <= tokens[k + 1].1.start);
        }
    }
}

#[test]
fn unicode_white_space_separates_tokens() {
    let tokens = tokens_of("a\u{3000}b\u{85}c\u{200B}");
    assert_eq!(tokens.len(), 4);
    assert!(matches!(&tokens[0].0, Token::Identifier(s) if s == "a"));
    assert_eq!(tokens[1].1, Span { start: 4, end: 5 });
    assert!(matches!(&tokens[2].0, Token::Identifier(s) if s == "c"));
    assert!(matches!(tokens[3].0, Token::Unexpected('\u{200B}')));
}

#[test]
fn ascii_letters_start_words_and_digits_start_numbers() {
    for v in 0u8..0x80 {
        let c = v as char;
        if c == '"' || c == '#' || c.is_whitespace() {
            continue;
        }
        let input = c.to_string();
        let tokens = tokens_of(&input);
        assert_eq!(tokens.len(), 1, "{c:?}");
        let kind = tokens[0].0.kind();
        if c.is_ascii_alphabetic() {
            assert_eq!(kind, TokenKind::Identifier, "{c:?}");
        } else if c.is_ascii_digit() {
            assert_eq!(kind, TokenKind::Integer, "{c:?}");
        } else {
            assert!(kind != TokenKind::Identifier && kind != TokenKind::Integer, "{c:?}");
        }
    }
}
