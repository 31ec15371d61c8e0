use petri::grammar::analysis::{Analyzer, Symbol};
use petri::grammar::ast::Program;
use petri::grammar::lexer::Lexer;
use petri::grammar::parser::Parser;
use petri::span::Span;

fn program(input: &str) -> Program {
    match Parser::new(Lexer::new(input)).parse() {
        Ok(p) => p,
        Err(_) => panic!("expected a program"),
    }
}

fn findings(input: &str) -> String {
    let mut analyzer = Analyzer::new(program(input));
    format!("{:?}", analyzer.analyze())
}

#[test]
fn clean_program_has_no_findings() {
    assert_eq!(
        findings("place p;\ntransition t;\np -> t;"),
        "Report { diagnostics: [] }"
    );
}

#[test]
fn undefined_names_are_reported_at_the_arc() {
    let text = findings("place p;\np -> q;");
    assert_eq!(
        text,
        "Report { diagnostics: [Diagnostic { severity: Error, span: Span { start: 9, end: 16 }, reason: UndefinedSymbol { symbol: \"q\", location: Span { start: 9, end: 16 } } }] }"
    );
}

#[test]
fn redeclaration_names_both_symbols() {
    let text = findings("place p;\ntransition p;");
    assert!(text.starts_with("Report { diagnostics: [Diagnostic { severity: Error, span: Span { start: 9, end: 22 }, reason: Redeclaration { first: Place { name: \"p\""));
    assert!(text.contains("second: Transition { name: \"p\", label: None, location: Span { start: 9, end: 22 } }"));
}

#[test]
fn bipartite_zero_weight_and_duplicates() {
    let text = findings("place a;\nplace b;\na ->[0] b;\na ->[0] b;");
    assert_eq!(text.matches("BipartideViolation").count(), 2);
    assert_eq!(text.matches("ZeroWeight").count(), 2);
    assert_eq!(text.matches("DuplicateArc").count(), 1);
    assert!(text.contains("DuplicateArc { first: Span { start: 18, end: 28 }, second: Span { start: 29, end: 39 } }"));
}

#[test]
fn analyzing_twice_accumulates() {
    let mut analyzer = Analyzer::new(program("place p;\np -> q;"));
    let first = format!("{:?}", analyzer.analyze());
    let second = format!("{:?}", analyzer.analyze());
    assert_eq!(first.matches("UndefinedSymbol").count(), 1);
    assert_eq!(second.matches("UndefinedSymbol").count(), 2);
}

#[test]
fn symbols_give_name_and_location() {
    let s = Symbol::Place { name: "p".to_string(), label: None, tokens: 0, location: Span::new(1, 2) };
    assert_eq!(s.name(), "p");
    assert_eq!(s.location(), Span::new(1, 2));
    assert_eq!(Symbol::Error.name(), "");
    assert_eq!(Symbol::Error.location(), Span::new(0, 0));
}
