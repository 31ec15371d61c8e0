use petri::analysis::analyzer::Analyzer;
use petri::analysis::report::{Reason, Report, Severity};
use petri::analysis::semantic_model::SemanticModel;
use petri::analysis::symbol::{Symbol, SymbolTable};
use petri::grammar::ast::Program;
use petri::grammar::lexer::Lexer;
use petri::grammar::parser::Parser;
use petri::span::Span;

const ERROR: &str = "\x1b[31mError\x1b[0m:";
const WARNING: &str = "\x1b[33mWarning\x1b[0m:";

fn program(input: &str) -> Program {
    match Parser::new(Lexer::new(input)).parse() {
        Ok(p) => p,
        Err(_) => panic!("expected a program"),
    }
}

fn analyze(input: &str) -> (SemanticModel, Report) {
    let p = program(input);
    assert!(Analyzer::is_analyzable(&p));
    Analyzer::analyze(&p)
}

fn unused(outline: &str) -> String {
    format!(
        "{WARNING} Found unused but declared symbol: \n{outline}\nConsider removing the declaration, if this is intentional you can ignore this warning."
    )
}

#[test]
fn clean_program_has_no_diagnostics() {
    let src = "place p tokens = 2;\ntransition t;\np -> t;\n";
    let (model, report) = analyze(src);
    assert!(!report.has_error());
    assert!(report.can_render(src));
    assert_eq!(report.to_string(src), "");
    assert_eq!(model.places().len(), 1);
    assert_eq!(model.places()[0].name(), "p");
    assert_eq!(*model.places()[0].tokens(), 2);
    assert_eq!(model.transitions().len(), 1);
    assert_eq!(model.transitions()[0].name(), "t");
    assert_eq!(model.arcs().len(), 1);
    let arc = &model.arcs()[0];
    assert_eq!((arc.left(), arc.right(), *arc.weight()), ("p", "t", 1));
    assert_eq!(*arc.span(), Span { start: 34, end: 41 });
}

#[test]
fn unused_symbol_is_a_warning() {
    let src = "place p;";
    let (_, report) = analyze(src);
    assert!(!report.has_error());
    assert_eq!(report.to_string(src), unused("place p;\n^^^^^^^^"));
}

#[test]
fn redeclaration_shows_the_redeclaration_then_the_first_declaration() {
    let src = "place p;\nplace  p;";
    let (model, report) = analyze(src);
    assert!(report.has_error());
    let expected = format!(
        "{ERROR} Redeclaration of already existing symbol.\nFirst found here:\nplace  p;\n^^^^^^^^^\n\nLater redeclared here:\nplace p;\n^^^^^^^^\n\nConsider removing or renaming one of the symbols.\n\n{}",
        unused("place p;\n^^^^^^^^")
    );
    assert_eq!(report.to_string(src), expected);
    assert_eq!(model.symbols().table().len(), 1);
    assert_eq!(model.places().len(), 2);
}

#[test]
fn place_to_place_arc_violates_bipartite_rule() {
    let src = "place a;\nplace b;\na -> b;";
    let (_, report) = analyze(src);
    assert!(report.has_error());
    let expected = format!(
        "{ERROR} Violation of the bipartide rule found. Arc must be either Place->Transition or Transition->Place:\nViolation found in:\na -> b;\n^^^^^^^\nNote: This error can also be cause by two subsequent undefined symbols."
    );
    assert_eq!(report.to_string(src), expected);
}

#[test]
fn zero_weight_is_an_error() {
    let src = "place p;\ntransition t;\np ->[0] t;";
    let (_, report) = analyze(src);
    assert!(report.has_error());
    let expected = format!(
        "{ERROR} Found arc weight that has been declared as 0, weights must be >= 1:\np ->[0] t;\n^^^^^^^^^^"
    );
    assert_eq!(report.to_string(src), expected);
}

#[test]
fn repeated_arc_is_a_redeclaration() {
    let src = "place p;\ntransition t;\np -> t;\np  ->  t;";
    let (_, report) = analyze(src);
    assert!(report.has_error());
    let expected = format!(
        "{ERROR} Redeclaration of already existing arc.\nFirst found here:\np  ->  t;\n^^^^^^^^^\n\nLater redeclared here:\np -> t;\n^^^^^^^\n\nConsider removing one declaration. If this was intentional try merging the arc declarations."
    );
    assert_eq!(report.to_string(src), expected);
}

#[test]
fn arc_between_undeclared_names_draws_no_diagnostic() {
    let src = "a -> b;";
    let (model, report) = analyze(src);
    assert!(!report.has_error());
    assert_eq!(report.to_string(src), "");
    assert_eq!(model.arcs().len(), 1);
}

#[test]
fn arc_with_one_undeclared_end_cannot_be_analyzed() {
    assert!(!Analyzer::is_analyzable(&program("place p;\np -> b;")));
    assert!(!Analyzer::is_analyzable(&program("transition t;\na -> t;")));
    assert!(Analyzer::is_analyzable(&program("place p;\nq -> r;")));
}

#[test]
fn multiline_spans_outline_each_line() {
    let src = "place p;\ntransition t;\np\n  -> t\n  -> p;\nplace q;";
    let (_, report) = analyze(src);
    let text = report.to_string(src);
    assert_eq!(text, unused("place q;\n^^^^^^^^"));
    assert!(!report.has_error());
}

#[test]
fn symbol_table_keeps_first_declaration() {
    let p = program("place p;\ntransition p;\ntransition t;");
    let mut report = Report::new();
    let table = SymbolTable::from_ast(&p, &mut report);
    assert!(report.has_error());
    assert_eq!(table.table().len(), 2);
    match table.get("p") {
        Some(Symbol::Place { span, .. }) => assert_eq!(*span, Span { start: 0, end: 8 }),
        _ => panic!("expected the place"),
    }
    assert!(matches!(table.get("t"), Some(Symbol::Transition { .. })));
    assert!(table.get("zz").is_none());
    let first = &table.table()[0];
    assert_eq!(first.name(), Some("p"));
    assert_eq!(first.span(), Some(&Span { start: 0, end: 8 }));
    assert!(!first.is_error());
    assert!(Symbol::Error.is_error());
    assert_eq!(Symbol::Error.name(), None);
}

#[test]
fn report_collects_and_renders_in_order() {
    let src = "abc\ndef";
    let mut report = Report::new();
    assert!(!report.has_error());
    report.warning(Span { start: 0, end: 3 }, Reason::UnusedSymbol);
    assert!(!report.has_error());
    report.error(Span { start: 4, end: 7 }, Reason::UndefinedSymbol);
    assert!(report.has_error());
    assert!(report.can_render(src));
    let expected = format!(
        "{}\n\n{ERROR} Use of undeclared symbol: \ndef\n^^^",
        unused("abc\n^^^")
    );
    assert_eq!(report.to_string(src), expected);
}

#[test]
fn report_cannot_render_ranges_outside_the_source() {
    let mut report = Report::new();
    report.error(Span { start: 0, end: 10 }, Reason::ZeroAsWeight);
    assert!(!report.can_render("short"));
    let mut report = Report::new();
    report.error_with_related(Span { start: 0, end: 1 }, Vec::new(), Reason::RedeclarationOfArc);
    assert!(!report.can_render("short"));
    let mut report = Report::new();
    report.error(Span { start: 1, end: 2 }, Reason::ZeroAsWeight);
    assert!(!report.can_render("ä"));
}

#[test]
fn severity_text_is_colored() {
    assert_eq!(Severity::Error.to_string(), ERROR);
    assert_eq!(Severity::Warning.to_string(), WARNING);
}
