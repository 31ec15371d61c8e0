use petri::analysis::analyzer::Analyzer;
use petri::analysis::semantic_model::SemanticModel;
use petri::grammar::lexer::Lexer;
use petri::grammar::parser::Parser;
use petri::repl::repl::{Repl, ReplResponse};
use petri::repl::runtime::PetriNet;

const NET: &str = "place p tokens = 1;\ntransition t;\ntransition u;\nplace q;\np -> t -> q -> u -> p;\n";

const HELP: &str = ".quit: Exit the repl and program\n.help: Prints help\ntrace: Prints trace of fired transitions\nfire <transition name>: fires a transition\nshow: Shows the state of the net\n";

fn model(input: &str) -> SemanticModel {
    let p = match Parser::new(Lexer::new(input)).parse() {
        Ok(p) => p,
        Err(_) => panic!("expected a program"),
    };
    let (model, report) = Analyzer::analyze(&p);
    assert!(!report.has_error());
    assert!(PetriNet::can_build(&model));
    model
}

fn handle(r: &mut Repl, line: &str) -> ReplResponse {
    assert!(r.can_handle(line));
    r.handle(line)
}

fn printed(r: ReplResponse) -> String {
    match r {
        ReplResponse::Print(s) => s,
        ReplResponse::Exit => panic!("unexpected exit"),
        ReplResponse::Overflow => panic!("unexpected overflow"),
    }
}

fn repl(m: &SemanticModel) -> Repl {
    Repl::new(m)
}

#[test]
fn quit_exits() {
    let m = model(NET);
    let mut r = repl(&m);
    assert!(matches!(handle(&mut r, ".quit"), ReplResponse::Exit));
    assert!(matches!(handle(&mut r, "  .quit \n"), ReplResponse::Exit));
}

#[test]
fn help_lists_commands() {
    let m = model(NET);
    let mut r = repl(&m);
    assert_eq!(printed(handle(&mut r, ".help\n")), HELP);
}

#[test]
fn show_prints_the_state() {
    let m = model(NET);
    let mut r = repl(&m);
    assert_eq!(
        printed(handle(&mut r, "show\n")),
        "Places:\n  p: 1 token(s)\n  q: 0 token(s)\nEnabled transitions:\n  t\n"
    );
}

#[test]
fn fire_moves_tokens_and_is_traced() {
    let m = model(NET);
    let mut r = repl(&m);
    assert_eq!(printed(handle(&mut r, "trace\n")), "\n");
    assert_eq!(printed(handle(&mut r, "fire t\n")), "Fired transition t\n");
    assert_eq!(
        printed(handle(&mut r, "show")),
        "Places:\n  p: 0 token(s)\n  q: 1 token(s)\nEnabled transitions:\n  u\n"
    );
    assert_eq!(printed(handle(&mut r, "fire t")), "Transition t is not enabled\n");
    assert_eq!(printed(handle(&mut r, "  fire   u  ")), "Fired transition u\n");
    assert_eq!(printed(handle(&mut r, "trace")), "t->u\n");
}

#[test]
fn unknown_transition_does_nothing() {
    let m = model(NET);
    let mut r = repl(&m);
    assert_eq!(printed(handle(&mut r, "fire zz\n")), "");
    assert_eq!(printed(handle(&mut r, "trace\n")), "\n");
}

#[test]
fn repeated_fire_prefix_is_stripped() {
    let m = model(NET);
    let mut r = repl(&m);
    assert_eq!(printed(handle(&mut r, "fire fire t")), "Fired transition t\n");
}

#[test]
fn unknown_command_is_reported() {
    let m = model(NET);
    let mut r = repl(&m);
    let unknown = "Unknown command. Type .help to get a detailed overview.\n";
    assert_eq!(printed(handle(&mut r, "launch")), unknown);
    assert_eq!(printed(handle(&mut r, "fire")), unknown);
    assert_eq!(printed(handle(&mut r, "")), unknown);
}

#[test]
fn overflow_is_reported_instead_of_firing() {
    let m = model("transition source;\nplace out tokens = 18446744073709551615;\nsource -> out;\n");
    let mut r = repl(&m);
    assert!(matches!(handle(&mut r, "fire source"), ReplResponse::Overflow));
    assert_eq!(printed(handle(&mut r, "trace")), "\n");
}

#[test]
fn a_clean_net_can_take_any_command() {
    let m = model(NET);
    let mut r = repl(&m);
    let lines = ["show", "fire t", "fire u", "fire zz", "trace", ".help", "nonsense", "", "fire fire u"];
    for _ in 0..3 {
        for line in lines {
            assert!(r.can_handle(line));
            let _ = r.handle(line);
        }
    }
    assert!(r.can_handle(".quit"));
}

#[test]
fn only_fire_changes_the_trace() {
    let m = model(NET);
    let mut r = repl(&m);
    for line in ["show", "trace", ".help", "what"] {
        let _ = handle(&mut r, line);
    }
    assert_eq!(printed(handle(&mut r, "trace")), "\n");
    assert_eq!(
        printed(handle(&mut r, "show")),
        "Places:\n  p: 1 token(s)\n  q: 0 token(s)\nEnabled transitions:\n  t\n"
    );
}
