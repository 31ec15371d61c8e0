use petri::analysis::analyzer::Analyzer;
use petri::analysis::semantic_model::SemanticModel;
use petri::grammar::lexer::Lexer;
use petri::grammar::parser::Parser;
use petri::repl::runtime::PetriNet;

fn model(input: &str) -> SemanticModel {
    let p = match Parser::new(Lexer::new(input)).parse() {
        Ok(p) => p,
        Err(_) => panic!("expected a program"),
    };
    let (model, report) = Analyzer::analyze(&p);
    assert!(!report.has_error());
    model
}

const NET: &str = "place p tokens = 1;\ntransition t;\nplace q;\np -> t -> q;\n";

fn net(m: &SemanticModel) -> PetriNet {
    assert!(PetriNet::can_build(m));
    let net = PetriNet::from_semantic_model(m);
    assert!(net.can_check_all());
    for j in 0..net.transitions().len() {
        assert!(net.can_fire(j));
    }
    net
}

#[test]
fn builds_places_transitions_and_index() {
    let m = model(NET);
    let net = net(&m);
    assert_eq!(net.transitions().len(), 1);
    assert_eq!(net.transitions()[0].name(), "t");
    let index = net.index();
    assert_eq!(index.len(), 3);
    assert_eq!(index[0], ("p".to_string(), 0));
    assert_eq!(index[1], ("q".to_string(), 1));
    assert_eq!(index[2], ("t".to_string(), 0));
}

#[test]
fn shows_marking_and_enabled_transitions() {
    let m = model(NET);
    let net = net(&m);
    assert_eq!(
        net.show_state(),
        "Places:\n  p: 1 token(s)\n  q: 0 token(s)\nEnabled transitions:\n  t\n"
    );
    assert!(net.is_enabled(0));
    assert!(net.transitions()[0].is_enabled(&net));
    let enabled = net.enabled_transitions();
    assert_eq!(enabled.len(), 1);
    assert_eq!(enabled[0].name(), "t");
}

#[test]
fn firing_moves_tokens_and_disables() {
    let m = model(NET);
    let mut net = net(&m);
    assert!(net.fire_fits(0));
    assert!(net.fire(0));
    assert_eq!(
        net.show_state(),
        "Places:\n  p: 0 token(s)\n  q: 1 token(s)\nEnabled transitions:\n"
    );
    assert!(!net.is_enabled(0));
    assert!(!net.fire(0));
    assert_eq!(
        net.show_state(),
        "Places:\n  p: 0 token(s)\n  q: 1 token(s)\nEnabled transitions:\n"
    );
    assert!(net.enabled_transitions().is_empty());
}

#[test]
fn weights_take_and_give_several_tokens() {
    let src = "place a tokens = 5;\ntransition t;\nplace b tokens = 1;\na ->[2] t ->[3] b;\n";
    let m = model(src);
    let mut net = net(&m);
    assert!(net.fire(0));
    assert_eq!(
        net.show_state(),
        "Places:\n  a: 3 token(s)\n  b: 4 token(s)\nEnabled transitions:\n  t\n"
    );
    assert!(net.fire(0));
    assert!(!net.is_enabled(0));
    assert_eq!(
        net.show_state(),
        "Places:\n  a: 1 token(s)\n  b: 7 token(s)\nEnabled transitions:\n"
    );
}

#[test]
fn transition_without_inputs_is_always_enabled() {
    let src = "transition source;\nplace out;\nsource -> out;\n";
    let m = model(src);
    let mut net = net(&m);
    for _ in 0..3 {
        assert!(net.fire(0));
    }
    assert_eq!(
        net.show_state(),
        "Places:\n  out: 3 token(s)\nEnabled transitions:\n  source\n"
    );
}

#[test]
fn overflowing_a_place_does_not_fit() {
    let src = "transition source;\nplace out tokens = 18446744073709551615;\nsource -> out;\n";
    let m = model(src);
    let net = net(&m);
    assert!(net.is_enabled(0));
    assert!(!net.fire_fits(0));
}

#[test]
fn arc_between_undeclared_names_cannot_be_built() {
    let m = model("a -> b;");
    assert!(!PetriNet::can_build(&m));
    let m = model("place p;\ntransition t;\np -> t;\na -> b;");
    assert!(!PetriNet::can_build(&m));
}

#[test]
fn empty_net_has_no_state() {
    let m = model("");
    let net = net(&m);
    assert_eq!(net.show_state(), "Places:\nEnabled transitions:\n");
}

#[test]
fn place_and_transition_of_the_same_name_point_outside_the_places() {
    let src = "place a;\ntransition t;\ntransition u;\ntransition a;\na -> t;\n";
    let p = match Parser::new(Lexer::new(src)).parse() {
        Ok(p) => p,
        Err(_) => panic!("expected a program"),
    };
    let (m, report) = Analyzer::analyze(&p);
    assert!(report.has_error());
    assert!(PetriNet::can_build(&m));
    let net = PetriNet::from_semantic_model(&m);
    assert!(!net.can_fire(0));
    assert!(!net.can_check_all());
    assert!(net.can_fire(1));
}
