use petri::analysis::analyzer::Analyzer;
use petri::analysis::semantic_model::SemanticModel;
use petri::export::graphviz::{format_arg, Graphviz};
use petri::grammar::lexer::Lexer;
use petri::grammar::parser::Parser;

const HEAD: &str = "\n            digraph Petri {\n                graph [\n                dpi=300,\n                splines=true,\n                nodesep=0.6,\n                ranksep=1.0\n                ];\n                rankdir=LR;\n                ";
const TAIL: &str = "\n            }";

fn model(input: &str) -> SemanticModel {
    let p = match Parser::new(Lexer::new(input)).parse() {
        Ok(p) => p,
        Err(_) => panic!("expected a program"),
    };
    Analyzer::analyze(&p).0
}

#[test]
fn renders_nodes_and_edges() {
    let m = model("place p \"start\" tokens = 2;\ntransition t \"go\";\nplace q;\np -> t ->[3] q;");
    let places = "p [shape=circle, label=\"2\", xlabel=\"p: start\"];\nq [shape=circle, label=\"0\", xlabel=\"q\"];";
    let transitions = "t: go [shape=box, width=0.15, height=0.8, fixedsize=true];";
    let arcs = "p -> t ;\nt -> q [label=\"3\"];";
    assert_eq!(Graphviz::render_places(m.places()), places);
    assert_eq!(Graphviz::render_transitions(m.transitions()), transitions);
    assert_eq!(Graphviz::render_arcs(m.arcs()), arcs);
    assert_eq!(
        Graphviz::render_net(&m),
        format!("{HEAD}{places}\n{transitions}\n{arcs}{TAIL}")
    );
}

#[test]
fn renders_an_empty_net() {
    let m = model("");
    assert_eq!(Graphviz::render_net(&m), format!("{HEAD}\n\n{TAIL}"));
}

#[test]
fn large_counts_are_written_in_decimal() {
    let m = model("place big tokens = 1234567890;\ntransition t;\nbig ->[10] t;");
    assert_eq!(
        Graphviz::render_places(m.places()),
        "big [shape=circle, label=\"1234567890\", xlabel=\"big\"];"
    );
    assert_eq!(Graphviz::render_arcs(m.arcs()), "big -> t [label=\"10\"];");
}

#[test]
fn image_format_follows_the_extension() {
    assert_eq!(format_arg(Some("svg")), "-Tsvg");
    assert_eq!(format_arg(None), "-Tpng");
}
