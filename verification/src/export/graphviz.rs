//! Rendering a semantic model as a Graphviz graph.
use vstd::prelude::*;

use crate::analysis::semantic_model::{
    Arc, Place, SemanticModel, SpecArc, SpecPlace, SpecTransition, Transition,
};
use crate::text::{decimal_text, usize_to_text};

verus! {

/// Texts joined by line feeds.
pub open spec fn join_lines(ls: Seq<Seq<char>>) -> Seq<char>
    decreases ls.len(),
{
    if ls.len() == 0 {
        Seq::empty()
    } else if ls.len() == 1 {
        ls[0]
    } else {
        join_lines(ls.drop_last()) + "\n"@ + ls.last()
    }
}

/// The outside label of a node: its name, followed by `: ` and its label if it has one.
pub open spec fn xlabel(name: Seq<char>, label: Option<Seq<char>>) -> Seq<char> {
    match label {
        Some(l) => name + ": "@ + l,
        None => name,
    }
}

/// The node of a place: a circle showing its tokens.
pub open spec fn place_line(p: SpecPlace) -> Seq<char> {
    p.name + " [shape=circle, label=\""@ + decimal_text(p.tokens as nat) + "\", xlabel=\""@ + xlabel(
        p.name,
        p.label,
    ) + "\"];"@
}

/// The node of a transition: a thin box, named by its outside label.
pub open spec fn transition_line(t: SpecTransition) -> Seq<char> {
    xlabel(t.name, t.label) + " [shape=box, width=0.15, height=0.8, fixedsize=true];"@
}

/// The edge of an arc, labelled with its weight unless the weight is 1.
pub open spec fn arc_line(a: SpecArc) -> Seq<char> {
    a.left + " -> "@ + a.right + " "@ + (if a.weight == 1 {
        Seq::empty()
    } else {
        "[label=\""@ + decimal_text(a.weight as nat) + "\"]"@
    }) + ";"@
}

/// The text before the nodes and edges of the graph.
pub open spec fn graph_head() -> Seq<char> {
    "\n            digraph Petri {\n                graph [\n                dpi=300,\n                splines=true,\n                nodesep=0.6,\n                ranksep=1.0\n                ];\n                rankdir=LR;\n                "@
}

/// The text after the nodes and edges of the graph.
pub open spec fn graph_tail() -> Seq<char> {
    "\n            }"@
}

/// The node lines of the transitions.
pub open spec fn transition_lines(ts: Seq<SpecTransition>) -> Seq<Seq<char>> {
    ts.map_values(|t: SpecTransition| transition_line(t))
}

/// The node lines of the places.
pub open spec fn place_lines(ps: Seq<SpecPlace>) -> Seq<Seq<char>> {
    ps.map_values(|p: SpecPlace| place_line(p))
}

/// The edge lines of the arcs.
pub open spec fn arc_lines(arcs: Seq<SpecArc>) -> Seq<Seq<char>> {
    arcs.map_values(|x: SpecArc| arc_line(x))
}

/// The attributes that draw a transition as a thin box.
pub open spec fn box_shape() -> Seq<char> {
    " [shape=box, width=0.15, height=0.8, fixedsize=true];"@
}

/// Each of the joined texts stands in the joined text as a whole line: what comes before it is
/// empty or ends with a line feed, and what comes after it is empty or starts with one.
pub proof fn lemma_join_lines_holds_each(ls: Seq<Seq<char>>, k: int)
    requires
        0 <= k < ls.len(),
    ensures
        exists|a: Seq<char>, b: Seq<char>|
            #[trigger] join_lines(ls) == a + ls[k] + b && (a.len() == 0 || a.last() == '\n') && (
            b.len() == 0 || b[0] == '\n'),
    decreases ls.len(),
{
    reveal_strlit("\n");
    if ls.len() == 1 {
        assert(join_lines(ls) =~= Seq::<char>::empty() + ls[k] + Seq::<char>::empty());
    } else if k == ls.len() - 1 {
        let a = join_lines(ls.drop_last()) + "\n"@;
        assert(join_lines(ls) =~= a + ls[k] + Seq::<char>::empty());
    } else {
        lemma_join_lines_holds_each(ls.drop_last(), k);
        let (a, b) = choose|a: Seq<char>, b: Seq<char>|
            #[trigger] join_lines(ls.drop_last()) == a + ls.drop_last()[k] + b && (a.len() == 0
                || a.last() == '\n') && (b.len() == 0 || b[0] == '\n');
        let b2 = b + "\n"@ + ls.last();
        assert(join_lines(ls) =~= a + ls[k] + b2);
        assert(b2.len() == 0 || b2[0] == '\n');
    }
}

/// Every transition, labelled or not, has a line of its own in the rendering of the
/// transitions: the line starts with the transition's name, followed by `: ` and its label when
/// it has one, and ends with the attributes that draw it as a box.
pub proof fn law_every_transition_is_a_box(ts: Seq<SpecTransition>, j: int)
    requires
        0 <= j < ts.len(),
    ensures
        exists|a: Seq<char>, b: Seq<char>|
            #[trigger] join_lines(transition_lines(ts)) == a
                + ts[j].name + match ts[j].label {
                Some(l) => ": "@ + l,
                None => Seq::empty(),
            } + box_shape() + b && (a.len() == 0 || a.last() == '\n') && (b.len() == 0 || b[0]
                == '\n'),
{
    let ls = transition_lines(ts);
    lemma_join_lines_holds_each(ls, j);
    let (a, b) = choose|a: Seq<char>, b: Seq<char>|
        #[trigger] join_lines(ls) == a + ls[j] + b && (a.len() == 0 || a.last() == '\n') && (
        b.len() == 0 || b[0] == '\n');
    let mid: Seq<char> = match ts[j].label {
        Some(l) => ": "@ + l,
        None => Seq::empty(),
    };
    assert(ls[j] =~= ts[j].name + mid + box_shape());
    assert(join_lines(ls) =~= a + ts[j].name + mid + box_shape() + b);
}

/// Every place has a line of its own in the rendering of the places: the line starts with the
/// place's name and draws it as a circle labelled with its number of tokens.
pub proof fn law_every_place_is_a_circle(ps: Seq<SpecPlace>, j: int)
    requires
        0 <= j < ps.len(),
    ensures
        exists|a: Seq<char>, rest: Seq<char>, b: Seq<char>|
            #[trigger] join_lines(place_lines(ps)) == a + ps[j].name
                + " [shape=circle, label=\""@ + decimal_text(ps[j].tokens as nat) + rest + b && (
            a.len() == 0 || a.last() == '\n') && (b.len() == 0 || b[0] == '\n'),
{
    let ls = place_lines(ps);
    lemma_join_lines_holds_each(ls, j);
    let (a, b) = choose|a: Seq<char>, b: Seq<char>|
        #[trigger] join_lines(ls) == a + ls[j] + b && (a.len() == 0 || a.last() == '\n') && (
        b.len() == 0 || b[0] == '\n');
    let rest = "\", xlabel=\""@ + xlabel(ps[j].name, ps[j].label) + "\"];"@;
    assert(ls[j] =~= ps[j].name + " [shape=circle, label=\""@ + decimal_text(ps[j].tokens as nat) + rest);
    assert(join_lines(ls) =~= a + ps[j].name + " [shape=circle, label=\""@ + decimal_text(
        ps[j].tokens as nat,
    ) + rest + b);
}

/// Every arc has a line of its own in the rendering of the arcs: the line is an edge from the
/// arc's first name to its second, labelled with its weight unless the weight is 1.
pub proof fn law_every_arc_is_an_edge(arcs: Seq<SpecArc>, j: int)
    requires
        0 <= j < arcs.len(),
    ensures
        exists|a: Seq<char>, b: Seq<char>|
            #[trigger] join_lines(arc_lines(arcs)) == a + arcs[j].left
                + " -> "@ + arcs[j].right + " "@ + (if arcs[j].weight == 1 {
                Seq::empty()
            } else {
                "[label=\""@ + decimal_text(arcs[j].weight as nat) + "\"]"@
            }) + ";"@ + b && (a.len() == 0 || a.last() == '\n') && (b.len() == 0 || b[0]
                == '\n'),
{
    let ls = arc_lines(arcs);
    lemma_join_lines_holds_each(ls, j);
    let (a, b) = choose|a: Seq<char>, b: Seq<char>|
        #[trigger] join_lines(ls) == a + ls[j] + b && (a.len() == 0 || a.last() == '\n') && (
        b.len() == 0 || b[0] == '\n');
    let x = arcs[j];
    let mid: Seq<char> = if x.weight == 1 {
        Seq::empty()
    } else {
        "[label=\""@ + decimal_text(x.weight as nat) + "\"]"@
    };
    assert(ls[j] == arc_line(x));
    assert(arc_line(x) =~= x.left + " -> "@ + x.right + " "@ + mid + ";"@);
    assert(join_lines(ls) =~= a + x.left + " -> "@ + x.right + " "@ + mid + ";"@ + b);
}

/// The Graphviz rendering of a net.
pub struct Graphviz;

impl Graphviz {
    /// One node per place, one per line.
    pub fn render_places(places: &Vec<Place>) -> (r: String)
        ensures
            r@ == join_lines(places@.map_values(|p: Place| place_line(p@))),
    {
        let ghost ls = places@.map_values(|p: Place| place_line(p@));
        let mut out = String::new();
        let mut k: usize = 0;
        assert(ls.take(0) =~= Seq::<Seq<char>>::empty());
        while k < places.len()
            invariant
                k <= places.len(),
                ls == places@.map_values(|p: Place| place_line(p@)),
                out@ == join_lines(ls.take(k as int)),
            decreases places.len() - k,
        {
            let place = &places[k];
            assert(ls.take(k + 1).drop_last() =~= ls.take(k as int));
            assert(ls.take(k + 1).last() == place_line(place@));
            let ghost before = out@;
            if k > 0 {
                out.append("\n");
            } else {
                assert(ls.take(1)[0] == ls[0]);
            }
            out.append(place.name());
            out.append(" [shape=circle, label=\"");
            let tokens = usize_to_text(*place.tokens());
            out.append(tokens.as_str());
            out.append("\", xlabel=\"");
            out.append(place.name());
            match place.label() {
                Some(label) => {
                    out.append(": ");
                    out.append(label.as_str());
                },
                None => {},
            }
            out.append("\"];");
            assert(k > 0 ==> out@ =~= before + "\n"@ + place_line(place@));
            assert(k == 0 ==> out@ =~= before + place_line(place@));
            k = k + 1;
        }
        assert(ls.take(places.len() as int) =~= ls);
        out
    }

    /// One node per transition, one per line.
    pub fn render_transitions(transitions: &Vec<Transition>) -> (r: String)
        ensures
            r@ == join_lines(transitions@.map_values(|t: Transition| transition_line(t@))),
    {
        let ghost ls = transitions@.map_values(|t: Transition| transition_line(t@));
        let mut out = String::new();
        let mut k: usize = 0;
        assert(ls.take(0) =~= Seq::<Seq<char>>::empty());
        while k < transitions.len()
            invariant
                k <= transitions.len(),
                ls == transitions@.map_values(|t: Transition| transition_line(t@)),
                out@ == join_lines(ls.take(k as int)),
            decreases transitions.len() - k,
        {
            let transition = &transitions[k];
            assert(ls.take(k + 1).drop_last() =~= ls.take(k as int));
            assert(ls.take(k + 1).last() == transition_line(transition@));
            let ghost before = out@;
            if k > 0 {
                out.append("\n");
            } else {
                assert(ls.take(1)[0] == ls[0]);
            }
            out.append(transition.name());
            match transition.label() {
                Some(label) => {
                    out.append(": ");
                    out.append(label.as_str());
                },
                None => {},
            }
            out.append(" [shape=box, width=0.15, height=0.8, fixedsize=true];");
            assert(k > 0 ==> out@ =~= before + "\n"@ + transition_line(transition@));
            assert(k == 0 ==> out@ =~= before + transition_line(transition@));
            k = k + 1;
        }
        assert(ls.take(transitions.len() as int) =~= ls);
        out
    }

    /// One edge per arc, one per line.
    pub fn render_arcs(arcs: &Vec<Arc>) -> (r: String)
        ensures
            r@ == join_lines(arcs@.map_values(|a: Arc| arc_line(a@))),
    {
        let ghost ls = arcs@.map_values(|a: Arc| arc_line(a@));
        let mut out = String::new();
        let mut k: usize = 0;
        assert(ls.take(0) =~= Seq::<Seq<char>>::empty());
        while k < arcs.len()
            invariant
                k <= arcs.len(),
                ls == arcs@.map_values(|a: Arc| arc_line(a@)),
                out@ == join_lines(ls.take(k as int)),
            decreases arcs.len() - k,
        {
            let arc = &arcs[k];
            assert(ls.take(k + 1).drop_last() =~= ls.take(k as int));
            assert(ls.take(k + 1).last() == arc_line(arc@));
            let ghost before = out@;
            if k > 0 {
                out.append("\n");
            } else {
                assert(ls.take(1)[0] == ls[0]);
            }
            out.append(arc.left());
            out.append(" -> ");
            out.append(arc.right());
            out.append(" ");
            if *arc.weight() != 1 {
                out.append("[label=\"");
                let weight = usize_to_text(*arc.weight());
                out.append(weight.as_str());
                out.append("\"]");
            }
            out.append(";");
            assert(k > 0 ==> out@ =~= before + "\n"@ + arc_line(arc@));
            assert(k == 0 ==> out@ =~= before + arc_line(arc@));
            k = k + 1;
        }
        assert(ls.take(arcs.len() as int) =~= ls);
        out
    }

    /// The whole graph: the place nodes, the transition nodes and the arc edges, inside a
    /// directed graph laid out left to right.
    pub fn render_net(model: &SemanticModel) -> (r: String)
        ensures
            r@ == graph_head() + join_lines(model.place_view().map_values(|p: SpecPlace| place_line(p)))
                + "\n"@ + join_lines(
                model.transition_view().map_values(|t: SpecTransition| transition_line(t)),
            ) + "\n"@ + join_lines(model.arc_view().map_values(|a: SpecArc| arc_line(a)))
                + graph_tail(),
    {
        let model_places = model.places();
        let model_transitions = model.transitions();
        let model_arcs = model.arcs();
        let places = Self::render_places(model_places);
        let transitions = Self::render_transitions(model_transitions);
        let arcs = Self::render_arcs(model_arcs);
        assert(model_places@.map_values(|p: Place| place_line(p@)) =~= model.place_view().map_values(
            |p: SpecPlace| place_line(p),
        ));
        assert(model_transitions@.map_values(|t: Transition| transition_line(t@))
            =~= model.transition_view().map_values(|t: SpecTransition| transition_line(t)));
        assert(model_arcs@.map_values(|a: Arc| arc_line(a@)) =~= model.arc_view().map_values(
            |a: SpecArc| arc_line(a),
        ));
        let mut out = String::new();
        out.append(
            "\n            digraph Petri {\n                graph [\n                dpi=300,\n                splines=true,\n                nodesep=0.6,\n                ranksep=1.0\n                ];\n                rankdir=LR;\n                ",
        );
        out.append(places.as_str());
        out.append("\n");
        out.append(transitions.as_str());
        out.append("\n");
        out.append(arcs.as_str());
        out.append("\n            }");
        out
    }
}

/// The Graphviz option that picks the image format: `-T` and the output file's extension, or
/// `png` when it has none.
pub fn format_arg(ext: Option<&str>) -> (r: String)
    ensures
        r@ == "-T"@ + match ext {
            Some(e) => e@,
            None => "png"@,
        },
{
    let mut r = "-T".to_owned();
    match ext {
        Some(e) => r.append(e),
        None => r.append("png"),
    }
    r
}

} // verus!
