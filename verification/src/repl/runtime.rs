//! The runtime: a P/T net with a marking, and the firing rule.
use vstd::prelude::*;

use crate::analysis::semantic_model::{SemanticModel, SpecArc, SpecPlace, SpecTransition};
use crate::analysis::symbol::{SpecSymbol, Symbol, lookup};
use crate::text::{decimal_text, str_eq, usize_to_text};

verus! {

/// A place of the net and its current number of tokens.
pub struct Place {
    pub name: String,
    tokens: usize,
}

/// The view of a place of the net.
pub struct SpecNetPlace {
    pub name: Seq<char>,
    pub tokens: usize,
}

impl View for Place {
    type V = SpecNetPlace;

    closed spec fn view(&self) -> SpecNetPlace {
        SpecNetPlace { name: self.name@, tokens: self.tokens }
    }
}

/// A transition of the net: the places it consumes tokens from and produces tokens on, each as
/// `(place index, weight)`.
pub struct Transition {
    pub name: String,
    inputs: Vec<(usize, usize)>,
    outputs: Vec<(usize, usize)>,
}

/// The view of a transition of the net.
pub struct SpecNetTransition {
    pub name: Seq<char>,
    pub inputs: Seq<(usize, usize)>,
    pub outputs: Seq<(usize, usize)>,
}

impl View for Transition {
    type V = SpecNetTransition;

    closed spec fn view(&self) -> SpecNetTransition {
        SpecNetTransition { name: self.name@, inputs: self.inputs@, outputs: self.outputs@ }
    }
}

/// The view of a net: its places with their marking, its transitions, and the index from names
/// to positions.
pub struct SpecNet {
    pub places: Seq<SpecNetPlace>,
    pub transitions: Seq<SpecNetTransition>,
    pub index: Map<Seq<char>, usize>,
}

/// The map that inserting the entries of `v` in order produces (a later entry for a name
/// replaces an earlier one).
pub open spec fn entries_map(v: Seq<(Seq<char>, usize)>) -> Map<Seq<char>, usize>
    decreases v.len(),
{
    if v.len() == 0 {
        Map::empty()
    } else {
        entries_map(v.drop_last()).insert(v.last().0, v.last().1)
    }
}

/// The index of a net: each place name to its position, then each transition name to its
/// position; a transition replaces a place of the same name.
pub open spec fn net_index(ps: Seq<SpecPlace>, ts: Seq<SpecTransition>) -> Map<Seq<char>, usize> {
    entries_map(
        Seq::new(ps.len(), |i: int| (ps[i].name, i as usize)) + Seq::new(
            ts.len(),
            |j: int| (ts[j].name, j as usize),
        ),
    )
}

/// What an arc contributes to the net: an input of a transition from a place, or an output of a
/// transition to a place, each as `(transition, place, weight)`.
pub enum ArcRole {
    Input(usize, usize, usize),
    Output(usize, usize, usize),
}

/// The role of an arc: from a place to a transition it is an input of that transition; otherwise
/// an output of its first end.
pub open spec fn arc_role(t: Seq<SpecSymbol>, index: Map<Seq<char>, usize>, a: SpecArc) -> ArcRole {
    match (lookup(t, a.left), lookup(t, a.right)) {
        (Some(SpecSymbol::Place { .. }), Some(SpecSymbol::Transition { .. })) => ArcRole::Input(
            index[a.right],
            index[a.left],
            a.weight,
        ),
        _ => ArcRole::Output(index[a.left], index[a.right], a.weight),
    }
}

/// The inputs of transition `j`, in arc order.
pub open spec fn inputs_of(roles: Seq<ArcRole>, j: int) -> Seq<(usize, usize)>
    decreases roles.len(),
{
    if roles.len() == 0 {
        Seq::empty()
    } else {
        inputs_of(roles.drop_last(), j) + match roles.last() {
            ArcRole::Input(t, p, w) => if t == j {
                seq![(p, w)]
            } else {
                Seq::empty()
            },
            ArcRole::Output(..) => Seq::empty(),
        }
    }
}

/// The outputs of transition `j`, in arc order.
pub open spec fn outputs_of(roles: Seq<ArcRole>, j: int) -> Seq<(usize, usize)>
    decreases roles.len(),
{
    if roles.len() == 0 {
        Seq::empty()
    } else {
        outputs_of(roles.drop_last(), j) + match roles.last() {
            ArcRole::Output(t, p, w) => if t == j {
                seq![(p, w)]
            } else {
                Seq::empty()
            },
            ArcRole::Input(..) => Seq::empty(),
        }
    }
}

/// True when an arc joins a declared place and a declared transition, both names are in the
/// index, and the transition's position is one of the `n` transitions.
pub open spec fn arc_fits(t: Seq<SpecSymbol>, index: Map<Seq<char>, usize>, n: int, a: SpecArc) -> bool {
    let l = lookup(t, a.left);
    let r = lookup(t, a.right);
    &&& index.contains_key(a.left)
    &&& index.contains_key(a.right)
    &&& ((l matches Some(SpecSymbol::Place { .. }) && r matches Some(SpecSymbol::Transition { .. })
        && index[a.right] < n) || (l matches Some(SpecSymbol::Transition { .. }) && r matches Some(
        SpecSymbol::Place { .. },
    ) && index[a.left] < n))
}

/// True when a model can be turned into a net: every arc joins a declared place and a declared
/// transition, both names are in the index, and the transition's position is a transition.
pub open spec fn convertible(
    t: Seq<SpecSymbol>,
    ps: Seq<SpecPlace>,
    ts: Seq<SpecTransition>,
    arcs: Seq<SpecArc>,
) -> bool {
    forall|k: int| 0 <= k < arcs.len() ==> arc_fits(t, net_index(ps, ts), ts.len() as int, #[trigger] arcs[k])
}

/// The net of a model.
pub open spec fn net_of(
    t: Seq<SpecSymbol>,
    ps: Seq<SpecPlace>,
    ts: Seq<SpecTransition>,
    arcs: Seq<SpecArc>,
) -> SpecNet {
    let index = net_index(ps, ts);
    let roles = arcs.map_values(|a: SpecArc| arc_role(t, index, a));
    SpecNet {
        places: ps.map_values(|p: SpecPlace| SpecNetPlace { name: p.name, tokens: p.tokens }),
        transitions: Seq::new(
            ts.len(),
            |j: int|
                SpecNetTransition {
                    name: ts[j].name,
                    inputs: inputs_of(roles, j),
                    outputs: outputs_of(roles, j),
                },
        ),
        index,
    }
}

/// The total weight that the arcs in `arcs` carry from or to place `p`.
pub open spec fn weight_at(arcs: Seq<(usize, usize)>, p: int) -> nat
    decreases arcs.len(),
{
    if arcs.len() == 0 {
        0
    } else {
        weight_at(arcs.drop_last(), p) + if arcs.last().0 == p {
            arcs.last().1 as nat
        } else {
            0
        }
    }
}

/// True when every place index of `arcs` is a place of the net.
pub open spec fn arcs_in_range(arcs: Seq<(usize, usize)>, n: int) -> bool {
    forall|k: int| 0 <= k < arcs.len() ==> (#[trigger] arcs[k]).0 < n
}

/// True when every input of `tr` has at least its weight in tokens.
pub open spec fn enabled_in(places: Seq<SpecNetPlace>, tr: SpecNetTransition) -> bool {
    forall|k: int|
        0 <= k < tr.inputs.len() ==> places[(#[trigger] tr.inputs[k]).0 as int].tokens
            >= tr.inputs[k].1
}

/// The marking after firing `tr`: each place loses the weight of its inputs and gains the
/// weight of its outputs.
pub open spec fn fired(places: Seq<SpecNetPlace>, tr: SpecNetTransition) -> Seq<SpecNetPlace> {
    Seq::new(
        places.len(),
        |p: int|
            SpecNetPlace {
                name: places[p].name,
                tokens: (places[p].tokens - weight_at(tr.inputs, p) + weight_at(
                    tr.outputs,
                    p,
                )) as usize,
            },
    )
}

/// True when firing `tr` neither takes more tokens from a place than it holds nor puts more
/// than a `usize` holds on one.
pub open spec fn fire_fits(places: Seq<SpecNetPlace>, tr: SpecNetTransition) -> bool {
    forall|p: int|
        0 <= p < places.len() ==> weight_at(tr.inputs, p) <= (#[trigger] places[p]).tokens && places[p].tokens
            - weight_at(tr.inputs, p) + weight_at(tr.outputs, p) <= usize::MAX
}

/// The enabled transitions of a net, in order.
pub open spec fn enabled_ones(places: Seq<SpecNetPlace>, ts: Seq<SpecNetTransition>) -> Seq<
    SpecNetTransition,
>
    decreases ts.len(),
{
    if ts.len() == 0 {
        Seq::empty()
    } else {
        enabled_ones(places, ts.drop_last()) + if enabled_in(places, ts.last()) {
            seq![ts.last()]
        } else {
            Seq::empty()
        }
    }
}

/// The line that shows a place and its tokens.
pub open spec fn place_state_line(p: SpecNetPlace) -> Seq<char> {
    "  "@ + p.name + ": "@ + decimal_text(p.tokens as nat) + " token(s)\n"@
}

/// The lines that show the places, in order.
pub open spec fn places_state(ps: Seq<SpecNetPlace>) -> Seq<char>
    decreases ps.len(),
{
    if ps.len() == 0 {
        Seq::empty()
    } else {
        places_state(ps.drop_last()) + place_state_line(ps.last())
    }
}

/// The lines that name transitions, in order.
pub open spec fn transitions_state(ts: Seq<SpecNetTransition>) -> Seq<char>
    decreases ts.len(),
{
    if ts.len() == 0 {
        Seq::empty()
    } else {
        transitions_state(ts.drop_last()) + "  "@ + ts.last().name + "\n"@
    }
}

/// The state of a net as shown to the user: each place with its tokens, then each enabled
/// transition.
pub open spec fn state_text(net: SpecNet) -> Seq<char> {
    "Places:\n"@ + places_state(net.places) + "Enabled transitions:\n"@ + transitions_state(
        enabled_ones(net.places, net.transitions),
    )
}

/// The lines of two runs of transitions are the lines of the first, then of the second.
pub proof fn lemma_transitions_state_add(a: Seq<SpecNetTransition>, b: Seq<SpecNetTransition>)
    ensures
        transitions_state(a + b) == transitions_state(a) + transitions_state(b),
    decreases b.len(),
{
    if b.len() == 0 {
        assert(a + b =~= a);
    } else {
        lemma_transitions_state_add(a, b.drop_last());
        assert((a + b).drop_last() =~= a + b.drop_last());
    }
}

/// The lines of two runs of places are the lines of the first, then of the second.
pub proof fn lemma_places_state_add(a: Seq<SpecNetPlace>, b: Seq<SpecNetPlace>)
    ensures
        places_state(a + b) == places_state(a) + places_state(b),
    decreases b.len(),
{
    if b.len() == 0 {
        assert(a + b =~= a);
    } else {
        lemma_places_state_add(a, b.drop_last());
        assert((a + b).drop_last() =~= a + b.drop_last());
    }
}

/// True when `idx` lists, in strictly increasing order, positions of `ts` whose transitions
/// are enabled, and every position of an enabled transition is among them.
pub open spec fn enabled_positions(places: Seq<SpecNetPlace>, ts: Seq<SpecNetTransition>, idx: Seq<int>) -> bool {
    &&& forall|m: int| 0 <= m < idx.len() ==> 0 <= #[trigger] idx[m] < ts.len()
    &&& forall|m: int, n: int| 0 <= m < n < idx.len() ==> idx[m] < idx[n]
    &&& forall|m: int| 0 <= m < idx.len() ==> enabled_in(places, ts[#[trigger] idx[m]])
    &&& forall|j: int|
        0 <= j < ts.len() && enabled_in(places, #[trigger] ts[j]) ==> exists|m: int|
            0 <= m < idx.len() && idx[m] == j
}

/// The enabled transitions are those of `ts` that are enabled, each once and in the order of
/// `ts`.
pub proof fn lemma_enabled_ones(places: Seq<SpecNetPlace>, ts: Seq<SpecNetTransition>)
    ensures
        exists|idx: Seq<int>|
            #[trigger] enabled_positions(places, ts, idx) && at_positions(ts, idx) == enabled_ones(
                places,
                ts,
            ),
    decreases ts.len(),
{
    let es = enabled_ones(places, ts);
    if ts.len() == 0 {
        let idx = Seq::<int>::empty();
        assert(at_positions(ts, idx) =~= es);
        assert(enabled_positions(places, ts, idx));
    } else {
        let q = ts.drop_last();
        lemma_enabled_ones(places, q);
        let eq = enabled_ones(places, q);
        let iq = choose|idx: Seq<int>|
            #[trigger] enabled_positions(places, q, idx) && at_positions(q, idx) == eq;
        let last = ts.len() - 1;
        let idx = if enabled_in(places, ts.last()) {
            iq.push(last)
        } else {
            iq
        };
        assert forall|m: int| 0 <= m < iq.len() implies q[iq[m]] == ts[iq[m]] by {
            assert(0 <= iq[m] < q.len());
        }
        assert(at_positions(ts, idx) =~= es) by {
            assert forall|m: int| 0 <= m < iq.len() implies at_positions(ts, idx)[m] == eq[m] by {
                assert(at_positions(q, iq)[m] == eq[m]);
                assert(0 <= iq[m] < q.len());
            }
        }
        assert forall|j: int| 0 <= j < ts.len() && enabled_in(places, #[trigger] ts[j]) implies exists|
            m: int,
        | 0 <= m < idx.len() && idx[m] == j by {
            if j < last {
                assert(q[j] == ts[j]);
                let m = choose|m: int| 0 <= m < iq.len() && iq[m] == j;
                assert(idx[m] == j);
            } else {
                assert(idx[idx.len() - 1] == j);
            }
        }
        assert forall|m: int| 0 <= m < idx.len() implies enabled_in(places, ts[#[trigger] idx[m]]) by {
            if m < iq.len() {
                assert(idx[m] == iq[m]);
                assert(0 <= iq[m] < q.len());
                assert(q[iq[m]] == ts[iq[m]]);
            }
        }
        assert forall|m: int, n: int| 0 <= m < n < idx.len() implies idx[m] < idx[n] by {
            if n < iq.len() {
                assert(idx[m] == iq[m] && idx[n] == iq[n]);
            } else {
                assert(idx[m] == iq[m]);
                assert(0 <= iq[m] < q.len());
            }
        }
        assert forall|m: int| 0 <= m < idx.len() implies 0 <= #[trigger] idx[m] < ts.len() by {
            if m < iq.len() {
                assert(idx[m] == iq[m]);
            }
        }
        assert(enabled_positions(places, ts, idx));
    }
}

/// The transitions of `ts` at the positions `idx`, in that order.
pub open spec fn at_positions(ts: Seq<SpecNetTransition>, idx: Seq<int>) -> Seq<SpecNetTransition> {
    idx.map_values(|m: int| ts[m])
}

/// What `show` prints: `Places:` and a line `  name: n token(s)` for every place, in order;
/// then `Enabled transitions:` and a line `  name` for exactly the enabled transitions, each
/// once and in the order of the net. So every enabled transition is named, and no transition that
/// is not enabled is.
pub proof fn law_show_lists_places_and_enabled_transitions(net: SpecNet)
    ensures
        exists|idx: Seq<int>|
            #[trigger] enabled_positions(net.places, net.transitions, idx) && state_text(net) == "Places:\n"@
                + places_state(net.places) + "Enabled transitions:\n"@ + transitions_state(
                at_positions(net.transitions, idx),
            ),
        transitions_state(Seq::<SpecNetTransition>::empty()) == Seq::<char>::empty(),
        forall|t: SpecNetTransition|
            #[trigger] transitions_state(seq![t]) == "  "@ + t.name + "\n"@,
        forall|a: Seq<SpecNetTransition>, b: Seq<SpecNetTransition>|
            #[trigger] transitions_state(a + b) == transitions_state(a) + transitions_state(b),
{
    lemma_enabled_ones(net.places, net.transitions);
    assert forall|t: SpecNetTransition| #[trigger]
        transitions_state(seq![t]) == "  "@ + t.name + "\n"@ by {
        assert(seq![t].drop_last() =~= Seq::<SpecNetTransition>::empty());
        assert(transitions_state(Seq::<SpecNetTransition>::empty()) == Seq::<char>::empty());
        assert(transitions_state(seq![t]) =~= "  "@ + t.name + "\n"@);
    }
    assert forall|a: Seq<SpecNetTransition>, b: Seq<SpecNetTransition>| #[trigger]
        transitions_state(a + b) == transitions_state(a) + transitions_state(b) by {
        lemma_transitions_state_add(a, b);
    }
}

/// `show` prints a line `  name: n token(s)` for every place: the lines of the places are those
/// of the places before it, that line, then those of the places after it.
pub proof fn law_show_lists_every_place(ps: Seq<SpecNetPlace>, k: int)
    requires
        0 <= k < ps.len(),
    ensures
        places_state(ps) == places_state(ps.take(k)) + "  "@ + ps[k].name + ": "@ + decimal_text(
            ps[k].tokens as nat,
        ) + " token(s)\n"@ + places_state(ps.skip(k + 1)),
{
    let a = ps.take(k);
    let b = ps.skip(k + 1);
    let one = seq![ps[k]];
    assert(ps =~= (a + one) + b);
    lemma_places_state_add(a + one, b);
    lemma_places_state_add(a, one);
    assert(one.drop_last() =~= Seq::<SpecNetPlace>::empty());
    assert(places_state(Seq::<SpecNetPlace>::empty()) == Seq::<char>::empty());
    assert(places_state(one) =~= place_state_line(ps[k]));
    assert(places_state(ps) =~= places_state(a) + "  "@ + ps[k].name + ": "@ + decimal_text(
        ps[k].tokens as nat,
    ) + " token(s)\n"@ + places_state(b));
}

/// The weight at a place counts every arc: nothing for no arcs, an arc's weight when it is at
/// that place (and nothing otherwise), and the sum over two runs of arcs.
pub proof fn law_weight_counts_every_arc(a: Seq<(usize, usize)>, b: Seq<(usize, usize)>, p: int)
    ensures
        weight_at(Seq::<(usize, usize)>::empty(), p) == 0,
        forall|x: (usize, usize)|
            #[trigger] weight_at(seq![x], p) == if x.0 == p {
                x.1 as nat
            } else {
                0
            },
        weight_at(a + b, p) == weight_at(a, p) + weight_at(b, p),
    decreases b.len(),
{
    assert forall|x: (usize, usize)| #[trigger]
        weight_at(seq![x], p) == if x.0 == p {
            x.1 as nat
        } else {
            0
        } by {
        assert(seq![x].drop_last() =~= Seq::<(usize, usize)>::empty());
        assert(weight_at(Seq::<(usize, usize)>::empty(), p) == 0);
        assert(seq![x].last() == x);
    }
    if b.len() == 0 {
        assert(a + b =~= a);
    } else {
        law_weight_counts_every_arc(a, b.drop_last(), p);
        assert((a + b).drop_last() =~= a + b.drop_last());
    }
}

/// Firing moves tokens along every arc of the transition: each place keeps its name, and its
/// tokens afterwards plus the weight of all input arcs from it equal its tokens before plus the
/// weight of all output arcs to it.
pub proof fn law_fire_moves_tokens(places: Seq<SpecNetPlace>, tr: SpecNetTransition)
    requires
        fire_fits(places, tr),
    ensures
        fired(places, tr).len() == places.len(),
        forall|p: int|
            0 <= p < places.len() ==> {
                &&& (#[trigger] fired(places, tr)[p]).name == places[p].name
                &&& fired(places, tr)[p].tokens + weight_at(tr.inputs, p) == places[p].tokens
                    + weight_at(tr.outputs, p)
            },
{
    assert forall|p: int| 0 <= p < places.len() implies {
        &&& (#[trigger] fired(places, tr)[p]).name == places[p].name
        &&& fired(places, tr)[p].tokens + weight_at(tr.inputs, p) == places[p].tokens + weight_at(
            tr.outputs,
            p,
        )
    } by {
        assert(weight_at(tr.inputs, p) <= places[p].tokens);
    }
}

/// The inputs of transition `j` are exactly the places and weights of the input roles of `j`,
/// and its outputs those of its output roles.
pub proof fn lemma_roles_of(roles: Seq<ArcRole>, j: int, x: (usize, usize))
    requires
        0 <= j <= usize::MAX,
    ensures
        inputs_of(roles, j).contains(x) <==> exists|k: int|
            0 <= k < roles.len() && #[trigger] roles[k] == ArcRole::Input(j as usize, x.0, x.1),
        outputs_of(roles, j).contains(x) <==> exists|k: int|
            0 <= k < roles.len() && #[trigger] roles[k] == ArcRole::Output(j as usize, x.0, x.1),
    decreases roles.len(),
{
    if roles.len() > 0 {
        let q = roles.drop_last();
        lemma_roles_of(q, j, x);
        let last = roles.len() - 1;
        assert(roles[last] == roles.last());
        let a = inputs_of(q, j);
        let b = outputs_of(q, j);
        if a.contains(x) {
            let m = choose|m: int| 0 <= m < a.len() && a[m] == x;
            assert(inputs_of(roles, j)[m] == x);
        }
        if b.contains(x) {
            let m = choose|m: int| 0 <= m < b.len() && b[m] == x;
            assert(outputs_of(roles, j)[m] == x);
        }
        if inputs_of(roles, j).contains(x) {
            let m = choose|m: int| 0 <= m < inputs_of(roles, j).len() && inputs_of(roles, j)[m] == x;
            if m < a.len() {
                assert(inputs_of(roles, j)[m] == a[m]);
                let k = choose|k: int| 0 <= k < q.len() && #[trigger] q[k] == ArcRole::Input(j as usize, x.0, x.1);
                assert(roles[k] == q[k]);
            }
        }
        if outputs_of(roles, j).contains(x) {
            let m = choose|m: int| 0 <= m < outputs_of(roles, j).len() && outputs_of(roles, j)[m] == x;
            if m < b.len() {
                assert(outputs_of(roles, j)[m] == b[m]);
                let k = choose|k: int| 0 <= k < q.len() && #[trigger] q[k] == ArcRole::Output(j as usize, x.0, x.1);
                assert(roles[k] == q[k]);
            }
        }
        if exists|k: int| 0 <= k < roles.len() && #[trigger] roles[k] == ArcRole::Input(j as usize, x.0, x.1) {
            let k = choose|k: int| 0 <= k < roles.len() && #[trigger] roles[k] == ArcRole::Input(j as usize, x.0, x.1);
            if k < last {
                assert(q[k] == roles[k]);
            } else {
                assert(inputs_of(roles, j)[a.len() as int] == x);
            }
        }
        if exists|k: int| 0 <= k < roles.len() && #[trigger] roles[k] == ArcRole::Output(j as usize, x.0, x.1) {
            let k = choose|k: int| 0 <= k < roles.len() && #[trigger] roles[k] == ArcRole::Output(j as usize, x.0, x.1);
            if k < last {
                assert(q[k] == roles[k]);
            } else {
                assert(outputs_of(roles, j)[b.len() as int] == x);
            }
        }
    }
}

/// In the net of a model, transition `j` takes `w` tokens from place `p` exactly when some arc
/// runs from a place with index `p` to a transition with index `j` with weight `w`, and puts
/// `w` tokens on `p` exactly when some arc runs from a transition with index `j` to a place with
/// index `p` with weight `w`; the net has the model's places with their initial tokens and its
/// transitions by name.
pub proof fn law_net_follows_the_arcs(
    t: Seq<SpecSymbol>,
    ps: Seq<SpecPlace>,
    ts: Seq<SpecTransition>,
    arcs: Seq<SpecArc>,
    j: int,
    x: (usize, usize),
)
    requires
        0 <= j < ts.len(),
        ts.len() <= usize::MAX,
    ensures
        ({
            let net = net_of(t, ps, ts, arcs);
            let index = net_index(ps, ts);
            &&& net.places.len() == ps.len()
            &&& forall|i: int|
                0 <= i < ps.len() ==> (#[trigger] net.places[i]).name == ps[i].name
                    && net.places[i].tokens == ps[i].tokens
            &&& net.transitions.len() == ts.len()
            &&& net.transitions[j].name == ts[j].name
            &&& net.transitions[j].inputs.contains(x) <==> exists|k: int|
                0 <= k < arcs.len() && {
                    let a = #[trigger] arcs[k];
                    &&& lookup(t, a.left) matches Some(SpecSymbol::Place { .. })
                    &&& lookup(t, a.right) matches Some(SpecSymbol::Transition { .. })
                    &&& index[a.right] == j && index[a.left] == x.0 && a.weight == x.1
                }
            &&& net.transitions[j].outputs.contains(x) <==> exists|k: int|
                0 <= k < arcs.len() && {
                    let a = #[trigger] arcs[k];
                    &&& !(lookup(t, a.left) matches Some(SpecSymbol::Place { .. }) && lookup(
                        t,
                        a.right,
                    ) matches Some(SpecSymbol::Transition { .. }))
                    &&& index[a.left] == j && index[a.right] == x.0 && a.weight == x.1
                }
        }),
{
    let index = net_index(ps, ts);
    let roles = arcs.map_values(|a: SpecArc| arc_role(t, index, a));
    lemma_roles_of(roles, j, x);
    let net = net_of(t, ps, ts, arcs);
    assert(net.transitions[j].inputs == inputs_of(roles, j));
    assert(net.transitions[j].outputs == outputs_of(roles, j));
    let pin = |a: SpecArc|
        lookup(t, a.left) matches Some(SpecSymbol::Place { .. }) && lookup(t, a.right) matches Some(
            SpecSymbol::Transition { .. },
        );
    if exists|k: int| 0 <= k < roles.len() && #[trigger] roles[k] == ArcRole::Input(j as usize, x.0, x.1) {
        let k = choose|k: int| 0 <= k < roles.len() && #[trigger] roles[k] == ArcRole::Input(j as usize, x.0, x.1);
        assert(roles[k] == arc_role(t, index, arcs[k]));
    }
    if exists|k: int| 0 <= k < arcs.len() && {
        let a = #[trigger] arcs[k];
        &&& lookup(t, a.left) matches Some(SpecSymbol::Place { .. })
        &&& lookup(t, a.right) matches Some(SpecSymbol::Transition { .. })
        &&& index[a.right] == j && index[a.left] == x.0 && a.weight == x.1
    } {
        let k = choose|k: int| 0 <= k < arcs.len() && {
            let a = #[trigger] arcs[k];
            &&& lookup(t, a.left) matches Some(SpecSymbol::Place { .. })
            &&& lookup(t, a.right) matches Some(SpecSymbol::Transition { .. })
            &&& index[a.right] == j && index[a.left] == x.0 && a.weight == x.1
        };
        assert(roles[k] == arc_role(t, index, arcs[k]));
    }
    if exists|k: int| 0 <= k < roles.len() && #[trigger] roles[k] == ArcRole::Output(j as usize, x.0, x.1) {
        let k = choose|k: int| 0 <= k < roles.len() && #[trigger] roles[k] == ArcRole::Output(j as usize, x.0, x.1);
        assert(roles[k] == arc_role(t, index, arcs[k]));
    }
    if exists|k: int| 0 <= k < arcs.len() && {
        let a = #[trigger] arcs[k];
        &&& !(lookup(t, a.left) matches Some(SpecSymbol::Place { .. }) && lookup(t, a.right) matches Some(
            SpecSymbol::Transition { .. },
        ))
        &&& index[a.left] == j && index[a.right] == x.0 && a.weight == x.1
    } {
        let k = choose|k: int| 0 <= k < arcs.len() && {
            let a = #[trigger] arcs[k];
            &&& !(lookup(t, a.left) matches Some(SpecSymbol::Place { .. }) && lookup(t, a.right) matches Some(
                SpecSymbol::Transition { .. },
            ))
            &&& index[a.left] == j && index[a.right] == x.0 && a.weight == x.1
        };
        assert(roles[k] == arc_role(t, index, arcs[k]));
    }
}

/// The total weight over a prefix never exceeds the total weight over the whole sequence.
pub proof fn lemma_weight_at_prefix(arcs: Seq<(usize, usize)>, k: int, p: int)
    requires
        0 <= k <= arcs.len(),
    ensures
        weight_at(arcs.take(k), p) <= weight_at(arcs, p),
    decreases arcs.len() - k,
{
    if k < arcs.len() {
        lemma_weight_at_prefix(arcs, k + 1, p);
        assert(arcs.take(k + 1).drop_last() =~= arcs.take(k));
    } else {
        assert(arcs.take(k) =~= arcs);
    }
}

/// When exactly one entry of `v` has the name of entry `k`, the entries map gives that name the
/// position that entry holds.
pub proof fn lemma_entries_map_unique(v: Seq<(Seq<char>, usize)>, k: int)
    requires
        0 <= k < v.len(),
        forall|m: int| 0 <= m < v.len() && m != k ==> (#[trigger] v[m]).0 != v[k].0,
    ensures
        entries_map(v).contains_key(v[k].0),
        entries_map(v)[v[k].0] == v[k].1,
    decreases v.len(),
{
    let w = v.drop_last();
    if k < v.len() - 1 {
        assert forall|m: int| 0 <= m < w.len() && m != k implies (#[trigger] w[m]).0 != w[k].0 by {
            assert(w[m] == v[m]);
        }
        lemma_entries_map_unique(w, k);
        assert(v[v.len() - 1].0 != v[k].0);
    }
}

/// When no two places, no two transitions, and no place and transition share a name, the index
/// gives each place its position among the places and each transition its position among the
/// transitions.
pub proof fn lemma_index_positions(ps: Seq<SpecPlace>, ts: Seq<SpecTransition>)
    requires
        ps.len() <= usize::MAX,
        ts.len() <= usize::MAX,
        forall|i: int, m: int| 0 <= i < m < ps.len() ==> (#[trigger] ps[i]).name != (#[trigger] ps[m]).name,
        forall|j: int, m: int| 0 <= j < m < ts.len() ==> (#[trigger] ts[j]).name != (#[trigger] ts[m]).name,
        forall|i: int, j: int| 0 <= i < ps.len() && 0 <= j < ts.len() ==> (#[trigger] ps[i]).name != (#[trigger] ts[j]).name,
    ensures
        forall|i: int| 0 <= i < ps.len() ==> net_index(ps, ts).contains_key((#[trigger] ps[i]).name)
            && net_index(ps, ts)[ps[i].name] == i,
        forall|j: int| 0 <= j < ts.len() ==> net_index(ps, ts).contains_key((#[trigger] ts[j]).name)
            && net_index(ps, ts)[ts[j].name] == j,
{
    let pe = Seq::new(ps.len(), |i: int| (ps[i].name, i as usize));
    let te = Seq::new(ts.len(), |j: int| (ts[j].name, j as usize));
    let v = pe + te;
    assert(net_index(ps, ts) == entries_map(v));
    assert forall|i: int| 0 <= i < ps.len() implies net_index(ps, ts).contains_key((#[trigger] ps[i]).name)
        && net_index(ps, ts)[ps[i].name] == i by {
        assert(v[i] == (ps[i].name, i as usize));
        assert forall|m: int| 0 <= m < v.len() && m != i implies (#[trigger] v[m]).0 != v[i].0 by {
            if m < ps.len() {
                assert(v[m] == pe[m]);
                if m < i {
                    assert(ps[m].name != ps[i].name);
                } else {
                    assert(ps[i].name != ps[m].name);
                }
            } else {
                assert(v[m] == te[m - ps.len()]);
                assert(ps[i].name != ts[m - ps.len()].name);
            }
        }
        lemma_entries_map_unique(v, i);
    }
    assert forall|j: int| 0 <= j < ts.len() implies net_index(ps, ts).contains_key((#[trigger] ts[j]).name)
        && net_index(ps, ts)[ts[j].name] == j by {
        let k = ps.len() + j;
        assert(v[k] == (ts[j].name, j as usize));
        assert forall|m: int| 0 <= m < v.len() && m != k implies (#[trigger] v[m]).0 != v[k].0 by {
            if m < ps.len() {
                assert(v[m] == pe[m]);
                assert(ps[m].name != ts[j].name);
            } else {
                let jm = m - ps.len();
                assert(v[m] == te[jm]);
                if jm < j {
                    assert(ts[jm].name != ts[j].name);
                } else {
                    assert(ts[j].name != ts[jm].name);
                }
            }
        }
        lemma_entries_map_unique(v, k);
    }
}

/// The place that an arc's role puts tokens on or takes them from.
pub open spec fn role_place(r: ArcRole) -> usize {
    match r {
        ArcRole::Input(_, p, _) => p,
        ArcRole::Output(_, p, _) => p,
    }
}

/// When every role names a place below `n`, so do the inputs and outputs of every transition.
pub proof fn lemma_roles_in_range(roles: Seq<ArcRole>, j: int, n: int)
    requires
        forall|k: int| 0 <= k < roles.len() ==> role_place(#[trigger] roles[k]) < n,
    ensures
        arcs_in_range(inputs_of(roles, j), n),
        arcs_in_range(outputs_of(roles, j), n),
    decreases roles.len(),
{
    if roles.len() > 0 {
        let q = roles.drop_last();
        assert forall|k: int| 0 <= k < q.len() implies role_place(#[trigger] q[k]) < n by {
            assert(q[k] == roles[k]);
        }
        lemma_roles_in_range(q, j, n);
        assert(role_place(roles[roles.len() - 1]) < n);
        let a = inputs_of(q, j);
        let b = outputs_of(q, j);
        assert forall|k: int| 0 <= k < inputs_of(roles, j).len() implies (#[trigger] inputs_of(
            roles,
            j,
        )[k]).0 < n by {
            if k < a.len() {
                assert(inputs_of(roles, j)[k] == a[k]);
            }
        }
        assert forall|k: int| 0 <= k < outputs_of(roles, j).len() implies (#[trigger] outputs_of(
            roles,
            j,
        )[k]).0 < n by {
            if k < b.len() {
                assert(outputs_of(roles, j)[k] == b[k]);
            }
        }
    }
}

/// A net: its places with their marking, its transitions, and the index from names to positions.
pub struct PetriNet {
    places: Vec<Place>,
    transitions: Vec<Transition>,
    index: Vec<(String, usize)>,
}

impl View for PetriNet {
    type V = SpecNet;

    closed spec fn view(&self) -> SpecNet {
        SpecNet {
            places: self.places@.map_values(|p: Place| p@),
            transitions: self.transitions@.map_values(|t: Transition| t@),
            index: entries_map(self.index@.map_values(|e: (String, usize)| (e.0@, e.1))),
        }
    }
}

/// True when every place index of every transition of `net` is a place of the net.
pub open spec fn net_in_range(net: SpecNet) -> bool {
    forall|j: int|
        0 <= j < net.transitions.len() ==> {
            &&& arcs_in_range((#[trigger] net.transitions[j]).inputs, net.places.len() as int)
            &&& arcs_in_range(net.transitions[j].outputs, net.places.len() as int)
        }
}

/// True when checking whether the places of `inputs` hold enough tokens looks only at places
/// of the net: the inputs are looked at in order, up to the first one whose place
/// holds too few tokens.
pub open spec fn check_stays_in(places: Seq<SpecNetPlace>, inputs: Seq<(usize, usize)>) -> bool
    decreases inputs.len(),
{
    inputs.len() == 0 || {
        &&& inputs[0].0 < places.len()
        &&& (places[inputs[0].0 as int].tokens < inputs[0].1 || check_stays_in(
            places,
            inputs.drop_first(),
        ))
    }
}

/// True when checking whether each transition is enabled looks only at places of the net.
pub open spec fn checks_stay_in(net: SpecNet) -> bool {
    forall|j: int|
        0 <= j < net.transitions.len() ==> check_stays_in(
            net.places,
            (#[trigger] net.transitions[j]).inputs,
        )
}

/// True when firing `tr` looks only at places of the net: checking whether it is enabled does,
/// and when it is enabled, so do the places it puts tokens on.
pub open spec fn firing_stays_in(places: Seq<SpecNetPlace>, tr: SpecNetTransition) -> bool {
    &&& check_stays_in(places, tr.inputs)
    &&& enabled_in(places, tr) ==> arcs_in_range(tr.outputs, places.len() as int)
}

/// Inputs that all name places of the net are checked within the net.
pub proof fn lemma_in_range_check_stays_in(places: Seq<SpecNetPlace>, inputs: Seq<(usize, usize)>)
    requires
        arcs_in_range(inputs, places.len() as int),
    ensures
        check_stays_in(places, inputs),
    decreases inputs.len(),
{
    if inputs.len() > 0 {
        assert(inputs[0].0 < places.len());
        let rest = inputs.drop_first();
        assert forall|k: int| 0 <= k < rest.len() implies (#[trigger] rest[k]).0 < places.len() by {
            assert(rest[k] == inputs[k + 1]);
        }
        lemma_in_range_check_stays_in(places, rest);
    }
}

/// When checking stays within the net and every input is covered, every input names a place
/// of the net.
pub proof fn lemma_enabled_inputs_in_range(places: Seq<SpecNetPlace>, tr: SpecNetTransition)
    requires
        check_stays_in(places, tr.inputs),
        enabled_in(places, tr),
    ensures
        arcs_in_range(tr.inputs, places.len() as int),
    decreases tr.inputs.len(),
{
    if tr.inputs.len() > 0 {
        let rest = SpecNetTransition { inputs: tr.inputs.drop_first(), ..tr };
        assert(places[(tr.inputs[0]).0 as int].tokens >= tr.inputs[0].1);
        assert forall|k: int| 0 <= k < rest.inputs.len() implies places[(
        #[trigger] rest.inputs[k]).0 as int].tokens >= rest.inputs[k].1 by {
            assert(rest.inputs[k] == tr.inputs[k + 1]);
        }
        lemma_enabled_inputs_in_range(places, rest);
        assert forall|k: int| 0 <= k < tr.inputs.len() implies (#[trigger] tr.inputs[k]).0
            < places.len() by {
            if k > 0 {
                assert(tr.inputs[k] == rest.inputs[k - 1]);
            }
        }
    }
}

/// A net whose transitions only name places of the net can check and fire any transition.
pub proof fn lemma_in_range_stays_in(net: SpecNet)
    requires
        net_in_range(net),
    ensures
        checks_stay_in(net),
        forall|j: int|
            0 <= j < net.transitions.len() ==> firing_stays_in(
                net.places,
                #[trigger] net.transitions[j],
            ),
{
    assert forall|j: int| 0 <= j < net.transitions.len() implies check_stays_in(
        net.places,
        (#[trigger] net.transitions[j]).inputs,
    ) by {
        lemma_in_range_check_stays_in(net.places, net.transitions[j].inputs);
    }
}

/// The position that the last entry for `name` in `index` holds, if any.
fn index_lookup(index: &Vec<(String, usize)>, name: &str) -> (r: Option<usize>)
    ensures
        ({
            let m = entries_map(index@.map_values(|e: (String, usize)| (e.0@, e.1)));
            match r {
                Some(i) => m.contains_key(name@) && m[name@] == i,
                None => !m.contains_key(name@),
            }
        }),
{
    let ghost v = index@.map_values(|e: (String, usize)| (e.0@, e.1));
    let mut k = index.len();
    assert(v.take(k as int) =~= v);
    while k > 0
        invariant
            k <= index.len(),
            v == index@.map_values(|e: (String, usize)| (e.0@, e.1)),
            forall|m: int| k <= m < index.len() ==> #[trigger] v[m].0 != name@,
            entries_map(v).contains_key(name@) == entries_map(v.take(k as int)).contains_key(
                name@,
            ),
            entries_map(v).contains_key(name@) ==> entries_map(v)[name@] == entries_map(
                v.take(k as int),
            )[name@],
        decreases k,
    {
        assert(v.take(k as int).drop_last() =~= v.take(k - 1));
        assert(v.take(k as int).last() == v[k - 1]);
        if str_eq(index[k - 1].0.as_str(), name) {
            return Some(index[k - 1].1);
        }
        k = k - 1;
    }
    assert(v.take(0) =~= Seq::<(Seq<char>, usize)>::empty());
    None
}

/// True when every place index of `arcs` is below `n`.
fn in_range(arcs: &Vec<(usize, usize)>, n: usize) -> (r: bool)
    ensures
        r == arcs_in_range(arcs@, n as int),
{
    let mut k: usize = 0;
    while k < arcs.len()
        invariant
            k <= arcs.len(),
            forall|m: int| 0 <= m < k ==> (#[trigger] arcs@[m]).0 < n,
        decreases arcs.len() - k,
    {
        if arcs[k].0 >= n {
            assert(arcs@[k as int].0 >= n);
            return false;
        }
        k = k + 1;
    }
    true
}

/// The total weight that `arcs` carry from or to place `p`, when it is at most `bound`.
fn weight_bounded(arcs: &Vec<(usize, usize)>, p: usize, bound: usize) -> (r: Option<usize>)
    ensures
        match r {
            Some(w) => w == weight_at(arcs@, p as int) && w <= bound,
            None => weight_at(arcs@, p as int) > bound,
        },
{
    let mut k: usize = 0;
    let mut total: usize = 0;
    assert(arcs@.take(0) =~= Seq::<(usize, usize)>::empty());
    while k < arcs.len()
        invariant
            k <= arcs.len(),
            total == weight_at(arcs@.take(k as int), p as int),
            total <= bound,
        decreases arcs.len() - k,
    {
        assert(arcs@.take(k + 1).drop_last() =~= arcs@.take(k as int));
        proof {
            lemma_weight_at_prefix(arcs@, k + 1, p as int);
        }
        if arcs[k].0 == p {
            if arcs[k].1 > bound - total {
                return None;
            }
            total = total + arcs[k].1;
        }
        k = k + 1;
    }
    assert(arcs@.take(arcs.len() as int) =~= arcs@);
    Some(total)
}

impl Transition {
    /// The transition's name.
    pub fn name(&self) -> (r: &str)
        ensures
            r@ == self@.name,
    {
        self.name.as_str()
    }

    /// True when every input place holds at least the input's weight in tokens.
    pub fn is_enabled(&self, net: &PetriNet) -> (r: bool)
        requires
            check_stays_in(net@.places, self@.inputs),
        ensures
            r == enabled_in(net@.places, self@),
    {
        let ghost ins = self@.inputs;
        let mut k: usize = 0;
        assert(ins.skip(0) =~= ins);
        while k < self.inputs.len()
            invariant
                k <= self.inputs.len(),
                ins == self@.inputs,
                check_stays_in(net@.places, ins.skip(k as int)),
                forall|m: int|
                    0 <= m < k ==> net@.places[(#[trigger] self@.inputs[m]).0 as int].tokens
                        >= self@.inputs[m].1,
            decreases self.inputs.len() - k,
        {
            let (p, count) = self.inputs[k];
            assert(self@.inputs[k as int] == (p, count));
            assert(ins.skip(k as int)[0] == ins[k as int]);
            assert(ins.skip(k as int).drop_first() =~= ins.skip(k + 1));
            assert(net@.places[p as int] == net.places@[p as int]@);
            if net.places[p].tokens < count {
                return false;
            }
            k = k + 1;
        }
        true
    }
}

impl PetriNet {
    /// The number of entries of the index: one per place and one per transition.
    pub closed spec fn index_len(&self) -> nat {
        self.index@.len()
    }

    /// The transitions.
    pub fn transitions(&self) -> (r: &Vec<Transition>)
        ensures
            r@.map_values(|t: Transition| t@) == self@.transitions,
    {
        &self.transitions
    }

    /// The index from names to positions, as entries in insertion order (a later entry for a
    /// name replaces an earlier one).
    pub fn index(&self) -> (r: &Vec<(String, usize)>)
        ensures
            r@.len() == self.index_len(),
            entries_map(r@.map_values(|e: (String, usize)| (e.0@, e.1))) == self@.index,
    {
        &self.index
    }

    /// True when transition `transition_idx` is enabled.
    pub fn is_enabled(&self, transition_idx: usize) -> (r: bool)
        requires
            transition_idx < self@.transitions.len(),
            check_stays_in(self@.places, self@.transitions[transition_idx as int].inputs),
        ensures
            r == enabled_in(self@.places, self@.transitions[transition_idx as int]),
    {
        assert(self@.transitions[transition_idx as int] == self.transitions@[transition_idx as int]@);
        self.transitions[transition_idx].is_enabled(self)
    }

    /// Fires transition `transition_idx` when it is enabled: takes the weight of each input from
    /// its place and adds the weight of each output to its place. Gives whether it fired; a
    /// transition that is not enabled leaves the marking as it is.
    pub fn fire(&mut self, transition_idx: usize) -> (r: bool)
        requires
            transition_idx < old(self)@.transitions.len(),
            firing_stays_in(old(self)@.places, old(self)@.transitions[transition_idx as int]),
            enabled_in(old(self)@.places, old(self)@.transitions[transition_idx as int])
                ==> fire_fits(old(self)@.places, old(self)@.transitions[transition_idx as int]),
        ensures
            final(self)@.transitions == old(self)@.transitions,
            final(self)@.index == old(self)@.index,
            final(self).index_len() == old(self).index_len(),
            r == enabled_in(old(self)@.places, old(self)@.transitions[transition_idx as int]),
            r ==> final(self)@.places == fired(
                old(self)@.places,
                old(self)@.transitions[transition_idx as int],
            ),
            !r ==> final(self)@.places == old(self)@.places,
    {
        let ghost m0 = self@.places;
        let ghost tr = self@.transitions[transition_idx as int];
        assert(tr == self.transitions@[transition_idx as int]@);
        if !self.is_enabled(transition_idx) {
            return false;
        }
        proof {
            lemma_enabled_inputs_in_range(m0, tr);
        }
        let ghost ins = tr.inputs;
        let ghost outs = tr.outputs;
        let n_in = self.transitions[transition_idx].inputs.len();
        let mut k: usize = 0;
        while k < n_in
            invariant
                k <= n_in,
                transition_idx < self.transitions.len(),
                n_in == ins.len(),
                self.transitions@[transition_idx as int]@ == tr,
                ins == tr.inputs,
                outs == tr.outputs,
                arcs_in_range(ins, m0.len() as int),
                fire_fits(m0, tr),
                self@.transitions == old(self)@.transitions,
                self@.index == old(self)@.index,
                self.index_len() == old(self).index_len(),
                self.places@.len() == m0.len(),
                forall|q: int|
                    0 <= q < m0.len() ==> {
                        &&& (#[trigger] self.places@[q])@.name == m0[q].name
                        &&& self.places@[q]@.tokens == m0[q].tokens - weight_at(ins.take(k as int), q)
                    },
            decreases n_in - k,
        {
            let (p, count) = self.transitions[transition_idx].inputs[k];
            assert(ins[k as int] == (p, count));
            assert(ins.take(k + 1).drop_last() =~= ins.take(k as int));
            assert(ins.take(k + 1).last() == (p, count));
            proof {
                lemma_weight_at_prefix(ins, k + 1, p as int);
            }
            let ghost before = self.places@;
            let t = self.places[p].tokens;
            self.places[p].tokens = t - count;
            assert forall|q: int| 0 <= q < m0.len() implies {
                &&& (#[trigger] self.places@[q])@.name == m0[q].name
                &&& self.places@[q]@.tokens == m0[q].tokens - weight_at(ins.take(k + 1), q)
            } by {
                if q != p {
                    assert(self.places@[q] == before[q]);
                }
            }
            k = k + 1;
        }
        assert(ins.take(n_in as int) =~= ins);
        let n_out = self.transitions[transition_idx].outputs.len();
        let mut k: usize = 0;
        while k < n_out
            invariant
                k <= n_out,
                transition_idx < self.transitions.len(),
                n_out == outs.len(),
                self.transitions@[transition_idx as int]@ == tr,
                ins == tr.inputs,
                outs == tr.outputs,
                arcs_in_range(outs, m0.len() as int),
                fire_fits(m0, tr),
                self@.transitions == old(self)@.transitions,
                self@.index == old(self)@.index,
                self.index_len() == old(self).index_len(),
                self.places@.len() == m0.len(),
                forall|q: int|
                    0 <= q < m0.len() ==> {
                        &&& (#[trigger] self.places@[q])@.name == m0[q].name
                        &&& self.places@[q]@.tokens == m0[q].tokens - weight_at(ins, q)
                            + weight_at(outs.take(k as int), q)
                    },
            decreases n_out - k,
        {
            let (p, count) = self.transitions[transition_idx].outputs[k];
            assert(outs[k as int] == (p, count));
            assert(outs.take(k + 1).drop_last() =~= outs.take(k as int));
            assert(outs.take(k + 1).last() == (p, count));
            proof {
                lemma_weight_at_prefix(outs, k + 1, p as int);
            }
            let ghost before = self.places@;
            let t = self.places[p].tokens;
            self.places[p].tokens = t + count;
            assert forall|q: int| 0 <= q < m0.len() implies {
                &&& (#[trigger] self.places@[q])@.name == m0[q].name
                &&& self.places@[q]@.tokens == m0[q].tokens - weight_at(ins, q) + weight_at(
                    outs.take(k + 1),
                    q,
                )
            } by {
                if q != p {
                    assert(self.places@[q] == before[q]);
                }
            }
            k = k + 1;
        }
        assert(outs.take(n_out as int) =~= outs);
        assert(self@.places =~= fired(m0, tr));
        true
    }

    /// The net of a model: its places with their initial tokens, its transitions with the
    /// inputs and outputs that its arcs give them, and the index from names to positions.
    pub fn from_semantic_model(model: &SemanticModel) -> (r: PetriNet)
        requires
            convertible(
                model.symbol_view(),
                model.place_view(),
                model.transition_view(),
                model.arc_view(),
            ),
        ensures
            r@ == net_of(
                model.symbol_view(),
                model.place_view(),
                model.transition_view(),
                model.arc_view(),
            ),
            r.index_len() == model.place_view().len() + model.transition_view().len(),
    {
        let ghost t = model.symbol_view();
        let ghost ps = model.place_view();
        let ghost ts = model.transition_view();
        let ghost arcs = model.arc_view();
        let ghost spec_net = net_of(t, ps, ts, arcs);
        let ghost pentries = Seq::new(ps.len(), |i: int| (ps[i].name, i as usize));
        let ghost tentries = Seq::new(ts.len(), |j: int| (ts[j].name, j as usize));
        let mut index: Vec<(String, usize)> = Vec::new();
        let mut places: Vec<Place> = Vec::new();
        let mut transitions: Vec<Transition> = Vec::new();
        let model_places = model.places();
        let mut i: usize = 0;
        while i < model_places.len()
            invariant
                i <= model_places.len(),
                ps == model.place_view(),
                model_places@.map_values(|p: crate::analysis::semantic_model::Place| p@) == ps,
                places@.map_values(|p: Place| p@) == spec_net.places.take(i as int),
                index@.map_values(|e: (String, usize)| (e.0@, e.1)) == pentries.take(i as int),
                spec_net == net_of(t, ps, ts, arcs),
                pentries == Seq::new(ps.len(), |i: int| (ps[i].name, i as usize)),
            decreases model_places.len() - i,
        {
            let place = &model_places[i];
            assert(place@ == ps[i as int]);
            let ghost before_p = places@.map_values(|p: Place| p@);
            let ghost before_i = index@.map_values(|e: (String, usize)| (e.0@, e.1));
            places.push(Place { name: place.name().to_owned(), tokens: *place.tokens() });
            index.push((place.name().to_owned(), i));
            assert(spec_net.places[i as int] == SpecNetPlace { name: ps[i as int].name, tokens: ps[i as int].tokens });
            assert(places@.map_values(|p: Place| p@) =~= before_p.push(places@[i as int]@));
            assert(places@.map_values(|p: Place| p@) =~= spec_net.places.take(i + 1));
            assert(index@.map_values(|e: (String, usize)| (e.0@, e.1)) =~= before_i.push((ps[i as int].name, i)));
            assert(index@.map_values(|e: (String, usize)| (e.0@, e.1)) =~= pentries.take(i + 1));
            i = i + 1;
        }
        assert(pentries.take(ps.len() as int) =~= pentries);
        assert(spec_net.places.take(ps.len() as int) =~= spec_net.places);
        let model_transitions = model.transitions();
        let mut j: usize = 0;
        while j < model_transitions.len()
            invariant
                j <= model_transitions.len(),
                ts == model.transition_view(),
                model_transitions@.map_values(|t: crate::analysis::semantic_model::Transition| t@)
                    == ts,
                transitions@.len() == j,
                forall|m: int|
                    0 <= m < j ==> (#[trigger] transitions@[m])@ == (SpecNetTransition {
                        name: ts[m].name,
                        inputs: Seq::empty(),
                        outputs: Seq::empty(),
                    }),
                index@.map_values(|e: (String, usize)| (e.0@, e.1)) == pentries + tentries.take(
                    j as int,
                ),
                tentries == Seq::new(ts.len(), |j: int| (ts[j].name, j as usize)),
            decreases model_transitions.len() - j,
        {
            let transition = &model_transitions[j];
            assert(transition@ == ts[j as int]);
            let ghost before_i = index@.map_values(|e: (String, usize)| (e.0@, e.1));
            let inputs: Vec<(usize, usize)> = Vec::new();
            let outputs: Vec<(usize, usize)> = Vec::new();
            transitions.push(Transition { name: transition.name().to_owned(), inputs, outputs });
            index.push((transition.name().to_owned(), j));
            assert(transitions@[j as int]@.inputs =~= Seq::<(usize, usize)>::empty());
            assert(transitions@[j as int]@.outputs =~= Seq::<(usize, usize)>::empty());
            assert(index@.map_values(|e: (String, usize)| (e.0@, e.1)) =~= before_i.push((ts[j as int].name, j)));
            assert(index@.map_values(|e: (String, usize)| (e.0@, e.1)) =~= pentries + tentries.take(
                j + 1,
            ));
            j = j + 1;
        }
        assert(tentries.take(ts.len() as int) =~= tentries);
        let ghost index_map = net_index(ps, ts);
        assert(entries_map(index@.map_values(|e: (String, usize)| (e.0@, e.1))) == index_map);
        let ghost roles = arcs.map_values(|a: SpecArc| arc_role(t, index_map, a));
        let symbols = model.symbols();
        let model_arcs = model.arcs();
        let mut k: usize = 0;
        assert forall|m: int| 0 <= m < ts.len() implies inputs_of(roles.take(0), m) =~= Seq::<
            (usize, usize),
        >::empty() && outputs_of(roles.take(0), m) =~= Seq::<(usize, usize)>::empty() by {
            assert(roles.take(0).len() == 0);
        }
        while k < model_arcs.len()
            invariant
                k <= model_arcs.len(),
                t == model.symbol_view(),
                ts == model.transition_view(),
                arcs == model.arc_view(),
                symbols@ == t,
                model_arcs@.map_values(|a: crate::analysis::semantic_model::Arc| a@) == arcs,
                index_map == net_index(ps, ts),
                entries_map(index@.map_values(|e: (String, usize)| (e.0@, e.1))) == index_map,
                roles == arcs.map_values(|a: SpecArc| arc_role(t, index_map, a)),
                convertible(t, ps, ts, arcs),
                transitions@.len() == ts.len(),
                forall|m: int|
                    0 <= m < ts.len() ==> (#[trigger] transitions@[m])@ == (SpecNetTransition {
                        name: ts[m].name,
                        inputs: inputs_of(roles.take(k as int), m),
                        outputs: outputs_of(roles.take(k as int), m),
                    }),
            decreases model_arcs.len() - k,
        {
            let arc = &model_arcs[k];
            let ghost a = arcs[k as int];
            assert(arc@ == a);
            assert(roles.take(k + 1).drop_last() =~= roles.take(k as int));
            assert(roles.take(k + 1).last() == arc_role(t, index_map, a));
            let left = symbols.get(arc.left());
            let right = symbols.get(arc.right());
            let ghost before = transitions@;
            match (left, right) {
                (Some(Symbol::Place { .. }), Some(Symbol::Transition { .. })) => {
                    let transition_idx = match index_lookup(&index, arc.right()) {
                        Some(x) => x,
                        None => {
                            proof {
                                assert(false);
                            }
                            0
                        },
                    };
                    let place_idx = match index_lookup(&index, arc.left()) {
                        Some(x) => x,
                        None => {
                            proof {
                                assert(false);
                            }
                            0
                        },
                    };
                    assert(roles.take(k + 1).last() == ArcRole::Input(transition_idx, place_idx, a.weight));
                    transitions[transition_idx].inputs.push((place_idx, *arc.weight()));
                    assert forall|m: int| 0 <= m < ts.len() implies (#[trigger] transitions@[m])@
                        == (SpecNetTransition {
                        name: ts[m].name,
                        inputs: inputs_of(roles.take(k + 1), m),
                        outputs: outputs_of(roles.take(k + 1), m),
                    }) by {
                        assert(inputs_of(roles.take(k + 1), m) =~= inputs_of(roles.take(k as int), m)
                            + if m == transition_idx {
                            seq![(place_idx, a.weight)]
                        } else {
                            Seq::empty()
                        });
                        assert(outputs_of(roles.take(k + 1), m) =~= outputs_of(roles.take(k as int), m));
                        if m != transition_idx {
                            assert(transitions@[m] == before[m]);
                        } else {
                            assert(transitions@[m]@.name == before[m]@.name);
                            assert(transitions@[m]@.outputs == before[m]@.outputs);
                            assert(before[m]@.inputs == inputs_of(roles.take(k as int), m));
                            assert(transitions@[m]@.inputs =~= before[m]@.inputs.push((place_idx, a.weight)));
                            assert(transitions@[m]@.inputs == inputs_of(roles.take(k + 1), m));
                        }
                    }
                },
                (Some(Symbol::Transition { .. }), Some(Symbol::Place { .. })) => {
                    let transition_idx = match index_lookup(&index, arc.left()) {
                        Some(x) => x,
                        None => {
                            proof {
                                assert(false);
                            }
                            0
                        },
                    };
                    let place_idx = match index_lookup(&index, arc.right()) {
                        Some(x) => x,
                        None => {
                            proof {
                                assert(false);
                            }
                            0
                        },
                    };
                    assert(roles.take(k + 1).last() == ArcRole::Output(transition_idx, place_idx, a.weight));
                    transitions[transition_idx].outputs.push((place_idx, *arc.weight()));
                    assert forall|m: int| 0 <= m < ts.len() implies (#[trigger] transitions@[m])@
                        == (SpecNetTransition {
                        name: ts[m].name,
                        inputs: inputs_of(roles.take(k + 1), m),
                        outputs: outputs_of(roles.take(k + 1), m),
                    }) by {
                        assert(outputs_of(roles.take(k + 1), m) =~= outputs_of(roles.take(k as int), m)
                            + if m == transition_idx {
                            seq![(place_idx, a.weight)]
                        } else {
                            Seq::empty()
                        });
                        assert(inputs_of(roles.take(k + 1), m) =~= inputs_of(roles.take(k as int), m));
                        if m != transition_idx {
                            assert(transitions@[m] == before[m]);
                        } else {
                            assert(transitions@[m]@.name == before[m]@.name);
                            assert(transitions@[m]@.inputs == before[m]@.inputs);
                            assert(before[m]@.outputs == outputs_of(roles.take(k as int), m));
                            assert(transitions@[m]@.outputs =~= before[m]@.outputs.push((place_idx, a.weight)));
                            assert(transitions@[m]@.outputs == outputs_of(roles.take(k + 1), m));
                        }
                    }
                },
                _ => {
                    proof {
                        assert(false);
                    }
                },
            }
            k = k + 1;
        }
        assert(roles.take(model_arcs.len() as int) =~= roles);
        let r = PetriNet { places, transitions, index };
        assert(r@.transitions =~= spec_net.transitions);
        r
    }

    /// The state of the net as text: each place with its tokens, then each enabled transition.
    pub fn show_state(&self) -> (r: String)
        requires
            checks_stay_in(self@),
        ensures
            r@ == state_text(self@),
    {
        let ghost ps = self@.places;
        let mut out = "Places:\n".to_owned();
        let mut k: usize = 0;
        assert(ps.take(0) =~= Seq::<SpecNetPlace>::empty());
        while k < self.places.len()
            invariant
                k <= self.places.len(),
                ps == self@.places,
                out@ == "Places:\n"@ + places_state(ps.take(k as int)),
            decreases self.places.len() - k,
        {
            let place = &self.places[k];
            assert(ps[k as int] == place@);
            assert(ps.take(k + 1).drop_last() =~= ps.take(k as int));
            let ghost before = out@;
            out.append("  ");
            out.append(place.name.as_str());
            out.append(": ");
            let tokens = usize_to_text(place.tokens);
            out.append(tokens.as_str());
            out.append(" token(s)\n");
            assert(out@ =~= before + place_state_line(place@));
            k = k + 1;
        }
        assert(ps.take(self.places.len() as int) =~= ps);
        out.append("Enabled transitions:\n");
        let enabled = self.enabled_transitions();
        let ghost es = enabled_ones(self@.places, self@.transitions);
        let mut k: usize = 0;
        let ghost head = out@;
        assert(es.take(0) =~= Seq::<SpecNetTransition>::empty());
        while k < enabled.len()
            invariant
                k <= enabled.len(),
                enabled@.map_values(|t: &Transition| t@) == es,
                out@ == head + transitions_state(es.take(k as int)),
            decreases enabled.len() - k,
        {
            let transition = enabled[k];
            assert(es[k as int] == transition@);
            assert(es.take(k + 1).drop_last() =~= es.take(k as int));
            let ghost before = out@;
            out.append("  ");
            out.append(transition.name.as_str());
            out.append("\n");
            assert(out@ =~= before + "  "@ + transition@.name + "\n"@);
            k = k + 1;
        }
        assert(es.take(enabled.len() as int) =~= es);
        assert(out@ =~= state_text(self@));
        out
    }

    /// True when checking whether each transition is enabled looks only at places of the net,
    /// as `show_state` and `enabled_transitions` need.
    pub fn can_check_all(&self) -> (r: bool)
        ensures
            r == checks_stay_in(self@),
    {
        let mut j: usize = 0;
        while j < self.transitions.len()
            invariant
                j <= self.transitions.len(),
                forall|m: int|
                    0 <= m < j ==> check_stays_in(
                        self@.places,
                        (#[trigger] self@.transitions[m]).inputs,
                    ),
            decreases self.transitions.len() - j,
        {
            assert(self@.transitions[j as int] == self.transitions@[j as int]@);
            if !self.check_stays_in(&self.transitions[j].inputs) {
                return false;
            }
            j = j + 1;
        }
        true
    }

    /// True when firing transition `transition_idx` looks only at places of the net, as `fire`
    /// needs.
    pub fn can_fire(&self, transition_idx: usize) -> (r: bool)
        requires
            transition_idx < self@.transitions.len(),
        ensures
            r == firing_stays_in(self@.places, self@.transitions[transition_idx as int]),
    {
        let tr = &self.transitions[transition_idx];
        assert(self@.transitions[transition_idx as int] == tr@);
        if !self.check_stays_in(&tr.inputs) {
            return false;
        }
        !tr.is_enabled(self) || in_range(&tr.outputs, self.places.len())
    }

    /// True when checking whether the places of `inputs` hold enough tokens looks only at
    /// places of the net.
    fn check_stays_in(&self, inputs: &Vec<(usize, usize)>) -> (r: bool)
        ensures
            r == check_stays_in(self@.places, inputs@),
    {
        let ghost ins = inputs@;
        let mut k: usize = 0;
        assert(ins.skip(0) =~= ins);
        while k < inputs.len()
            invariant
                k <= inputs.len(),
                ins == inputs@,
                check_stays_in(self@.places, ins) == check_stays_in(self@.places, ins.skip(k as int)),
            decreases inputs.len() - k,
        {
            let (p, count) = inputs[k];
            assert(ins.skip(k as int)[0] == (p, count));
            assert(ins.skip(k as int).drop_first() =~= ins.skip(k + 1));
            if p >= self.places.len() {
                return false;
            }
            assert(self@.places[p as int] == self.places@[p as int]@);
            if self.places[p].tokens < count {
                return true;
            }
            k = k + 1;
        }
        true
    }

    /// True when firing transition `transition_idx` neither takes more tokens from a place than
    /// it holds nor overflows a place.
    pub fn fire_fits(&self, transition_idx: usize) -> (r: bool)
        requires
            transition_idx < self@.transitions.len(),
        ensures
            r == fire_fits(self@.places, self@.transitions[transition_idx as int]),
    {
        let tr = &self.transitions[transition_idx];
        assert(self@.transitions[transition_idx as int] == tr@);
        let mut p: usize = 0;
        while p < self.places.len()
            invariant
                p <= self.places.len(),
                self@.transitions[transition_idx as int] == tr@,
                forall|q: int|
                    0 <= q < p ==> weight_at(tr@.inputs, q) <= (#[trigger] self@.places[q]).tokens
                        && self@.places[q].tokens - weight_at(tr@.inputs, q) + weight_at(
                        tr@.outputs,
                        q,
                    ) <= usize::MAX,
            decreases self.places.len() - p,
        {
            let tokens = self.places[p].tokens;
            assert(self@.places[p as int].tokens == tokens);
            let taken = match weight_bounded(&tr.inputs, p, tokens) {
                Some(w) => w,
                None => {
                    return false;
                },
            };
            match weight_bounded(&tr.outputs, p, usize::MAX - (tokens - taken)) {
                Some(_) => {},
                None => {
                    return false;
                },
            }
            p = p + 1;
        }
        true
    }

    /// The index entries of a model: each place name with its position, then each transition
    /// name with its position.
    fn model_index(model: &SemanticModel) -> (r: Vec<(String, usize)>)
        ensures
            entries_map(r@.map_values(|e: (String, usize)| (e.0@, e.1))) == net_index(
                model.place_view(),
                model.transition_view(),
            ),
    {
        let ghost ps = model.place_view();
        let ghost ts = model.transition_view();
        let ghost pentries = Seq::new(ps.len(), |i: int| (ps[i].name, i as usize));
        let ghost tentries = Seq::new(ts.len(), |j: int| (ts[j].name, j as usize));
        let mut index: Vec<(String, usize)> = Vec::new();
        let model_places = model.places();
        let mut i: usize = 0;
        while i < model_places.len()
            invariant
                i <= model_places.len(),
                model_places@.map_values(|p: crate::analysis::semantic_model::Place| p@) == ps,
                index@.map_values(|e: (String, usize)| (e.0@, e.1)) == pentries.take(i as int),
                pentries == Seq::new(ps.len(), |i: int| (ps[i].name, i as usize)),
            decreases model_places.len() - i,
        {
            assert(model_places@[i as int]@ == ps[i as int]);
            let ghost before = index@.map_values(|e: (String, usize)| (e.0@, e.1));
            index.push((model_places[i].name().to_owned(), i));
            assert(index@.map_values(|e: (String, usize)| (e.0@, e.1)) =~= before.push((ps[i as int].name, i)));
            assert(index@.map_values(|e: (String, usize)| (e.0@, e.1)) =~= pentries.take(i + 1));
            i = i + 1;
        }
        assert(pentries.take(ps.len() as int) =~= pentries);
        let model_transitions = model.transitions();
        let mut j: usize = 0;
        assert(pentries + tentries.take(0) =~= pentries);
        while j < model_transitions.len()
            invariant
                j <= model_transitions.len(),
                model_transitions@.map_values(|t: crate::analysis::semantic_model::Transition| t@)
                    == ts,
                index@.map_values(|e: (String, usize)| (e.0@, e.1)) == pentries + tentries.take(
                    j as int,
                ),
                tentries == Seq::new(ts.len(), |j: int| (ts[j].name, j as usize)),
            decreases model_transitions.len() - j,
        {
            assert(model_transitions@[j as int]@ == ts[j as int]);
            let ghost before = index@.map_values(|e: (String, usize)| (e.0@, e.1));
            index.push((model_transitions[j].name().to_owned(), j));
            assert(index@.map_values(|e: (String, usize)| (e.0@, e.1)) =~= before.push((ts[j as int].name, j)));
            assert(index@.map_values(|e: (String, usize)| (e.0@, e.1)) =~= pentries + tentries.take(
                j + 1,
            ));
            j = j + 1;
        }
        assert(tentries.take(ts.len() as int) =~= tentries);
        index
    }

    /// True when `from_semantic_model` can turn `model` into a net: every arc joins a declared
    /// place and a declared transition that the index finds.
    pub fn can_build(model: &SemanticModel) -> (r: bool)
        ensures
            r == convertible(
                model.symbol_view(),
                model.place_view(),
                model.transition_view(),
                model.arc_view(),
            ),
    {
        let ghost t = model.symbol_view();
        let ghost ps = model.place_view();
        let ghost ts = model.transition_view();
        let ghost arcs = model.arc_view();
        let index = Self::model_index(model);
        let n_transitions = model.transitions().len();
        let symbols = model.symbols();
        let model_arcs = model.arcs();
        let mut k: usize = 0;
        while k < model_arcs.len()
            invariant
                k <= model_arcs.len(),
                ps == model.place_view(),
                t == model.symbol_view(),
                ts == model.transition_view(),
                n_transitions == ts.len(),
                symbols@ == t,
                model_arcs@.map_values(|a: crate::analysis::semantic_model::Arc| a@) == arcs,
                arcs == model.arc_view(),
                entries_map(index@.map_values(|e: (String, usize)| (e.0@, e.1))) == net_index(ps, ts),
                forall|m: int| 0 <= m < k ==> arc_fits(t, net_index(ps, ts), ts.len() as int, #[trigger] arcs[m]),
            decreases model_arcs.len() - k,
        {
            let arc = &model_arcs[k];
            assert(arc@ == arcs[k as int]);
            let ghost a = arcs[k as int];
            let left_idx = index_lookup(&index, arc.left());
            let right_idx = index_lookup(&index, arc.right());
            let (li, ri) = match (left_idx, right_idx) {
                (Some(li), Some(ri)) => (li, ri),
                _ => {
                    assert(!arc_fits(t, net_index(ps, ts), ts.len() as int, arcs[k as int]));
                    return false;
                },
            };
            let ls = symbols.get(arc.left());
            let rs = symbols.get(arc.right());
            let ok = match (ls, rs) {
                (Some(Symbol::Place { .. }), Some(Symbol::Transition { .. })) => ri < n_transitions,
                (Some(Symbol::Transition { .. }), Some(Symbol::Place { .. })) => li < n_transitions,
                _ => false,
            };
            if !ok {
                assert(!arc_fits(t, net_index(ps, ts), ts.len() as int, arcs[k as int]));
                return false;
            }
            assert(arc_fits(t, net_index(ps, ts), ts.len() as int, arcs[k as int]));
            k = k + 1;
        }
        true
    }

    /// The transitions that are enabled, in order.
    pub fn enabled_transitions(&self) -> (r: Vec<&Transition>)
        requires
            checks_stay_in(self@),
        ensures
            r@.map_values(|t: &Transition| t@) == enabled_ones(self@.places, self@.transitions),
    {
        let ghost ts = self@.transitions;
        let mut r: Vec<&Transition> = Vec::new();
        let mut k: usize = 0;
        assert(ts.take(0) =~= Seq::<SpecNetTransition>::empty());
        while k < self.transitions.len()
            invariant
                k <= self.transitions.len(),
                ts == self@.transitions,
                checks_stay_in(self@),
                r@.map_values(|t: &Transition| t@) == enabled_ones(self@.places, ts.take(k as int)),
            decreases self.transitions.len() - k,
        {
            assert(ts.take(k + 1).drop_last() =~= ts.take(k as int));
            assert(ts.take(k + 1).last() == self.transitions@[k as int]@);
            assert(ts[k as int] == self.transitions@[k as int]@);
            let ghost before = r@.map_values(|t: &Transition| t@);
            if self.transitions[k].is_enabled(self) {
                r.push(&self.transitions[k]);
                assert(r@.map_values(|t: &Transition| t@) =~= before.push(ts[k as int]));
            }
            k = k + 1;
        }
        assert(ts.take(self.transitions.len() as int) =~= ts);
        r
    }
}

} // verus!
