//! The semantic model of a program: its places, transitions and arcs.
use vstd::prelude::*;

use crate::analysis::symbol::{
    SpecSymbol, SymbolTable, declarations, declared_by, distinct_names, lemma_lookup_found,
    lemma_lookup_push, lookup, symbol_name,
};
use crate::grammar::ast::{Program, SpecStatement, Statement, label_view, program_view};
use crate::span::Span;

verus! {

/// A declared place.
pub struct Place {
    name: String,
    tokens: usize,
    label: Option<String>,
}

/// The view of a place.
pub struct SpecPlace {
    pub name: Seq<char>,
    pub tokens: usize,
    pub label: Option<Seq<char>>,
}

impl View for Place {
    type V = SpecPlace;

    closed spec fn view(&self) -> SpecPlace {
        SpecPlace { name: self.name@, tokens: self.tokens, label: label_view(self.label) }
    }
}

impl Place {
    /// The place's name.
    pub fn name(&self) -> (r: &str)
        ensures
            r@ == self@.name,
    {
        self.name.as_str()
    }

    /// The number of tokens the place starts with.
    pub fn tokens(&self) -> (r: &usize)
        ensures
            *r == self@.tokens,
    {
        &self.tokens
    }

    /// The place's label, if it has one.
    pub fn label(&self) -> (r: Option<&String>)
        ensures
            match r {
                Some(l) => self@.label == Some(l@),
                None => self@.label is None,
            },
    {
        match &self.label {
            Some(l) => Some(l),
            None => None,
        }
    }
}

/// A declared transition.
pub struct Transition {
    name: String,
    label: Option<String>,
}

/// The view of a transition.
pub struct SpecTransition {
    pub name: Seq<char>,
    pub label: Option<Seq<char>>,
}

impl View for Transition {
    type V = SpecTransition;

    closed spec fn view(&self) -> SpecTransition {
        SpecTransition { name: self.name@, label: label_view(self.label) }
    }
}

impl Transition {
    /// The transition's name.
    pub fn name(&self) -> (r: &str)
        ensures
            r@ == self@.name,
    {
        self.name.as_str()
    }

    /// The transition's label, if it has one.
    pub fn label(&self) -> (r: Option<&String>)
        ensures
            match r {
                Some(l) => self@.label == Some(l@),
                None => self@.label is None,
            },
    {
        match &self.label {
            Some(l) => Some(l),
            None => None,
        }
    }
}

/// A declared arc between two named nodes.
pub struct Arc {
    left: String,
    right: String,
    weight: usize,
    span: Span,
}

/// The view of an arc.
pub struct SpecArc {
    pub left: Seq<char>,
    pub right: Seq<char>,
    pub weight: usize,
    pub span: Span,
}

impl View for Arc {
    type V = SpecArc;

    closed spec fn view(&self) -> SpecArc {
        SpecArc { left: self.left@, right: self.right@, weight: self.weight, span: self.span }
    }
}

impl Arc {
    /// The name the arc starts at.
    pub fn left(&self) -> (r: &str)
        ensures
            r@ == self@.left,
    {
        self.left.as_str()
    }

    /// The name the arc ends at.
    pub fn right(&self) -> (r: &str)
        ensures
            r@ == self@.right,
    {
        self.right.as_str()
    }

    /// The range of the statement that declared the arc.
    pub fn span(&self) -> (r: &Span)
        ensures
            *r == self@.span,
    {
        &self.span
    }

    /// The arc's weight.
    pub fn weight(&self) -> (r: &usize)
        ensures
            *r == self@.weight,
    {
        &self.weight
    }
}

/// The places a statement declares.
pub open spec fn places_in(s: SpecStatement) -> Seq<SpecPlace> {
    match s {
        SpecStatement::Place { name, tokens, label, .. } => seq![SpecPlace { name, tokens, label }],
        _ => Seq::empty(),
    }
}

/// The transitions a statement declares.
pub open spec fn transitions_in(s: SpecStatement) -> Seq<SpecTransition> {
    match s {
        SpecStatement::Transition { name, label, .. } => seq![SpecTransition { name, label }],
        _ => Seq::empty(),
    }
}

/// The arcs a statement declares, each with the statement's range.
pub open spec fn arcs_in(s: SpecStatement) -> Seq<SpecArc> {
    match s {
        SpecStatement::Arc { location, pairs } => pairs.map_values(
            |p: (Seq<char>, Seq<char>, usize)|
                SpecArc { left: p.0, right: p.1, weight: p.2, span: location },
        ),
        _ => Seq::empty(),
    }
}

/// Every place declaration of a program, in source order (redeclarations included).
pub open spec fn places_of(p: Seq<SpecStatement>) -> Seq<SpecPlace>
    decreases p.len(),
{
    if p.len() == 0 {
        Seq::empty()
    } else {
        places_of(p.drop_last()) + places_in(p.last())
    }
}

/// Every transition declaration of a program, in source order (redeclarations included).
pub open spec fn transitions_of(p: Seq<SpecStatement>) -> Seq<SpecTransition>
    decreases p.len(),
{
    if p.len() == 0 {
        Seq::empty()
    } else {
        transitions_of(p.drop_last()) + transitions_in(p.last())
    }
}

/// Every arc of a program, in source order.
pub open spec fn arcs_of(p: Seq<SpecStatement>) -> Seq<SpecArc>
    decreases p.len(),
{
    if p.len() == 0 {
        Seq::empty()
    } else {
        arcs_of(p.drop_last()) + arcs_in(p.last())
    }
}

/// When no two declarations of a program share a name: each place's name is first declared as
/// a place and each transition's as a transition; every name first declared as a place names a
/// place, and likewise for transitions; and no two places, nor two transitions, share a name.
pub proof fn lemma_declared_kinds(p: Seq<SpecStatement>)
    requires
        distinct_names(declarations(p)),
    ensures
        forall|i: int|
            0 <= i < places_of(p).len() ==> lookup(declarations(p), (#[trigger] places_of(p)[i]).name)
                matches Some(SpecSymbol::Place { .. }),
        forall|j: int|
            0 <= j < transitions_of(p).len() ==> lookup(
                declarations(p),
                (#[trigger] transitions_of(p)[j]).name,
            ) matches Some(SpecSymbol::Transition { .. }),
        forall|n: Seq<char>|
            (#[trigger] lookup(declarations(p), n)) matches Some(SpecSymbol::Place { .. }) ==> exists|
                i: int,
            | 0 <= i < places_of(p).len() && (#[trigger] places_of(p)[i]).name == n,
        forall|n: Seq<char>|
            (#[trigger] lookup(declarations(p), n)) matches Some(SpecSymbol::Transition { .. })
                ==> exists|j: int|
                0 <= j < transitions_of(p).len() && (#[trigger] transitions_of(p)[j]).name == n,
        forall|i: int, m: int|
            0 <= i < m < places_of(p).len() ==> (#[trigger] places_of(p)[i]).name != (
            #[trigger] places_of(p)[m]).name,
        forall|j: int, m: int|
            0 <= j < m < transitions_of(p).len() ==> (#[trigger] transitions_of(p)[j]).name != (
            #[trigger] transitions_of(p)[m]).name,
    decreases p.len(),
{
    if p.len() > 0 {
        let q = p.drop_last();
        let ds = declarations(p);
        let dq = declarations(q);
        let ps = places_of(p);
        let pq = places_of(q);
        let ts = transitions_of(p);
        let tq = transitions_of(q);
        assert(ds == dq + declared_by(p.last()));
        assert forall|i: int, j: int| 0 <= i < j < dq.len() implies symbol_name(#[trigger] dq[i])
            != symbol_name(#[trigger] dq[j]) by {
            assert(dq[i] == ds[i]);
            assert(dq[j] == ds[j]);
        }
        lemma_declared_kinds(q);
        match p.last() {
            SpecStatement::Place { location, name, tokens, label } => {
                let s = SpecSymbol::Place { name, span: location };
                assert(ds =~= dq.push(s));
                assert(ps =~= pq.push(SpecPlace { name, tokens, label }));
                assert(ts =~= tq);
                assert forall|k: int| 0 <= k < dq.len() implies symbol_name(#[trigger] dq[k])
                    != Some(name) by {
                    assert(dq[k] == ds[k]);
                    assert(ds[dq.len() as int] == s);
                }
                lemma_lookup_found(dq, name);
                assert(lookup(dq, name) is None);
                assert forall|n: Seq<char>| #[trigger]
                    lookup(ds, n) == match lookup(dq, n) {
                        Some(x) => Some(x),
                        None => if name == n {
                            Some(s)
                        } else {
                            None
                        },
                    } by {
                    lemma_lookup_push(dq, s, n);
                }
                assert forall|i: int| 0 <= i < ps.len() implies lookup(
                    ds,
                    (#[trigger] ps[i]).name,
                ) matches Some(SpecSymbol::Place { .. }) by {
                    if i < pq.len() {
                        assert(ps[i] == pq[i]);
                        assert(lookup(ds, pq[i].name) == lookup(dq, pq[i].name));
                    }
                }
                assert forall|j: int| 0 <= j < ts.len() implies lookup(
                    ds,
                    (#[trigger] ts[j]).name,
                ) matches Some(SpecSymbol::Transition { .. }) by {
                    assert(ts[j] == tq[j]);
                    assert(lookup(ds, tq[j].name) == lookup(dq, tq[j].name));
                }
                assert forall|n: Seq<char>| (#[trigger] lookup(ds, n)) matches Some(
                    SpecSymbol::Place { .. },
                ) implies exists|i: int| 0 <= i < ps.len() && (#[trigger] ps[i]).name == n by {
                    if lookup(dq, n) is Some {
                        let i = choose|i: int| 0 <= i < pq.len() && (#[trigger] pq[i]).name == n;
                        assert(ps[i] == pq[i]);
                    } else {
                        assert(ps[pq.len() as int].name == n);
                    }
                }
                assert forall|n: Seq<char>| (#[trigger] lookup(ds, n)) matches Some(
                    SpecSymbol::Transition { .. },
                ) implies exists|j: int| 0 <= j < ts.len() && (#[trigger] ts[j]).name == n by {
                    assert(lookup(dq, n) is Some);
                    let j = choose|j: int| 0 <= j < tq.len() && (#[trigger] tq[j]).name == n;
                    assert(ts[j] == tq[j]);
                }
                assert forall|i: int, m: int| 0 <= i < m < ps.len() implies (#[trigger] ps[i]).name
                    != (#[trigger] ps[m]).name by {
                    assert(ps[i] == pq[i]);
                    if m < pq.len() {
                        assert(ps[m] == pq[m]);
                    } else {
                        assert(lookup(dq, pq[i].name) is Some);
                    }
                }
                assert forall|j: int, m: int| 0 <= j < m < ts.len() implies (#[trigger] ts[j]).name
                    != (#[trigger] ts[m]).name by {
                    assert(ts[j] == tq[j]);
                    assert(ts[m] == tq[m]);
                }
            },
            SpecStatement::Transition { location, name, label } => {
                let s = SpecSymbol::Transition { name, span: location };
                assert(ds =~= dq.push(s));
                assert(ts =~= tq.push(SpecTransition { name, label }));
                assert(ps =~= pq);
                assert forall|k: int| 0 <= k < dq.len() implies symbol_name(#[trigger] dq[k])
                    != Some(name) by {
                    assert(dq[k] == ds[k]);
                    assert(ds[dq.len() as int] == s);
                }
                lemma_lookup_found(dq, name);
                assert(lookup(dq, name) is None);
                assert forall|n: Seq<char>| #[trigger]
                    lookup(ds, n) == match lookup(dq, n) {
                        Some(x) => Some(x),
                        None => if name == n {
                            Some(s)
                        } else {
                            None
                        },
                    } by {
                    lemma_lookup_push(dq, s, n);
                }
                assert forall|i: int| 0 <= i < ps.len() implies lookup(
                    ds,
                    (#[trigger] ps[i]).name,
                ) matches Some(SpecSymbol::Place { .. }) by {
                    assert(ps[i] == pq[i]);
                    assert(lookup(ds, pq[i].name) == lookup(dq, pq[i].name));
                }
                assert forall|j: int| 0 <= j < ts.len() implies lookup(
                    ds,
                    (#[trigger] ts[j]).name,
                ) matches Some(SpecSymbol::Transition { .. }) by {
                    if j < tq.len() {
                        assert(ts[j] == tq[j]);
                        assert(lookup(ds, tq[j].name) == lookup(dq, tq[j].name));
                    }
                }
                assert forall|n: Seq<char>| (#[trigger] lookup(ds, n)) matches Some(
                    SpecSymbol::Place { .. },
                ) implies exists|i: int| 0 <= i < ps.len() && (#[trigger] ps[i]).name == n by {
                    assert(lookup(dq, n) is Some);
                    let i = choose|i: int| 0 <= i < pq.len() && (#[trigger] pq[i]).name == n;
                    assert(ps[i] == pq[i]);
                }
                assert forall|n: Seq<char>| (#[trigger] lookup(ds, n)) matches Some(
                    SpecSymbol::Transition { .. },
                ) implies exists|j: int| 0 <= j < ts.len() && (#[trigger] ts[j]).name == n by {
                    if lookup(dq, n) is Some {
                        let j = choose|j: int| 0 <= j < tq.len() && (#[trigger] tq[j]).name == n;
                        assert(ts[j] == tq[j]);
                    } else {
                        assert(ts[tq.len() as int].name == n);
                    }
                }
                assert forall|i: int, m: int| 0 <= i < m < ps.len() implies (#[trigger] ps[i]).name
                    != (#[trigger] ps[m]).name by {
                    assert(ps[i] == pq[i]);
                    assert(ps[m] == pq[m]);
                }
                assert forall|j: int, m: int| 0 <= j < m < ts.len() implies (#[trigger] ts[j]).name
                    != (#[trigger] ts[m]).name by {
                    assert(ts[j] == tq[j]);
                    if m < tq.len() {
                        assert(ts[m] == tq[m]);
                    } else {
                        assert(lookup(dq, tq[j].name) is Some);
                    }
                }
            },
            SpecStatement::Arc { .. } => {
                assert(ds =~= dq);
                assert(ps =~= pq);
                assert(ts =~= tq);
            },
        }
    }
}

/// A program declares at most as many places and transitions as it has statements.
pub proof fn lemma_declaration_counts(p: Seq<SpecStatement>)
    ensures
        places_of(p).len() + transitions_of(p).len() <= p.len(),
    decreases p.len(),
{
    if p.len() > 0 {
        lemma_declaration_counts(p.drop_last());
    }
}

/// The semantic model: the symbol table, and the places, transitions and arcs in source order.
pub struct SemanticModel {
    symbols: SymbolTable,
    places: Vec<Place>,
    transitions: Vec<Transition>,
    arcs: Vec<Arc>,
}

impl SemanticModel {
    /// The view of the symbol table.
    pub closed spec fn symbol_view(&self) -> Seq<SpecSymbol> {
        self.symbols@
    }

    /// The views of the places.
    pub closed spec fn place_view(&self) -> Seq<SpecPlace> {
        self.places@.map_values(|p: Place| p@)
    }

    /// The views of the transitions.
    pub closed spec fn transition_view(&self) -> Seq<SpecTransition> {
        self.transitions@.map_values(|t: Transition| t@)
    }

    /// The views of the arcs.
    pub closed spec fn arc_view(&self) -> Seq<SpecArc> {
        self.arcs@.map_values(|a: Arc| a@)
    }

    /// The model of `ast` with the symbol table `symbols`.
    pub fn from_ast(ast: &Program, symbols: SymbolTable) -> (r: SemanticModel)
        ensures
            r.symbol_view() == symbols@,
            r.place_view() == places_of(program_view(ast@)),
            r.transition_view() == transitions_of(program_view(ast@)),
            r.arc_view() == arcs_of(program_view(ast@)),
    {
        SemanticModel {
            symbols,
            places: Self::extract_places(ast),
            transitions: Self::extract_transitions(ast),
            arcs: Self::extract_arcs(ast),
        }
    }

    /// The symbol table.
    pub fn symbols(&self) -> (r: &SymbolTable)
        ensures
            r@ == self.symbol_view(),
    {
        &self.symbols
    }

    /// The places.
    pub fn places(&self) -> (r: &Vec<Place>)
        ensures
            r@.map_values(|p: Place| p@) == self.place_view(),
    {
        &self.places
    }

    /// The transitions.
    pub fn transitions(&self) -> (r: &Vec<Transition>)
        ensures
            r@.map_values(|t: Transition| t@) == self.transition_view(),
    {
        &self.transitions
    }

    /// The arcs.
    pub fn arcs(&self) -> (r: &Vec<Arc>)
        ensures
            r@.map_values(|a: Arc| a@) == self.arc_view(),
    {
        &self.arcs
    }

    fn extract_places(ast: &Program) -> (r: Vec<Place>)
        ensures
            r@.map_values(|p: Place| p@) == places_of(program_view(ast@)),
    {
        let ghost p = program_view(ast@);
        let mut places: Vec<Place> = Vec::new();
        let mut k: usize = 0;
        assert(p.take(0) =~= Seq::<SpecStatement>::empty());
        while k < ast.len()
            invariant
                k <= ast.len(),
                p == program_view(ast@),
                places@.map_values(|p: Place| p@) == places_of(p.take(k as int)),
            decreases ast.len() - k,
        {
            assert(p.take(k + 1).drop_last() =~= p.take(k as int));
            assert(p.take(k + 1).last() == ast@[k as int]@);
            let ghost before = places@.map_values(|p: Place| p@);
            match &ast[k] {
                Statement::Place { name, tokens, label, .. } => {
                    let l = match label {
                        Some(l) => Some(l.clone()),
                        None => None,
                    };
                    places.push(Place { name: name.clone(), tokens: *tokens, label: l });
                    assert(places@.map_values(|p: Place| p@) =~= before + places_in(
                        ast@[k as int]@,
                    ));
                },
                _ => {
                    assert(places@.map_values(|p: Place| p@) =~= before + places_in(
                        ast@[k as int]@,
                    ));
                },
            }
            k = k + 1;
        }
        assert(p.take(ast.len() as int) =~= p);
        places
    }

    fn extract_transitions(ast: &Program) -> (r: Vec<Transition>)
        ensures
            r@.map_values(|t: Transition| t@) == transitions_of(program_view(ast@)),
    {
        let ghost p = program_view(ast@);
        let mut transitions: Vec<Transition> = Vec::new();
        let mut k: usize = 0;
        assert(p.take(0) =~= Seq::<SpecStatement>::empty());
        while k < ast.len()
            invariant
                k <= ast.len(),
                p == program_view(ast@),
                transitions@.map_values(|t: Transition| t@) == transitions_of(p.take(k as int)),
            decreases ast.len() - k,
        {
            assert(p.take(k + 1).drop_last() =~= p.take(k as int));
            assert(p.take(k + 1).last() == ast@[k as int]@);
            let ghost before = transitions@.map_values(|t: Transition| t@);
            match &ast[k] {
                Statement::Transition { name, label, .. } => {
                    let l = match label {
                        Some(l) => Some(l.clone()),
                        None => None,
                    };
                    transitions.push(Transition { name: name.clone(), label: l });
                    assert(transitions@.map_values(|t: Transition| t@) =~= before + transitions_in(
                        ast@[k as int]@,
                    ));
                },
                _ => {
                    assert(transitions@.map_values(|t: Transition| t@) =~= before + transitions_in(
                        ast@[k as int]@,
                    ));
                },
            }
            k = k + 1;
        }
        assert(p.take(ast.len() as int) =~= p);
        transitions
    }

    fn extract_arcs(ast: &Program) -> (r: Vec<Arc>)
        ensures
            r@.map_values(|a: Arc| a@) == arcs_of(program_view(ast@)),
    {
        let ghost p = program_view(ast@);
        let mut arcs: Vec<Arc> = Vec::new();
        let mut k: usize = 0;
        assert(p.take(0) =~= Seq::<SpecStatement>::empty());
        while k < ast.len()
            invariant
                k <= ast.len(),
                p == program_view(ast@),
                arcs@.map_values(|a: Arc| a@) == arcs_of(p.take(k as int)),
            decreases ast.len() - k,
        {
            assert(p.take(k + 1).drop_last() =~= p.take(k as int));
            assert(p.take(k + 1).last() == ast@[k as int]@);
            let ghost before = arcs@.map_values(|a: Arc| a@);
            match &ast[k] {
                Statement::Arc { location, pairs } => {
                    let mut m: usize = 0;
                    while m < pairs.len()
                        invariant
                            m <= pairs.len(),
                            arcs@.map_values(|a: Arc| a@) == before + arcs_in(
                                ast@[k as int]@,
                            ).take(m as int),
                            ast@[k as int] matches Statement::Arc { location: l, pairs: ps }
                                && l == *location && ps == *pairs,
                        decreases pairs.len() - m,
                    {
                        let ghost prev = arcs@.map_values(|a: Arc| a@);
                        arcs.push(
                            Arc {
                                left: pairs[m].0.clone(),
                                right: pairs[m].1.clone(),
                                weight: pairs[m].2,
                                span: *location,
                            },
                        );
                        assert(arcs@.map_values(|a: Arc| a@) =~= prev.push(arcs@.last()@));
                        assert(arcs_in(ast@[k as int]@).take(m + 1) =~= arcs_in(
                            ast@[k as int]@,
                        ).take(m as int).push(arcs@.last()@));
                        m = m + 1;
                    }
                    assert(arcs_in(ast@[k as int]@).take(pairs.len() as int) =~= arcs_in(
                        ast@[k as int]@,
                    ));
                },
                _ => {
                    assert(arcs@.map_values(|a: Arc| a@) =~= before + arcs_in(ast@[k as int]@));
                },
            }
            k = k + 1;
        }
        assert(p.take(ast.len() as int) =~= p);
        arcs
    }
}

} // verus!
