//! The analyzer: builds the semantic model of a program and checks the rules of P/T nets.
use vstd::prelude::*;

use crate::analysis::report::{
    Reason, Report, Severity, SpecDiagnostic, error_at, error_with, warning_at,
};
use crate::analysis::semantic_model::{
    SemanticModel, SpecArc, arcs_of, places_of, transitions_of,
};
use crate::analysis::symbol::{
    SpecSymbol, Symbol, SymbolTable, declarations, lemma_declare_errors, lemma_lookup_found,
    lemma_table_not_error, lookup, redeclarations_of, symbol_name, symbol_span,
    table_of,
};
use crate::grammar::ast::{Program, SpecStatement, program_view};
use crate::span::Span;
use crate::text::str_eq;

verus! {

/// What the arc check has gathered so far: the names used by arcs, the arcs seen (by their two
/// names, with the range of their first declaration), and the diagnostics.
pub struct ArcScan {
    pub used: Set<Seq<char>>,
    pub seen: Seq<(Seq<char>, Seq<char>, Span)>,
    pub diagnostics: Seq<SpecDiagnostic>,
}

/// The range of the first arc in `seen` from `left` to `right`.
pub open spec fn seen_arc(seen: Seq<(Seq<char>, Seq<char>, Span)>, left: Seq<char>, right: Seq<char>) -> Option<Span>
    decreases seen.len(),
{
    if seen.len() == 0 {
        None
    } else if seen[0].0 == left && seen[0].1 == right {
        Some(seen[0].2)
    } else {
        seen_arc(seen.drop_first(), left, right)
    }
}

/// True when both ends of the arc are declared symbols of the same kind.
pub open spec fn same_kind(l: Option<SpecSymbol>, r: Option<SpecSymbol>) -> bool {
    match (l, r) {
        (Some(SpecSymbol::Place { .. }), Some(SpecSymbol::Place { .. })) => true,
        (Some(SpecSymbol::Transition { .. }), Some(SpecSymbol::Transition { .. })) => true,
        _ => false,
    }
}

/// Checking one arc: its declared ends count as used; an arc between two places or two
/// transitions is a bipartite violation; a weight of 0 is an error; an arc between the same two
/// names as an earlier one is a redeclaration pointing at the earlier one. Arcs whose ends are
/// both undeclared are left out of the redeclaration check.
pub open spec fn scan_arc(t: Seq<SpecSymbol>, st: ArcScan, a: SpecArc) -> ArcScan {
    let l = lookup(t, a.left);
    let r = lookup(t, a.right);
    let used1 = if l is Some {
        st.used.insert(a.left)
    } else {
        st.used
    };
    let used2 = if r is Some {
        used1.insert(a.right)
    } else {
        used1
    };
    let bipartite = if same_kind(l, r) {
        seq![error_at(a.span, Reason::BipartideViolation)]
    } else {
        Seq::empty()
    };
    let zero = if a.weight == 0 {
        seq![error_at(a.span, Reason::ZeroAsWeight)]
    } else {
        Seq::empty()
    };
    if l is None && r is None {
        ArcScan { used: used2, seen: st.seen, diagnostics: st.diagnostics + bipartite + zero }
    } else {
        match seen_arc(st.seen, a.left, a.right) {
            Some(first) => ArcScan {
                used: used2,
                seen: st.seen,
                diagnostics: st.diagnostics + bipartite + zero + seq![
                    error_with(a.span, seq![first], Reason::RedeclarationOfArc),
                ],
            },
            None => ArcScan {
                used: used2,
                seen: st.seen.push((a.left, a.right, a.span)),
                diagnostics: st.diagnostics + bipartite + zero,
            },
        }
    }
}

/// Checking the arcs in order.
pub open spec fn scan_arcs(t: Seq<SpecSymbol>, arcs: Seq<SpecArc>) -> ArcScan
    decreases arcs.len(),
{
    if arcs.len() == 0 {
        ArcScan { used: Set::empty(), seen: Seq::empty(), diagnostics: Seq::empty() }
    } else {
        scan_arc(t, scan_arcs(t, arcs.drop_last()), arcs.last())
    }
}

/// A warning for each symbol of the table whose name no arc uses, in table order.
pub open spec fn unused_warnings(t: Seq<SpecSymbol>, used: Set<Seq<char>>) -> Seq<SpecDiagnostic>
    decreases t.len(),
{
    if t.len() == 0 {
        Seq::empty()
    } else {
        unused_warnings(t.drop_last(), used) + match symbol_name(t.last()) {
            Some(n) => if used.contains(n) {
                Seq::empty()
            } else {
                seq![warning_at(symbol_span(t.last()).unwrap(), Reason::UnusedSymbol)]
            },
            None => Seq::empty(),
        }
    }
}

/// Each arc has either both ends declared or neither.
pub open spec fn ends_consistently_declared(t: Seq<SpecSymbol>, arcs: Seq<SpecArc>) -> bool {
    forall|k: int|
        0 <= k < arcs.len() ==> (lookup(t, #[trigger] arcs[k].left) is Some <==> lookup(
            t,
            arcs[k].right,
        ) is Some)
}

/// The rule checks on a table and its arcs: the arc diagnostics, then the unused-symbol warnings.
pub open spec fn rule_diagnostics(t: Seq<SpecSymbol>, arcs: Seq<SpecArc>) -> Seq<SpecDiagnostic> {
    scan_arcs(t, arcs).diagnostics + unused_warnings(t, scan_arcs(t, arcs).used)
}

/// Everything the analysis reports on a program: redeclarations, then the rule checks.
pub open spec fn analysis_report(p: Seq<SpecStatement>) -> Seq<SpecDiagnostic> {
    redeclarations_of(p) + rule_diagnostics(table_of(p), arcs_of(p))
}

/// True when the analysis can run on `p` (see `Analyzer::analyze`).
pub open spec fn analyzable(p: Seq<SpecStatement>) -> bool {
    ends_consistently_declared(table_of(p), arcs_of(p))
}

/// When checking the arcs finds no error, no arc joins two nodes of the same kind.
pub proof fn lemma_scan_no_same_kind(t: Seq<SpecSymbol>, arcs: Seq<SpecArc>)
    requires
        forall|k: int|
            0 <= k < scan_arcs(t, arcs).diagnostics.len() ==> (#[trigger] scan_arcs(
                t,
                arcs,
            ).diagnostics[k]).severity != Severity::Error,
    ensures
        forall|k: int|
            0 <= k < arcs.len() ==> !same_kind(
                lookup(t, (#[trigger] arcs[k]).left),
                lookup(t, arcs[k].right),
            ),
    decreases arcs.len(),
{
    if arcs.len() > 0 {
        let q = arcs.drop_last();
        let st = scan_arcs(t, q);
        let a = arcs.last();
        let d = scan_arcs(t, arcs).diagnostics;
        assert(d.take(st.diagnostics.len() as int) =~= st.diagnostics);
        assert forall|k: int| 0 <= k < st.diagnostics.len() implies (
        #[trigger] st.diagnostics[k]).severity != Severity::Error by {
            assert(d[k] == st.diagnostics[k]);
        }
        lemma_scan_no_same_kind(t, q);
        if same_kind(lookup(t, a.left), lookup(t, a.right)) {
            assert(d[st.diagnostics.len() as int] == error_at(a.span, Reason::BipartideViolation));
        }
        assert forall|k: int| 0 <= k < arcs.len() implies !same_kind(
            lookup(t, (#[trigger] arcs[k]).left),
            lookup(t, arcs[k].right),
        ) by {
            if k < q.len() {
                assert(arcs[k] == q[k]);
            }
        }
    }
}

/// True when some arc starts or ends at the name `n`.
pub open spec fn mentioned(arcs: Seq<SpecArc>, n: Seq<char>) -> bool {
    exists|k: int| 0 <= k < arcs.len() && ((#[trigger] arcs[k]).left == n || arcs[k].right == n)
}

/// An unused-symbol warning, at its declaration, for each symbol of `t` whose name no arc
/// mentions, in table order.
pub open spec fn unused_in(t: Seq<SpecSymbol>, arcs: Seq<SpecArc>) -> Seq<SpecDiagnostic>
    decreases t.len(),
{
    if t.len() == 0 {
        Seq::empty()
    } else {
        unused_in(t.drop_last(), arcs) + if mentioned(arcs, symbol_name(t.last()).unwrap()) {
            Seq::empty()
        } else {
            seq![warning_at(symbol_span(t.last()).unwrap(), Reason::UnusedSymbol)]
        }
    }
}

/// The names that checking the arcs counts as used are the declared names that some arc
/// mentions.
pub proof fn lemma_scan_used(t: Seq<SpecSymbol>, arcs: Seq<SpecArc>, n: Seq<char>)
    ensures
        scan_arcs(t, arcs).used.contains(n) <==> (lookup(t, n) is Some && mentioned(arcs, n)),
    decreases arcs.len(),
{
    if arcs.len() > 0 {
        let q = arcs.drop_last();
        lemma_scan_used(t, q, n);
        let a = arcs.last();
        if mentioned(q, n) {
            let k = choose|k: int| 0 <= k < q.len() && ((#[trigger] q[k]).left == n || q[k].right == n);
            assert(arcs[k] == q[k]);
        }
        if mentioned(arcs, n) && !(a.left == n || a.right == n) {
            let k = choose|k: int| 0 <= k < arcs.len() && ((#[trigger] arcs[k]).left == n || arcs[k].right == n);
            assert(k < q.len());
            assert(arcs[k] == q[k]);
        }
        if a.left == n || a.right == n {
            assert(arcs[arcs.len() - 1] == a);
        }
    }
}

/// Every diagnostic that checking the arcs gives is an error.
pub proof fn lemma_scan_errors(t: Seq<SpecSymbol>, arcs: Seq<SpecArc>)
    ensures
        forall|k: int|
            0 <= k < scan_arcs(t, arcs).diagnostics.len() ==> (#[trigger] scan_arcs(
                t,
                arcs,
            ).diagnostics[k]).severity == Severity::Error,
    decreases arcs.len(),
{
    if arcs.len() > 0 {
        let q = arcs.drop_last();
        lemma_scan_errors(t, q);
        let st = scan_arcs(t, q);
        let d = scan_arcs(t, arcs).diagnostics;
        assert forall|k: int| 0 <= k < d.len() implies (#[trigger] d[k]).severity == Severity::Error by {
            if k < st.diagnostics.len() {
                assert(d[k] == st.diagnostics[k]);
            }
        }
    }
}

/// For the symbols of a table, the unused-symbol warnings over the names the arc check counts
/// as used are the warnings for the names no arc mentions.
proof fn lemma_unused_warnings_in(
    whole: Seq<SpecSymbol>,
    t: Seq<SpecSymbol>,
    arcs: Seq<SpecArc>,
)
    requires
        forall|k: int| 0 <= k < t.len() ==> !(#[trigger] t[k] is Error) && whole.contains(t[k]),
    ensures
        unused_warnings(t, scan_arcs(whole, arcs).used) == unused_in(t, arcs),
    decreases t.len(),
{
    if t.len() > 0 {
        let q = t.drop_last();
        assert forall|k: int| 0 <= k < q.len() implies !(#[trigger] q[k] is Error) && whole.contains(
            q[k],
        ) by {
            assert(q[k] == t[k]);
        }
        lemma_unused_warnings_in(whole, q, arcs);
        let s = t.last();
        assert(!(t[t.len() - 1] is Error));
        let n = symbol_name(s)->Some_0;
        lemma_scan_used(whole, arcs, n);
        lemma_lookup_found(whole, n);
        assert(whole.contains(t[t.len() - 1]));
        if lookup(whole, n) is None {
            let k = choose|k: int| 0 <= k < whole.len() && whole[k] == s;
            assert(symbol_name(whole[k]) == Some(n));
        }
    }
}

/// The warnings of the analysis are exactly one unused-symbol warning for each declared name
/// that no arc mentions, at that name's first declaration and in the order of first
/// declarations; every other diagnostic of the analysis is an error and comes before them.
pub proof fn law_unused_warnings(p: Seq<SpecStatement>)
    ensures
        analysis_report(p) == redeclarations_of(p) + scan_arcs(table_of(p), arcs_of(p)).diagnostics
            + unused_in(table_of(p), arcs_of(p)),
        forall|k: int|
            0 <= k < redeclarations_of(p).len() ==> (#[trigger] redeclarations_of(p)[k]).severity
                == Severity::Error,
        forall|k: int|
            0 <= k < scan_arcs(table_of(p), arcs_of(p)).diagnostics.len() ==> (
            #[trigger] scan_arcs(table_of(p), arcs_of(p)).diagnostics[k]).severity
                == Severity::Error,
        forall|k: int|
            0 <= k < unused_in(table_of(p), arcs_of(p)).len() ==> (#[trigger] unused_in(
                table_of(p),
                arcs_of(p),
            )[k]) == warning_at(
                unused_in(table_of(p), arcs_of(p))[k].primary,
                Reason::UnusedSymbol,
            ),
{
    let t = table_of(p);
    let arcs = arcs_of(p);
    lemma_table_not_error(p);
    assert forall|k: int| 0 <= k < t.len() implies !(#[trigger] t[k] is Error) && t.contains(t[k]) by {}
    lemma_unused_warnings_in(t, t, arcs);
    lemma_declare_errors(declarations(p));
    lemma_scan_errors(t, arcs);
    lemma_unused_are_warnings(t, arcs);
    assert(analysis_report(p) =~= redeclarations_of(p) + scan_arcs(t, arcs).diagnostics + unused_in(
        t,
        arcs,
    ));
}

/// Every diagnostic of `unused_in` is an unused-symbol warning.
proof fn lemma_unused_are_warnings(t: Seq<SpecSymbol>, arcs: Seq<SpecArc>)
    ensures
        forall|k: int|
            0 <= k < unused_in(t, arcs).len() ==> (#[trigger] unused_in(t, arcs)[k]) == warning_at(
                unused_in(t, arcs)[k].primary,
                Reason::UnusedSymbol,
            ),
    decreases t.len(),
{
    if t.len() > 0 {
        lemma_unused_are_warnings(t.drop_last(), arcs);
        let a = unused_in(t.drop_last(), arcs);
        let u = unused_in(t, arcs);
        assert forall|k: int| 0 <= k < u.len() implies (#[trigger] u[k]) == warning_at(
            u[k].primary,
            Reason::UnusedSymbol,
        ) by {
            if k < a.len() {
                assert(u[k] == a[k]);
            }
        }
    }
}

/// The first arc in `seen` between `left` and `right` is one that joins exactly those two names.
pub proof fn lemma_seen_arc(seen: Seq<(Seq<char>, Seq<char>, Span)>, left: Seq<char>, right: Seq<char>)
    ensures
        seen_arc(seen, left, right) matches Some(sp) ==> exists|m: int|
            0 <= m < seen.len() && #[trigger] seen[m] == (left, right, sp),
    decreases seen.len(),
{
    if seen.len() > 0 && !(seen[0].0 == left && seen[0].1 == right) {
        lemma_seen_arc(seen.drop_first(), left, right);
        if let Some(sp) = seen_arc(seen, left, right) {
            let m = choose|m: int| 0 <= m < seen.drop_first().len() && #[trigger] seen.drop_first()[m] == (left, right, sp);
            assert(seen[m + 1] == seen.drop_first()[m]);
        }
    } else if seen.len() > 0 {
        assert(seen[0] == (left, right, seen[0].2));
    }
}

/// Every arc remembered while checking the arcs is one of the arcs, by its two names and range.
pub proof fn lemma_scan_seen(t: Seq<SpecSymbol>, arcs: Seq<SpecArc>)
    ensures
        forall|m: int|
            0 <= m < scan_arcs(t, arcs).seen.len() ==> exists|a: int|
                0 <= a < arcs.len() && #[trigger] scan_arcs(t, arcs).seen[m] == (
                    arcs[a].left,
                    arcs[a].right,
                    arcs[a].span,
                ),
    decreases arcs.len(),
{
    if arcs.len() > 0 {
        let q = arcs.drop_last();
        lemma_scan_seen(t, q);
        let old_seen = scan_arcs(t, q).seen;
        let seen = scan_arcs(t, arcs).seen;
        assert forall|m: int| 0 <= m < seen.len() implies exists|a: int|
            0 <= a < arcs.len() && #[trigger] seen[m] == (arcs[a].left, arcs[a].right, arcs[a].span) by {
            if m < old_seen.len() {
                assert(seen[m] == old_seen[m]);
                let a = choose|a: int| 0 <= a < q.len() && #[trigger] old_seen[m] == (q[a].left, q[a].right, q[a].span);
                assert(arcs[a] == q[a]);
            } else {
                assert(seen[m] == (arcs[arcs.len() - 1].left, arcs[arcs.len() - 1].right, arcs[arcs.len() - 1].span));
            }
        }
    }
}

/// An arc is reported as a redeclaration only when an earlier arc joins the same left name to
/// the same right name: the error is at the later arc and points at the earlier one. So arcs
/// that differ in either end are never reported as redeclarations.
pub proof fn law_arc_redeclaration_needs_same_ends(t: Seq<SpecSymbol>, arcs: Seq<SpecArc>)
    ensures
        forall|k: int|
            0 <= k < scan_arcs(t, arcs).diagnostics.len() && (#[trigger] scan_arcs(
                t,
                arcs,
            ).diagnostics[k]).reason == Reason::RedeclarationOfArc ==> exists|a: int, b: int|
                0 <= a < b < arcs.len() && arcs[a].left == arcs[b].left && arcs[a].right
                    == arcs[b].right && scan_arcs(t, arcs).diagnostics[k] == error_with(
                    #[trigger] arcs[b].span,
                    seq![#[trigger] arcs[a].span],
                    Reason::RedeclarationOfArc,
                ),
    decreases arcs.len(),
{
    if arcs.len() > 0 {
        let q = arcs.drop_last();
        law_arc_redeclaration_needs_same_ends(t, q);
        lemma_scan_seen(t, q);
        let st = scan_arcs(t, q);
        let a = arcs.last();
        let b = arcs.len() - 1;
        assert(arcs[b] == a);
        let d = scan_arcs(t, arcs).diagnostics;
        lemma_seen_arc(st.seen, a.left, a.right);
        assert forall|k: int|
            0 <= k < d.len() && (#[trigger] d[k]).reason == Reason::RedeclarationOfArc implies exists|
            x: int,
            y: int,
        |
            0 <= x < y < arcs.len() && arcs[x].left == arcs[y].left && arcs[x].right
                == arcs[y].right && d[k] == error_with(
                #[trigger] arcs[y].span,
                seq![#[trigger] arcs[x].span],
                Reason::RedeclarationOfArc,
            ) by {
            if k < st.diagnostics.len() {
                assert(d[k] == st.diagnostics[k]);
                let (x, y) = choose|x: int, y: int|
                    0 <= x < y < q.len() && q[x].left == q[y].left && q[x].right == q[y].right
                        && st.diagnostics[k] == error_with(
                        #[trigger] q[y].span,
                        seq![#[trigger] q[x].span],
                        Reason::RedeclarationOfArc,
                    );
                assert(arcs[x] == q[x]);
                assert(arcs[y] == q[y]);
            } else {
                let sp = seen_arc(st.seen, a.left, a.right)->Some_0;
                let m = choose|m: int| 0 <= m < st.seen.len() && #[trigger] st.seen[m] == (a.left, a.right, sp);
                let x = choose|x: int| 0 <= x < q.len() && #[trigger] st.seen[m] == (q[x].left, q[x].right, q[x].span);
                assert(arcs[x] == q[x]);
                assert(d[k] == error_with(a.span, seq![sp], Reason::RedeclarationOfArc));
            }
        }
    }
}

/// The set of names held by `v`.
pub open spec fn name_set(v: Seq<String>) -> Set<Seq<char>> {
    Set::new(|n: Seq<char>| exists|k: int| 0 <= k < v.len() && (#[trigger] v[k])@ == n)
}

/// The range of the first arc in `seen` from `left` to `right`.
fn find_seen(seen: &Vec<(String, String, Span)>, left: &str, right: &str) -> (r: Option<Span>)
    ensures
        r == seen_arc(seen@.map_values(|e: (String, String, Span)| (e.0@, e.1@, e.2)), left@, right@),
{
    let ghost v = seen@.map_values(|e: (String, String, Span)| (e.0@, e.1@, e.2));
    let mut k: usize = 0;
    assert(v.skip(0) =~= v);
    while k < seen.len()
        invariant
            k <= seen.len(),
            v == seen@.map_values(|e: (String, String, Span)| (e.0@, e.1@, e.2)),
            seen_arc(v, left@, right@) == seen_arc(v.skip(k as int), left@, right@),
        decreases seen.len() - k,
    {
        assert(v.skip(k as int)[0] == v[k as int]);
        assert(v.skip(k as int).drop_first() =~= v.skip(k + 1));
        if str_eq(seen[k].0.as_str(), left) && str_eq(seen[k].1.as_str(), right) {
            return Some(seen[k].2);
        }
        k = k + 1;
    }
    None
}

/// True when `v` holds the name `name`.
fn holds_name(v: &Vec<String>, name: &str) -> (r: bool)
    ensures
        r == name_set(v@).contains(name@),
{
    let mut k: usize = 0;
    while k < v.len()
        invariant
            k <= v.len(),
            forall|m: int| 0 <= m < k ==> v@[m]@ != name@,
        decreases v.len() - k,
    {
        if str_eq(v[k].as_str(), name) {
            assert(v@[k as int]@ == name@);
            return true;
        }
        k = k + 1;
    }
    false
}

/// The analyzer.
pub struct Analyzer;

impl Analyzer {
    /// Analyzes a program: builds its symbol table (reporting redeclarations) and semantic model,
    /// then checks the arcs and reports unused symbols.
    ///
    /// An arc with exactly one declared end stops the analysis, so such programs are left out.
    pub fn analyze(ast: &Program) -> (r: (SemanticModel, Report))
        requires
            analyzable(program_view(ast@)),
        ensures
            r.0.symbol_view() == table_of(program_view(ast@)),
            r.0.place_view() == places_of(program_view(ast@)),
            r.0.transition_view() == transitions_of(program_view(ast@)),
            r.0.arc_view() == arcs_of(program_view(ast@)),
            r.1@ == analysis_report(program_view(ast@)),
    {
        let mut report = Report::new();
        let symbols = SymbolTable::from_ast(ast, &mut report);
        let model = SemanticModel::from_ast(ast, symbols);
        proof {
            lemma_table_not_error(program_view(ast@));
        }
        Self::check_rules(&model, &mut report);
        assert(report@ =~= analysis_report(program_view(ast@)));
        (model, report)
    }

    /// True when every arc of `ast` has both ends declared or neither, as `analyze` needs.
    pub fn is_analyzable(ast: &Program) -> (r: bool)
        ensures
            r == analyzable(program_view(ast@)),
    {
        let mut scratch = Report::new();
        let symbols = SymbolTable::from_ast(ast, &mut scratch);
        let model = SemanticModel::from_ast(ast, symbols);
        let ghost t = model.symbol_view();
        let ghost arcs = model.arc_view();
        let table = model.symbols();
        let model_arcs = model.arcs();
        let mut k: usize = 0;
        while k < model_arcs.len()
            invariant
                k <= model_arcs.len(),
                t == model.symbol_view(),
                arcs == model.arc_view(),
                t == table_of(program_view(ast@)),
                arcs == arcs_of(program_view(ast@)),
                table@ == t,
                model_arcs@.map_values(|a: crate::analysis::semantic_model::Arc| a@) == arcs,
                forall|m: int|
                    0 <= m < k ==> (lookup(t, #[trigger] arcs[m].left) is Some <==> lookup(
                        t,
                        arcs[m].right,
                    ) is Some),
            decreases model_arcs.len() - k,
        {
            let arc = &model_arcs[k];
            assert(arc@ == arcs[k as int]);
            if table.get(arc.left()).is_some() != table.get(arc.right()).is_some() {
                return false;
            }
            k = k + 1;
        }
        true
    }

    fn check_rules(model: &SemanticModel, report: &mut Report)
        requires
            ends_consistently_declared(model.symbol_view(), model.arc_view()),
            forall|k: int|
                0 <= k < model.symbol_view().len() ==> !(#[trigger] model.symbol_view()[k] is Error),
        ensures
            final(report)@ == old(report)@ + rule_diagnostics(
                model.symbol_view(),
                model.arc_view(),
            ),
    {
        let used_symbols = Self::check_arcs(model, report);
        Self::check_unused(model, &used_symbols, report);
    }

    fn check_arcs(model: &SemanticModel, report: &mut Report) -> (r: Vec<String>)
        requires
            ends_consistently_declared(model.symbol_view(), model.arc_view()),
        ensures
            final(report)@ == old(report)@ + scan_arcs(
                model.symbol_view(),
                model.arc_view(),
            ).diagnostics,
            name_set(r@) == scan_arcs(model.symbol_view(), model.arc_view()).used,
    {
        let ghost t = model.symbol_view();
        let ghost arcs = model.arc_view();
        let mut used_symbols: Vec<String> = Vec::new();
        let mut used_pairs: Vec<(String, String, Span)> = Vec::new();
        let table = model.symbols();
        let model_arcs = model.arcs();
        let mut k: usize = 0;
        assert(arcs.take(0) =~= Seq::<SpecArc>::empty());
        assert(old(report)@ =~= old(report)@ + Seq::<SpecDiagnostic>::empty());
        assert(name_set(used_symbols@) =~= Set::<Seq<char>>::empty());
        while k < model_arcs.len()
            invariant
                k <= model_arcs.len(),
                t == model.symbol_view(),
                arcs == model.arc_view(),
                table@ == t,
                model_arcs@.map_values(|a: crate::analysis::semantic_model::Arc| a@) == arcs,
                ends_consistently_declared(t, arcs),
                report@ == old(report)@ + scan_arcs(t, arcs.take(k as int)).diagnostics,
                name_set(used_symbols@) == scan_arcs(t, arcs.take(k as int)).used,
                used_pairs@.map_values(|e: (String, String, Span)| (e.0@, e.1@, e.2)) == scan_arcs(
                    t,
                    arcs.take(k as int),
                ).seen,
            decreases model_arcs.len() - k,
        {
            let arc = &model_arcs[k];
            let ghost a = arcs[k as int];
            assert(a == arc@);
            assert(arcs.take(k + 1).drop_last() =~= arcs.take(k as int));
            assert(arcs.take(k + 1).last() == a);
            let ghost st = scan_arcs(t, arcs.take(k as int));
            let ghost before_used = used_symbols@;
            let ghost before_report = report@;
            let ghost before_pairs = used_pairs@;
            let left = table.get(arc.left());
            let right = table.get(arc.right());
            match left {
                Some(symbol) => {
                    used_symbols.push(arc.left().to_owned());
                },
                None => {},
            }
            match right {
                Some(symbol) => {
                    used_symbols.push(arc.right().to_owned());
                },
                None => {},
            }
            assert(name_set(used_symbols@) =~= scan_arc(t, st, a).used) by {
                assert forall|n: Seq<char>| name_set(used_symbols@).contains(n) implies scan_arc(
                    t,
                    st,
                    a,
                ).used.contains(n) by {
                    let m = choose|m: int| 0 <= m < used_symbols@.len() && (#[trigger] used_symbols@[m])@ == n;
                    if m < before_used.len() {
                        assert(used_symbols@[m] == before_used[m]);
                        assert(name_set(before_used).contains(n));
                    }
                }
                assert forall|n: Seq<char>| scan_arc(t, st, a).used.contains(n) implies name_set(
                    used_symbols@,
                ).contains(n) by {
                    if st.used.contains(n) {
                        assert(name_set(before_used).contains(n));
                        let m = choose|m: int| 0 <= m < before_used.len() && (#[trigger] before_used[m])@ == n;
                        assert(used_symbols@[m] == before_used[m]);
                    } else if lookup(t, a.left) is Some && n == a.left {
                        assert(used_symbols@[before_used.len() as int]@ == n);
                    } else {
                        assert(used_symbols@[used_symbols@.len() - 1]@ == n);
                    }
                }
            }
            let same = match (left, right) {
                (Some(Symbol::Place { .. }), Some(Symbol::Place { .. })) => true,
                (Some(Symbol::Transition { .. }), Some(Symbol::Transition { .. })) => true,
                _ => false,
            };
            if same {
                report.error(*arc.span(), Reason::BipartideViolation);
            }
            if *arc.weight() == 0 {
                report.error(*arc.span(), Reason::ZeroAsWeight);
            }
            if !(left.is_none() && right.is_none()) {
                match find_seen(&used_pairs, arc.left(), arc.right()) {
                    Some(first) => {
                        let mut related: Vec<Span> = Vec::new();
                        related.push(first);
                        assert(related@ =~= seq![first]);
                        report.error_with_related(*arc.span(), related, Reason::RedeclarationOfArc);
                    },
                    None => {
                        used_pairs.push((arc.left().to_owned(), arc.right().to_owned(), *arc.span()));
                        assert(used_pairs@.map_values(|e: (String, String, Span)| (e.0@, e.1@, e.2))
                            =~= st.seen.push((a.left, a.right, a.span)));
                    },
                }
            }
            assert(report@ =~= old(report)@ + scan_arc(t, st, a).diagnostics);
            k = k + 1;
        }
        assert(arcs.take(model_arcs.len() as int) =~= arcs);
        used_symbols
    }

    fn check_unused(model: &SemanticModel, used_symbols: &Vec<String>, report: &mut Report)
        requires
            forall|k: int|
                0 <= k < model.symbol_view().len() ==> !(#[trigger] model.symbol_view()[k] is Error),
        ensures
            final(report)@ == old(report)@ + unused_warnings(
                model.symbol_view(),
                name_set(used_symbols@),
            ),
    {
        let ghost t = model.symbol_view();
        let ghost used = name_set(used_symbols@);
        let table = model.symbols().table();
        let mut k: usize = 0;
        assert(t.take(0) =~= Seq::<SpecSymbol>::empty());
        assert(old(report)@ =~= old(report)@ + Seq::<SpecDiagnostic>::empty());
        while k < table.len()
            invariant
                k <= table.len(),
                t == model.symbol_view(),
                table@.map_values(|s: Symbol| s@) == t,
                used == name_set(used_symbols@),
                forall|m: int| 0 <= m < t.len() ==> !(#[trigger] t[m] is Error),
                report@ == old(report)@ + unused_warnings(t.take(k as int), used),
            decreases table.len() - k,
        {
            assert(t.take(k + 1).drop_last() =~= t.take(k as int));
            assert(t.take(k + 1).last() == table@[k as int]@);
            let symbol = &table[k];
            assert(!(t[k as int] is Error));
            let ghost before = report@;
            match (symbol.name(), symbol.span()) {
                (Some(name), Some(span)) => {
                    if !holds_name(used_symbols, name) {
                        report.warning(*span, Reason::UnusedSymbol);
                        assert(unused_warnings(t.take(k + 1), used) == unused_warnings(
                            t.take(k as int),
                            used,
                        ) + seq![warning_at(*span, Reason::UnusedSymbol)]);
                    } else {
                        assert(unused_warnings(t.take(k + 1), used) =~= unused_warnings(
                            t.take(k as int),
                            used,
                        ));
                    }
                },
                _ => {},
            }
            assert(report@ =~= old(report)@ + unused_warnings(t.take(k + 1), used));
            k = k + 1;
        }
        assert(t.take(table.len() as int) =~= t);
    }
}

} // verus!
