//! What a clean analysis guarantees about the net that is built from the model.
use vstd::prelude::*;

use crate::analysis::analyzer::{analysis_report, analyzable, lemma_scan_no_same_kind, scan_arcs};
use crate::analysis::report::Severity;
use crate::analysis::semantic_model::{
    SpecArc, arcs_of, lemma_declaration_counts, lemma_declared_kinds, places_of, transitions_of,
};
use crate::analysis::symbol::{
    SpecSymbol, declarations, lemma_declarations_not_error, lemma_declare_clean,
    lemma_declare_errors, lemma_lookup_found, lemma_table_not_error, lookup, redeclarations_of,
    table_of,
};
use crate::grammar::ast::SpecStatement;
use crate::repl::runtime::{
    arc_fits, arc_role, convertible, lemma_index_positions, lemma_roles_in_range, net_in_range,
    net_index, net_of, role_place,
};

verus! {

/// A program whose analysis reports no error, and each of whose arcs names at least one
/// declared node, gives a model that the net can be built from (every arc joins a declared place
/// and a declared transition), and in the net built from it every input and output of a
/// transition is one of the net's places. So such a program can be simulated.
///
/// An arc whose two ends are both undeclared draws no error from the analysis, yet the net
/// cannot be built from it; such programs are left out.
pub proof fn law_clean_analysis_builds_net(p: Seq<SpecStatement>)
    requires
        p.len() <= usize::MAX,
        analyzable(p),
        forall|k: int|
            0 <= k < analysis_report(p).len() ==> (#[trigger] analysis_report(p)[k]).severity
                != Severity::Error,
        forall|k: int|
            0 <= k < arcs_of(p).len() ==> lookup(table_of(p), (#[trigger] arcs_of(p)[k]).left)
                is Some,
    ensures
        convertible(table_of(p), places_of(p), transitions_of(p), arcs_of(p)),
        net_in_range(net_of(table_of(p), places_of(p), transitions_of(p), arcs_of(p))),
{
    let ds = declarations(p);
    let t = table_of(p);
    let ps = places_of(p);
    let ts = transitions_of(p);
    let arcs = arcs_of(p);
    let rep = analysis_report(p);
    let red = redeclarations_of(p);
    let scan = scan_arcs(t, arcs);
    lemma_declare_errors(ds);
    if red.len() > 0 {
        assert(rep[0] == red[0]);
    }
    lemma_declarations_not_error(p);
    lemma_declare_clean(ds);
    assert(t == ds);
    lemma_table_not_error(p);
    assert forall|k: int| 0 <= k < scan.diagnostics.len() implies (
    #[trigger] scan.diagnostics[k]).severity != Severity::Error by {
        assert(rep[red.len() + k] == scan.diagnostics[k]);
    }
    lemma_scan_no_same_kind(t, arcs);
    lemma_declared_kinds(p);
    assert forall|i: int, j: int| 0 <= i < ps.len() && 0 <= j < ts.len() implies (
    #[trigger] ps[i]).name != (#[trigger] ts[j]).name by {
        assert(lookup(ds, ps[i].name) matches Some(SpecSymbol::Place { .. }));
        assert(lookup(ds, ts[j].name) matches Some(SpecSymbol::Transition { .. }));
    }
    lemma_declaration_counts(p);
    lemma_index_positions(ps, ts);
    let index = net_index(ps, ts);
    assert forall|k: int| 0 <= k < arcs.len() implies arc_fits(
        t,
        index,
        ts.len() as int,
        #[trigger] arcs[k],
    ) && role_place(arc_role(t, index, arcs[k])) < ps.len() by {
        let a = arcs[k];
        lemma_lookup_found(t, a.left);
        lemma_lookup_found(t, a.right);
        let l = lookup(t, a.left)->Some_0;
        let r = lookup(t, a.right)->Some_0;
        let li = choose|li: int| 0 <= li < t.len() && t[li] == l;
        let ri = choose|ri: int| 0 <= ri < t.len() && t[ri] == r;
        assert(!(t[li] is Error));
        assert(!(t[ri] is Error));
        if l is Place {
            let i = choose|i: int| 0 <= i < ps.len() && (#[trigger] ps[i]).name == a.left;
            let j = choose|j: int| 0 <= j < ts.len() && (#[trigger] ts[j]).name == a.right;
            assert(index[a.left] == i);
            assert(index[a.right] == j);
        } else {
            let j = choose|j: int| 0 <= j < ts.len() && (#[trigger] ts[j]).name == a.left;
            let i = choose|i: int| 0 <= i < ps.len() && (#[trigger] ps[i]).name == a.right;
            assert(index[a.left] == j);
            assert(index[a.right] == i);
        }
    }
    let roles = arcs.map_values(|a: SpecArc| arc_role(t, index, a));
    assert forall|k: int| 0 <= k < roles.len() implies role_place(#[trigger] roles[k])
        < ps.len() by {
        assert(roles[k] == arc_role(t, index, arcs[k]));
    }
    let net = net_of(t, ps, ts, arcs);
    assert forall|j: int| 0 <= j < net.transitions.len() implies {
        &&& crate::repl::runtime::arcs_in_range(
            (#[trigger] net.transitions[j]).inputs,
            net.places.len() as int,
        )
        &&& crate::repl::runtime::arcs_in_range(net.transitions[j].outputs, net.places.len() as int)
    } by {
        lemma_roles_in_range(roles, j, ps.len() as int);
    }
}

} // verus!
