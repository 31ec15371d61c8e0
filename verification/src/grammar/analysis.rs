//! A self-contained analyzer over the syntax tree, with its own report: redeclared names,
//! undefined names, bipartite violations, zero weights and duplicate arcs.
use vstd::prelude::*;

use crate::analysis::semantic_model::{SpecArc, arcs_of};
use crate::grammar::ast::{Program, SpecStatement, Statement, label_view, program_view};
use crate::span::Span;
use crate::text::str_eq;

verus! {

/// How serious a diagnostic is.
#[derive(Clone, Copy, Debug, PartialEq, Eq, Structural)]
pub enum Severity {
    Info,
    Warning,
    Error,
}

/// A declared place or transition, with everything its declaration says, or the stand-in for
/// an undefined name.
#[derive(Debug)]
pub enum Symbol {
    Place { name: String, label: Option<String>, tokens: usize, location: Span },
    Transition { name: String, label: Option<String>, location: Span },
    Error,
}

/// The view of a symbol.
pub enum SpecSymbol {
    Place { name: Seq<char>, label: Option<Seq<char>>, tokens: usize, location: Span },
    Transition { name: Seq<char>, label: Option<Seq<char>>, location: Span },
    Error,
}

impl View for Symbol {
    type V = SpecSymbol;

    open spec fn view(&self) -> SpecSymbol {
        match self {
            Symbol::Place { name, label, tokens, location } => SpecSymbol::Place {
                name: name@,
                label: label_view(*label),
                tokens: *tokens,
                location: *location,
            },
            Symbol::Transition { name, label, location } => SpecSymbol::Transition {
                name: name@,
                label: label_view(*label),
                location: *location,
            },
            Symbol::Error => SpecSymbol::Error,
        }
    }
}

/// The name of a symbol; empty for the error symbol.
pub open spec fn name_of(s: SpecSymbol) -> Seq<char> {
    match s {
        SpecSymbol::Place { name, .. } => name,
        SpecSymbol::Transition { name, .. } => name,
        SpecSymbol::Error => Seq::empty(),
    }
}

/// The range of a symbol's declaration; `0..0` for the error symbol.
pub open spec fn location_of(s: SpecSymbol) -> Span {
    match s {
        SpecSymbol::Place { location, .. } => location,
        SpecSymbol::Transition { location, .. } => location,
        SpecSymbol::Error => Span { start: 0, end: 0 },
    }
}

/// A copy of an optional text.
fn copy_label(l: &Option<String>) -> (r: Option<String>)
    ensures
        r == *l,
{
    match l {
        Some(s) => Some(s.clone()),
        None => None,
    }
}

impl Clone for Symbol {
    fn clone(&self) -> (r: Self)
        ensures
            r == *self,
    {
        match self {
            Symbol::Place { name, label, tokens, location } => Symbol::Place {
                name: name.clone(),
                label: copy_label(label),
                tokens: *tokens,
                location: *location,
            },
            Symbol::Transition { name, label, location } => Symbol::Transition {
                name: name.clone(),
                label: copy_label(label),
                location: *location,
            },
            Symbol::Error => Symbol::Error,
        }
    }
}

impl Symbol {
    /// The symbol's name; empty for the error symbol.
    pub fn name(&self) -> (r: &str)
        ensures
            r@ == name_of(self@),
    {
        match self {
            Symbol::Place { name, .. } => name.as_str(),
            Symbol::Transition { name, .. } => name.as_str(),
            Symbol::Error => {
                proof {
                    reveal_strlit("");
                }
                ""
            },
        }
    }

    /// The range of the symbol's declaration; `0..0` for the error symbol.
    pub fn location(&self) -> (r: Span)
        ensures
            r == location_of(self@),
    {
        match self {
            Symbol::Place { location, .. } => *location,
            Symbol::Transition { location, .. } => *location,
            Symbol::Error => Span::new(0, 0),
        }
    }
}

/// What a diagnostic is about.
#[derive(Debug)]
pub enum Reason {
    Redeclaration { first: Symbol, second: Symbol },
    UndefinedSymbol { symbol: String, location: Span },
    BipartideViolation { location: Span, left: Symbol, right: Symbol },
    UnusedSymbol { symbol: String },
    DuplicateArc { first: Span, second: Span },
    ZeroWeight,
}

/// The view of a reason.
pub enum SpecReason {
    Redeclaration { first: SpecSymbol, second: SpecSymbol },
    UndefinedSymbol { symbol: Seq<char>, location: Span },
    BipartideViolation { location: Span, left: SpecSymbol, right: SpecSymbol },
    UnusedSymbol { symbol: Seq<char> },
    DuplicateArc { first: Span, second: Span },
    ZeroWeight,
}

impl View for Reason {
    type V = SpecReason;

    open spec fn view(&self) -> SpecReason {
        match self {
            Reason::Redeclaration { first, second } => SpecReason::Redeclaration {
                first: first@,
                second: second@,
            },
            Reason::UndefinedSymbol { symbol, location } => SpecReason::UndefinedSymbol {
                symbol: symbol@,
                location: *location,
            },
            Reason::BipartideViolation { location, left, right } =>
                SpecReason::BipartideViolation { location: *location, left: left@, right: right@ },
            Reason::UnusedSymbol { symbol } => SpecReason::UnusedSymbol { symbol: symbol@ },
            Reason::DuplicateArc { first, second } => SpecReason::DuplicateArc {
                first: *first,
                second: *second,
            },
            Reason::ZeroWeight => SpecReason::ZeroWeight,
        }
    }
}

impl Clone for Reason {
    fn clone(&self) -> (r: Self)
        ensures
            r == *self,
    {
        match self {
            Reason::Redeclaration { first, second } => Reason::Redeclaration {
                first: first.clone(),
                second: second.clone(),
            },
            Reason::UndefinedSymbol { symbol, location } => Reason::UndefinedSymbol {
                symbol: symbol.clone(),
                location: *location,
            },
            Reason::BipartideViolation { location, left, right } => Reason::BipartideViolation {
                location: *location,
                left: left.clone(),
                right: right.clone(),
            },
            Reason::UnusedSymbol { symbol } => Reason::UnusedSymbol { symbol: symbol.clone() },
            Reason::DuplicateArc { first, second } => Reason::DuplicateArc {
                first: *first,
                second: *second,
            },
            Reason::ZeroWeight => Reason::ZeroWeight,
        }
    }
}

/// One finding: its severity, the range it is about, and its reason.
#[derive(Debug)]
pub struct Diagnostic {
    severity: Severity,
    span: Span,
    reason: Reason,
}

/// The view of a diagnostic.
pub struct SpecDiagnostic {
    pub severity: Severity,
    pub span: Span,
    pub reason: SpecReason,
}

impl View for Diagnostic {
    type V = SpecDiagnostic;

    closed spec fn view(&self) -> SpecDiagnostic {
        SpecDiagnostic { severity: self.severity, span: self.span, reason: self.reason@ }
    }
}

impl Clone for Diagnostic {
    fn clone(&self) -> (r: Self)
        ensures
            r@ == self@,
    {
        Diagnostic { severity: self.severity, span: self.span, reason: self.reason.clone() }
    }
}

/// An error about `span`.
pub open spec fn error(span: Span, reason: SpecReason) -> SpecDiagnostic {
    SpecDiagnostic { severity: Severity::Error, span, reason }
}

/// The diagnostics found, in order.
#[derive(Debug)]
pub struct Report {
    diagnostics: Vec<Diagnostic>,
}

impl View for Report {
    type V = Seq<SpecDiagnostic>;

    closed spec fn view(&self) -> Seq<SpecDiagnostic> {
        self.diagnostics@.map_values(|d: Diagnostic| d@)
    }
}

impl Clone for Report {
    fn clone(&self) -> (r: Self)
        ensures
            r@ == self@,
    {
        let mut diagnostics: Vec<Diagnostic> = Vec::new();
        let mut k: usize = 0;
        while k < self.diagnostics.len()
            invariant
                k <= self.diagnostics.len(),
                self@.len() == self.diagnostics.len(),
                diagnostics@.map_values(|d: Diagnostic| d@) == self@.take(k as int),
            decreases self.diagnostics.len() - k,
        {
            let ghost before = diagnostics@.map_values(|d: Diagnostic| d@);
            assert(self@[k as int] == self.diagnostics@[k as int]@);
            let copy = self.diagnostics[k].clone();
            diagnostics.push(copy);
            assert(diagnostics@.map_values(|d: Diagnostic| d@) =~= before.push(copy@));
            assert(self@.take(k + 1) =~= self@.take(k as int).push(self@[k as int]));
            assert(diagnostics@.map_values(|d: Diagnostic| d@) =~= self@.take(k + 1));
            k = k + 1;
        }
        assert(self@.take(self.diagnostics.len() as int) =~= self@);
        Report { diagnostics }
    }
}

impl Report {
    /// An empty report.
    pub fn new() -> (r: Report)
        ensures
            r@ == Seq::<SpecDiagnostic>::empty(),
    {
        let r = Report { diagnostics: Vec::new() };
        assert(r@ =~= Seq::<SpecDiagnostic>::empty());
        r
    }

    fn push(&mut self, d: Diagnostic)
        ensures
            final(self)@ == old(self)@.push(d@),
    {
        self.diagnostics.push(d);
        assert(self@ =~= old(self)@.push(d@));
    }
}

/// The symbol a statement declares, if it declares one.
pub open spec fn symbol_declared_by(s: SpecStatement) -> Seq<SpecSymbol> {
    match s {
        SpecStatement::Place { location, name, tokens, label } => seq![
            SpecSymbol::Place { name, label, tokens, location },
        ],
        SpecStatement::Transition { location, name, label } => seq![
            SpecSymbol::Transition { name, label, location },
        ],
        SpecStatement::Arc { .. } => Seq::empty(),
    }
}

/// The symbols that a program declares, in source order.
pub open spec fn symbol_declarations(p: Seq<SpecStatement>) -> Seq<SpecSymbol>
    decreases p.len(),
{
    if p.len() == 0 {
        Seq::empty()
    } else {
        symbol_declarations(p.drop_last()) + symbol_declared_by(p.last())
    }
}

/// The first symbol of `t` named `name`.
pub open spec fn find(t: Seq<SpecSymbol>, name: Seq<char>) -> Option<SpecSymbol>
    decreases t.len(),
{
    if t.len() == 0 {
        None
    } else if name_of(t[0]) == name {
        Some(t[0])
    } else {
        find(t.drop_first(), name)
    }
}

/// Entering declarations in order: the first of each name enters the table; each later one is
/// an error at its own range naming both declarations.
pub open spec fn enter(ds: Seq<SpecSymbol>) -> (Seq<SpecSymbol>, Seq<SpecDiagnostic>)
    decreases ds.len(),
{
    if ds.len() == 0 {
        (Seq::empty(), Seq::empty())
    } else {
        let (t, d) = enter(ds.drop_last());
        let s = ds.last();
        match find(t, name_of(s)) {
            Some(first) => (
                t,
                d.push(error(location_of(s), SpecReason::Redeclaration { first, second: s })),
            ),
            None => (t.push(s), d),
        }
    }
}

/// What the arc check has gathered: the names used, the arcs seen (by the names of their ends,
/// with their range), and the diagnostics.
pub struct ArcCheck {
    pub used: Set<Seq<char>>,
    pub seen: Seq<(Seq<char>, Seq<char>, Span)>,
    pub diagnostics: Seq<SpecDiagnostic>,
}

/// The range of the first arc in `seen` between the names `l` and `r`.
pub open spec fn seen_between(seen: Seq<(Seq<char>, Seq<char>, Span)>, l: Seq<char>, r: Seq<char>) -> Option<Span>
    decreases seen.len(),
{
    if seen.len() == 0 {
        None
    } else if seen[0].0 == l && seen[0].1 == r {
        Some(seen[0].2)
    } else {
        seen_between(seen.drop_first(), l, r)
    }
}

/// Checking one arc: each undefined end is an error and counts as the error symbol (with an
/// empty name); an arc between two places or two transitions is a bipartite violation naming
/// both; a weight of 0 is an error; an arc whose ends have the same names as an earlier one is a
/// duplicate pointing at it.
pub open spec fn check_arc(t: Seq<SpecSymbol>, st: ArcCheck, a: SpecArc) -> ArcCheck {
    let l = find(t, a.left);
    let r = find(t, a.right);
    let left = match l {
        Some(s) => s,
        None => SpecSymbol::Error,
    };
    let right = match r {
        Some(s) => s,
        None => SpecSymbol::Error,
    };
    let used1 = if l is Some {
        st.used.insert(a.left)
    } else {
        st.used
    };
    let used2 = if r is Some {
        used1.insert(a.right)
    } else {
        used1
    };
    let undefined_left = if l is None {
        seq![error(a.span, SpecReason::UndefinedSymbol { symbol: a.left, location: a.span })]
    } else {
        Seq::empty()
    };
    let undefined_right = if r is None {
        seq![error(a.span, SpecReason::UndefinedSymbol { symbol: a.right, location: a.span })]
    } else {
        Seq::empty()
    };
    let bipartite = match (left, right) {
        (SpecSymbol::Place { .. }, SpecSymbol::Place { .. })
        | (SpecSymbol::Transition { .. }, SpecSymbol::Transition { .. }) => seq![
            error(a.span, SpecReason::BipartideViolation { location: a.span, left, right }),
        ],
        _ => Seq::empty(),
    };
    let zero = if a.weight == 0 {
        seq![error(a.span, SpecReason::ZeroWeight)]
    } else {
        Seq::empty()
    };
    let diagnostics = st.diagnostics + undefined_left + undefined_right + bipartite + zero;
    match seen_between(st.seen, name_of(left), name_of(right)) {
        Some(first) => ArcCheck {
            used: used2,
            seen: st.seen,
            diagnostics: diagnostics.push(
                error(a.span, SpecReason::DuplicateArc { first, second: a.span }),
            ),
        },
        None => ArcCheck {
            used: used2,
            seen: st.seen.push((name_of(left), name_of(right), a.span)),
            diagnostics,
        },
    }
}

/// Checking the arcs in order.
pub open spec fn check_all_arcs(t: Seq<SpecSymbol>, arcs: Seq<SpecArc>) -> ArcCheck
    decreases arcs.len(),
{
    if arcs.len() == 0 {
        ArcCheck { used: Set::empty(), seen: Seq::empty(), diagnostics: Seq::empty() }
    } else {
        check_arc(t, check_all_arcs(t, arcs.drop_last()), arcs.last())
    }
}

/// A warning for each symbol of the table whose name is not in `used`, in table order.
pub open spec fn unused(t: Seq<SpecSymbol>, used: Set<Seq<char>>) -> Seq<SpecDiagnostic>
    decreases t.len(),
{
    if t.len() == 0 {
        Seq::empty()
    } else {
        unused(t.drop_last(), used) + if used.contains(name_of(t.last())) {
            Seq::empty()
        } else {
            seq![
                SpecDiagnostic {
                    severity: Severity::Warning,
                    span: location_of(t.last()),
                    reason: SpecReason::UnusedSymbol { symbol: name_of(t.last()) },
                },
            ]
        }
    }
}

/// The diagnostics of an analysis of `p`: the redeclarations, then the arc checks.
pub open spec fn findings(p: Seq<SpecStatement>) -> Seq<SpecDiagnostic> {
    let (t, d) = enter(symbol_declarations(p));
    d + check_all_arcs(t, arcs_of(p)).diagnostics
}

/// The set of names held by `v`.
pub open spec fn names_in(v: Seq<String>) -> Set<Seq<char>> {
    Set::new(|n: Seq<char>| exists|k: int| 0 <= k < v.len() && (#[trigger] v[k])@ == n)
}

/// The first symbol of `symbols` named `name`.
fn find_in<'a>(symbols: &'a Vec<Symbol>, name: &str) -> (r: Option<&'a Symbol>)
    ensures
        match r {
            Some(s) => find(symbols@.map_values(|s: Symbol| s@), name@) == Some(s@),
            None => find(symbols@.map_values(|s: Symbol| s@), name@) is None,
        },
{
    let ghost t = symbols@.map_values(|s: Symbol| s@);
    let mut k: usize = 0;
    assert(t.skip(0) =~= t);
    while k < symbols.len()
        invariant
            k <= symbols.len(),
            t == symbols@.map_values(|s: Symbol| s@),
            find(t, name@) == find(t.skip(k as int), name@),
        decreases symbols.len() - k,
    {
        assert(t.skip(k as int)[0] == symbols@[k as int]@);
        assert(t.skip(k as int).drop_first() =~= t.skip(k + 1));
        if str_eq(symbols[k].name(), name) {
            return Some(&symbols[k]);
        }
        k = k + 1;
    }
    None
}

/// The range of the first arc in `seen` between the names `l` and `r`.
fn find_between(seen: &Vec<(String, String, Span)>, l: &str, r: &str) -> (res: Option<Span>)
    ensures
        res == seen_between(seen@.map_values(|e: (String, String, Span)| (e.0@, e.1@, e.2)), l@, r@),
{
    let ghost v = seen@.map_values(|e: (String, String, Span)| (e.0@, e.1@, e.2));
    let mut k: usize = 0;
    assert(v.skip(0) =~= v);
    while k < seen.len()
        invariant
            k <= seen.len(),
            v == seen@.map_values(|e: (String, String, Span)| (e.0@, e.1@, e.2)),
            seen_between(v, l@, r@) == seen_between(v.skip(k as int), l@, r@),
        decreases seen.len() - k,
    {
        assert(v.skip(k as int)[0] == v[k as int]);
        assert(v.skip(k as int).drop_first() =~= v.skip(k + 1));
        if str_eq(seen[k].0.as_str(), l) && str_eq(seen[k].1.as_str(), r) {
            return Some(seen[k].2);
        }
        k = k + 1;
    }
    None
}

/// The analyzer: a program and the report being filled.
pub struct Analyzer {
    report: Report,
    ast: Program,
}

impl Analyzer {
    /// The diagnostics reported so far.
    pub closed spec fn report_view(&self) -> Seq<SpecDiagnostic> {
        self.report@
    }

    /// The program being analyzed.
    pub closed spec fn program(&self) -> Seq<SpecStatement> {
        program_view(self.ast@)
    }

    /// An analyzer for `ast`, with an empty report.
    pub fn new(ast: Program) -> (r: Analyzer)
        ensures
            r.report_view() == Seq::<SpecDiagnostic>::empty(),
            r.program() == program_view(ast@),
    {
        Analyzer { report: Report::new(), ast }
    }

    /// Analyzes the program: adds the redeclarations, undefined names, bipartite violations,
    /// zero weights and duplicate arcs to the report, and gives a copy of the report.
    pub fn analyze(&mut self) -> (r: Report)
        ensures
            final(self).program() == old(self).program(),
            final(self).report_view() == old(self).report_view() + findings(old(self).program()),
            r@ == final(self).report_view(),
    {
        let symbol_table = self.symbol_table();
        let _used_symbols = self.check_bipartide(&symbol_table);
        assert(self.report_view() =~= old(self).report_view() + findings(old(self).program()));
        self.report.clone()
    }

    fn symbol_table(&mut self) -> (r: Vec<Symbol>)
        ensures
            final(self).program() == old(self).program(),
            r@.map_values(|s: Symbol| s@) == enter(symbol_declarations(old(self).program())).0,
            final(self).report_view() == old(self).report_view() + enter(
                symbol_declarations(old(self).program()),
            ).1,
    {
        let ghost p = self.program();
        let mut table: Vec<Symbol> = Vec::new();
        let mut k: usize = 0;
        assert(p.take(0) =~= Seq::<SpecStatement>::empty());
        assert(old(self).report_view() =~= old(self).report_view() + Seq::<SpecDiagnostic>::empty());
        while k < self.ast.len()
            invariant
                k <= self.ast.len(),
                p == self.program(),
                p == old(self).program(),
                table@.map_values(|s: Symbol| s@) == enter(symbol_declarations(p.take(k as int))).0,
                self.report_view() == old(self).report_view() + enter(
                    symbol_declarations(p.take(k as int)),
                ).1,
            decreases self.ast.len() - k,
        {
            assert(p.take(k + 1).drop_last() =~= p.take(k as int));
            assert(p.take(k + 1).last() == self.ast@[k as int]@);
            let ghost ds = symbol_declarations(p.take(k as int));
            let ghost before_t = table@.map_values(|s: Symbol| s@);
            let symbol = match &self.ast[k] {
                Statement::Place { location, name, tokens, label } => Some(
                    Symbol::Place {
                        name: name.clone(),
                        label: copy_label(label),
                        tokens: *tokens,
                        location: *location,
                    },
                ),
                Statement::Transition { location, name, label } => Some(
                    Symbol::Transition {
                        name: name.clone(),
                        label: copy_label(label),
                        location: *location,
                    },
                ),
                Statement::Arc { .. } => None,
            };
            match symbol {
                Some(symbol) => {
                    assert(symbol_declarations(p.take(k + 1)) =~= ds.push(symbol@));
                    assert(ds.push(symbol@).drop_last() =~= ds);
                    match find_in(&table, symbol.name()) {
                        Some(existing) => {
                            let first = existing.clone();
                            let span = symbol.location();
                            self.report.push(
                                Diagnostic {
                                    severity: Severity::Error,
                                    span,
                                    reason: Reason::Redeclaration { first, second: symbol },
                                },
                            );
                            assert(self.report_view() =~= old(self).report_view() + enter(
                                symbol_declarations(p.take(k + 1)),
                            ).1);
                        },
                        None => {
                            table.push(symbol);
                            assert(table@.map_values(|s: Symbol| s@) =~= before_t.push(
                                table@.last()@,
                            ));
                        },
                    }
                },
                None => {
                    assert(symbol_declarations(p.take(k + 1)) =~= ds);
                },
            }
            k = k + 1;
        }
        assert(p.take(self.ast.len() as int) =~= p);
        table
    }

    fn check_bipartide(&mut self, symbol_table: &Vec<Symbol>) -> (r: Vec<String>)
        ensures
            final(self).program() == old(self).program(),
            final(self).report_view() == old(self).report_view() + check_all_arcs(
                symbol_table@.map_values(|s: Symbol| s@),
                arcs_of(old(self).program()),
            ).diagnostics,
            names_in(r@) == check_all_arcs(
                symbol_table@.map_values(|s: Symbol| s@),
                arcs_of(old(self).program()),
            ).used,
    {
        let ghost t = symbol_table@.map_values(|s: Symbol| s@);
        let ghost p = self.program();
        let mut used_symbols: Vec<String> = Vec::new();
        let mut used_pairs: Vec<(String, String, Span)> = Vec::new();
        let mut diagnostics: Vec<Diagnostic> = Vec::new();
        let error_symbol = Symbol::Error;
        let mut k: usize = 0;
        assert(p.take(0) =~= Seq::<SpecStatement>::empty());
        assert(names_in(used_symbols@) =~= Set::<Seq<char>>::empty());
        assert(diagnostics@.map_values(|d: Diagnostic| d@) =~= Seq::<SpecDiagnostic>::empty());
        while k < self.ast.len()
            invariant
                k <= self.ast.len(),
                p == self.program(),
                p == old(self).program(),
                self.report_view() == old(self).report_view(),
                t == symbol_table@.map_values(|s: Symbol| s@),
                error_symbol@ == SpecSymbol::Error,
                diagnostics@.map_values(|d: Diagnostic| d@) == check_all_arcs(
                    t,
                    arcs_of(p.take(k as int)),
                ).diagnostics,
                names_in(used_symbols@) == check_all_arcs(t, arcs_of(p.take(k as int))).used,
                used_pairs@.map_values(|e: (String, String, Span)| (e.0@, e.1@, e.2))
                    == check_all_arcs(t, arcs_of(p.take(k as int))).seen,
            decreases self.ast.len() - k,
        {
            assert(p.take(k + 1).drop_last() =~= p.take(k as int));
            assert(p.take(k + 1).last() == self.ast@[k as int]@);
            let ghost done = arcs_of(p.take(k as int));
            match &self.ast[k] {
                Statement::Arc { location, pairs } => {
                    let ghost these = pairs_arcs(pairs@, *location);
                    assert(arcs_of(p.take(k + 1)) == done + these);
                    let mut m: usize = 0;
                    assert(these.take(0) =~= Seq::<SpecArc>::empty());
                    assert(done + these.take(0) =~= done);
                    while m < pairs.len()
                        invariant
                            m <= pairs.len(),
                            t == symbol_table@.map_values(|s: Symbol| s@),
                            error_symbol@ == SpecSymbol::Error,
                            these == pairs_arcs(pairs@, *location),
                            diagnostics@.map_values(|d: Diagnostic| d@) == check_all_arcs(
                                t,
                                done + these.take(m as int),
                            ).diagnostics,
                            names_in(used_symbols@) == check_all_arcs(
                                t,
                                done + these.take(m as int),
                            ).used,
                            used_pairs@.map_values(|e: (String, String, Span)| (e.0@, e.1@, e.2))
                                == check_all_arcs(t, done + these.take(m as int)).seen,
                        decreases pairs.len() - m,
                    {
                        let ghost a = these[m as int];
                        assert((done + these.take(m + 1)).drop_last() =~= done + these.take(m as int));
                        assert((done + these.take(m + 1)).last() == a);
                        let ghost st = check_all_arcs(t, done + these.take(m as int));
                        self.check_one_arc(
                            symbol_table,
                            &error_symbol,
                            &pairs[m].0,
                            &pairs[m].1,
                            pairs[m].2,
                            *location,
                            &mut used_symbols,
                            &mut used_pairs,
                            &mut diagnostics,
                        );
                        m = m + 1;
                    }
                    assert(these.take(pairs.len() as int) =~= these);
                },
                _ => {
                    assert(arcs_of(p.take(k + 1)) =~= done);
                },
            }
            k = k + 1;
        }
        assert(p.take(self.ast.len() as int) =~= p);
        let ghost before = self.report_view();
        let mut d = diagnostics;
        let mut i: usize = 0;
        let ghost ds = d@.map_values(|d: Diagnostic| d@);
        while i < d.len()
            invariant
                i <= d.len(),
                ds == d@.map_values(|d: Diagnostic| d@),
                self.report_view() == before + ds.take(i as int),
                p == self.program(),
            decreases d.len() - i,
        {
            self.report.push(d[i].clone());
            assert(ds.take(i + 1) =~= ds.take(i as int).push(ds[i as int]));
            i = i + 1;
        }
        assert(ds.take(d.len() as int) =~= ds);
        used_symbols
    }

    fn check_one_arc(
        &self,
        symbol_table: &Vec<Symbol>,
        error_symbol: &Symbol,
        left_name: &String,
        right_name: &String,
        weight: usize,
        location: Span,
        used_symbols: &mut Vec<String>,
        used_pairs: &mut Vec<(String, String, Span)>,
        diagnostics: &mut Vec<Diagnostic>,
    )
        requires
            error_symbol@ == SpecSymbol::Error,
        ensures
            ({
                let t = symbol_table@.map_values(|s: Symbol| s@);
                let st = ArcCheck {
                    used: names_in(old(used_symbols)@),
                    seen: old(used_pairs)@.map_values(
                        |e: (String, String, Span)| (e.0@, e.1@, e.2),
                    ),
                    diagnostics: old(diagnostics)@.map_values(|d: Diagnostic| d@),
                };
                let a = SpecArc {
                    left: left_name@,
                    right: right_name@,
                    weight,
                    span: location,
                };
                let next = check_arc(t, st, a);
                &&& names_in(final(used_symbols)@) == next.used
                &&& final(used_pairs)@.map_values(|e: (String, String, Span)| (e.0@, e.1@, e.2))
                    == next.seen
                &&& final(diagnostics)@.map_values(|d: Diagnostic| d@) == next.diagnostics
            }),
    {
        let ghost t = symbol_table@.map_values(|s: Symbol| s@);
        let ghost used0 = used_symbols@;
        let ghost diags0 = diagnostics@.map_values(|d: Diagnostic| d@);
        let found_left = find_in(symbol_table, left_name.as_str());
        let left = match found_left {
            Some(symbol) => {
                used_symbols.push(left_name.clone());
                symbol
            },
            None => {
                diagnostics.push(
                    Diagnostic {
                        severity: Severity::Error,
                        span: location,
                        reason: Reason::UndefinedSymbol { symbol: left_name.clone(), location },
                    },
                );
                error_symbol
            },
        };
        let ghost used1 = used_symbols@;
        let found_right = find_in(symbol_table, right_name.as_str());
        let right = match found_right {
            Some(symbol) => {
                used_symbols.push(right_name.clone());
                symbol
            },
            None => {
                diagnostics.push(
                    Diagnostic {
                        severity: Severity::Error,
                        span: location,
                        reason: Reason::UndefinedSymbol { symbol: right_name.clone(), location },
                    },
                );
                error_symbol
            },
        };
        let same = match (left, right) {
            (Symbol::Place { .. }, Symbol::Place { .. }) => true,
            (Symbol::Transition { .. }, Symbol::Transition { .. }) => true,
            _ => false,
        };
        if same {
            diagnostics.push(
                Diagnostic {
                    severity: Severity::Error,
                    span: location,
                    reason: Reason::BipartideViolation {
                        location,
                        left: left.clone(),
                        right: right.clone(),
                    },
                },
            );
        }
        if weight == 0 {
            diagnostics.push(
                Diagnostic { severity: Severity::Error, span: location, reason: Reason::ZeroWeight },
            );
        }
        match find_between(used_pairs, left.name(), right.name()) {
            Some(first) => {
                diagnostics.push(
                    Diagnostic {
                        severity: Severity::Error,
                        span: location,
                        reason: Reason::DuplicateArc { first, second: location },
                    },
                );
            },
            None => {
                used_pairs.push((left.name().to_owned(), right.name().to_owned(), location));
            },
        }
        proof {
            let st = ArcCheck {
                used: names_in(old(used_symbols)@),
                seen: old(used_pairs)@.map_values(|e: (String, String, Span)| (e.0@, e.1@, e.2)),
                diagnostics: old(diagnostics)@.map_values(|d: Diagnostic| d@),
            };
            let a = SpecArc { left: left_name@, right: right_name@, weight, span: location };
            let next = check_arc(t, st, a);
            assert(final(diagnostics)@.map_values(|d: Diagnostic| d@) =~= next.diagnostics);
            assert(final(used_pairs)@.map_values(|e: (String, String, Span)| (e.0@, e.1@, e.2))
                =~= next.seen);
            assert(names_in(final(used_symbols)@) =~= next.used) by {
                assert forall|n: Seq<char>| names_in(final(used_symbols)@).contains(n) implies next.used.contains(n) by {
                    let m = choose|m: int| 0 <= m < final(used_symbols)@.len() && (#[trigger] final(used_symbols)@[m])@ == n;
                    if m < used0.len() {
                        assert(final(used_symbols)@[m] == used0[m]);
                        assert(names_in(used0).contains(n));
                    }
                }
                assert forall|n: Seq<char>| next.used.contains(n) implies names_in(final(used_symbols)@).contains(n) by {
                    if names_in(used0).contains(n) {
                        let m = choose|m: int| 0 <= m < used0.len() && (#[trigger] used0[m])@ == n;
                        assert(final(used_symbols)@[m] == used0[m]);
                    } else if found_left is Some && n == left_name@ {
                        assert(final(used_symbols)@[used0.len() as int]@ == n);
                    } else {
                        assert(final(used_symbols)@[final(used_symbols)@.len() - 1]@ == n);
                    }
                }
            }
        }
    }

    fn check_unused(&mut self, symbol_table: &Vec<Symbol>, used_symbols: &Vec<String>)
        ensures
            final(self).program() == old(self).program(),
            final(self).report_view() == old(self).report_view() + unused(
                symbol_table@.map_values(|s: Symbol| s@),
                names_in(used_symbols@),
            ),
    {
        let ghost t = symbol_table@.map_values(|s: Symbol| s@);
        let ghost used = names_in(used_symbols@);
        let mut k: usize = 0;
        assert(t.take(0) =~= Seq::<SpecSymbol>::empty());
        assert(old(self).report_view() =~= old(self).report_view() + Seq::<SpecDiagnostic>::empty());
        while k < symbol_table.len()
            invariant
                k <= symbol_table.len(),
                t == symbol_table@.map_values(|s: Symbol| s@),
                used == names_in(used_symbols@),
                self.program() == old(self).program(),
                self.report_view() == old(self).report_view() + unused(t.take(k as int), used),
            decreases symbol_table.len() - k,
        {
            assert(t.take(k + 1).drop_last() =~= t.take(k as int));
            assert(t.take(k + 1).last() == symbol_table@[k as int]@);
            let symbol = &symbol_table[k];
            let name = symbol.name();
            let mut present = false;
            let mut m: usize = 0;
            while m < used_symbols.len()
                invariant
                    m <= used_symbols.len(),
                    present == exists|q: int| 0 <= q < m && (#[trigger] used_symbols@[q])@ == name@,
                decreases used_symbols.len() - m,
            {
                if str_eq(used_symbols[m].as_str(), name) {
                    present = true;
                }
                m = m + 1;
            }
            if !present {
                self.report.push(
                    Diagnostic {
                        severity: Severity::Warning,
                        span: symbol.location(),
                        reason: Reason::UnusedSymbol { symbol: name.to_owned() },
                    },
                );
            }
            assert(self.report_view() =~= old(self).report_view() + unused(t.take(k + 1), used));
            k = k + 1;
        }
        assert(t.take(symbol_table.len() as int) =~= t);
    }
}

/// The arcs of one arc statement's triples, each with the statement's range.
pub open spec fn pairs_arcs(pairs: Seq<(String, String, usize)>, location: Span) -> Seq<SpecArc> {
    pairs.map_values(
        |p: (String, String, usize)| SpecArc { left: p.0@, right: p.1@, weight: p.2, span: location },
    )
}

} // verus!
