//! Declared symbols and the table that maps names to them.
use vstd::prelude::*;

use crate::analysis::report::{Reason, Report, Severity, SpecDiagnostic, error_with};
use crate::grammar::ast::{Program, SpecStatement, Statement, program_view};
use crate::span::Span;
use crate::text::str_eq;

verus! {

/// A declared place or transition, or the stand-in for a name that was not declared.
pub enum Symbol {
    Place { name: String, span: Span },
    Transition { name: String, span: Span },
    Error,
}

/// The view of a symbol.
pub enum SpecSymbol {
    Place { name: Seq<char>, span: Span },
    Transition { name: Seq<char>, span: Span },
    Error,
}

impl View for Symbol {
    type V = SpecSymbol;

    open spec fn view(&self) -> SpecSymbol {
        match self {
            Symbol::Place { name, span } => SpecSymbol::Place { name: name@, span: *span },
            Symbol::Transition { name, span } => SpecSymbol::Transition {
                name: name@,
                span: *span,
            },
            Symbol::Error => SpecSymbol::Error,
        }
    }
}

/// The name of a symbol; none for the error symbol.
pub open spec fn symbol_name(s: SpecSymbol) -> Option<Seq<char>> {
    match s {
        SpecSymbol::Place { name, .. } => Some(name),
        SpecSymbol::Transition { name, .. } => Some(name),
        SpecSymbol::Error => None,
    }
}

/// The range of a symbol's declaration; none for the error symbol.
pub open spec fn symbol_span(s: SpecSymbol) -> Option<Span> {
    match s {
        SpecSymbol::Place { span, .. } => Some(span),
        SpecSymbol::Transition { span, .. } => Some(span),
        SpecSymbol::Error => None,
    }
}

/// The first symbol of `t` named `name`.
pub open spec fn lookup(t: Seq<SpecSymbol>, name: Seq<char>) -> Option<SpecSymbol>
    decreases t.len(),
{
    if t.len() == 0 {
        None
    } else if symbol_name(t[0]) == Some(name) {
        Some(t[0])
    } else {
        lookup(t.drop_first(), name)
    }
}

/// The symbol that a statement declares, if it declares one.
pub open spec fn declared_by(s: SpecStatement) -> Seq<SpecSymbol> {
    match s {
        SpecStatement::Place { location, name, .. } => seq![
            SpecSymbol::Place { name, span: location },
        ],
        SpecStatement::Transition { location, name, .. } => seq![
            SpecSymbol::Transition { name, span: location },
        ],
        SpecStatement::Arc { .. } => Seq::empty(),
    }
}

/// The symbols that a program declares, in source order.
pub open spec fn declarations(p: Seq<SpecStatement>) -> Seq<SpecSymbol>
    decreases p.len(),
{
    if p.len() == 0 {
        Seq::empty()
    } else {
        declarations(p.drop_last()) + declared_by(p.last())
    }
}

/// Entering declarations into a table in order: the first declaration of each name enters the
/// table; each later one is reported as a redeclaration, pointing at the first.
pub open spec fn declare(ds: Seq<SpecSymbol>) -> (Seq<SpecSymbol>, Seq<SpecDiagnostic>)
    decreases ds.len(),
{
    if ds.len() == 0 {
        (Seq::empty(), Seq::empty())
    } else {
        let (t, d) = declare(ds.drop_last());
        let s = ds.last();
        match symbol_name(s) {
            Some(n) => match lookup(t, n) {
                Some(first) => (
                    t,
                    d.push(
                        error_with(
                            symbol_span(s).unwrap(),
                            seq![symbol_span(first).unwrap()],
                            Reason::RedeclarationOfSymbol,
                        ),
                    ),
                ),
                None => (t.push(s), d),
            },
            None => (t, d),
        }
    }
}

/// The symbol table of a program.
pub open spec fn table_of(p: Seq<SpecStatement>) -> Seq<SpecSymbol> {
    declare(declarations(p)).0
}

/// The redeclaration errors of a program.
pub open spec fn redeclarations_of(p: Seq<SpecStatement>) -> Seq<SpecDiagnostic> {
    declare(declarations(p)).1
}

/// Looking up in a table extended at the end finds the old match if there was one.
pub proof fn lemma_lookup_push(t: Seq<SpecSymbol>, s: SpecSymbol, name: Seq<char>)
    ensures
        lookup(t.push(s), name) == match lookup(t, name) {
            Some(x) => Some(x),
            None => if symbol_name(s) == Some(name) {
                Some(s)
            } else {
                None
            },
        },
    decreases t.len(),
{
    if t.len() == 0 {
        assert(t.push(s).drop_first() =~= Seq::<SpecSymbol>::empty());
    } else {
        assert(t.push(s).drop_first() =~= t.drop_first().push(s));
        lemma_lookup_push(t.drop_first(), s, name);
    }
}

/// A symbol found by `lookup` is in the table and has the name looked for.
pub proof fn lemma_lookup_found(t: Seq<SpecSymbol>, name: Seq<char>)
    ensures
        lookup(t, name) matches Some(s) ==> symbol_name(s) == Some(name) && t.contains(s),
        lookup(t, name) is None ==> forall|k: int| 0 <= k < t.len() ==> symbol_name(#[trigger] t[k]) != Some(name),
    decreases t.len(),
{
    if t.len() > 0 {
        lemma_lookup_found(t.drop_first(), name);
        if lookup(t, name) is None {
            assert forall|k: int| 0 <= k < t.len() implies symbol_name(#[trigger] t[k]) != Some(name) by {
                if k > 0 {
                    assert(t[k] == t.drop_first()[k - 1]);
                }
            }
        }
        if let Some(s) = lookup(t.drop_first(), name) {
            if symbol_name(t[0]) != Some(name) {
                assert(t.drop_first().contains(s));
                let k = choose|k: int| 0 <= k < t.drop_first().len() && t.drop_first()[k] == s;
                assert(t[k + 1] == s);
            }
        }
    }
}

/// No declaration is the error symbol.
pub proof fn lemma_declarations_not_error(p: Seq<SpecStatement>)
    ensures
        forall|k: int| 0 <= k < declarations(p).len() ==> !(#[trigger] declarations(p)[k] is Error),
    decreases p.len(),
{
    if p.len() > 0 {
        lemma_declarations_not_error(p.drop_last());
        let a = declarations(p.drop_last());
        let b = declared_by(p.last());
        assert forall|k: int| 0 <= k < declarations(p).len() implies !(
        #[trigger] declarations(p)[k] is Error) by {
            if k < a.len() {
                assert(declarations(p)[k] == a[k]);
            } else {
                assert(declarations(p)[k] == b[k - a.len()]);
            }
        }
    }
}

/// The table holds only symbols that were declared, so never the error symbol.
pub proof fn lemma_declare_not_error(ds: Seq<SpecSymbol>)
    requires
        forall|k: int| 0 <= k < ds.len() ==> !(#[trigger] ds[k] is Error),
    ensures
        forall|k: int| 0 <= k < declare(ds).0.len() ==> !(#[trigger] declare(ds).0[k] is Error),
    decreases ds.len(),
{
    if ds.len() > 0 {
        assert forall|k: int| 0 <= k < ds.drop_last().len() implies !(
        #[trigger] ds.drop_last()[k] is Error) by {
            assert(ds.drop_last()[k] == ds[k]);
        }
        lemma_declare_not_error(ds.drop_last());
        assert(!(ds[ds.len() - 1] is Error));
    }
}

/// The symbol table of a program never holds the error symbol.
pub proof fn lemma_table_not_error(p: Seq<SpecStatement>)
    ensures
        forall|k: int| 0 <= k < table_of(p).len() ==> !(#[trigger] table_of(p)[k] is Error),
{
    lemma_declarations_not_error(p);
    lemma_declare_not_error(declarations(p));
}

/// No two symbols of `ds` share a name.
pub open spec fn distinct_names(ds: Seq<SpecSymbol>) -> bool {
    forall|i: int, j: int|
        0 <= i < j < ds.len() ==> symbol_name(#[trigger] ds[i]) != symbol_name(#[trigger] ds[j])
}

/// Every diagnostic that entering declarations gives is an error.
pub proof fn lemma_declare_errors(ds: Seq<SpecSymbol>)
    ensures
        forall|k: int|
            0 <= k < declare(ds).1.len() ==> (#[trigger] declare(ds).1[k]).severity == Severity::Error,
    decreases ds.len(),
{
    if ds.len() > 0 {
        lemma_declare_errors(ds.drop_last());
        let d = declare(ds.drop_last()).1;
        assert forall|k: int| 0 <= k < declare(ds).1.len() implies (#[trigger] declare(
            ds,
        ).1[k]).severity == Severity::Error by {
            if k < d.len() {
                assert(declare(ds).1[k] == d[k]);
            }
        }
    }
}

/// When entering declarations reports no redeclaration, the table is the declarations
/// themselves, and no two of them share a name.
pub proof fn lemma_declare_clean(ds: Seq<SpecSymbol>)
    requires
        forall|k: int| 0 <= k < ds.len() ==> !(#[trigger] ds[k] is Error),
        declare(ds).1.len() == 0,
    ensures
        declare(ds).0 == ds,
        distinct_names(ds),
    decreases ds.len(),
{
    if ds.len() > 0 {
        let prev = ds.drop_last();
        let s = ds.last();
        assert forall|k: int| 0 <= k < prev.len() implies !(#[trigger] prev[k] is Error) by {
            assert(prev[k] == ds[k]);
        }
        assert(!(ds[ds.len() - 1] is Error));
        let n = symbol_name(s)->Some_0;
        lemma_lookup_found(prev, n);
        lemma_declare_clean(prev);
        assert(lookup(prev, n) is None);
        assert(ds =~= prev.push(s));
        assert forall|i: int, j: int| 0 <= i < j < ds.len() implies symbol_name(#[trigger] ds[i])
            != symbol_name(#[trigger] ds[j]) by {
            assert(ds[i] == prev[i]);
            if j < ds.len() - 1 {
                assert(ds[j] == prev[j]);
            }
        }
    }
}

impl Symbol {
    /// The symbol's name; none for the error symbol.
    pub fn name(&self) -> (r: Option<&str>)
        ensures
            match r {
                Some(n) => symbol_name(self@) == Some(n@),
                None => symbol_name(self@) is None,
            },
    {
        match self {
            Symbol::Place { name, .. } => Some(name.as_str()),
            Symbol::Transition { name, .. } => Some(name.as_str()),
            Symbol::Error => None,
        }
    }

    /// The range of the symbol's declaration; none for the error symbol.
    pub fn span(&self) -> (r: Option<&Span>)
        ensures
            match r {
                Some(s) => symbol_span(self@) == Some(*s),
                None => symbol_span(self@) is None,
            },
    {
        match self {
            Symbol::Place { span, .. } => Some(span),
            Symbol::Transition { span, .. } => Some(span),
            Symbol::Error => None,
        }
    }

    /// True for the error symbol.
    pub fn is_error(&self) -> (r: bool)
        ensures
            r == (self@ is Error),
    {
        match self {
            Symbol::Error => true,
            _ => false,
        }
    }
}

/// The declared symbols, one per name, in the order of their first declaration.
pub struct SymbolTable {
    symbols: Vec<Symbol>,
}

impl View for SymbolTable {
    type V = Seq<SpecSymbol>;

    closed spec fn view(&self) -> Seq<SpecSymbol> {
        self.symbols@.map_values(|s: Symbol| s@)
    }
}

/// Finds the first symbol of `symbols` named `name`.
fn find_symbol<'a>(symbols: &'a Vec<Symbol>, name: &str) -> (r: Option<&'a Symbol>)
    ensures
        match r {
            Some(s) => lookup(symbols@.map_values(|s: Symbol| s@), name@) == Some(s@),
            None => lookup(symbols@.map_values(|s: Symbol| s@), name@) is None,
        },
{
    let ghost t = symbols@.map_values(|s: Symbol| s@);
    let mut k: usize = 0;
    assert(t.skip(0) =~= t);
    while k < symbols.len()
        invariant
            k <= symbols.len(),
            t == symbols@.map_values(|s: Symbol| s@),
            lookup(t, name@) == lookup(t.skip(k as int), name@),
        decreases symbols.len() - k,
    {
        assert(t.skip(k as int)[0] == symbols@[k as int]@);
        assert(t.skip(k as int).drop_first() =~= t.skip(k + 1));
        match symbols[k].name() {
            Some(n) => {
                if str_eq(n, name) {
                    return Some(&symbols[k]);
                }
            },
            None => {},
        }
        k = k + 1;
    }
    assert(t.skip(k as int).len() == 0);
    None
}

impl SymbolTable {
    /// The symbol named `name`.
    pub fn get(&self, name: &str) -> (r: Option<&Symbol>)
        ensures
            match r {
                Some(s) => lookup(self@, name@) == Some(s@),
                None => lookup(self@, name@) is None,
            },
    {
        find_symbol(&self.symbols, name)
    }

    /// The symbols, in the order of their first declaration.
    pub fn table(&self) -> (r: &Vec<Symbol>)
        ensures
            r@.map_values(|s: Symbol| s@) == self@,
    {
        &self.symbols
    }

    /// Builds the table of the places and transitions that `ast` declares, and reports each
    /// redeclaration of a name as an error that points at the first declaration.
    pub fn from_ast(ast: &Program, report: &mut Report) -> (r: SymbolTable)
        ensures
            r@ == table_of(program_view(ast@)),
            final(report)@ == old(report)@ + redeclarations_of(program_view(ast@)),
    {
        let ghost p = program_view(ast@);
        let mut symbols: Vec<Symbol> = Vec::new();
        let mut k: usize = 0;
        assert(p.take(0) =~= Seq::<SpecStatement>::empty());
        assert(old(report)@ =~= old(report)@ + Seq::<SpecDiagnostic>::empty());
        while k < ast.len()
            invariant
                k <= ast.len(),
                p == program_view(ast@),
                symbols@.map_values(|s: Symbol| s@) == declare(declarations(p.take(k as int))).0,
                report@ == old(report)@ + declare(declarations(p.take(k as int))).1,
            decreases ast.len() - k,
        {
            let ghost before_t = symbols@.map_values(|s: Symbol| s@);
            let ghost before_r = report@;
            assert(p.take(k + 1).drop_last() =~= p.take(k as int));
            assert(p.take(k + 1).last() == ast@[k as int]@);
            let ghost ds = declarations(p.take(k as int));
            let declared = match &ast[k] {
                Statement::Place { location, name, .. } => Some(
                    (Symbol::Place { name: name.clone(), span: *location }, name, *location),
                ),
                Statement::Transition { location, name, .. } => Some(
                    (Symbol::Transition { name: name.clone(), span: *location }, name, *location),
                ),
                Statement::Arc { .. } => None,
            };
            match declared {
                Some((symbol, name, span)) => {
                    assert(declarations(p.take(k + 1)) =~= ds.push(symbol@));
                    assert(ds.push(symbol@).drop_last() =~= ds);
                    match find_symbol(&symbols, name.as_str()) {
                        Some(existing) => {
                            let first = match existing.span() {
                                Some(s) => *s,
                                None => span,
                            };
                            proof {
                                lemma_lookup_found(before_t, name@);
                            }
                            let mut related: Vec<Span> = Vec::new();
                            related.push(first);
                            assert(related@ =~= seq![first]);
                            report.error_with_related(
                                span,
                                related,
                                Reason::RedeclarationOfSymbol,
                            );
                            assert(report@ =~= old(report)@ + declare(declarations(p.take(k + 1))).1);
                        },
                        None => {
                            symbols.push(symbol);
                            assert(symbols@.map_values(|s: Symbol| s@) =~= before_t.push(
                                symbols@.last()@,
                            ));
                        },
                    }
                },
                None => {
                    assert(declarations(p.take(k + 1)) =~= ds);
                },
            }
            k = k + 1;
        }
        assert(p.take(ast.len() as int) =~= p);
        SymbolTable { symbols }
    }
}

} // verus!
