//! Diagnostics found by the analysis, and their rendering.
use vstd::prelude::*;

use crate::span::Span;
use crate::traits::{Outline, outline_of, span_fits};
use crate::text::utf8_len;

verus! {

/// How serious a diagnostic is.
#[derive(Clone, Copy, Debug, PartialEq, Eq, Structural)]
pub enum Severity {
    Error,
    Warning,
}

/// What a diagnostic is about.
#[derive(Clone, Copy, Debug, PartialEq, Eq, Structural)]
pub enum Reason {
    UnusedSymbol,
    UndefinedSymbol,
    RedeclarationOfSymbol,
    BipartideViolation,
    RedeclarationOfArc,
    ZeroAsWeight,
}

/// One finding: its severity, the range it is about, related ranges, and its reason.
#[derive(Debug)]
pub struct Diagnostic {
    severity: Severity,
    primary: Span,
    related: Vec<Span>,
    reason: Reason,
}

/// The view of a diagnostic.
pub struct SpecDiagnostic {
    pub severity: Severity,
    pub primary: Span,
    pub related: Seq<Span>,
    pub reason: Reason,
}

impl View for Diagnostic {
    type V = SpecDiagnostic;

    closed spec fn view(&self) -> SpecDiagnostic {
        SpecDiagnostic {
            severity: self.severity,
            primary: self.primary,
            related: self.related@,
            reason: self.reason,
        }
    }
}

/// An error about `primary` with no related ranges.
pub open spec fn error_at(primary: Span, reason: Reason) -> SpecDiagnostic {
    SpecDiagnostic { severity: Severity::Error, primary, related: Seq::empty(), reason }
}

/// An error about `primary` with related ranges.
pub open spec fn error_with(primary: Span, related: Seq<Span>, reason: Reason) -> SpecDiagnostic {
    SpecDiagnostic { severity: Severity::Error, primary, related, reason }
}

/// A warning about `primary`.
pub open spec fn warning_at(primary: Span, reason: Reason) -> SpecDiagnostic {
    SpecDiagnostic { severity: Severity::Warning, primary, related: Seq::empty(), reason }
}

/// True when some diagnostic of `ds` is an error.
pub open spec fn holds_error(ds: Seq<SpecDiagnostic>) -> bool {
    exists|k: int| 0 <= k < ds.len() && #[trigger] ds[k].severity == Severity::Error
}

/// An empty report holds no error; adding an error makes a report hold one, and adding a
/// warning leaves that as it was. So a report built by `new`, `error`, `error_with_related` and
/// `warning` holds an error exactly when one of the additions was an error.
pub proof fn law_errors_mark_the_report(
    ds: Seq<SpecDiagnostic>,
    span: Span,
    related: Seq<Span>,
    reason: Reason,
)
    ensures
        !holds_error(Seq::<SpecDiagnostic>::empty()),
        holds_error(ds.push(error_at(span, reason))),
        holds_error(ds.push(error_with(span, related, reason))),
        holds_error(ds.push(warning_at(span, reason))) == holds_error(ds),
{
    assert(ds.push(error_at(span, reason))[ds.len() as int].severity == Severity::Error);
    assert(ds.push(error_with(span, related, reason))[ds.len() as int].severity == Severity::Error);
    let w = ds.push(warning_at(span, reason));
    if holds_error(ds) {
        let k = choose|k: int| 0 <= k < ds.len() && #[trigger] ds[k].severity == Severity::Error;
        assert(w[k] == ds[k]);
    }
    if holds_error(w) {
        let k = choose|k: int| 0 <= k < w.len() && #[trigger] w[k].severity == Severity::Error;
        assert(k < ds.len());
        assert(w[k] == ds[k]);
    }
}

/// One call that adds a diagnostic to a report.
pub enum ReportCall {
    Error(Span, Reason),
    ErrorWithRelated(Span, Seq<Span>, Reason),
    Warning(Span, Reason),
}

/// The diagnostic that a call adds.
pub open spec fn call_diagnostic(c: ReportCall) -> SpecDiagnostic {
    match c {
        ReportCall::Error(span, reason) => error_at(span, reason),
        ReportCall::ErrorWithRelated(span, related, reason) => error_with(span, related, reason),
        ReportCall::Warning(span, reason) => warning_at(span, reason),
    }
}

/// The diagnostics of a report built by `new` and then the calls `calls`, in order.
pub open spec fn report_after(calls: Seq<ReportCall>) -> Seq<SpecDiagnostic>
    decreases calls.len(),
{
    if calls.len() == 0 {
        Seq::empty()
    } else {
        report_after(calls.drop_last()).push(call_diagnostic(calls.last()))
    }
}

/// A report built by `new` and a sequence of `error`, `error_with_related` and `warning` calls
/// holds an error (so `has_error` is true) exactly when one of the calls added an error.
pub proof fn law_has_error_after_calls(calls: Seq<ReportCall>)
    ensures
        holds_error(report_after(calls)) <==> exists|k: int|
            0 <= k < calls.len() && !(#[trigger] calls[k] is Warning),
    decreases calls.len(),
{
    if calls.len() == 0 {
        law_errors_mark_the_report(Seq::empty(), Span { start: 0, end: 0 }, Seq::empty(), Reason::UnusedSymbol);
    } else {
        let q = calls.drop_last();
        law_has_error_after_calls(q);
        let c = calls.last();
        match c {
            ReportCall::Error(span, reason) => {
                law_errors_mark_the_report(report_after(q), span, Seq::empty(), reason);
                assert(!(calls[calls.len() - 1] is Warning));
            },
            ReportCall::ErrorWithRelated(span, related, reason) => {
                law_errors_mark_the_report(report_after(q), span, related, reason);
                assert(!(calls[calls.len() - 1] is Warning));
            },
            ReportCall::Warning(span, reason) => {
                law_errors_mark_the_report(report_after(q), span, Seq::empty(), reason);
                if exists|k: int| 0 <= k < calls.len() && !(#[trigger] calls[k] is Warning) {
                    let k = choose|k: int| 0 <= k < calls.len() && !(#[trigger] calls[k] is Warning);
                    assert(q[k] == calls[k]);
                }
                if exists|k: int| 0 <= k < q.len() && !(#[trigger] q[k] is Warning) {
                    let k = choose|k: int| 0 <= k < q.len() && !(#[trigger] q[k] is Warning);
                    assert(q[k] == calls[k]);
                }
            },
        }
        if exists|k: int| 0 <= k < q.len() && !(#[trigger] q[k] is Warning) {
            let k = choose|k: int| 0 <= k < q.len() && !(#[trigger] q[k] is Warning);
            assert(q[k] == calls[k]);
        }
    }
}

/// The text of a severity: its name in color, and a colon.
pub open spec fn severity_text(s: Severity) -> Seq<char> {
    match s {
        Severity::Error => "\x1b[31mError\x1b[0m:"@,
        Severity::Warning => "\x1b[33mWarning\x1b[0m:"@,
    }
}

impl Severity {
    /// The severity's name in color, followed by a colon.
    pub fn to_string(&self) -> (r: String)
        ensures
            r@ == severity_text(*self),
    {
        match self {
            Severity::Error => "\x1b[31mError\x1b[0m:".to_owned(),
            Severity::Warning => "\x1b[33mWarning\x1b[0m:".to_owned(),
        }
    }
}

/// True when a range can be outlined in the source `src`.
pub open spec fn outlinable(src: Seq<char>, span: Span) -> bool {
    span_fits(src, span) && utf8_len(src) <= usize::MAX
}

/// True when a diagnostic can be rendered against `src`: its ranges fit the source, and a
/// redeclaration has the range of the first declaration among its related ranges.
pub open spec fn renderable(d: SpecDiagnostic, src: Seq<char>) -> bool {
    &&& outlinable(src, d.primary)
    &&& (d.reason == Reason::RedeclarationOfSymbol || d.reason == Reason::RedeclarationOfArc) ==> {
        &&& d.related.len() > 0
        &&& outlinable(src, d.related[0])
    }
}

/// The text of a diagnostic rendered against the source `src`.
pub open spec fn diagnostic_text(d: SpecDiagnostic, src: Seq<char>) -> Seq<char> {
    let severity = severity_text(d.severity);
    let outline = outline_of(src, d.primary);
    match d.reason {
        Reason::UnusedSymbol => severity + " Found unused but declared symbol: \n"@ + outline
            + "\nConsider removing the declaration, if this is intentional you can ignore this warning."@,
        Reason::UndefinedSymbol => severity + " Use of undeclared symbol: \n"@ + outline,
        Reason::RedeclarationOfSymbol => severity
            + " Redeclaration of already existing symbol.\nFirst found here:\n"@ + outline
            + "\n\nLater redeclared here:\n"@ + outline_of(src, d.related[0])
            + "\n\nConsider removing or renaming one of the symbols."@,
        Reason::BipartideViolation => severity
            + " Violation of the bipartide rule found. Arc must be either Place->Transition or Transition->Place:\nViolation found in:\n"@
            + outline + "\nNote: This error can also be cause by two subsequent undefined symbols."@,
        Reason::RedeclarationOfArc => severity
            + " Redeclaration of already existing arc.\nFirst found here:\n"@ + outline
            + "\n\nLater redeclared here:\n"@ + outline_of(src, d.related[0])
            + "\n\nConsider removing one declaration. If this was intentional try merging the arc declarations."@,
        Reason::ZeroAsWeight => severity
            + " Found arc weight that has been declared as 0, weights must be >= 1:\n"@ + outline,
    }
}

/// The texts of diagnostics rendered against `src`, separated by blank lines.
pub open spec fn report_text(ds: Seq<SpecDiagnostic>, src: Seq<char>) -> Seq<char>
    decreases ds.len(),
{
    if ds.len() == 0 {
        Seq::empty()
    } else if ds.len() == 1 {
        diagnostic_text(ds[0], src)
    } else {
        report_text(ds.drop_last(), src) + "\n\n"@ + diagnostic_text(ds.last(), src)
    }
}

impl Diagnostic {
    /// The diagnostic rendered against the source text `source`: severity, message and the
    /// outlined ranges.
    pub fn to_string(&self, source: &str) -> (r: String)
        requires
            renderable(self@, source@),
        ensures
            r@ == diagnostic_text(self@, source@),
    {
        let mut text = self.severity.to_string();
        match self.reason {
            Reason::UnusedSymbol => {
                let outline = source.outline(self.primary);
                text.append(" Found unused but declared symbol: \n");
                text.append(outline.as_str());
                text.append(
                    "\nConsider removing the declaration, if this is intentional you can ignore this warning.",
                );
            },
            Reason::UndefinedSymbol => {
                let outline = source.outline(self.primary);
                text.append(" Use of undeclared symbol: \n");
                text.append(outline.as_str());
            },
            Reason::RedeclarationOfSymbol => {
                let primary_outline = source.outline(self.primary);
                let related_outline = source.outline(self.related[0]);
                text.append(" Redeclaration of already existing symbol.\nFirst found here:\n");
                text.append(primary_outline.as_str());
                text.append("\n\nLater redeclared here:\n");
                text.append(related_outline.as_str());
                text.append("\n\nConsider removing or renaming one of the symbols.");
            },
            Reason::BipartideViolation => {
                let outline = source.outline(self.primary);
                text.append(
                    " Violation of the bipartide rule found. Arc must be either Place->Transition or Transition->Place:\nViolation found in:\n",
                );
                text.append(outline.as_str());
                text.append("\nNote: This error can also be cause by two subsequent undefined symbols.");
            },
            Reason::RedeclarationOfArc => {
                let primary_outline = source.outline(self.primary);
                let related_outline = source.outline(self.related[0]);
                text.append(" Redeclaration of already existing arc.\nFirst found here:\n");
                text.append(primary_outline.as_str());
                text.append("\n\nLater redeclared here:\n");
                text.append(related_outline.as_str());
                text.append(
                    "\n\nConsider removing one declaration. If this was intentional try merging the arc declarations.",
                );
            },
            Reason::ZeroAsWeight => {
                let outline = source.outline(self.primary);
                text.append(" Found arc weight that has been declared as 0, weights must be >= 1:\n");
                text.append(outline.as_str());
            },
        }
        text
    }
}

/// The diagnostics of an analysis, in the order they were found.
#[derive(Debug)]
pub struct Report {
    diagnostics: Vec<Diagnostic>,
}

impl View for Report {
    type V = Seq<SpecDiagnostic>;

    closed spec fn view(&self) -> Seq<SpecDiagnostic> {
        self.diagnostics@.map_values(|d: Diagnostic| d@)
    }
}

impl Report {
    /// An empty report.
    pub fn new() -> (r: Report)
        ensures
            r@ == Seq::<SpecDiagnostic>::empty(),
    {
        let r = Report { diagnostics: Vec::new() };
        assert(r@ =~= Seq::<SpecDiagnostic>::empty());
        r
    }

    /// Adds an error about `span`.
    pub fn error(&mut self, span: Span, reason: Reason)
        ensures
            final(self)@ == old(self)@.push(error_at(span, reason)),
    {
        let d = Diagnostic { severity: Severity::Error, primary: span, related: Vec::new(), reason };
        self.diagnostics.push(d);
        assert(d@ =~= error_at(span, reason));
        assert(self@ =~= old(self)@.push(error_at(span, reason)));
    }

    /// Adds an error about `primary` that refers to the ranges `related`.
    pub fn error_with_related(&mut self, primary: Span, related: Vec<Span>, reason: Reason)
        ensures
            final(self)@ == old(self)@.push(error_with(primary, related@, reason)),
    {
        let d = Diagnostic { severity: Severity::Error, primary, related, reason };
        self.diagnostics.push(d);
        assert(self@ =~= old(self)@.push(error_with(primary, related@, reason)));
    }

    /// Adds a warning about `span`.
    pub fn warning(&mut self, span: Span, reason: Reason)
        ensures
            final(self)@ == old(self)@.push(warning_at(span, reason)),
    {
        let d = Diagnostic {
            severity: Severity::Warning,
            primary: span,
            related: Vec::new(),
            reason,
        };
        self.diagnostics.push(d);
        assert(d@ =~= warning_at(span, reason));
        assert(self@ =~= old(self)@.push(warning_at(span, reason)));
    }

    /// True when every diagnostic can be rendered against the source text `source`.
    pub fn can_render(&self, source: &str) -> (r: bool)
        ensures
            r == forall|k: int| 0 <= k < self@.len() ==> renderable(#[trigger] self@[k], source@),
    {
        let cs = crate::text::chars_of(source);
        let mut k: usize = 0;
        while k < self.diagnostics.len()
            invariant
                k <= self.diagnostics.len(),
                cs@ == source@,
                self@.len() == self.diagnostics.len(),
                forall|m: int| 0 <= m < k ==> renderable(#[trigger] self@[m], source@),
            decreases self.diagnostics.len() - k,
        {
            assert(self@[k as int] == self.diagnostics@[k as int]@);
            let d = &self.diagnostics[k];
            if !crate::traits::fits_exec(&cs, d.primary) {
                return false;
            }
            if d.reason == Reason::RedeclarationOfSymbol || d.reason == Reason::RedeclarationOfArc {
                if d.related.len() == 0 {
                    return false;
                }
                if !crate::traits::fits_exec(&cs, d.related[0]) {
                    return false;
                }
            }
            k = k + 1;
        }
        true
    }

    /// The diagnostics rendered against the source text `source`, separated by blank lines.
    pub fn to_string(&self, source: &str) -> (r: String)
        requires
            forall|k: int| 0 <= k < self@.len() ==> renderable(#[trigger] self@[k], source@),
        ensures
            r@ == report_text(self@, source@),
    {
        let mut text = String::new();
        let mut k: usize = 0;
        assert(self@.take(0) =~= Seq::<SpecDiagnostic>::empty());
        while k < self.diagnostics.len()
            invariant
                k <= self.diagnostics.len(),
                self@.len() == self.diagnostics.len(),
                forall|m: int| 0 <= m < self@.len() ==> renderable(#[trigger] self@[m], source@),
                text@ == report_text(self@.take(k as int), source@),
            decreases self.diagnostics.len() - k,
        {
            assert(self@[k as int] == self.diagnostics@[k as int]@);
            assert(self@.take(k + 1).drop_last() =~= self@.take(k as int));
            assert(self@.take(k + 1).last() == self@[k as int]);
            let rendered = self.diagnostics[k].to_string(source);
            if k > 0 {
                text.append("\n\n");
            } else {
                assert(self@.take(1)[0] == self@[0]);
            }
            text.append(rendered.as_str());
            k = k + 1;
        }
        assert(self@.take(self.diagnostics.len() as int) =~= self@);
        text
    }

    /// True when some diagnostic is an error.
    pub fn has_error(&self) -> (r: bool)
        ensures
            r == holds_error(self@),
    {
        let mut k: usize = 0;
        while k < self.diagnostics.len()
            invariant
                k <= self.diagnostics.len(),
                self@.len() == self.diagnostics.len(),
                forall|m: int| 0 <= m < k ==> #[trigger] self@[m].severity != Severity::Error,
            decreases self.diagnostics.len() - k,
        {
            assert(self@[k as int] == self.diagnostics@[k as int]@);
            if self.diagnostics[k].severity == Severity::Error {
                assert(self@[k as int].severity == Severity::Error);
                return true;
            }
            k = k + 1;
        }
        false
    }
}

} // verus!
