//! Outlining a range of the source text.
use vstd::prelude::*;

use crate::grammar::lexer::{CharClass, skip_class};
use crate::span::Span;
use crate::text::{
    byte_offset, char_len_utf8, chars_of, lemma_byte_offset_bounds, lemma_byte_offset_step,
    lemma_byte_offset_strict, push_char, push_range, push_repeated, utf8_len, utf8_len_of_range,
};

verus! {

/// True when `span` starts and ends on character boundaries of `cs`, in order: the range can be
/// cut out of the text.
pub open spec fn span_fits(cs: Seq<char>, span: Span) -> bool {
    exists|i: int, j: int|
        0 <= i <= j <= cs.len() && byte_offset(cs, i) == span.start && byte_offset(cs, j)
            == span.end
}

/// The characters of `cs` that `span` covers.
pub open spec fn span_chars(cs: Seq<char>, span: Span) -> Seq<char> {
    let (i, j) = choose|i: int, j: int|
        0 <= i <= j <= cs.len() && byte_offset(cs, i) == span.start && byte_offset(cs, j)
            == span.end;
    cs.subrange(i, j)
}

/// A line without the carriage return that ends it, if it has one.
pub open spec fn strip_cr(l: Seq<char>) -> Seq<char> {
    if l.len() > 0 && l.last() == '\r' {
        l.drop_last()
    } else {
        l
    }
}

/// The lines of a text, as `str::lines` gives them: split after each line feed, which is
/// removed with a carriage return in front of it; a last line without a line feed is kept as it
/// is; no line follows a final line feed.
pub open spec fn lines(s: Seq<char>) -> Seq<Seq<char>>
    decreases s.len(),
{
    if s.len() == 0 {
        Seq::empty()
    } else {
        let k = skip_class(s, 0, CharClass::NotNewline);
        if k < s.len() {
            if 0 <= k {
                seq![strip_cr(s.take(k))] + lines(s.skip(k + 1))
            } else {
                Seq::empty()
            }
        } else {
            seq![s]
        }
    }
}

/// A caret for each byte of `l`.
pub open spec fn carets(l: Seq<char>) -> Seq<char> {
    Seq::new(utf8_len(l), |k: int| '^')
}

/// Each line followed by a line of carets as long as it is in bytes, all joined by line feeds.
pub open spec fn outline_lines(ls: Seq<Seq<char>>) -> Seq<char>
    decreases ls.len(),
{
    if ls.len() == 0 {
        Seq::empty()
    } else if ls.len() == 1 {
        ls[0] + seq!['\n'] + carets(ls[0])
    } else {
        ls[0] + seq!['\n'] + carets(ls[0]) + seq!['\n'] + outline_lines(ls.drop_first())
    }
}

/// The outline of the range `span` of the text `cs`.
pub open spec fn outline_of(cs: Seq<char>, span: Span) -> Seq<char> {
    outline_lines(lines(span_chars(cs, span)))
}

/// The outline of lines, each but the first preceded by a line feed when `first` is false.
pub open spec fn outline_continue(first: bool, ls: Seq<Seq<char>>) -> Seq<char>
    decreases ls.len(),
{
    if ls.len() == 0 {
        Seq::empty()
    } else {
        (if first {
            Seq::empty()
        } else {
            seq!['\n']
        }) + ls[0] + seq!['\n'] + carets(ls[0]) + outline_continue(false, ls.drop_first())
    }
}

/// The outline of lines is their continued outline from the first line on.
pub proof fn lemma_outline_continue(ls: Seq<Seq<char>>)
    ensures
        outline_lines(ls) == outline_continue(true, ls),
        ls.len() > 0 ==> outline_continue(false, ls) == seq!['\n'] + outline_lines(ls),
    decreases ls.len(),
{
    if ls.len() > 0 {
        let rest = ls.drop_first();
        lemma_outline_continue(rest);
        if ls.len() == 1 {
            assert(rest.len() == 0);
            assert(outline_continue(false, rest) == Seq::<char>::empty());
            assert(outline_continue(true, ls) =~= outline_lines(ls));
            assert(outline_continue(false, ls) =~= seq!['\n'] + outline_lines(ls));
        } else {
            assert(outline_continue(false, rest) == seq!['\n'] + outline_lines(rest));
            assert(outline_continue(true, ls) =~= outline_lines(ls));
            assert(outline_continue(false, ls) =~= seq!['\n'] + outline_lines(ls));
        }
    }
}

/// The index of the first line feed in `cs[q..j]`, or `j`.
fn find_newline(cs: &Vec<char>, q: usize, j: usize) -> (e: usize)
    requires
        q <= j <= cs.len(),
    ensures
        q <= e <= j,
        e - q == skip_class(cs@.subrange(q as int, j as int), 0, CharClass::NotNewline),
        e < j ==> cs@[e as int] == '\n',
{
    let ghost sq = cs@.subrange(q as int, j as int);
    let mut e = q;
    while e < j && cs[e] != '\n'
        invariant
            q <= e <= j <= cs.len(),
            sq == cs@.subrange(q as int, j as int),
            skip_class(sq, e - q, CharClass::NotNewline) == skip_class(sq, 0, CharClass::NotNewline),
        decreases j - e,
    {
        assert(sq[e - q] == cs@[e as int]);
        e = e + 1;
    }
    assert(skip_class(sq, e - q, CharClass::NotNewline) == e - q) by {
        if e < j {
            assert(sq[e - q] == cs@[e as int]);
        }
    }
    e
}

/// Appends the characters `cs[a..b]`, a line feed and a caret per byte of those characters.
fn push_outlined_line(out: &mut String, cs: &Vec<char>, a: usize, b: usize)
    requires
        a <= b <= cs.len(),
        utf8_len(cs@) <= usize::MAX,
    ensures
        final(out)@ == old(out)@ + cs@.subrange(a as int, b as int) + seq!['\n'] + carets(
            cs@.subrange(a as int, b as int),
        ),
{
    push_range(out, cs, a, b);
    push_char(out, '\n');
    let n = utf8_len_of_range(cs, a, b);
    push_repeated(out, '^', n);
}

/// How `lines` takes the first line off a non-empty text.
proof fn lemma_lines_step(cs: Seq<char>, q: int, e: int, j: int)
    requires
        0 <= q < j <= cs.len(),
        q <= e <= j,
        e - q == skip_class(cs.subrange(q, j), 0, CharClass::NotNewline),
    ensures
        e < j ==> lines(cs.subrange(q, j)) == seq![strip_cr(cs.subrange(q, e))] + lines(
            cs.subrange(e + 1, j),
        ),
        e == j ==> lines(cs.subrange(q, j)) == seq![cs.subrange(q, j)],
{
    let sq = cs.subrange(q, j);
    if e < j {
        assert(sq.take(e - q) =~= cs.subrange(q, e));
        assert(sq.skip(e - q + 1) =~= cs.subrange(e + 1, j));
    }
}

/// The outline of the characters `cs[i..j]`.
#[verifier::spinoff_prover]
#[verifier::rlimit(30)]
pub fn outline_range(cs: &Vec<char>, i: usize, j: usize) -> (r: String)
    requires
        i <= j <= cs.len(),
        utf8_len(cs@) <= usize::MAX,
    ensures
        r@ == outline_lines(lines(cs@.subrange(i as int, j as int))),
{
    let ghost whole = lines(cs@.subrange(i as int, j as int));
    proof {
        lemma_outline_continue(whole);
    }
    let mut out = String::new();
    let mut q = i;
    let mut first = true;
    while q < j
        invariant
            i <= q <= j <= cs.len(),
            utf8_len(cs@) <= usize::MAX,
            out@ + outline_continue(first, lines(cs@.subrange(q as int, j as int)))
                == outline_continue(true, whole),
        decreases j - q,
    {
        let e = find_newline(cs, q, j);
        proof {
            lemma_lines_step(cs@, q as int, e as int, j as int);
        }
        let ghost before = out@;
        let ghost sep: Seq<char> = if first {
            Seq::empty()
        } else {
            seq!['\n']
        };
        if !first {
            push_char(&mut out, '\n');
        }
        assert(out@ =~= before + sep);
        if e < j {
            let line_end = if e > q && cs[e - 1] == '\r' {
                e - 1
            } else {
                e
            };
            let ghost line = cs@.subrange(q as int, line_end as int);
            assert(strip_cr(cs@.subrange(q as int, e as int)) =~= line);
            let ghost rest = lines(cs@.subrange(e + 1, j as int));
            assert((seq![line] + rest).drop_first() =~= rest);
            push_outlined_line(&mut out, cs, q, line_end);
            q = e + 1;
            assert(out@ + outline_continue(false, rest) =~= before + outline_continue(
                first,
                seq![line] + rest,
            ));
        } else {
            let ghost line = cs@.subrange(q as int, j as int);
            assert(seq![line].drop_first() =~= Seq::<Seq<char>>::empty());
            push_outlined_line(&mut out, cs, q, j);
            q = j;
            assert(cs@.subrange(q as int, j as int) =~= Seq::<char>::empty());
            assert(out@ + outline_continue(false, lines(cs@.subrange(q as int, j as int)))
                =~= before + outline_continue(first, seq![line]));
        }
        first = false;
    }
    assert(cs@.subrange(q as int, j as int) =~= Seq::<char>::empty());
    assert(out@ =~= out@ + outline_continue(first, lines(cs@.subrange(q as int, j as int))));
    out
}

/// The characters a fitting range covers are those between any two indices whose byte offsets
/// are its ends.
pub proof fn lemma_span_chars(cs: Seq<char>, span: Span, i: int, j: int)
    requires
        0 <= i <= j <= cs.len(),
        byte_offset(cs, i) == span.start,
        byte_offset(cs, j) == span.end,
    ensures
        span_fits(cs, span),
        span_chars(cs, span) == cs.subrange(i, j),
{
    assert(span_fits(cs, span));
    let (a, b) = choose|a: int, b: int|
        0 <= a <= b <= cs.len() && byte_offset(cs, a) == span.start && byte_offset(cs, b)
            == span.end;
    if a < i {
        lemma_byte_offset_strict(cs, a, i);
    }
    if i < a {
        lemma_byte_offset_strict(cs, i, a);
    }
    if b < j {
        lemma_byte_offset_strict(cs, b, j);
    }
    if j < b {
        lemma_byte_offset_strict(cs, j, b);
    }
}

/// Showing a range of a text underlined.
pub trait Outline {
    /// True when the range can be cut out of the text.
    spec fn fits(&self, span: Span) -> bool;

    /// The lines of the range, each followed by a line of `^` as long as it is in bytes.
    fn outline(&self, span: Span) -> String
        requires
            self.fits(span),
    ;
}

/// The character indices that the bytes of `span` cover in `cs`, if it fits.
pub fn char_range(cs: &Vec<char>, span: Span) -> (r: Option<(usize, usize)>)
    requires
        utf8_len(cs@) <= usize::MAX,
    ensures
        match r {
            Some((i, j)) => i <= j <= cs.len() && byte_offset(cs@, i as int) == span.start
                && byte_offset(cs@, j as int) == span.end,
            None => !span_fits(cs@, span),
        },
{
    let start = match char_index(cs, 0, 0, span.start) {
        Some(i) => i,
        None => {
            return None;
        },
    };
    proof {
        lemma_byte_offset_bounds(cs@, start as int, start as int);
    }
    match char_index(cs, start, byte_offset_exec(cs, start), span.end) {
        Some(j) => Some((start, j)),
        None => {
            assert(!span_fits(cs@, span)) by {
                if span_fits(cs@, span) {
                    let (a, b) = choose|a: int, b: int|
                        0 <= a <= b <= cs.len() && byte_offset(cs@, a) == span.start
                            && byte_offset(cs@, b) == span.end;
                    if a < start {
                        lemma_byte_offset_strict(cs@, a, start as int);
                    }
                    if start < a {
                        lemma_byte_offset_strict(cs@, start as int, a);
                    }
                }
            }
            None
        },
    }
}

/// True when `span` can be cut out of the text `cs` (whose length fits in a `usize`).
pub fn fits_exec(cs: &Vec<char>, span: Span) -> (r: bool)
    ensures
        r == (span_fits(cs@, span) && utf8_len(cs@) <= usize::MAX),
{
    if !utf8_fits(cs) {
        return false;
    }
    char_range(cs, span).is_some()
}

/// True when the UTF-8 encoding of `cs` is at most `usize::MAX` bytes long.
fn utf8_fits(cs: &Vec<char>) -> (r: bool)
    ensures
        r == (utf8_len(cs@) <= usize::MAX),
{
    let mut k: usize = 0;
    let mut total: usize = 0;
    proof {
        lemma_byte_offset_bounds(cs@, 0, 0);
    }
    while k < cs.len()
        invariant
            k <= cs.len(),
            total == byte_offset(cs@, k as int),
        decreases cs.len() - k,
    {
        proof {
            lemma_byte_offset_step(cs@, k as int);
            lemma_byte_offset_bounds(cs@, k + 1, cs.len() as int);
        }
        let w = char_len_utf8(cs[k]);
        if total > usize::MAX - w {
            return false;
        }
        total = total + w;
        k = k + 1;
    }
    proof {
        lemma_byte_offset_bounds(cs@, 0, cs.len() as int);
    }
    true
}

/// The byte offset of character `i`.
fn byte_offset_exec(cs: &Vec<char>, i: usize) -> (r: usize)
    requires
        i <= cs.len(),
        utf8_len(cs@) <= usize::MAX,
    ensures
        r == byte_offset(cs@, i as int),
{
    let mut k: usize = 0;
    let mut offset: usize = 0;
    proof {
        lemma_byte_offset_bounds(cs@, 0, i as int);
    }
    while k < i
        invariant
            k <= i <= cs.len(),
            offset == byte_offset(cs@, k as int),
            utf8_len(cs@) <= usize::MAX,
        decreases i - k,
    {
        proof {
            lemma_byte_offset_step(cs@, k as int);
            lemma_byte_offset_bounds(cs@, k + 1, cs.len() as int);
        }
        offset = offset + char_len_utf8(cs[k]);
        k = k + 1;
    }
    offset
}

/// The first character index at or after `from` whose byte offset is `target`.
fn char_index(cs: &Vec<char>, from: usize, from_offset: usize, target: usize) -> (r: Option<usize>)
    requires
        from <= cs.len(),
        from_offset == byte_offset(cs@, from as int),
        utf8_len(cs@) <= usize::MAX,
    ensures
        match r {
            Some(i) => from <= i <= cs.len() && byte_offset(cs@, i as int) == target,
            None => forall|m: int| from <= m <= cs.len() ==> byte_offset(cs@, m) != target,
        },
{
    let mut i = from;
    let mut offset = from_offset;
    loop
        invariant
            from <= i <= cs.len(),
            offset == byte_offset(cs@, i as int),
            utf8_len(cs@) <= usize::MAX,
            forall|m: int| from <= m < i ==> byte_offset(cs@, m) != target,
        decreases cs.len() - i,
    {
        if offset == target {
            return Some(i);
        }
        if i >= cs.len() {
            return None;
        }
        proof {
            lemma_byte_offset_step(cs@, i as int);
            lemma_byte_offset_bounds(cs@, i + 1, cs.len() as int);
        }
        offset = offset + char_len_utf8(cs[i]);
        i = i + 1;
    }
}


impl<'a> Outline for &'a str {
    /// The range can be cut out of the text, and the text's length fits in a `usize`.
    open spec fn fits(&self, span: Span) -> bool {
        span_fits((*self)@, span) && utf8_len((*self)@) <= usize::MAX
    }

    /// The lines of the range, each followed by a line of `^` as long as it is in bytes, joined
    /// by line feeds.
    fn outline(&self, span: Span) -> (r: String)
        ensures
            r@ == outline_of((*self)@, span),
    {
        let cs = chars_of(*self);
        match char_range(&cs, span) {
            Some((i, j)) => {
                proof {
                    lemma_span_chars(cs@, span, i as int, j as int);
                }
                outline_range(&cs, i, j)
            },
            None => String::new(),
        }
    }
}

} // verus!
