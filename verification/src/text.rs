//! Character classes, UTF-8 widths and decimal numerals, the text primitives the rest of the
//! crate is built on.
use vstd::prelude::*;
use vstd::utf8::*;

verus! {

/// What `char::is_whitespace` returns for a character: whether it has the Unicode
/// `White_Space` property, which holds for exactly these code points.
pub open spec fn is_whitespace_char(c: char) -> bool {
    let v = c as u32;
    ||| 0x09 <= v <= 0x0D
    ||| v == 0x20
    ||| v == 0x85
    ||| v == 0xA0
    ||| v == 0x1680
    ||| 0x2000 <= v <= 0x200A
    ||| v == 0x2028
    ||| v == 0x2029
    ||| v == 0x202F
    ||| v == 0x205F
    ||| v == 0x3000
}

/// What `char::is_alphabetic` returns for a character beyond ASCII (the Unicode `Alphabetic`
/// property).
pub uninterp spec fn alphabetic_beyond_ascii(c: char) -> bool;

/// What `char::is_numeric` returns for a character beyond ASCII (general categories `Nd`, `Nl`
/// and `No`).
pub uninterp spec fn numeric_beyond_ascii(c: char) -> bool;

/// What `char::is_alphabetic` returns: among ASCII characters the letters `a` to `z` and `A` to
/// `Z`, and beyond ASCII the Unicode `Alphabetic` property.
pub open spec fn is_alphabetic_char(c: char) -> bool {
    if (c as u32) < 0x80 {
        ('a' <= c <= 'z') || ('A' <= c <= 'Z')
    } else {
        alphabetic_beyond_ascii(c)
    }
}

/// What `char::is_numeric` returns: among ASCII characters the digits `0` to `9`, and beyond
/// ASCII the general categories `Nd`, `Nl` and `No`.
pub open spec fn is_numeric_char(c: char) -> bool {
    if (c as u32) < 0x80 {
        '0' <= c <= '9'
    } else {
        numeric_beyond_ascii(c)
    }
}

/// What `char::is_alphanumeric` returns: its documentation defines it as
/// `is_alphabetic() || is_numeric()`.
pub open spec fn is_alphanumeric_char(c: char) -> bool {
    is_alphabetic_char(c) || is_numeric_char(c)
}

/// Whether `c` is white space, as `char::is_whitespace` decides it.
pub fn char_is_whitespace(c: char) -> (r: bool)
    ensures
        r == is_whitespace_char(c),
{
    let v = c as u32;
    (0x09 <= v && v <= 0x0D) || v == 0x20 || v == 0x85 || v == 0xA0 || v == 0x1680 || (0x2000 <= v
        && v <= 0x200A) || v == 0x2028 || v == 0x2029 || v == 0x202F || v == 0x205F || v == 0x3000
}

/// Calls `char::is_alphabetic`. Among ASCII characters exactly the letters have the Unicode
/// `Alphabetic` property; beyond ASCII the result is named, as the Unicode tables behind it are
/// not restated here.
#[verifier::external_body]
pub(crate) fn char_is_alphabetic(c: char) -> (r: bool)
    ensures
        r == (if (c as u32) < 0x80 {
            ('a' <= c <= 'z') || ('A' <= c <= 'Z')
        } else {
            alphabetic_beyond_ascii(c)
        }),
{
    c.is_alphabetic()
}

/// Calls `char::is_numeric`. Among ASCII characters exactly the digits are in a numeric general
/// category; beyond ASCII the result is named, as the Unicode tables behind it are not restated
/// here.
#[verifier::external_body]
pub(crate) fn char_is_numeric(c: char) -> (r: bool)
    ensures
        r == (if (c as u32) < 0x80 {
            '0' <= c <= '9'
        } else {
            numeric_beyond_ascii(c)
        }),
{
    c.is_numeric()
}

/// Calls `String::push`, which appends one character.
#[verifier::external_body]
pub(crate) fn push_char(s: &mut String, c: char)
    ensures
        final(s)@ == old(s)@.push(c),
{
    s.push(c)
}

/// Calls `<str as PartialEq>::eq`: two strings are equal when they hold the same characters.
#[verifier::external_body]
pub(crate) fn str_eq(a: &str, b: &str) -> (r: bool)
    ensures
        r == (a@ == b@),
{
    a == b
}

/// The characters of `s`, in order.
pub fn chars_of(s: &str) -> (r: Vec<char>)
    ensures
        r@ == s@,
{
    let mut chars: Vec<char> = Vec::new();
    for c in it: s.chars()
        invariant
            chars@ == it.seq().take(it.index()),
            it.seq() == s@,
    {
        chars.push(c);
    }
    assert(chars@ =~= s@);
    chars
}

/// Appends the characters `cs[start..end]` to `s`.
pub fn push_range(s: &mut String, cs: &Vec<char>, start: usize, end: usize)
    requires
        start <= end <= cs.len(),
    ensures
        final(s)@ == old(s)@ + cs@.subrange(start as int, end as int),
{
    let mut k = start;
    while k < end
        invariant
            start <= k <= end <= cs.len(),
            s@ == old(s)@ + cs@.subrange(start as int, k as int),
        decreases end - k,
    {
        push_char(s, cs[k]);
        k = k + 1;
        assert(s@ =~= old(s)@ + cs@.subrange(start as int, k as int));
    }
}

/// Number of bytes of the UTF-8 encoding of `c`.
pub open spec fn utf8_width(c: char) -> nat {
    encode_scalar(c as u32).len()
}

/// Byte offset of the `i`-th character of `cs` in its UTF-8 encoding.
pub open spec fn byte_offset(cs: Seq<char>, i: int) -> nat {
    encode_utf8(cs.take(i)).len()
}

/// Number of bytes of the UTF-8 encoding of `cs`.
pub open spec fn utf8_len(cs: Seq<char>) -> nat {
    encode_utf8(cs).len()
}

/// The width of a character's UTF-8 encoding, as `char::len_utf8` computes it.
pub fn char_len_utf8(c: char) -> (r: usize)
    ensures
        r == utf8_width(c),
        1 <= r <= 4,
{
    proof {
        char_is_scalar(c);
    }
    let v = c as u32;
    if v <= 0x7F {
        1
    } else if v <= 0x7FF {
        2
    } else if v <= 0xFFFF {
        3
    } else {
        4
    }
}

/// The encoding of a concatenation is the concatenation of the encodings.
pub proof fn lemma_encode_utf8_concat(a: Seq<char>, b: Seq<char>)
    ensures
        encode_utf8(a + b) == encode_utf8(a) + encode_utf8(b),
    decreases a.len(),
{
    if a.len() == 0 {
        assert(a + b =~= b);
    } else {
        lemma_encode_utf8_concat(a.drop_first(), b);
        assert((a + b).drop_first() =~= a.drop_first() + b);
    }
}

/// Moving one character forward advances the byte offset by that character's width.
pub proof fn lemma_byte_offset_step(cs: Seq<char>, i: int)
    requires
        0 <= i < cs.len(),
    ensures
        byte_offset(cs, i + 1) == byte_offset(cs, i) + utf8_width(cs[i]),
{
    let c = cs[i];
    assert(cs.take(i + 1) =~= cs.take(i) + seq![c]);
    lemma_encode_utf8_concat(cs.take(i), seq![c]);
    assert(seq![c].drop_first() =~= Seq::<char>::empty());
    assert(encode_utf8(seq![c]) =~= encode_scalar(c as u32)) by {
        reveal_with_fuel(encode_utf8, 2);
    }
}

/// Byte offsets grow with the character index and never pass the encoded length.
pub proof fn lemma_byte_offset_bounds(cs: Seq<char>, i: int, j: int)
    requires
        0 <= i <= j <= cs.len(),
    ensures
        byte_offset(cs, i) <= byte_offset(cs, j) <= utf8_len(cs),
        byte_offset(cs, 0) == 0,
        byte_offset(cs, cs.len() as int) == utf8_len(cs),
{
    assert(cs.take(j) =~= cs.take(i) + cs.subrange(i, j));
    lemma_encode_utf8_concat(cs.take(i), cs.subrange(i, j));
    assert(cs =~= cs.take(j) + cs.subrange(j, cs.len() as int));
    lemma_encode_utf8_concat(cs.take(j), cs.subrange(j, cs.len() as int));
    assert(cs.take(0) =~= Seq::<char>::empty());
    assert(cs.take(cs.len() as int) =~= cs);
}

/// The encoded length of a range of characters is the difference of their byte offsets.
pub proof fn lemma_utf8_len_range(cs: Seq<char>, a: int, b: int)
    requires
        0 <= a <= b <= cs.len(),
    ensures
        utf8_len(cs.subrange(a, b)) == byte_offset(cs, b) - byte_offset(cs, a),
        utf8_len(cs.subrange(a, b)) <= utf8_len(cs),
{
    assert(cs.take(b) =~= cs.take(a) + cs.subrange(a, b));
    lemma_encode_utf8_concat(cs.take(a), cs.subrange(a, b));
    lemma_byte_offset_bounds(cs, a, b);
    lemma_byte_offset_bounds(cs, b, cs.len() as int);
}

/// The number of bytes of the UTF-8 encoding of the characters `cs[a..b]`.
pub fn utf8_len_of_range(cs: &Vec<char>, a: usize, b: usize) -> (r: usize)
    requires
        a <= b <= cs.len(),
        utf8_len(cs@) <= usize::MAX,
    ensures
        r == utf8_len(cs@.subrange(a as int, b as int)),
{
    let mut k = a;
    let mut n: usize = 0;
    proof {
        lemma_utf8_len_range(cs@, a as int, a as int);
        lemma_byte_offset_bounds(cs@, a as int, b as int);
    }
    while k < b
        invariant
            a <= k <= b <= cs.len(),
            utf8_len(cs@) <= usize::MAX,
            n == byte_offset(cs@, k as int) - byte_offset(cs@, a as int),
            byte_offset(cs@, a as int) <= byte_offset(cs@, k as int),
        decreases b - k,
    {
        proof {
            lemma_byte_offset_step(cs@, k as int);
            lemma_byte_offset_bounds(cs@, k + 1, cs.len() as int);
            lemma_byte_offset_bounds(cs@, 0, a as int);
        }
        n = n + char_len_utf8(cs[k]);
        k = k + 1;
    }
    proof {
        lemma_utf8_len_range(cs@, a as int, b as int);
    }
    n
}

/// Appends `n` copies of `c` to `s`.
pub fn push_repeated(s: &mut String, c: char, n: usize)
    ensures
        final(s)@ == old(s)@ + Seq::new(n as nat, |k: int| c),
{
    let mut k: usize = 0;
    while k < n
        invariant
            k <= n,
            s@ == old(s)@ + Seq::new(k as nat, |m: int| c),
        decreases n - k,
    {
        push_char(s, c);
        k = k + 1;
        assert(s@ =~= old(s)@ + Seq::new(k as nat, |m: int| c));
    }
}

/// Characters are spaced by at least one byte: distinct indices have distinct offsets.
pub proof fn lemma_byte_offset_strict(cs: Seq<char>, i: int, j: int)
    requires
        0 <= i < j <= cs.len(),
    ensures
        byte_offset(cs, i) < byte_offset(cs, j),
{
    lemma_byte_offset_step(cs, i);
    lemma_byte_offset_bounds(cs, i + 1, j);
    char_is_scalar(cs[i]);
}

/// True for the ten ASCII decimal digits.
pub open spec fn is_ascii_digit(c: char) -> bool {
    '0' <= c <= '9'
}

/// The value of an ASCII decimal digit.
pub open spec fn digit_value(c: char) -> nat {
    (c as u32 - '0' as u32) as nat
}

/// The ASCII digit of a value below ten.
pub open spec fn digit_char(d: nat) -> char {
    if d == 0 {
        '0'
    } else if d == 1 {
        '1'
    } else if d == 2 {
        '2'
    } else if d == 3 {
        '3'
    } else if d == 4 {
        '4'
    } else if d == 5 {
        '5'
    } else if d == 6 {
        '6'
    } else if d == 7 {
        '7'
    } else if d == 8 {
        '8'
    } else {
        '9'
    }
}

/// True when every character of `ds` is an ASCII digit.
pub open spec fn all_ascii_digits(ds: Seq<char>) -> bool {
    forall|k: int| 0 <= k < ds.len() ==> is_ascii_digit(#[trigger] ds[k])
}

/// The number that a string of decimal digits denotes.
pub open spec fn decimal_value(ds: Seq<char>) -> nat
    decreases ds.len(),
{
    if ds.len() == 0 {
        0
    } else {
        decimal_value(ds.drop_last()) * 10 + digit_value(ds.last())
    }
}

/// What `str::parse::<usize>` gives for a non-empty run of characters that starts with a
/// digit: the value when the run is all ASCII digits and the value fits in a `usize`, and no
/// value otherwise.
pub open spec fn parsed_usize(ds: Seq<char>) -> Option<usize> {
    if ds.len() > 0 && all_ascii_digits(ds) && decimal_value(ds) <= usize::MAX {
        Some(decimal_value(ds) as usize)
    } else {
        None
    }
}

/// The shortest decimal numeral of `n`, as `usize`'s `Display` writes it.
pub open spec fn decimal_text(n: nat) -> Seq<char>
    decreases n,
{
    if n < 10 {
        seq![digit_char(n)]
    } else {
        decimal_text(n / 10).push(digit_char(n % 10))
    }
}

/// A prefix of a digit string denotes at most the value of the whole string.
pub proof fn lemma_decimal_value_prefix(ds: Seq<char>, k: int)
    requires
        0 <= k <= ds.len(),
    ensures
        decimal_value(ds.take(k)) <= decimal_value(ds),
    decreases ds.len() - k,
{
    if k < ds.len() {
        lemma_decimal_value_prefix(ds, k + 1);
        assert(ds.take(k + 1).drop_last() =~= ds.take(k));
    } else {
        assert(ds.take(k) =~= ds);
    }
}

/// Reading back a rendered numeral gives the number: `decimal_text` only holds ASCII digits and
/// `decimal_value` inverts it.
pub proof fn lemma_decimal_roundtrip(n: nat)
    ensures
        all_ascii_digits(decimal_text(n)),
        decimal_text(n).len() > 0,
        decimal_value(decimal_text(n)) == n,
    decreases n,
{
    if n < 10 {
        reveal_with_fuel(decimal_value, 2);
        assert(seq![digit_char(n)].drop_last() =~= Seq::<char>::empty());
    } else {
        lemma_decimal_roundtrip(n / 10);
        let t = decimal_text(n);
        assert(t.drop_last() =~= decimal_text(n / 10));
        assert(all_ascii_digits(t)) by {
            assert forall|k: int| 0 <= k < t.len() implies is_ascii_digit(#[trigger] t[k]) by {
                if k < t.len() - 1 {
                    assert(t[k] == decimal_text(n / 10)[k]);
                }
            }
        }
    }
}

/// The ASCII digit for a value below ten.
pub fn digit_to_char(d: usize) -> (c: char)
    requires
        d < 10,
    ensures
        c == digit_char(d as nat),
{
    if d == 0 {
        '0'
    } else if d == 1 {
        '1'
    } else if d == 2 {
        '2'
    } else if d == 3 {
        '3'
    } else if d == 4 {
        '4'
    } else if d == 5 {
        '5'
    } else if d == 6 {
        '6'
    } else if d == 7 {
        '7'
    } else if d == 8 {
        '8'
    } else {
        '9'
    }
}

/// Writes `n` in decimal, as `n.to_string()` does.
pub fn usize_to_text(n: usize) -> (s: String)
    ensures
        s@ == decimal_text(n as nat),
    decreases n,
{
    if n < 10 {
        let mut s = String::new();
        push_char(&mut s, digit_to_char(n));
        assert(s@ =~= seq![digit_char(n as nat)]);
        s
    } else {
        let mut s = usize_to_text(n / 10);
        push_char(&mut s, digit_to_char(n % 10));
        s
    }
}

/// Parses the characters `cs[start..end]` as `str::parse::<usize>` does, for a run that the
/// lexer has collected.
pub fn parse_usize(cs: &Vec<char>, start: usize, end: usize) -> (r: Option<usize>)
    requires
        start < end <= cs.len(),
    ensures
        r == parsed_usize(cs@.subrange(start as int, end as int)),
{
    let ghost ds = cs@.subrange(start as int, end as int);
    let mut value: usize = 0;
    let mut i = start;
    while i < end
        invariant
            start <= i <= end <= cs.len(),
            ds == cs@.subrange(start as int, end as int),
            all_ascii_digits(ds.take(i - start)),
            value == decimal_value(ds.take(i - start)),
        decreases end - i,
    {
        let c = cs[i];
        assert(ds.take(i - start + 1).drop_last() =~= ds.take(i - start));
        assert(ds.take(i - start + 1).last() == c);
        if !('0' <= c && c <= '9') {
            assert(!is_ascii_digit(ds[i - start]));
            return None;
        }
        let d = (c as u32 - '0' as u32) as usize;
        if value > (usize::MAX - d) / 10 {
            proof {
                lemma_decimal_value_prefix(ds, i - start + 1);
            }
            return None;
        }
        value = value * 10 + d;
        i = i + 1;
        assert(all_ascii_digits(ds.take(i - start))) by {
            assert forall|k: int| 0 <= k < ds.take(i - start).len() implies is_ascii_digit(
                #[trigger] ds.take(i - start)[k],
            ) by {
                if k < i - start - 1 {
                    assert(ds.take(i - start)[k] == ds.take(i - start - 1)[k]);
                }
            }
        }
    }
    assert(ds.take(end - start) =~= ds);
    Some(value)
}

} // verus!
