use petri::grammar::traits::RangeExt;
use petri::span::Span;
use petri::text::{
    char_is_whitespace, char_len_utf8, chars_of, digit_to_char, parse_usize, push_range, push_repeated,
    usize_to_text, utf8_len_of_range,
};
use petri::traits::{char_range, fits_exec, outline_range, Outline};

#[test]
fn decimal_text_of_numbers() {
    assert_eq!(usize_to_text(0), "0");
    assert_eq!(usize_to_text(7), "7");
    assert_eq!(usize_to_text(1204), "1204");
    assert_eq!(usize_to_text(usize::MAX), usize::MAX.to_string());
    assert_eq!(digit_to_char(9), '9');
}

#[test]
fn parsing_digits() {
    let cs = chars_of("x0042y");
    assert_eq!(parse_usize(&cs, 1, 5), Some(42));
    let big = chars_of("18446744073709551616");
    assert_eq!(parse_usize(&big, 0, big.len()), None);
    let max = chars_of("18446744073709551615");
    assert_eq!(parse_usize(&max, 0, max.len()), Some(usize::MAX));
}

#[test]
fn printing_then_parsing_gives_the_number_back() {
    for n in [0usize, 1, 9, 10, 99, 100, 65535, 1 << 40, usize::MAX] {
        let text = chars_of(&usize_to_text(n));
        assert_eq!(parse_usize(&text, 0, text.len()), Some(n));
    }
}

#[test]
fn utf8_widths() {
    assert_eq!(char_len_utf8('a'), 1);
    assert_eq!(char_len_utf8('ä'), 2);
    assert_eq!(char_len_utf8('€'), 3);
    assert_eq!(char_len_utf8('😀'), 4);
    let cs = chars_of("aä€😀");
    assert_eq!(utf8_len_of_range(&cs, 0, 4), 10);
    assert_eq!(utf8_len_of_range(&cs, 1, 3), 5);
}

#[test]
fn building_strings() {
    let mut s = String::from(">");
    push_repeated(&mut s, '^', 3);
    assert_eq!(s, ">^^^");
    let cs = chars_of("hello");
    push_range(&mut s, &cs, 1, 4);
    assert_eq!(s, ">^^^ell");
}

#[test]
fn merging_ranges_covers_both() {
    let a = Span::new(3, 5);
    let b = Span::new(1, 4);
    assert_eq!(a.merge(&b), Span { start: 1, end: 5 });
    assert_eq!(b.merge(&a), Span { start: 1, end: 5 });
    assert_eq!(a.merge(&a), a);
}

#[test]
fn outline_marks_each_line() {
    let src: &str = "ab\r\ncd\nä";
    assert_eq!(src.outline(Span::new(0, 9)), "ab\n^^\ncd\n^^\nä\n^^");
    assert_eq!(src.outline(Span::new(4, 6)), "cd\n^^");
    assert_eq!(src.outline(Span::new(0, 0)), "");
    let cs = chars_of(src);
    assert_eq!(char_range(&cs, Span::new(4, 6)), Some((4, 6)));
    assert_eq!(char_range(&cs, Span::new(7, 8)), None);
    assert!(fits_exec(&cs, Span::new(7, 9)));
    assert!(!fits_exec(&cs, Span::new(3, 2)));
    assert_eq!(outline_range(&cs, 4, 6), "cd\n^^");
}

#[test]
fn white_space_agrees_with_std_on_every_character() {
    for v in 0u32..=0x10FFFF {
        if let Some(c) = char::from_u32(v) {
            assert_eq!(char_is_whitespace(c), c.is_whitespace(), "U+{v:04X}");
        }
    }
}
