use exercises::base_conversion::{parse_in_base, push_in_base};
use exercises::fibonacci::{matrix_mult, matrix_pow};
use exercises::text::{
    chars_of, count_digits, has_char, is_white_space, parse_decimal, push_decimal, push_padded,
    remove_char, same_text, split, trim,
};

fn chars(s: &str) -> Vec<char> {
    s.chars().collect()
}

fn fields(s: &str, sep: char) -> Vec<String> {
    split(&chars(s), sep).iter().map(|f| f.iter().collect()).collect()
}

#[test]
fn characters_of_a_text() {
    assert_eq!(chars_of("a-b"), vec!['a', '-', 'b']);
    assert_eq!(chars_of("春节"), vec!['春', '节']);
    assert_eq!(chars_of(""), Vec::<char>::new());
}

#[test]
fn split_gives_one_field_more_than_separators() {
    assert_eq!(fields("2025-01-02", '-'), vec!["2025", "01", "02"]);
    assert_eq!(fields("", '-'), vec![""]);
    assert_eq!(fields("-", '-'), vec!["", ""]);
    assert_eq!(fields("a--b-", '-'), vec!["a", "", "b", ""]);
    assert_eq!(fields("abc", '-'), vec!["abc"]);
    for text in ["", ",", "a,b", ",,x,", "no comma"] {
        let expected: Vec<String> = text.split(',').map(|f| f.to_string()).collect();
        assert_eq!(fields(text, ','), expected);
    }
}

#[test]
fn parse_decimal_reads_digits_only() {
    assert_eq!(parse_decimal(&chars("0")), Some(0));
    assert_eq!(parse_decimal(&chars("007")), Some(7));
    assert_eq!(parse_decimal(&chars("2025")), Some(2025));
    assert_eq!(parse_decimal(&chars("4294967295")), Some(4294967295));
    assert_eq!(parse_decimal(&chars("4294967296")), Some(4294967295));
    assert_eq!(parse_decimal(&chars("99999999999999999999999")), Some(4294967295));
    assert_eq!(parse_decimal(&chars("")), None);
    assert_eq!(parse_decimal(&chars("+1")), None);
    assert_eq!(parse_decimal(&chars("1 ")), None);
    assert_eq!(parse_decimal(&chars("1a")), None);
    assert_eq!(parse_decimal(&chars("١")), None);
}

#[test]
fn decimal_notation() {
    let mut out = String::from("n=");
    push_decimal(&mut out, 0);
    out.push('|');
    push_decimal(&mut out, 7);
    out.push('|');
    push_decimal(&mut out, 1203);
    out.push('|');
    push_decimal(&mut out, u64::MAX);
    assert_eq!(out, "n=0|7|1203|18446744073709551615");
    assert_eq!(count_digits(0), 1);
    assert_eq!(count_digits(9), 1);
    assert_eq!(count_digits(10), 2);
    assert_eq!(count_digits(u32::MAX), 10);
}

#[test]
fn padded_decimal_notation() {
    let mut out = String::new();
    push_padded(&mut out, 7, 2);
    out.push('|');
    push_padded(&mut out, 12, 2);
    out.push('|');
    push_padded(&mut out, 123, 2);
    out.push('|');
    push_padded(&mut out, 0, 4);
    out.push('|');
    push_padded(&mut out, 5, 0);
    assert_eq!(out, "07|12|123|0000|5");
}

#[test]
fn white_space_at_the_ends() {
    for c in ['\t', '\n', '\u{b}', '\u{c}', '\r', ' ', '\u{85}', '\u{a0}', '\u{1680}', '\u{2003}',
        '\u{2028}', '\u{2029}', '\u{202f}', '\u{205f}', '\u{3000}']
    {
        assert!(is_white_space(c));
    }
    for code in 0..0x3100u32 {
        if let Some(c) = char::from_u32(code) {
            assert_eq!(is_white_space(c), c.is_whitespace());
        }
    }
    assert_eq!(trim(&chars("  a b \t\r")), chars("a b"));
    assert_eq!(trim(&chars("a")), chars("a"));
    assert_eq!(trim(&chars("   ")), chars(""));
    assert_eq!(trim(&chars("")), chars(""));
    for text in [" x", "x ", "\u{3000}x y\u{a0}", "\n\n", "x\u{200b}"] {
        assert_eq!(trim(&chars(text)), chars(text.trim()));
    }
}

#[test]
fn characters_found_and_removed() {
    assert!(has_char(&chars("a[b"), '['));
    assert!(!has_char(&chars("ab"), '['));
    assert!(!has_char(&chars(""), '['));
    assert_eq!(remove_char(&chars("\"a\": [\"b\"]"), '"'), chars("a: [b]"));
    assert_eq!(remove_char(&chars("\"\"\""), '"'), chars(""));
    assert_eq!(remove_char(&chars("abc"), '"'), chars("abc"));
    assert!(same_text(&chars("abc"), &chars("abc")));
    assert!(!same_text(&chars("abc"), &chars("abd")));
    assert!(!same_text(&chars("abc"), &chars("ab")));
    assert!(same_text(&chars(""), &chars("")));
}

#[test]
fn numbers_in_a_base() {
    assert_eq!(parse_in_base(&chars("ff"), 16), Some(255));
    assert_eq!(parse_in_base(&chars("Zz"), 36), Some(35 * 36 + 35));
    assert_eq!(parse_in_base(&chars("+101"), 2), Some(5));
    assert_eq!(parse_in_base(&chars("102"), 2), None);
    assert_eq!(parse_in_base(&chars(""), 10), None);
    assert_eq!(parse_in_base(&chars("+"), 10), None);
    assert_eq!(parse_in_base(&chars("++1"), 10), None);
    assert_eq!(parse_in_base(&chars("-1"), 10), None);
    assert_eq!(parse_in_base(&chars("11111111111111111111111111111111"), 2), Some(u32::MAX));
    assert_eq!(parse_in_base(&chars("100000000000000000000000000000000"), 2), None);
    for (text, base) in [("12345", 10u32), ("+7", 8), ("zz", 36), ("4294967296", 10), ("1_0", 10), ("٣", 10)] {
        assert_eq!(parse_in_base(&chars(text), base), u32::from_str_radix(text, base).ok());
    }
    let mut out = String::new();
    push_in_base(&mut out, 255, 16);
    out.push('|');
    push_in_base(&mut out, 0, 2);
    out.push('|');
    push_in_base(&mut out, u32::MAX, 36);
    assert_eq!(out, "ff|0|1z141z3");
}

#[test]
fn powers_of_the_fibonacci_matrix() {
    let step = [[1, 1], [1, 0]];
    assert_eq!(matrix_mult(step, step), [[2, 1], [1, 1]]);
    assert_eq!(matrix_mult([[1, 0], [0, 1]], [[5, 3], [3, 2]]), [[5, 3], [3, 2]]);
    assert_eq!(matrix_pow(step, 0), [[1, 0], [0, 1]]);
    assert_eq!(matrix_pow(step, -3), [[1, 0], [0, 1]]);
    assert_eq!(matrix_pow(step, 1), step);
    assert_eq!(matrix_pow(step, 10), [[89, 55], [55, 34]]);
    assert_eq!(matrix_pow(step, 45), [[1836311903, 1134903170], [1134903170, 701408733]]);
}
