use starboard::text::{
    decimal_string, from_chars, has_prefix, join, less, parse_u64, push_decimal,
    push_signed_decimal, same, split, to_chars, trim, Separator,
};

fn signed(n: i64) -> String {
    let mut s = String::new();
    push_signed_decimal(&mut s, n);
    s
}

#[test]
fn decimal_numerals() {
    assert_eq!(decimal_string(0), "0");
    assert_eq!(decimal_string(7), "7");
    assert_eq!(decimal_string(10), "10");
    assert_eq!(decimal_string(1234567890), "1234567890");
    assert_eq!(decimal_string(u64::MAX), "18446744073709551615");
    for n in [1u64, 9, 11, 99, 100, 101, 909, 1000, 65535, 4294967296] {
        assert_eq!(decimal_string(n), n.to_string());
    }
}

#[test]
fn decimal_is_appended() {
    let mut s = "n=".to_string();
    push_decimal(&mut s, 42);
    assert_eq!(s, "n=42");
}

#[test]
fn signed_numerals() {
    assert_eq!(signed(0), "0");
    assert_eq!(signed(5), "5");
    assert_eq!(signed(-5), "-5");
    assert_eq!(signed(i64::MAX), "9223372036854775807");
    assert_eq!(signed(i64::MIN), "-9223372036854775808");
}

#[test]
fn identifiers_are_read_as_std_reads_them() {
    for text in [
        "0", "1", "42", "007", "+5", "+", "", "-1", "12a", "a12", " 1", "1 ", "++1",
        "18446744073709551615", "18446744073709551616", "99999999999999999999999", "+0",
        "٣",
    ] {
        assert_eq!(parse_u64(text), text.parse::<u64>().ok(), "for {:?}", text);
    }
    assert_eq!(parse_u64("42"), Some(42));
    assert_eq!(parse_u64("+5"), Some(5));
    assert_eq!(parse_u64(""), None);
    assert_eq!(parse_u64("18446744073709551616"), None);
}

#[test]
fn reading_a_numeral_gives_the_number_back() {
    for n in [0u64, 1, 10, 4242, u64::MAX] {
        assert_eq!(parse_u64(&decimal_string(n)), Some(n));
    }
}

#[test]
fn chars_round_trip() {
    let chars = to_chars("a⭐b");
    assert_eq!(chars, vec!['a', '⭐', 'b']);
    assert_eq!(from_chars(&chars, 0, 3), "a⭐b");
    assert_eq!(from_chars(&chars, 1, 2), "⭐");
    assert_eq!(from_chars(&chars, 2, 2), "");
}

#[test]
fn split_keeps_empty_pieces() {
    assert_eq!(split("a,b", Separator::Char(',')), vec!["a", "b"]);
    assert_eq!(split("", Separator::Char(',')), vec![""]);
    assert_eq!(split("a,", Separator::Char(',')), vec!["a", ""]);
    assert_eq!(split(",,", Separator::Char(',')), vec!["", "", ""]);
    assert_eq!(split("a b\tc\n", Separator::Whitespace), vec!["a", "b", "c", ""]);
    assert_eq!(split("a\u{a0}b\u{3000}c", Separator::Whitespace), vec!["a", "b", "c"]);
    for text in ["x>y>z", ">", "no cut", "a>>b"] {
        let ours = split(text, Separator::Char('>'));
        let std: Vec<&str> = text.split('>').collect();
        assert_eq!(ours, std);
    }
}

#[test]
fn trim_drops_white_space_at_both_ends() {
    for text in ["  a b  ", "a", "", "   ", "\t\nx\u{a0}", "x y"] {
        assert_eq!(trim(text), text.trim());
    }
}

#[test]
fn join_puts_the_separator_between() {
    let none: Vec<String> = vec![];
    assert_eq!(join(&none, ","), "");
    assert_eq!(join(&vec!["a".to_string()], ","), "a");
    assert_eq!(join(&vec!["a".to_string(), "b".to_string(), "".to_string()], ", "), "a, b, ");
}

#[test]
fn texts_are_ordered_as_std_orders_them() {
    let texts = ["", "a", "ab", "b", "B", "⭐", "🔥", "a⭐", "zz", "é", "z"];
    for a in texts {
        for b in texts {
            assert_eq!(less(a, b), a < b, "for {:?} and {:?}", a, b);
            assert_eq!(same(a, b), a == b, "for {:?} and {:?}", a, b);
            assert_eq!(has_prefix(a, b), a.starts_with(b), "for {:?} and {:?}", a, b);
        }
    }
}

#[test]
fn white_space_is_the_unicode_set() {
    let listed = |c: char| {
        ('\u{9}'..='\u{d}').contains(&c)
            || c == ' '
            || c == '\u{85}'
            || c == '\u{a0}'
            || c == '\u{1680}'
            || ('\u{2000}'..='\u{200a}').contains(&c)
            || c == '\u{2028}'
            || c == '\u{2029}'
            || c == '\u{202f}'
            || c == '\u{205f}'
            || c == '\u{3000}'
    };
    for code in 0..=0x10ffffu32 {
        if let Some(c) = char::from_u32(code) {
            assert_eq!(Separator::Whitespace.cuts(c), listed(c), "for U+{:04X}", code);
            assert_eq!(Separator::Char('x').cuts(c), c == 'x');
        }
    }
}
