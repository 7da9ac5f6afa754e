use stackvm::text::{parse_decimal, push_decimal, to_decimal, trim};

#[test]
fn decimal_of_numbers() {
    assert_eq!(to_decimal(0), "0");
    assert_eq!(to_decimal(7), "7");
    assert_eq!(to_decimal(10), "10");
    assert_eq!(to_decimal(1234567890), "1234567890");
    assert_eq!(to_decimal(u64::MAX), "18446744073709551615");
}

#[test]
fn push_decimal_appends() {
    let mut s = String::from("n=");
    push_decimal(&mut s, 405);
    assert_eq!(s, "n=405");
}

#[test]
fn parse_decimal_reads_numerals() {
    assert_eq!(parse_decimal("0"), Some(0));
    assert_eq!(parse_decimal("42"), Some(42));
    assert_eq!(parse_decimal("0042"), Some(42));
    assert_eq!(parse_decimal("18446744073709551615"), Some(u64::MAX));
}

#[test]
fn parse_decimal_refuses_the_rest() {
    assert_eq!(parse_decimal(""), None);
    assert_eq!(parse_decimal("18446744073709551616"), None);
    assert_eq!(parse_decimal("99999999999999999999999999"), None);
    assert_eq!(parse_decimal("12a"), None);
    assert_eq!(parse_decimal("+12"), None);
    assert_eq!(parse_decimal("-1"), None);
    assert_eq!(parse_decimal(" 1"), None);
    assert_eq!(parse_decimal("١٢"), None);
}

#[test]
fn parse_decimal_reads_back_what_to_decimal_writes() {
    for n in [0u64, 1, 9, 10, 99, 100, 65535, 4294967296, u64::MAX - 1, u64::MAX] {
        assert_eq!(parse_decimal(&to_decimal(n)), Some(n));
    }
}

#[test]
fn trim_strips_both_ends() {
    assert_eq!(trim("  hello world \t\n"), "hello world");
    assert_eq!(trim("x"), "x");
    assert_eq!(trim(""), "");
    assert_eq!(trim(" \t\r\n "), "");
    assert_eq!(trim("a  b"), "a  b");
}

#[test]
fn trim_knows_white_space_beyond_ascii() {
    assert_eq!(trim("\u{a0}\u{2003}wide\u{3000}"), "wide");
    assert_eq!(trim("\u{200b}zero width\u{200b}"), "\u{200b}zero width\u{200b}");
    assert_eq!(trim(" é "), "é");
}

#[test]
fn trim_twice_is_trim_once() {
    for s in ["", " ", "  a ", "a", " a b  ", "\n\tx\u{a0}"] {
        let once = trim(s);
        assert_eq!(trim(&once), once);
    }
}

fn has_white_space_property(c: char) -> bool {
    matches!(
        c as u32,
        0x09..=0x0D
            | 0x20
            | 0x85
            | 0xA0
            | 0x1680
            | 0x2000..=0x200A
            | 0x2028
            | 0x2029
            | 0x202F
            | 0x205F
            | 0x3000
    )
}

#[test]
fn trim_takes_exactly_the_white_space_characters() {
    let mut seen = 0;
    for n in 0..=0x10FFFFu32 {
        if let Some(c) = char::from_u32(n) {
            let mut s = String::new();
            s.push(c);
            assert_eq!(trim(&s).is_empty(), has_white_space_property(c), "{:#x}", n);
            if has_white_space_property(c) {
                seen += 1;
            }
        }
    }
    assert_eq!(seen, 25);
}

#[test]
fn trim_of_given_texts() {
    assert_eq!(trim("  a "), "a");
    assert_eq!(trim("\u{85}\u{1680}a b\u{2028}\u{2029}\u{202f}\u{205f}"), "a b");
    assert_eq!(trim("\u{1c}a\u{1f}"), "\u{1c}a\u{1f}");
    assert_eq!(trim("\u{180e}a\u{feff}"), "\u{180e}a\u{feff}");
}
