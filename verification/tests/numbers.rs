use lighter_ws::decimal::{read_number, Number};
use lighter_ws::text::{same_text_ignoring_case, split, strip_prefix, trim, CharClass};

const TEXTS: [&str; 62] = [
    "0", "-0", "+0", "0.0", ".0", "0.", "1", "-1", "+1", "1.0", "1.00", "01", "1e0", "10e-1",
    "0.1", "0.10000000000000000001", "100", "99.99", "1e2", "1E+2", "1e-2", "123456.789",
    "1e308", "1e309", "1e400", "-1e400", "1e-323", "5e-324", "2.5e-324", "2.4703282292062327e-324",
    "2.4703282292062328e-324", "2.47032822920623272e-324", "2.47032822920623273e-324", "1e-400",
    "1e99999999999999999999999999999999999999999", "-1e99999999999999999999999999999999999999999",
    "1e-99999999999999999999999999999999999999999", "0e99999999999999999999999999999999999999999",
    "inf", "-inf", "+Infinity", "INFINITY", "nan", "-NaN", "", "+", "-", ".", "e", "e5", "1e",
    "1e+", "1e5.0", "1.2.3", "1_000", " 1", "1 ", "0x10", "infinit", "--1", "1e-300", "1e-301",
];

#[test]
fn the_same_texts_are_numbers() {
    for text in TEXTS {
        assert_eq!(
            read_number(text).is_some(),
            text.parse::<f64>().is_ok(),
            "{text}"
        );
    }
}

#[test]
fn the_same_numbers_are_zero() {
    for text in TEXTS {
        if let Ok(float) = text.parse::<f64>() {
            assert_eq!(read_number(text).unwrap().is_zero(), float == 0.0, "{text}");
        }
    }
}

#[test]
fn the_order_agrees() {
    for a in TEXTS {
        for b in TEXTS {
            if let (Ok(x), Ok(y)) = (a.parse::<f64>(), b.parse::<f64>()) {
                let (m, n) = (read_number(a).unwrap(), read_number(b).unwrap());
                if x < y {
                    assert!(m.le(&n) && !n.le(&m), "{a} {b}");
                }
                assert!(m.le(&n) || n.le(&m), "{a} {b}");
            }
        }
    }
}

#[test]
fn equal_numbers_are_level() {
    for (a, b) in [("1.0", "1.00"), ("-0", "0"), ("1e2", "100"), ("0.5", "5e-1"), ("nan", "-nan")] {
        let (m, n) = (read_number(a).unwrap(), read_number(b).unwrap());
        assert!(m.le(&n) && n.le(&m), "{a} {b}");
    }
    let (m, n) = (read_number("0.1").unwrap(), read_number("0.10000000000000000001").unwrap());
    assert!(m.le(&n) && !n.le(&m));
}

#[test]
fn what_is_not_a_number_stands_last() {
    let nan = read_number("NaN").unwrap();
    assert_eq!(nan, Number::Nan);
    assert!(read_number("inf").unwrap().le(&nan));
    assert!(!nan.le(&read_number("inf").unwrap()));
    assert!(!nan.is_zero());
}

#[test]
fn half_the_smallest_number_is_zero() {
    // 2^-1075 has 752 significant digits: the tie itself, and its neighbours.
    let mut digits: Vec<u32> = vec![1];
    for _ in 0..1075 {
        let mut carry = 0;
        for d in digits.iter_mut() {
            let x = *d * 5 + carry;
            *d = x % 10;
            carry = x / 10;
        }
        if carry > 0 {
            digits.push(carry);
        }
    }
    let tie: String = digits.iter().rev().map(|d| char::from_digit(*d, 10).unwrap()).collect();
    assert_eq!(tie.len(), 752);
    for (text, zero) in [
        (format!("{tie}e-1075"), true),
        (format!("{tie}1e-1076"), false),
        (format!("-{tie}.1e-1075"), false),
        (format!("{tie}.0e-1075"), true),
    ] {
        assert_eq!(text.parse::<f64>().unwrap() == 0.0, zero);
        assert_eq!(read_number(&text).unwrap().is_zero(), zero);
    }
}

#[test]
fn white_space_is_that_of_unicode() {
    for code in 0..=0x10ffff {
        if let Some(c) = char::from_u32(code) {
            assert_eq!(CharClass::WhiteSpace.contains(c), c.is_whitespace(), "{code:x}");
        }
    }
}

#[test]
fn text_operations() {
    assert_eq!(trim(" \u{2003}a b\n", CharClass::WhiteSpace), "a b");
    assert_eq!(trim("//a/b/", CharClass::Slash), "a/b");
    assert_eq!(trim("///", CharClass::Slash), "");
    assert_eq!(strip_prefix("order_book/1", "order_book/"), Some("1"));
    assert_eq!(strip_prefix("order", "order_book/"), None);
    for text in ["", "/", "a", "a/b", "/a//b/", "\u{e9}/\u{1f600}"] {
        let expected: Vec<&str> = text.split('/').collect();
        assert_eq!(split(text, CharClass::Slash), expected);
    }
    let expected: Vec<&str> = "a:b/c:".split(|c| c == ':' || c == '/').collect();
    assert_eq!(split("a:b/c:", CharClass::ColonOrSlash), expected);
    for (a, b) in [("Delete", "dELETE"), ("delete", "deletes"), ("\u{e9}", "\u{c9}"), ("[", "{")] {
        assert_eq!(same_text_ignoring_case(a, b), a.eq_ignore_ascii_case(b));
    }
}
