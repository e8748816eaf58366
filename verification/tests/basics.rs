//! Numbers as bits and as text, and texts.

use ai_graph_engine::digits::{decimal, hex8, parse_hex8, parse_unsigned};
use ai_graph_engine::float::{at_least, is_nan, less, narrow, part_of_whole, rank};
use ai_graph_engine::json::{optional_numbers, optional_opt_texts, optional_texts};
use ai_graph_engine::text::{
    contains, eq_ignore_case, is_whitespace, same_text, split, split_list, split_once,
    strip_prefix, trim, trim_end_matches,
};

const SAMPLES: [f32; 14] = [
    0.0,
    -0.0,
    1.0,
    -1.0,
    0.3,
    0.30000004,
    -0.3,
    f32::MIN_POSITIVE,
    1e-45,
    -1e-45,
    f32::MAX,
    f32::INFINITY,
    f32::NEG_INFINITY,
    f32::NAN,
];

#[test]
fn order_of_bits_is_order_of_numbers() {
    for a in SAMPLES {
        assert_eq!(is_nan(a.to_bits()), a.is_nan());
        for b in SAMPLES {
            assert_eq!(less(a.to_bits(), b.to_bits()), a < b, "{a} < {b}");
            assert_eq!(at_least(a.to_bits(), b.to_bits()), a >= b, "{a} >= {b}");
            if !a.is_nan() && !b.is_nan() {
                assert_eq!(rank(a.to_bits()) < rank(b.to_bits()), a < b);
            }
        }
    }
}

#[test]
fn parts_are_divided_in_single_precision() {
    let numbers = [
        0u64, 1, 2, 3, 7, 10, 999, 16_777_217, 33_554_435, 4_000_000_001, 4_294_967_295,
        8_589_934_591,
    ];
    for a in numbers {
        for b in numbers {
            if b > 0 && a <= b {
                let expected = (a as f32 / b as f32).to_bits();
                assert_eq!(part_of_whole(a, b), expected, "{a}/{b}");
            }
        }
    }
}

#[test]
fn double_precision_is_narrowed() {
    let numbers = [
        0.0f64, -0.0, 1.0, 0.1, -0.1, 1e300, -1e300, 1e-50, 1e-40, 1.5e-45, 7e-46, 3.4028235e38,
        3.4028236e38, 16777217.0, f64::INFINITY, f64::MIN_POSITIVE, 5e-324,
    ];
    for x in numbers {
        assert_eq!(narrow(x.to_bits()), (x as f32).to_bits(), "{x}");
    }
    assert!(f32::from_bits(narrow(f64::NAN.to_bits())).is_nan());
}

#[test]
fn numbers_read_as_they_are_written() {
    for n in [0u64, 9, 10, 255, 65_536, u64::MAX] {
        assert_eq!(decimal(n), n.to_string());
        assert_eq!(parse_unsigned(&n.to_string(), u64::MAX), Some(n));
    }
    for s in ["", "+", "-1", "1 ", "1_0", "a", "256", "+7", "007"] {
        assert_eq!(parse_unsigned(s, 255), s.parse::<u8>().ok().map(|n| n as u64), "{s}");
    }
    for n in [0u32, 255, 0xdead_beef, u32::MAX] {
        assert_eq!(hex8(n), format!("{n:08x}"));
    }
    assert_eq!(parse_hex8("DEADbeef"), Some(0xdead_beef));
    assert_eq!(parse_hex8("xyz"), None);
}

#[test]
fn whitespace_is_that_of_the_standard_library() {
    for n in 0..0x11_0000u32 {
        if let Some(c) = char::from_u32(n) {
            assert_eq!(is_whitespace(c), c.is_whitespace(), "{n:x}");
        }
    }
}

#[test]
fn texts_are_cut_as_in_the_standard_library() {
    for s in ["", " ", " a b ", "\u{3000}x\u{a0}", "a,b,,c", "=x=", "k=v=w", "http://h//"] {
        assert_eq!(trim(s), s.trim());
        assert_eq!(split(s, ','), s.split(',').collect::<Vec<&str>>());
        assert_eq!(trim_end_matches(s, '/'), s.trim_end_matches('/'));
        let once = s.split_once('=').map(|(a, b)| (a.to_string(), b.to_string()));
        assert_eq!(split_once(s, '='), once);
        assert_eq!(strip_prefix(s, "a"), s.strip_prefix('a').map(|r| r.to_string()));
        for t in ["", "a", "b ", "ß", ",,"] {
            assert_eq!(contains(s, t), s.contains(t));
            assert_eq!(same_text(s, t), s == t);
        }
    }
    assert_eq!(split_list(" a, ,b "), vec!["a", "b"]);
    assert!(eq_ignore_case("KeY", "kEy"));
    assert!(!eq_ignore_case("É", "é"));
}

#[test]
fn lists_are_read_from_optional_files() {
    assert_eq!(optional_texts(Some(r#"["a", "\u00e9\n"]"#)), vec!["a", "\u{e9}\n"]);
    assert!(optional_texts(Some("[1]")).is_empty());
    assert!(optional_texts(None).is_empty());
    assert_eq!(optional_opt_texts(Some(r#"["a", null]"#)), vec![Some("a".to_string()), None]);
    assert!(optional_opt_texts(Some("{}")).is_empty());
    assert_eq!(optional_numbers(Some("[18446744073709551615, 0]")), vec![u64::MAX, 0]);
    assert!(optional_numbers(Some("[-1]")).is_empty());
    assert!(optional_numbers(None).is_empty());
}
