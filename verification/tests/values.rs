//! Numbers, texts and tables.

use vectorflow_sgs::dict::{contains_text, TextMap};
use vectorflow_sgs::order::{is_before, sort_distinct_texts, sort_texts};
use vectorflow_sgs::promql::{extract_quoted, find_first, join};
use vectorflow_sgs::scalar::Double;
use vectorflow_sgs::table::{IdMap, IdSet};
use vectorflow_sgs::text::{
    cat, cat3, chars_of, decimal, from_chars, hex16, hex_bytes, is_white, repeat_char, trim_text,
};

fn d(x: f64) -> Double {
    Double::from_bits(x.to_bits())
}

fn samples() -> Vec<f64> {
    let mut out = vec![
        0.0,
        -0.0,
        1.0,
        -1.0,
        0.5,
        -0.5,
        1.5,
        2.5,
        1e-320,
        -1e-320,
        f64::MIN_POSITIVE,
        f64::MAX,
        f64::MIN,
        f64::INFINITY,
        f64::NEG_INFINITY,
        f64::NAN,
        -f64::NAN,
        9007199254740991.0,
        9007199254740992.0,
        9.223372036854775e18,
        9.223372036854775807e18,
        -9.223372036854775808e18,
        -9.3e18,
        1e300,
    ];
    let mut seed: u64 = 99;
    for _ in 0..400 {
        seed = seed.wrapping_mul(6364136223846793005).wrapping_add(1442695040888963407);
        out.push(f64::from_bits(seed));
        out.push((seed as i64 >> (seed & 63)) as f64 / 8.0);
    }
    out
}

#[test]
fn doubles_compare_as_floats_do() {
    let all = samples();
    for &a in &all {
        assert_eq!(d(a).is_nan(), a.is_nan());
        assert_eq!(d(a).is_zero(), a == 0.0);
        for &b in &all {
            assert_eq!(d(a).lt(d(b)), a < b, "{a} < {b}");
            assert_eq!(d(a).eq_value(d(b)), a == b, "{a} == {b}");
        }
    }
    assert_eq!(Double::zero(), d(0.0));
    assert_eq!(Double::one(), d(1.0));
    assert!(Double::not_a_number().is_nan());
}

#[test]
fn doubles_convert_as_floats_do() {
    for a in samples() {
        assert_eq!(d(a).to_whole(), a as i64, "{a}");
    }
    let mut whole: Vec<i64> = vec![0, 1, -1, 5, 9007199254740991, -9007199254740991];
    for shift in 0..53 {
        whole.push(1 << shift);
        whole.push(-(1 << shift) + 1);
        whole.push((1 << shift) + (1 << (shift / 2)) - 1);
    }
    for n in whole {
        assert_eq!(Double::from_whole(n), d(n as f64), "{n}");
        // A whole number comes back.
        assert_eq!(Double::from_whole(n).to_whole(), n);
    }
}

#[test]
fn white_space_is_what_unicode_says() {
    for n in 0..=0x10ffffu32 {
        if let Some(c) = char::from_u32(n) {
            assert_eq!(is_white(c), c.is_whitespace(), "{n:x}");
        }
    }
    for s in ["", " ", " a b ", "\u{a0}x\t\n", "\u{3000}\u{e9}"] {
        assert_eq!(trim_text(s), s.trim());
    }
}

#[test]
fn numbers_are_written_out() {
    for n in [0u64, 7, 10, 99, 100, 12345678901234567890, u64::MAX] {
        assert_eq!(decimal(n), format!("{n}"));
        assert_eq!(hex16(n), format!("{n:016x}"));
    }
    assert_eq!(hex_bytes(&[0, 1, 0xab, 0xff]), "0001abff");
    assert_eq!(repeat_char('-', 3), "---");
    assert_eq!(cat("a", "\u{e9}"), "a\u{e9}");
    assert_eq!(cat3("a", "", "b"), "ab");
    let chars = chars_of("h\u{e9}llo");
    assert_eq!(from_chars(&chars, 1, 4), "\u{e9}ll");
}

#[test]
fn texts_are_ordered_by_their_bytes() {
    let words: Vec<String> = ["b", "", "a", "\u{e9}", "ab", "b", "Z", "\u{10000}", "\u{ffff}"]
        .iter()
        .map(|s| s.to_string())
        .collect();
    for a in &words {
        for b in &words {
            assert_eq!(is_before(a, b), a < b, "{a:?} {b:?}");
        }
    }
    let mut expected = words.clone();
    expected.sort();
    assert_eq!(sort_texts(&words), expected);
    expected.dedup();
    assert_eq!(sort_distinct_texts(&words), expected);
}

#[test]
fn quoted_and_joined_texts() {
    assert_eq!(extract_quoted("=\"x\""), Some("x".to_string()));
    assert_eq!(extract_quoted("=x"), None);
    assert_eq!(find_first(&chars_of("a,b,c"), ','), Some(1));
    assert_eq!(find_first(&chars_of("abc"), ','), None);
    assert_eq!(join(&["a".to_string(), "b".to_string()], ", "), "a, b");
    assert_eq!(join(&[], ", "), "");
}

#[test]
fn tables_list_their_keys_in_order() {
    let mut m: IdMap<char> = IdMap::new();
    assert!(m.is_empty());
    for (k, v) in [(5, 'a'), (1, 'b'), (u64::MAX, 'c'), (5, 'd')] {
        m.insert(k, v);
    }
    assert_eq!(m.keys(), vec![1, 5, u64::MAX]);
    assert_eq!(m.get(5), Some(&'d'));
    assert_eq!(m.remove(1), Some('b'));
    assert_eq!(m.remove(1), None);
    assert!(!m.contains(1));
    assert_eq!(m.len(), 2);

    let mut a = IdSet::new();
    assert!(a.insert(3) && a.insert(1) && !a.insert(3));
    let mut b = a.duplicate();
    assert!(b.remove(1) && !b.remove(1));
    assert_eq!(a.items(), vec![1, 3]);
    assert_eq!(a.difference(&b), vec![1]);
    assert!(b.contains(3) && !b.is_empty() && b.len() == 1);
}

#[test]
fn text_maps_hold_one_value_per_key() {
    let mut m: TextMap<u8> = TextMap::new();
    m.insert("a".to_string(), 1);
    m.insert("b".to_string(), 2);
    m.insert("a".to_string(), 3);
    assert_eq!(m.get("a"), Some(&3));
    assert!(m.contains_key("b") && !m.contains_key("c"));
    let mut keys = m.keys();
    keys.sort();
    assert_eq!(keys, vec!["a", "b"]);
    assert_eq!(m.take("a"), Some(3));
    assert_eq!(m.take("a"), None);
    assert!(m.remove("b") && !m.remove("b"));
    assert!(contains_text(&["x".to_string()], "x") && !contains_text(&[], "x"));
}
