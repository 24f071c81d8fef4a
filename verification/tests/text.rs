use tg_ws_proxy::dc_updater::parse_proxy_config;
use tg_ws_proxy::json::JsonValue;
use tg_ws_proxy::text::{
    chars_of, find_in, nth_word, parse_unsigned_range, range_equals, range_starts_with,
    trim_range, white_space,
};

fn chars(s: &str) -> Vec<char> {
    chars_of(s)
}

#[test]
fn white_space_matches_std() {
    for c in ['\t', '\n', '\u{b}', '\u{c}', '\r', ' ', '\u{85}', '\u{a0}', '\u{2003}', '\u{3000}'] {
        assert!(white_space(c));
        assert!(c.is_whitespace());
    }
    for c in ['a', '0', '#', ':', '\u{200b}', '\u{0}'] {
        assert!(!white_space(c));
        assert_eq!(white_space(c), c.is_whitespace());
    }
}

#[test]
fn trimming_matches_std() {
    for s in ["", "   ", " a b ", "\tx\r", "x", "\u{3000}y\u{a0}"] {
        let v = chars(s);
        let (a, b) = trim_range(&v, 0, v.len());
        let got: String = v[a..b].iter().collect();
        assert_eq!(got, s.trim());
    }
}

#[test]
fn finding_characters() {
    let v = chars("ab:cd:e");
    assert_eq!(find_in(&v, ':', 0, v.len()), 2);
    assert_eq!(find_in(&v, ':', 3, v.len()), 5);
    assert_eq!(find_in(&v, ':', 6, v.len()), 7);
    assert_eq!(find_in(&v, 'z', 0, 4), 4);
}

#[test]
fn unsigned_numbers() {
    let check = |s: &str, max: u64| {
        let v = chars(s);
        parse_unsigned_range(&v, 0, v.len(), max)
    };
    assert_eq!(check("0", u32::MAX as u64), Some(0));
    assert_eq!(check("+17", u32::MAX as u64), Some(17));
    assert_eq!(check("4294967295", u32::MAX as u64), Some(4294967295));
    assert_eq!(check("4294967296", u32::MAX as u64), None);
    assert_eq!(check("", u32::MAX as u64), None);
    assert_eq!(check("+", u32::MAX as u64), None);
    assert_eq!(check("-1", u32::MAX as u64), None);
    assert_eq!(check("1 ", u32::MAX as u64), None);
    assert_eq!(check("12a", u32::MAX as u64), None);
    assert_eq!(check("18446744073709551615", u64::MAX), Some(u64::MAX));
    assert_eq!(check("18446744073709551616", u64::MAX), None);
    for s in ["0", "+5", "99999999999", "007", "x"] {
        assert_eq!(check(s, u32::MAX as u64), s.parse::<u32>().ok().map(|v| v as u64));
    }
}

#[test]
fn words_and_prefixes() {
    let v = chars("  Max open  files\t1024 4096 files ");
    let (a, b) = nth_word(&v, 0, v.len(), 3).unwrap();
    let w: String = v[a..b].iter().collect();
    assert_eq!(w, "1024");
    assert_eq!(nth_word(&v, 0, v.len(), 6), None);
    let max = chars("Max");
    assert!(!range_starts_with(&v, 0, v.len(), &max));
    assert!(range_starts_with(&v, 2, v.len(), &max));
    assert!(range_equals(&v, a, b, &chars("1024")));
    assert!(!range_equals(&v, a, b, &chars("102")));
}

#[test]
fn json_lookups() {
    let items = vec![
        JsonValue::Number(Some(1)),
        JsonValue::Str("x".to_string()),
        JsonValue::Number(None),
        JsonValue::Bool(true),
        JsonValue::Null,
    ];
    let inner = JsonValue::Object(vec![("b".to_string(), JsonValue::Array(items))]);
    let doc = JsonValue::Object(vec![
        ("a".to_string(), inner),
        ("a".to_string(), JsonValue::Null),
    ]);
    let a = doc.get(&"a".to_string()).unwrap();
    let items = a.get(&"b".to_string()).unwrap().as_array().unwrap();
    assert_eq!(items.len(), 5);
    assert_eq!(items[0].as_u64(), Some(1));
    assert_eq!(items[1].as_str().map(|s| s.as_str()), Some("x"));
    assert_eq!(items[1].as_u64(), None);
    assert_eq!(items[2].as_u64(), None);
    assert!(items[0].as_str().is_none());
    assert!(items[0].as_array().is_none());
    assert!(doc.get(&"missing".to_string()).is_none());
    assert!(items[0].get(&"a".to_string()).is_none());
}

#[test]
fn json_numbers_other_than_unsigned_integers_are_not_ids() {
    let text = r#"{"dc_options":[{"id":1.0,"ip_address":"1.1.1.1"},{"id":"2","ip_address":"2.2.2.2"},{"id":3,"ip_address":"3.3.3.3"}]}"#;
    let ips = parse_proxy_config(text).unwrap();
    assert_eq!(ips.len(), 1);
    assert_eq!(ips[&3], "3.3.3.3");
    assert!(parse_proxy_config("{not json").is_none());
}
