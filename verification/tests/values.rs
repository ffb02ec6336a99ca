use cutler::config::{normalize, render_pref, to_pref_value, ConfigValue, ConvertError, PrefVal};
use cutler::text::{i64_text, parse_i64};
use cutler::unapply::string_to_config_value;

fn s(x: &str) -> String {
    x.to_string()
}

#[test]
fn normalize_scalars() {
    assert_eq!(normalize(&ConfigValue::Boolean(true)), "1");
    assert_eq!(normalize(&ConfigValue::Boolean(false)), "0");
    assert_eq!(normalize(&ConfigValue::Integer(-42)), "-42");
    assert_eq!(normalize(&ConfigValue::Integer(0)), "0");
    assert_eq!(normalize(&ConfigValue::Float(s("1.5"))), "1.5");
    assert_eq!(normalize(&ConfigValue::String(s("Nlsv"))), "Nlsv");
}

#[test]
fn normalize_nested() {
    let v = ConfigValue::Array(vec![
        ConfigValue::Integer(1),
        ConfigValue::String(s("a")),
        ConfigValue::Table(vec![(s("k"), ConfigValue::Boolean(true)), (s("j"), ConfigValue::Array(vec![]))]),
    ]);
    assert_eq!(normalize(&v), "[1, a, {k: 1, j: []}]");
}

#[test]
fn render_pref_values() {
    assert_eq!(render_pref(&PrefVal::Boolean(true)), "1");
    assert_eq!(render_pref(&PrefVal::Integer(i64::MIN)), "-9223372036854775808");
    assert_eq!(render_pref(&PrefVal::Float(s("0.25"))), "0.25");
    assert_eq!(render_pref(&PrefVal::Other(s("2001-01-01 00:00:00 UTC"))), "2001-01-01 00:00:00 UTC");
    let d = PrefVal::Dictionary(vec![
        (s("a"), PrefVal::String(s("x"))),
        (s("b"), PrefVal::Array(vec![PrefVal::Integer(2), PrefVal::Integer(3)])),
    ]);
    assert_eq!(render_pref(&d), "{a: x, b: [2, 3]}");
    assert_eq!(render_pref(&PrefVal::Array(vec![])), "[]");
}

#[test]
fn to_pref_value_converts_shapes() {
    let v = ConfigValue::Table(vec![(s("x"), ConfigValue::Array(vec![ConfigValue::Boolean(false)]))]);
    match to_pref_value(&v) {
        Ok(PrefVal::Dictionary(entries)) => {
            assert_eq!(entries.len(), 1);
            assert_eq!(entries[0].0, "x");
            assert!(matches!(&entries[0].1, PrefVal::Array(items) if matches!(items[0], PrefVal::Boolean(false))));
        }
        _ => panic!("expected a dictionary"),
    }
}

#[test]
fn to_pref_value_rejects_datetime() {
    let v = ConfigValue::Array(vec![ConfigValue::Integer(1), ConfigValue::Datetime(s("1979-05-27"))]);
    assert!(matches!(to_pref_value(&v), Err(ConvertError::UnsupportedDatetime)));
    assert!(matches!(to_pref_value(&ConfigValue::Datetime(s("07:32:00"))), Err(ConvertError::UnsupportedDatetime)));
}

#[test]
fn law_written_value_reads_back() {
    let values = vec![
        ConfigValue::Boolean(true),
        ConfigValue::Integer(-7),
        ConfigValue::Float(s("2.5")),
        ConfigValue::String(s("hello")),
        ConfigValue::Array(vec![ConfigValue::Integer(1), ConfigValue::String(s("b"))]),
        ConfigValue::Table(vec![(s("k"), ConfigValue::Boolean(false))]),
    ];
    for v in &values {
        let p = to_pref_value(v).ok().unwrap();
        assert_eq!(render_pref(&p), normalize(v));
    }
}

#[test]
fn parse_i64_accepts_signed_decimals() {
    assert_eq!(parse_i64("42"), Some(42));
    assert_eq!(parse_i64("+5"), Some(5));
    assert_eq!(parse_i64("-0"), Some(0));
    assert_eq!(parse_i64("007"), Some(7));
    assert_eq!(parse_i64("9223372036854775807"), Some(i64::MAX));
    assert_eq!(parse_i64("-9223372036854775808"), Some(i64::MIN));
}

#[test]
fn parse_i64_rejects_others() {
    assert_eq!(parse_i64(""), None);
    assert_eq!(parse_i64("-"), None);
    assert_eq!(parse_i64("+"), None);
    assert_eq!(parse_i64("12a"), None);
    assert_eq!(parse_i64("1.5"), None);
    assert_eq!(parse_i64(" 1"), None);
    assert_eq!(parse_i64("9223372036854775808"), None);
    assert_eq!(parse_i64("-9223372036854775809"), None);
    assert_eq!(parse_i64("99999999999999999999999"), None);
}

#[test]
fn parse_i64_agrees_with_std() {
    for t in ["0", "-1", "+12", "abc", "--1", "123456789012", "-", "", "1_000", "٣"] {
        assert_eq!(parse_i64(t), t.parse::<i64>().ok(), "text {:?}", t);
    }
}

#[test]
fn i64_text_matches_to_string() {
    for i in [0i64, 9, 10, -1, 1234567, i64::MAX, i64::MIN] {
        assert_eq!(i64_text(i), i.to_string());
    }
}

#[test]
fn string_to_config_value_cases() {
    assert!(matches!(string_to_config_value("true", false), ConfigValue::Boolean(true)));
    assert!(matches!(string_to_config_value("false", false), ConfigValue::Boolean(false)));
    assert!(matches!(string_to_config_value("36", true), ConfigValue::Integer(36)));
    assert!(matches!(string_to_config_value("0.5", true), ConfigValue::Float(ref t) if t == "0.5"));
    assert!(matches!(string_to_config_value("Nlsv", false), ConfigValue::String(ref t) if t == "Nlsv"));
    assert!(matches!(string_to_config_value("TRUE", false), ConfigValue::String(ref t) if t == "TRUE"));
}

#[test]
fn law_integer_text_reads_back() {
    for i in [0i64, 7, -7, 1234, i64::MAX, i64::MIN] {
        let t = i64_text(i);
        assert!(matches!(string_to_config_value(&t, t.parse::<f64>().is_ok()), ConfigValue::Integer(j) if j == i));
        assert_eq!(parse_i64(&t), Some(i));
    }
}
