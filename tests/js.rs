use rustybird::json::Jsn;

#[test]
fn check_jsn_debug() {
    let jsn = Jsn::Object(vec![(
        "a".to_string(),
        Jsn::Array(vec![Jsn::String("b".to_string()), Jsn::Signed(3), Jsn::Bool(false), Jsn::Null]),
    )]);
    assert_eq!(jsn.to_string(), r#"{"a": ["b", 3, false, null]}"#)
}

#[test]
fn debug_text_escapes_strings() {
    let jsn = Jsn::String("a\"b\n".to_string());
    assert_eq!(jsn.to_string(), r#""a\"b\n""#);
    assert_eq!(Jsn::Signed(-12).to_string(), "-12");
    assert_eq!(Jsn::Float("1e300".to_string()).to_string(), "1e300");
}

#[test]
fn equality_ignores_entry_order() {
    let a = Jsn::Object(vec![("x".to_string(), Jsn::Signed(1)), ("y".to_string(), Jsn::Null)]);
    let b = Jsn::Object(vec![("y".to_string(), Jsn::Null), ("x".to_string(), Jsn::Signed(1))]);
    assert!(a.same(&b));
    assert!(!a.same(&Jsn::Object(vec![("x".to_string(), Jsn::Signed(1))])));
    assert!(!Jsn::Signed(42).same(&Jsn::Float("42.0".to_string())));
}

#[test]
fn debug_text_separates_object_entries() {
    let jsn = Jsn::Object(vec![
        ("a".to_string(), Jsn::Signed(1)),
        ("b".to_string(), Jsn::Array(vec![])),
        ("a".to_string(), Jsn::Signed(3)),
    ]);
    assert_eq!(jsn.to_string(), r#"{"a": 1, "b": []}"#);
}

#[test]
fn debug_text_uses_rust_escapes() {
    let jsn = Jsn::String("\u{1}é'\t".to_string());
    assert_eq!(jsn.to_string(), "\"\\u{1}\\u{e9}\\'\\t\"");
}
