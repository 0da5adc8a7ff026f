use rustybird::json::Jsn;
use rustybird::optic::JsonOptic;
use rustybird::predicate::{JsonPredicate, Keyword};

fn s(v: &str) -> Jsn {
    Jsn::String(v.to_string())
}

fn num(v: i64) -> Jsn {
    Jsn::Signed(v)
}

fn obj(entries: Vec<(&str, Jsn)>) -> Jsn {
    Jsn::Object(entries.into_iter().map(|(k, v)| (k.to_string(), v)).collect())
}

fn arr(items: Vec<Jsn>) -> Jsn {
    Jsn::Array(items)
}

fn pred(spec: Vec<(&str, Vec<(&str, Jsn)>)>) -> JsonPredicate {
    JsonPredicate::from_conditions(conditions(spec)).ok().unwrap()
}

fn conditions(spec: Vec<(&str, Vec<(&str, Jsn)>)>) -> Vec<(JsonOptic, Vec<(Keyword, Jsn)>)> {
    spec.into_iter()
        .map(|(o, conds)| {
            (
                JsonOptic::from_path(o),
                conds.into_iter().map(|(k, v)| (Keyword::from_wire(k).unwrap(), v)).collect(),
            )
        })
        .collect()
}

fn holds(p: &JsonPredicate, doc: Jsn) -> bool {
    p.validate(&doc).ok().unwrap()
}

#[test]
fn keyword_correctly_deserializes() {
    assert_eq!(Keyword::from_wire("=="), Some(Keyword::Equals));
    assert_eq!(Keyword::from_wire("&[_]"), Some(Keyword::AllIn));
    assert_eq!(Keyword::from_wire("=~"), None);
    assert_eq!(Keyword::Exists.to_wire(), "exists");
}

#[test]
fn json_predicate_should_produce_validator_from_correct_specification() {
    let predicate = JsonPredicate::from_conditions(conditions(vec![("field1", vec![("==", s("test"))])]));
    assert!(predicate.is_ok());
    let p = predicate.ok().unwrap();
    assert_eq!(p.definition.len(), 1);
    assert_eq!(p.definition[0].0.to_string(), "field1");
    assert_eq!(p.definition[0].1.len(), 1);
    assert_eq!(p.definition[0].1[0].0, Keyword::Equals);
    assert!(p.definition[0].1[0].1.same(&s("test")));
}

#[test]
fn json_predicate_should_emit_correct_error_for_poor_specification() {
    let predicate = JsonPredicate::from_conditions(conditions(vec![("field1", vec![(">=", s("test"))])]));
    assert!(predicate.is_err());
    assert_eq!(predicate.err().unwrap().cause, "Conditions are faulty on fields: field1");
}

#[test]
fn construction_error_names_every_faulty_optic() {
    let predicate = JsonPredicate::from_conditions(conditions(vec![
        ("a", vec![("<", s("x"))]),
        ("b", vec![("==", num(1))]),
        ("c", vec![("~=", s("(")), ("exists", num(1))]),
    ]));
    assert_eq!(predicate.err().unwrap().cause, "Conditions are faulty on fields: a, c, c");
}

#[test]
fn check_equality() {
    let predicate = pred(vec![
        ("field1", vec![("==", s("test"))]),
        ("field2", vec![("==", arr(vec![num(1), num(2), num(3)]))]),
        ("field3", vec![("==", obj(vec![("name", s("peka"))]))]),
    ]);
    assert!(holds(&predicate, obj(vec![
        ("field1", s("test")),
        ("field2", arr(vec![num(1), num(2), num(3)])),
        ("field3", obj(vec![("name", s("peka"))])),
    ])));
    assert!(!holds(&predicate, obj(vec![
        ("field1", s("peka")),
        ("field2", arr(vec![num(1), num(2), num(3)])),
        ("field3", obj(vec![("name", s("peka"))])),
    ])));
}

#[test]
fn check_inequality() {
    let predicate = pred(vec![
        ("field1", vec![("!=", s("test"))]),
        ("field2", vec![("==", arr(vec![num(1), num(2), num(3)]))]),
        ("field3", vec![("==", obj(vec![("name", s("peka"))]))]),
    ]);
    assert!(!holds(&predicate, obj(vec![
        ("field1", s("test")),
        ("field2", arr(vec![num(1), num(2), num(3)])),
        ("field3", obj(vec![("name", s("peka"))])),
    ])));
    assert!(holds(&predicate, obj(vec![
        ("field1", s("peka")),
        ("field2", arr(vec![num(1), num(2), num(3)])),
        ("field3", obj(vec![("name", s("peka"))])),
    ])));
}

#[test]
fn check_greater_than() {
    let predicate = pred(vec![("f", vec![(">", num(42))])]);
    assert!(holds(&predicate, obj(vec![("f", num(43))])));
    assert!(!holds(&predicate, obj(vec![("f", num(42))])));
}

#[test]
fn check_greater_or_equals() {
    let predicate = pred(vec![("f", vec![(">=", num(42))])]);
    assert!(holds(&predicate, obj(vec![("f", num(43))])));
    assert!(holds(&predicate, obj(vec![("f", num(42))])));
    assert!(!holds(&predicate, obj(vec![("f", num(41))])));
}

#[test]
fn check_less_than() {
    let predicate = pred(vec![("f", vec![("<", num(42))])]);
    assert!(holds(&predicate, obj(vec![("f", num(41))])));
    assert!(!holds(&predicate, obj(vec![("f", num(42))])));
}

#[test]
fn check_less_or_equals() {
    let predicate = pred(vec![("f", vec![("<=", num(42))])]);
    assert!(holds(&predicate, obj(vec![("f", num(41))])));
    assert!(holds(&predicate, obj(vec![("f", num(42))])));
    assert!(!holds(&predicate, obj(vec![("f", num(43))])));
}

#[test]
fn check_range() {
    let predicate = pred(vec![("f", vec![(">", num(40)), ("<=", num(45)), ("!=", num(43))])]);
    assert!(!holds(&predicate, obj(vec![("f", num(39))])));
    assert!(!holds(&predicate, obj(vec![("f", num(40))])));
    assert!(holds(&predicate, obj(vec![("f", num(41))])));
    assert!(holds(&predicate, obj(vec![("f", num(42))])));
    assert!(!holds(&predicate, obj(vec![("f", num(43))])));
    assert!(holds(&predicate, obj(vec![("f", num(44))])));
    assert!(holds(&predicate, obj(vec![("f", num(45))])));
    assert!(!holds(&predicate, obj(vec![("f", num(46))])));
}

#[test]
fn check_regex_match() {
    let predicate = pred(vec![("f", vec![("~=", s(r"\d{4,}"))])]);
    assert!(!holds(&predicate, obj(vec![("f", s("123"))])));
    assert!(holds(&predicate, obj(vec![("f", s("1234"))])));
    assert!(!holds(&predicate, obj(vec![("f", num(1234))])));
    assert!(holds(&predicate, obj(vec![("f", s("1234a"))])));
    assert!(holds(&predicate, obj(vec![("f", s("12345"))])));
}

#[test]
fn check_size() {
    let predicate = pred(vec![("f", vec![("size", num(4))])]);
    assert!(holds(&predicate, obj(vec![("f", s("1234"))])));
    assert!(holds(&predicate, obj(vec![("f", arr(vec![num(1), num(2), num(3), num(4)]))])));
    assert!(!holds(&predicate, obj(vec![("f", num(1234))])));
    assert!(!holds(&predicate, obj(vec![("f", num(4))])));
}

#[test]
fn check_exists() {
    let predicate = pred(vec![("f", vec![("exists", Jsn::Bool(true))])]);
    assert!(holds(&predicate, obj(vec![("f", num(42))])));
    assert!(!holds(&predicate, obj(vec![("f", Jsn::Null)])));
    assert!(!holds(&predicate, obj(vec![])));
}

#[test]
fn check_not_exists() {
    let predicate = pred(vec![("f", vec![("exists", Jsn::Bool(false))])]);
    assert!(!holds(&predicate, obj(vec![("f", num(42))])));
    assert!(holds(&predicate, obj(vec![("f", Jsn::Null)])));
    assert!(holds(&predicate, obj(vec![])));
}

fn mixed() -> Jsn {
    arr(vec![s("1"), num(2), Jsn::Bool(true)])
}

#[test]
fn check_in() {
    let predicate = pred(vec![("f", vec![("[_]", mixed())])]);
    assert!(holds(&predicate, obj(vec![("f", s("1"))])));
    assert!(holds(&predicate, obj(vec![("f", num(2))])));
    assert!(holds(&predicate, obj(vec![("f", Jsn::Bool(true))])));
    assert!(!holds(&predicate, obj(vec![("f", s("2"))])));
    assert!(!holds(&predicate, obj(vec![("f", num(1))])));
    assert!(!holds(&predicate, obj(vec![("f", Jsn::Bool(false))])));
    assert!(!holds(&predicate, obj(vec![("f", arr(vec![]))])));
    assert!(holds(&predicate, obj(vec![("f", arr(vec![s("1")]))])));
    assert!(holds(&predicate, obj(vec![("f", arr(vec![num(2)]))])));
    assert!(holds(&predicate, obj(vec![("f", arr(vec![Jsn::Bool(true)]))])));
    assert!(!holds(&predicate, obj(vec![("f", arr(vec![num(1)]))])));
    assert!(!holds(&predicate, obj(vec![("f", obj(vec![]))])));
}

#[test]
fn check_not_in() {
    let predicate = pred(vec![("f", vec![("![_]", mixed())])]);
    assert!(!holds(&predicate, obj(vec![("f", s("1"))])));
    assert!(!holds(&predicate, obj(vec![("f", num(2))])));
    assert!(!holds(&predicate, obj(vec![("f", Jsn::Bool(true))])));
    assert!(holds(&predicate, obj(vec![("f", s("2"))])));
    assert!(holds(&predicate, obj(vec![("f", num(1))])));
    assert!(holds(&predicate, obj(vec![("f", Jsn::Bool(false))])));
    assert!(holds(&predicate, obj(vec![("f", arr(vec![]))])));
    assert!(!holds(&predicate, obj(vec![("f", arr(vec![s("1")]))])));
    assert!(!holds(&predicate, obj(vec![("f", arr(vec![num(2)]))])));
    assert!(!holds(&predicate, obj(vec![("f", arr(vec![Jsn::Bool(true)]))])));
    assert!(holds(&predicate, obj(vec![("f", arr(vec![num(1)]))])));
    assert!(holds(&predicate, obj(vec![("f", obj(vec![]))])));
}

#[test]
fn check_all_in() {
    let predicate = pred(vec![("f", vec![("&[_]", mixed())])]);
    assert!(!holds(&predicate, obj(vec![("f", num(1))])));
    assert!(!holds(&predicate, obj(vec![("f", s("1"))])));
    assert!(holds(&predicate, obj(vec![("f", arr(vec![s("1"), num(2), Jsn::Bool(true)]))])));
    assert!(holds(&predicate, obj(vec![("f", arr(vec![num(2), s("1"), Jsn::Bool(true)]))])));
    assert!(!holds(&predicate, obj(vec![("f", arr(vec![num(2), s("1"), Jsn::Bool(false)]))])));
}

#[test]
fn equality_scenario_with_missing_field() {
    let predicate = pred(vec![("f", vec![("==", s("x"))])]);
    assert!(holds(&predicate, obj(vec![("f", s("x"))])));
    assert!(!holds(&predicate, obj(vec![("f", s("y"))])));
    assert!(!holds(&predicate, obj(vec![])));
}

#[test]
fn data_errors_make_a_predicate_false() {
    let predicate = pred(vec![("f", vec![(">", num(1))])]);
    assert_eq!(predicate.validate(&obj(vec![("f", s("a"))])).ok(), Some(false));
    assert_eq!(predicate.validate(&obj(vec![])).ok(), Some(false));
}

#[test]
fn condition_errors_are_listed() {
    let predicate = JsonPredicate::from_spec(conditions(vec![("f", vec![(">", s("a")), ("==", num(1))])]));
    let problems = predicate.validate(&obj(vec![("f", num(1))])).err().unwrap().problems;
    assert_eq!(problems.len(), 1);
    assert_eq!(problems[0].0, Keyword::Greater);
    assert!(problems[0].1.same(&s("a")));
}

#[test]
fn numbers_compare_across_integers_and_decimals() {
    let predicate = pred(vec![("f", vec![(">", Jsn::Float("41.5".to_string()))])]);
    assert!(holds(&predicate, obj(vec![("f", num(42))])));
    assert!(!holds(&predicate, obj(vec![("f", num(41))])));
    assert!(holds(&predicate, obj(vec![("f", Jsn::Float("41.75".to_string()))])));
    let size = pred(vec![("f", vec![("size", Jsn::Float("2.0".to_string()))])]);
    assert!(holds(&size, obj(vec![("f", s("ab"))])));
}

#[test]
fn size_counts_utf8_bytes() {
    let predicate = pred(vec![("f", vec![("size", num(2))])]);
    assert!(holds(&predicate, obj(vec![("f", s("é"))])));
    assert!(!holds(&predicate, obj(vec![("f", s("e"))])));
}

#[test]
fn first_addressed_value_is_tested() {
    let predicate = pred(vec![("a.$.v", vec![("==", num(1))])]);
    assert!(holds(&predicate, obj(vec![("a", arr(vec![obj(vec![("v", num(1))]), obj(vec![("v", num(2))])]))])));
    assert!(!holds(&predicate, obj(vec![("a", arr(vec![obj(vec![("v", num(2))]), obj(vec![("v", num(1))])]))])));
}

#[test]
fn dropping_a_condition_keeps_a_true_predicate_true() {
    let full = pred(vec![("f", vec![(">", num(40)), ("<=", num(45)), ("!=", num(43))])]);
    let fewer = pred(vec![("f", vec![(">", num(40)), ("!=", num(43))])]);
    for v in [41, 42, 44, 45] {
        assert!(holds(&full, obj(vec![("f", num(v))])));
        assert!(holds(&fewer, obj(vec![("f", num(v))])));
    }
}

#[test]
fn predicate_renders_as_json() {
    let predicate = pred(vec![("field1", vec![("==", s("test")), ("size", num(2))]), ("a.[0]", vec![("exists", Jsn::Bool(true))])]);
    assert_eq!(predicate.to_string(), r#"{"field1":{"==":"test","size":2},"a.[0]":{"exists":true}}"#);
}

#[test]
fn unreadable_sizes_ask_for_zero() {
    let negative = pred(vec![("f", vec![("size", num(-3))])]);
    assert!(holds(&negative, obj(vec![("f", s(""))])));
    let huge = pred(vec![("f", vec![("size", Jsn::Float("1e40".to_string()))])]);
    assert!(holds(&huge, obj(vec![("f", arr(vec![]))])));
}

#[test]
fn sizes_with_long_exponents_ask_for_zero() {
    let huge = pred(vec![("f", vec![("size", Jsn::Float("1e1000000000000000000".to_string()))])]);
    assert!(holds(&huge, obj(vec![("f", s(""))])));
    let scaled = pred(vec![("f", vec![("size", Jsn::Float("3e0".to_string()))])]);
    assert!(holds(&scaled, obj(vec![("f", s("abc"))])));
}
