use rustybird::json::Jsn;
use rustybird::optic::JsonOptic;
use rustybird::sql_json::{JsonPath, Keyword, Predicate, SqlPiece};

fn jsonpath_sql(kw: &str, arg: Jsn) -> JsonPath {
    let optic = JsonOptic::from_path("a.b");
    let spec = vec![(Keyword::from_wire(kw).unwrap(), arg)];
    Predicate::from(optic, spec).to_json_path().ok().unwrap()
}

fn binds(jp: &JsonPath) -> Vec<String> {
    jp.pieces
        .iter()
        .filter_map(|p| match p {
            SqlPiece::Bind(v) => Some(v.to_string()),
            SqlPiece::Sql(_) => None,
        })
        .collect()
}

#[test]
fn check_equals_spec_sql() {
    let jp = jsonpath_sql("==", Jsn::Signed(42));
    assert_eq!(jp.to_sql(1), "format('$.a.b ?(@ == %s)', to_json($1))::jsonpath");
    assert_eq!(binds(&jp), vec!["42"]);
}

#[test]
fn check_not_equals_spec_sql() {
    let jp = jsonpath_sql("!=", Jsn::Signed(42));
    assert_eq!(jp.to_sql(1), "format('$.a.b ?(@ != %s)', to_json($1))::jsonpath");
    assert_eq!(binds(&jp), vec!["42"]);
}

#[test]
fn check_gt_spec_sql() {
    let jp = jsonpath_sql(">", Jsn::Signed(42));
    assert_eq!(jp.to_sql(1), "format('$.a.b ?(@ > %s)', to_json($1))::jsonpath");
    assert_eq!(binds(&jp), vec!["42"]);
}

#[test]
fn check_gte_spec_sql() {
    let jp = jsonpath_sql(">=", Jsn::Signed(42));
    assert_eq!(jp.to_sql(1), "format('$.a.b ?(@ >= %s)', to_json($1))::jsonpath");
    assert_eq!(binds(&jp), vec!["42"]);
}

#[test]
fn check_lt_spec_sql() {
    let jp = jsonpath_sql("<", Jsn::Signed(42));
    assert_eq!(jp.to_sql(1), "format('$.a.b ?(@ < %s)', to_json($1))::jsonpath");
    assert_eq!(binds(&jp), vec!["42"]);
}

#[test]
fn check_lte_spec_sql() {
    let jp = jsonpath_sql("<=", Jsn::Signed(42));
    assert_eq!(jp.to_sql(1), "format('$.a.b ?(@ <= %s)', to_json($1))::jsonpath");
    assert_eq!(binds(&jp), vec!["42"]);
}

#[test]
fn check_like_regex_spec_sql() {
    let jp = jsonpath_sql("~=", Jsn::String("test".to_string()));
    assert_eq!(jp.to_sql(1), "format('$.a.b ?(@ like_regex %s)', to_json($1::text))::jsonpath");
    assert_eq!(binds(&jp), vec!["\"test\""]);
}

#[test]
fn check_starts_with_spec_sql() {
    let jp = jsonpath_sql("^", Jsn::String("test".to_string()));
    assert_eq!(jp.to_sql(1), "format('$.a.b ?(@ starts with %s)', to_json($1::text))::jsonpath");
    assert_eq!(binds(&jp), vec!["\"test\""]);
}

#[test]
fn several_conditions_chain_filters_and_number_parameters() {
    let optic = JsonOptic::from_path("track.$.n");
    let spec = vec![
        (Keyword::Gte, Jsn::Signed(1)),
        (Keyword::Less, Jsn::Float("2.5".to_string())),
        (Keyword::Eq, Jsn::Array(vec![Jsn::Signed(1)])),
    ];
    let jp = Predicate::from(optic, spec).to_json_path().ok().unwrap();
    assert_eq!(
        jp.to_sql(3),
        "format('$.track[*].n ?(@ >= %s) ?(@ < %s) ?(@ == %s)', to_json($3), to_json($4), to_json($5::json))::jsonpath"
    );
}

#[test]
fn rejected_arguments_give_errors() {
    let optic = || JsonOptic::from_path("a");
    let e1 = Predicate::from(optic(), vec![(Keyword::Rx, Jsn::Signed(1))]).to_json_path().err().unwrap();
    assert_eq!(e1.cause, "Incorrect argument for 'like_regex'");
    let e2 = Predicate::from(optic(), vec![(Keyword::StartsWith, Jsn::Null)]).to_json_path().err().unwrap();
    assert_eq!(e2.cause, "Incorrect argument for 'starts with'");
    let e3 = Predicate::from(optic(), vec![(Keyword::Eq, Jsn::Null)]).to_json_path().err().unwrap();
    assert_eq!(e3.cause, "Incorrect condition");
}

#[test]
fn sql_keywords_read_their_wire_spelling() {
    assert_eq!(Keyword::from_wire("^"), Some(Keyword::StartsWith));
    assert_eq!(Keyword::from_wire("[_]"), None);
    assert_eq!(Keyword::Rx.to_wire(), "~=");
}
