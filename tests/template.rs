use rustybird::json::Jsn;
use rustybird::optic::JsonOptic;
use rustybird::template::JsonTemplater;

fn s(v: &str) -> Jsn {
    Jsn::String(v.to_string())
}

fn num(v: i64) -> Jsn {
    Jsn::Signed(v)
}

fn obj(entries: Vec<(&str, Jsn)>) -> Jsn {
    Jsn::Object(entries.into_iter().map(|(k, v)| (k.to_string(), v)).collect())
}

fn arr(items: Vec<Jsn>) -> Jsn {
    Jsn::Array(items)
}

#[test]
fn fill_template() {
    let mut template = obj(vec![
        ("description", s("${description}")),
        ("topic", s("${extras.topic}")),
        ("comment", s("${extras.comments.[0].text}")),
        ("meta", obj(vec![("field1", s("${extras.fields.[0]}"))])),
        ("composite", s("${extras.topic}: ${description}")),
    ]);
    let data = obj(vec![
        ("description", s("Some description")),
        (
            "extras",
            obj(vec![
                ("fields", arr(vec![s("f1"), s("f2")])),
                ("topic", s("Main topic")),
                ("comments", arr(vec![obj(vec![("text", s("First nah!"))]), obj(vec![("text", s("Okay"))])])),
            ]),
        ),
    ]);
    template.substitute_in_place(data);
    let expected = obj(vec![
        ("description", s("Some description")),
        ("topic", s("Main topic")),
        ("comment", s("First nah!")),
        ("meta", obj(vec![("field1", s("f1"))])),
        ("composite", s("Main topic: Some description")),
    ]);
    assert!(template.same(&expected), "{}", template.to_string());
}

#[test]
fn absent_fields_should_be_ignored() {
    let mut template = obj(vec![("value", s("${description}"))]);
    template.substitute_in_place(obj(vec![]));
    assert!(template.same(&obj(vec![("value", s("${description}"))])));
}

#[test]
fn substitution_of_object() {
    let mut template = obj(vec![("value", s("${message}"))]);
    let data = obj(vec![("message", obj(vec![("peka", s("name"))]))]);
    template.substitute_in_place(data);
    assert!(template.same(&obj(vec![("value", obj(vec![("peka", s("name"))]))])));
}

#[test]
fn convert_to_a_string() {
    let mut template = obj(vec![("a", s("$:{b1}")), ("b", s("$:{b2}")), ("c", s("$:{n}"))]);
    let data = obj(vec![("b1", Jsn::Bool(true)), ("b2", Jsn::Bool(false)), ("n", Jsn::Float("45.99".to_string()))]);
    template.substitute_in_place(data);
    assert!(template.same(&obj(vec![("a", s("true")), ("b", s("false")), ("c", s("45.99"))])));
}

#[test]
fn convert_from_string() {
    let mut template = obj(vec![("a", s("$~{b1}")), ("b", s("$~{b2}")), ("c", s("$~{n}"))]);
    let data = obj(vec![("b1", s("true")), ("b2", s("false")), ("n", s("45.99"))]);
    template.substitute_in_place(data);
    let expected = obj(vec![
        ("a", Jsn::Bool(true)),
        ("b", Jsn::Bool(false)),
        ("c", Jsn::Float("45.99".to_string())),
    ]);
    assert!(template.same(&expected), "{}", template.to_string());
}

#[test]
fn json_patcher() {
    let mut target = obj(vec![("f1", s("v1")), ("a2", arr(vec![s("e1"), s("e2"), s("e3")])), ("o3", obj(vec![]))]);
    let source = obj(vec![("name", s("Peka")), ("surname", s("Kekovsky")), ("comment", s("nondesc"))]);
    let schema = vec![
        (JsonOptic::from_path("a2.[4]"), "${comment}".to_string()),
        (JsonOptic::from_path("o3.client"), "${name} ${surname}".to_string()),
    ];
    target.patch_in_place(source, schema);
    let at4 = target.get_all(&JsonOptic::from_path("a2.[4]"));
    assert_eq!(at4.len(), 1);
    assert!(at4[0].same(&s("nondesc")));
    let client = target.get_all(&JsonOptic::from_path("o3.client"));
    assert_eq!(client.len(), 1);
    assert!(client[0].same(&s("Peka Kekovsky")));
}

#[test]
fn multi_reference_template() {
    let templater = JsonTemplater::new(obj(vec![("a", obj(vec![("topic", s("T"))])), ("desc", s("D"))]));
    let patcher = templater.make_patcher_fn("${a.topic}: ${desc}").unwrap();
    assert!(patcher.new_value.same(&s("T: D")));
    assert!(templater.make_patcher_fn("${missing}").is_none());
}

#[test]
fn cast_modifiers() {
    let templater = JsonTemplater::new(obj(vec![("x", Jsn::Bool(true)), ("y", s("45.99")), ("z", s("-17"))]));
    assert!(templater.make_patcher_fn("$:{x}").unwrap().new_value.same(&s("true")));
    assert!(templater.make_patcher_fn("$~{y}").unwrap().new_value.same(&Jsn::Float("45.99".to_string())));
    assert!(templater.make_patcher_fn("$~{z}").unwrap().new_value.same(&num(-17)));
    assert!(templater.make_patcher_fn("${x}").unwrap().new_value.same(&Jsn::Bool(true)));
}

#[test]
fn composite_renders_values_and_falls_back_to_the_path() {
    let templater = JsonTemplater::new(obj(vec![
        ("n", num(3)),
        ("list", arr(vec![num(1), s("a")])),
        ("o", obj(vec![("k", s("v\"q"))])),
        ("nothing", Jsn::Null),
    ]));
    let p = templater.make_patcher_fn("n=${n} list=${list} o=${o} z=${nothing} m=${missing}").unwrap();
    assert!(p.new_value.same(&s("n=3 list=1, a o={\"k\":\"v\\\"q\"} z=null m=missing")), "{}", p.new_value.to_string());
}

#[test]
fn surrounded_single_expression_is_composite() {
    let templater = JsonTemplater::new(obj(vec![("n", num(3))]));
    let p = templater.make_patcher_fn("#${n}").unwrap();
    assert!(p.new_value.same(&s("#3")));
}

#[test]
fn text_without_expressions_makes_no_patch() {
    let templater = JsonTemplater::new(obj(vec![("n", num(3))]));
    assert!(templater.make_patcher_fn("plain $ {n} ${} $:x").is_none());
}

#[test]
fn document_without_expressions_is_unchanged() {
    let before = obj(vec![
        ("a", s("plain text")),
        ("b", arr(vec![num(1), s("$"), Jsn::Null])),
        ("c", obj(vec![("d", Jsn::Bool(false))])),
    ]);
    let mut doc = before.duplicate();
    doc.substitute_in_place(obj(vec![("a", num(1))]));
    assert!(doc.same(&before));
}

#[test]
fn applying_a_patcher_overwrites_the_target() {
    let templater = JsonTemplater::new(obj(vec![("n", num(3))]));
    let p = templater.make_patcher_fn("${n}").unwrap();
    let mut target = s("old");
    p.apply(&mut target);
    assert!(target.same(&num(3)));
}

#[test]
fn update_in_place_touches_scalars_only() {
    let mut doc = obj(vec![("a", num(2)), ("b", arr(vec![num(3), s("x")])), ("c", obj(vec![("d", num(-4))]))]);
    doc.update_in_place_by_closure(&|x: &Jsn| match x {
        Jsn::Signed(i) => Jsn::Signed(i.wrapping_mul(10)),
        other => other.duplicate(),
    });
    let expected = obj(vec![("a", num(20)), ("b", arr(vec![num(30), s("x")])), ("c", obj(vec![("d", num(-40))]))]);
    assert!(doc.same(&expected));
}

#[test]
fn path_characters_are_letters_digits_and_punctuation() {
    let templater = JsonTemplater::new(obj(vec![("²", num(1)), ("é9", num(2))]));
    assert!(templater.make_patcher_fn("${²}").is_none());
    assert!(templater.make_patcher_fn("${é9}").unwrap().new_value.same(&num(2)));
    let mut doc = obj(vec![("k", s("${²}"))]);
    doc.substitute_in_place(obj(vec![("²", num(1))]));
    assert!(doc.same(&obj(vec![("k", s("${²}"))])));
}

#[test]
fn numbers_read_from_their_rendering() {
    assert!(rustybird::template::number_from("45.99".to_string()).same(&Jsn::Float("45.99".to_string())));
    assert!(rustybird::template::number_from("-17".to_string()).same(&num(-17)));
    assert!(rustybird::template::number_from("-9223372036854775808".to_string()).same(&Jsn::Signed(i64::MIN)));
    assert!(rustybird::template::number_from("9223372036854775808".to_string())
        .same(&Jsn::Float("9223372036854775808".to_string())));
}

#[test]
fn json_text_escapes_controls() {
    let templater = JsonTemplater::new(obj(vec![("o", obj(vec![("k\n", s("a\u{1}\t\"\\"))]))]));
    let p = templater.make_patcher_fn("=${o}").unwrap();
    assert!(p.new_value.same(&s("={\"k\\n\":\"a\\u0001\\t\\\"\\\\\"}")), "{}", p.new_value.to_string());
}
