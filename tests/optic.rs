use rustybird::json::Jsn;
use rustybird::optic::{JsonOptic, PathPart};

fn s(v: &str) -> Jsn {
    Jsn::String(v.to_string())
}

fn num(v: i64) -> Jsn {
    Jsn::Signed(v)
}

fn obj(entries: Vec<(&str, Jsn)>) -> Jsn {
    Jsn::Object(entries.into_iter().map(|(k, v)| (k.to_string(), v)).collect())
}

fn arr(items: Vec<Jsn>) -> Jsn {
    Jsn::Array(items)
}

#[test]
fn setter_should_create_fields_recursively_in_empty_json() {
    let optic = JsonOptic::from_path("outer.inner");
    let mut target = obj(vec![]);
    target.set(&optic, &num(42));
    assert!(target.same(&obj(vec![("outer", obj(vec![("inner", num(42))]))])));
}

#[test]
fn setter_should_replace_existing_value() {
    let optic = JsonOptic::from_path("outer.inner");
    let mut target = obj(vec![("outer", obj(vec![("inner", num(12))]))]);
    target.set(&optic, &num(42));
    assert!(target.same(&obj(vec![("outer", obj(vec![("inner", num(42))]))])));
}

#[test]
fn setter_should_keep_target_contents() {
    let optic = JsonOptic::from_path("outer.inner");
    let mut target = obj(vec![("a", obj(vec![("b", s("c"))]))]);
    target.set(&optic, &num(42));
    let expected = obj(vec![("outer", obj(vec![("inner", num(42))])), ("a", obj(vec![("b", s("c"))]))]);
    assert!(target.same(&expected));
}

#[test]
fn setter_should_keep_array_contents() {
    let optic = JsonOptic::from_path("outer.inner.[2]");
    let mut target = obj(vec![("outer", obj(vec![("inner", arr(vec![num(1), num(2), num(3)]))]))]);
    target.set(&optic, &num(4));
    let expected = obj(vec![("outer", obj(vec![("inner", arr(vec![num(1), num(2), num(4)]))]))]);
    assert!(target.same(&expected));
}

#[test]
fn setter_should_set_fields_inside_arrays() {
    let optic = JsonOptic::from_path("outer.inner.[2].v");
    let items = |last: i64| {
        arr(vec![obj(vec![("v", num(1))]), obj(vec![("v", num(2))]), obj(vec![("v", num(last))])])
    };
    let mut target = obj(vec![("outer", obj(vec![("inner", items(3))]))]);
    target.set(&optic, &num(4));
    assert!(target.same(&obj(vec![("outer", obj(vec![("inner", items(4))]))])));
}

#[test]
fn setter_should_write_at_correct_index() {
    let optic = JsonOptic::from_path("outer.inner.[1]");
    let mut target = obj(vec![("outer", obj(vec![("inner", arr(vec![num(42)]))]))]);
    target.set(&optic, &num(100));
    let expected = obj(vec![("outer", obj(vec![("inner", arr(vec![num(42), num(100)]))]))]);
    assert!(target.same(&expected));
}

#[test]
fn setter_should_append_fields_inside_arrays() {
    let start = || {
        obj(vec![(
            "inner",
            arr(vec![obj(vec![("v", num(1))]), obj(vec![("v", num(2))]), obj(vec![("v", num(3))])]),
        )])
    };
    let optic1 = JsonOptic::from_path("inner.[0].vv");
    let mut target1 = start();
    target1.set(&optic1, &num(4));
    let expected1 = obj(vec![(
        "inner",
        arr(vec![obj(vec![("v", num(1)), ("vv", num(4))]), obj(vec![("v", num(2))]), obj(vec![("v", num(3))])]),
    )]);
    assert!(target1.same(&expected1));

    let optic2 = JsonOptic::from_path("inner.[1].vv");
    let mut target2 = start();
    target2.set(&optic2, &num(4));
    let expected2 = obj(vec![(
        "inner",
        arr(vec![obj(vec![("v", num(1))]), obj(vec![("v", num(2)), ("vv", num(4))]), obj(vec![("v", num(3))])]),
    )]);
    assert!(target2.same(&expected2));
}

#[test]
fn getter_should_extract_json() {
    let optic = JsonOptic::from_path("outer.inner");
    let target = obj(vec![("outer", obj(vec![("inner", obj(vec![("a", obj(vec![("b", s("c"))]))]))]))]);
    let result = target.get_all(&optic);
    assert_eq!(result.len(), 1);
    assert!(result[0].same(&obj(vec![("a", obj(vec![("b", s("c"))]))])));
}

#[test]
fn getter_should_return_empty_json_if_there_is_no_subtree() {
    let optic = JsonOptic::from_path("outer.inner");
    let target = obj(vec![("a", obj(vec![("b", s("c"))]))]);
    assert!(target.get_all(&optic).is_empty());
}

#[test]
fn prune_should_do_nothing_if_there_is_no_subtree() {
    let optic = JsonOptic::from_path("outer.inner");
    let mut target = obj(vec![("a", obj(vec![("b", s("c"))]))]);
    target.prune(&optic);
    assert!(target.same(&obj(vec![("a", obj(vec![("b", s("c"))]))])));
}

#[test]
fn prune_should_cut_only_redundant_part_of_subtree() {
    let optic = JsonOptic::from_path("outer.inner");
    let mut target = obj(vec![("outer", obj(vec![("inner", num(42)), ("other", obj(vec![("b", s("c"))]))]))]);
    target.prune(&optic);
    assert!(target.same(&obj(vec![("outer", obj(vec![("other", obj(vec![("b", s("c"))]))]))])));
}

#[test]
fn validate_should_return_true_if_subtree_exists() {
    let optic = JsonOptic::from_path("outer.inner");
    let target = obj(vec![("outer", obj(vec![("inner", num(42))]))]);
    assert!(target.validate(&optic));
}

#[test]
fn validate_should_return_false_if_there_is_no_valid_subtree() {
    let optic = JsonOptic::from_path("outer.inner");
    let target = obj(vec![("outer", obj(vec![("other", obj(vec![("b", s("c"))]))]))]);
    assert!(!target.validate(&optic));
}

#[test]
fn json_optic_correctly_deserializes() {
    let optic = JsonOptic::from_path("outer.inner");
    assert_eq!(optic.json_path.len(), 2);
    assert_eq!("outer.inner", optic.to_string());
}

#[test]
fn json_optic_corretly_renders_into_jsonpath() {
    let optic1 = JsonOptic::from_path("track.segments.[0].location");
    let optic2 = JsonOptic::from_path("track.segments.$.location");
    assert_eq!(optic1.to_json_path_string(), "$.track.segments[0].location");
    assert_eq!(optic2.to_json_path_string(), "$.track.segments[*].location");
}

#[test]
fn optic_parses_fields_indices_and_traversals() {
    let optic = JsonOptic::from_path("a.[2].b");
    assert_eq!(
        optic.json_path,
        vec![PathPart::Field("a".to_string()), PathPart::Index(2), PathPart::Field("b".to_string())]
    );
    assert_eq!(optic.to_json_path_string(), "$.a[2].b");
    let traversal = JsonOptic::from_path("x.$");
    assert_eq!(traversal.json_path, vec![PathPart::Field("x".to_string()), PathPart::Traverse]);
}

#[test]
fn optic_token_with_index_inside_is_an_index() {
    let optic = JsonOptic::from_path("a[7]b");
    assert_eq!(optic.json_path, vec![PathPart::Index(7)]);
    let too_big = JsonOptic::from_path("[99999999999999999999999]");
    assert_eq!(too_big.json_path, vec![PathPart::Field("[99999999999999999999999]".to_string())]);
}

#[test]
fn optic_renders_back_what_it_parsed() {
    for path in ["outer.inner.[2].v", "a.$.b", "x", "", "a..b", "$.$", "[0].[10]"] {
        assert_eq!(JsonOptic::from_path(path).to_string(), path);
    }
}

#[test]
fn optic_builders_extend_the_path() {
    let optic = JsonOptic::empty().field("a".to_string()).index(3).traverse();
    assert_eq!(optic.to_string(), "a.[3].$");
    assert_eq!(optic.to_json_path_string(), "$.a[3][*]");
    assert_eq!(JsonOptic::empty().to_string(), "");
}

#[test]
fn json_path_collapses_a_leading_index_into_the_prefix() {
    assert_eq!(JsonOptic::from_path("[0].a").to_json_path_string(), "$[0].a");
}

#[test]
fn set_then_get_finds_the_value() {
    let doc_paths = ["a.b", "a.[3]", "x.$.y", "$"];
    for p in doc_paths {
        let optic = JsonOptic::from_path(p);
        let mut doc = obj(vec![("a", obj(vec![("b", num(1))]))]);
        doc.set(&optic, &s("v"));
        let found = doc.get_all(&optic);
        assert!(found.iter().any(|x| x.same(&s("v"))), "{}", p);
        assert!(doc.validate(&optic), "{}", p);
    }
}

#[test]
fn set_through_a_traversal_of_an_empty_array_writes_nothing() {
    let optic = JsonOptic::from_path("a.$.b");
    let mut doc = obj(vec![("a", arr(vec![]))]);
    doc.set(&optic, &num(1));
    assert!(doc.get_all(&optic).is_empty());
    assert!(!doc.validate(&optic));
}

#[test]
fn set_traverses_every_element() {
    let optic = JsonOptic::from_path("$.k");
    let mut doc = arr(vec![obj(vec![]), obj(vec![("k", num(0))])]);
    doc.set(&optic, &num(5));
    assert!(doc.same(&arr(vec![obj(vec![("k", num(5))]), obj(vec![("k", num(5))])])));
}

#[test]
fn set_replaces_a_non_array_under_an_index() {
    let optic = JsonOptic::from_path("[2]");
    let mut doc = s("x");
    doc.set(&optic, &num(7));
    assert!(doc.same(&arr(vec![Jsn::Null, Jsn::Null, num(7)])));
}

#[test]
fn set_opt_prunes_without_a_value() {
    let optic = JsonOptic::from_path("a");
    let mut doc = obj(vec![("a", num(1)), ("b", num(2))]);
    doc.set_opt(&optic, None);
    assert!(doc.same(&obj(vec![("b", num(2))])));
    doc.set_opt(&optic, Some(&num(3)));
    assert!(doc.same(&obj(vec![("a", num(3)), ("b", num(2))])));
}

#[test]
fn prune_twice_is_prune_once() {
    let optic = JsonOptic::from_path("outer.inner");
    let mut once = obj(vec![("outer", obj(vec![("inner", num(42)), ("other", num(1))]))]);
    once.prune(&optic);
    let mut twice = once.duplicate();
    twice.prune(&optic);
    assert!(once.same(&twice));
}

#[test]
fn prune_removes_array_elements_and_nulls_traversed_arrays() {
    let mut doc = obj(vec![("a", arr(vec![num(1), num(2), num(3)]))]);
    doc.prune(&JsonOptic::from_path("a.[1]"));
    assert!(doc.same(&obj(vec![("a", arr(vec![num(1), num(3)]))])));
    doc.prune(&JsonOptic::from_path("a.$"));
    assert!(doc.same(&obj(vec![("a", Jsn::Null)])));
}

#[test]
fn validate_of_a_traversal_only_optic_asks_for_an_array() {
    let optic = JsonOptic::from_path("$");
    assert!(arr(vec![]).validate(&optic));
    assert!(arr(vec![num(1)]).validate(&optic));
    assert!(!obj(vec![]).validate(&optic));
}

#[test]
fn duplicate_keys_count_by_their_first_entry() {
    let doc = obj(vec![("k", num(1)), ("k", num(2))]);
    let found = doc.get_all(&JsonOptic::from_path("k"));
    assert_eq!(found.len(), 1);
    assert!(found[0].same(&num(1)));
    assert!(doc.same(&obj(vec![("k", num(1))])));
}
