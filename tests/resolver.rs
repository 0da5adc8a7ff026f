use rustybird::json::Jsn;
use rustybird::model::{HttpMethod, HttpStub, HttpStubRequest, HttpStubResponse, RequestBody, Scope};
use rustybird::optic::JsonOptic;
use rustybird::predicate::Keyword;
use rustybird::resolver::{find_stub, Stage};

fn stub(id: i32, scope: Scope, times: Option<i64>, request: HttpStubRequest) -> HttpStub {
    HttpStub {
        id,
        created: 0,
        scope,
        times,
        service_suffix: String::new(),
        name: format!("stub{}", id),
        method: HttpMethod::Get,
        path: Some("/a".to_string()),
        path_pattern: None,
        seed: None,
        state: None,
        request,
        persist: None,
        response: HttpStubResponse::RawResponse { code: 200, headers: vec![], body: String::new(), delay_millis: None },
        callback: None,
    }
}

fn json_request(header: (&str, &str), k: i64) -> HttpStubRequest {
    HttpStubRequest::JsonRequest {
        headers: vec![(header.0.to_string(), header.1.to_string())],
        query: vec![],
        body: Jsn::Object(vec![("k".to_string(), Jsn::Signed(k))]),
    }
}

fn no_body() -> HttpStubRequest {
    HttpStubRequest::RequestWithoutBody { headers: vec![], query: vec![] }
}

fn body_of(k: i64) -> (RequestBody, Option<Jsn>) {
    (
        RequestBody::SimpleRequestBody { value: format!("{{\"k\":{}}}", k) },
        Some(Jsn::Object(vec![("k".to_string(), Jsn::Signed(k))])),
    )
}

fn headers(name: &str, value: &str) -> Vec<(String, String)> {
    vec![(name.to_string(), value.to_string())]
}

#[test]
fn resolver_stages_report_where_they_miss() {
    let stubs = || vec![stub(1, Scope::Persistent, None, json_request(("H", "v"), 1))];
    let (body, parsed) = body_of(1);
    let found = find_stub(stubs(), &headers("h", "V"), &Jsn::Object(vec![]), &body, &parsed);
    assert_eq!(found.ok().unwrap().stub.id, 1);

    let miss = find_stub(stubs(), &headers("h", "W"), &Jsn::Object(vec![]), &body, &parsed);
    assert_eq!(miss.err().unwrap().stage, Stage::Headers);

    let (body2, parsed2) = body_of(2);
    let miss = find_stub(stubs(), &headers("h", "V"), &Jsn::Object(vec![]), &body2, &parsed2);
    assert_eq!(miss.err().unwrap().stage, Stage::Body);

    let miss = find_stub(vec![], &headers("h", "V"), &Jsn::Object(vec![]), &body, &parsed);
    assert_eq!(miss.err().unwrap().stage, Stage::Lookup);
}

#[test]
fn header_values_match_without_case() {
    let req = json_request(("X-Token", "AbC"), 1);
    assert!(req.check_headers(&headers("x-token", "abc")));
    assert!(req.check_headers(&headers("X-TOKEN", "ABC")));
    assert!(!req.check_headers(&headers("x-token", "abd")));
    assert!(!req.check_headers(&vec![]));
}

#[test]
fn query_stage_applies_the_query_predicate() {
    let req = HttpStubRequest::RequestWithoutBody {
        headers: vec![],
        query: vec![(JsonOptic::from_path("page"), vec![(Keyword::Equals, Jsn::String("2".to_string()))])],
    };
    let stubs = vec![stub(5, Scope::Persistent, None, req)];
    let query = Jsn::Object(vec![("page".to_string(), Jsn::String("3".to_string()))]);
    let miss = find_stub(stubs, &vec![], &query, &RequestBody::AbsentRequestBody, &None);
    assert_eq!(miss.err().unwrap().stage, Stage::Query);
    assert!(no_body().check_query_params(&Jsn::Null));
}

#[test]
fn tie_break_prefers_countdown_then_smaller_id() {
    let stubs = vec![
        stub(3, Scope::Persistent, None, no_body()),
        stub(9, Scope::Countdown, Some(2), no_body()),
        stub(4, Scope::Countdown, Some(1), no_body()),
        stub(1, Scope::Ephemeral, None, no_body()),
    ];
    let r = find_stub(stubs, &vec![], &Jsn::Null, &RequestBody::AbsentRequestBody, &None).ok().unwrap();
    assert_eq!(r.stub.id, 4);
    assert!(r.decrement);

    let stubs = vec![stub(7, Scope::Persistent, None, no_body()), stub(2, Scope::Persistent, None, no_body())];
    let r = find_stub(stubs, &vec![], &Jsn::Null, &RequestBody::AbsentRequestBody, &None).ok().unwrap();
    assert_eq!(r.stub.id, 2);
    assert!(!r.decrement);
}

#[test]
fn used_up_countdown_stubs_are_not_eligible() {
    let stubs = vec![stub(1, Scope::Countdown, Some(0), no_body()), stub(2, Scope::Countdown, None, no_body())];
    let miss = find_stub(stubs, &vec![], &Jsn::Null, &RequestBody::AbsentRequestBody, &None);
    assert_eq!(miss.err().unwrap().stage, Stage::Lookup);
}

#[test]
fn body_modes() {
    let raw = HttpStubRequest::RawRequest { headers: vec![], query: vec![], body: "hello".to_string() };
    assert!(raw.check_body(&RequestBody::SimpleRequestBody { value: "hello".to_string() }, &None));
    assert!(!raw.check_body(&RequestBody::SimpleRequestBody { value: "hell".to_string() }, &None));
    assert!(!raw.check_body(&RequestBody::AbsentRequestBody, &None));
    assert!(no_body().check_body(&RequestBody::AbsentRequestBody, &None));
    assert!(!no_body().check_body(&RequestBody::SimpleRequestBody { value: String::new() }, &None));
    let pred = rustybird::predicate::JsonPredicate::from_spec(vec![(
        JsonOptic::from_path("k"),
        vec![(Keyword::Greater, Jsn::Signed(0))],
    )]);
    let lens = HttpStubRequest::JLensRequest { headers: vec![], query: vec![], body: pred };
    let (body, parsed) = body_of(1);
    assert!(lens.check_body(&body, &parsed));
    assert!(!lens.check_body(&body, &None));
    let (body, parsed) = body_of(-1);
    assert!(!lens.check_body(&body, &parsed));
}

#[test]
fn path_patterns_must_compile() {
    assert!(rustybird::model::path_pattern_compiles("^/a/[0-9]+$"));
    assert!(!rustybird::model::path_pattern_compiles("/a/("));
}

#[test]
fn lowered_headers_compare_exactly() {
    let conf = headers("x-token", "abc");
    assert!(rustybird::model::headers_contain(&conf, &vec![
        ("accept".to_string(), "*/*".to_string()),
        ("x-token".to_string(), "abc".to_string()),
    ]));
    assert!(!rustybird::model::headers_contain(&conf, &headers("x-token", "ABC")));
    assert!(rustybird::model::headers_contain(&vec![], &vec![]));
}
