use vstd::prelude::*;
use crate::json::{Json, Jsn, json_of};
use crate::optic::JsonOptic;
use crate::predicate::{JsonPredicate, Keyword, spec_view, evaluate, validate_definition};
use crate::sql_json;
use crate::text::{chars_of, string_of};
use crate::predicate::{chars_are, regex_search, regex_valid};

verus! {

/// How long a stub stays eligible.
#[derive(Clone, Copy, Debug, PartialEq, Eq, Hash, Structural)]
pub enum Scope {
    /// Always eligible.
    Persistent,
    /// Eligible until removed.
    Ephemeral,
    /// Eligible while uses remain; each match uses one.
    Countdown,
}

#[derive(Clone, Copy, Debug, PartialEq, Eq, Hash, Structural)]
pub enum HttpMethod {
    Get,
    Post,
    Head,
    Options,
    Patch,
    Put,
    Delete,
}

pub open spec fn scope_wire(s: Scope) -> Seq<char> {
    match s {
        Scope::Persistent => seq!['p', 'e', 'r', 's', 'i', 's', 't', 'e', 'n', 't'],
        Scope::Ephemeral => seq!['e', 'p', 'h', 'e', 'm', 'e', 'r', 'a', 'l'],
        Scope::Countdown => seq!['c', 'o', 'u', 'n', 't', 'd', 'o', 'w', 'n'],
    }
}

pub open spec fn method_wire(m: HttpMethod) -> Seq<char> {
    match m {
        HttpMethod::Get => seq!['G', 'E', 'T'],
        HttpMethod::Post => seq!['P', 'O', 'S', 'T'],
        HttpMethod::Head => seq!['H', 'E', 'A', 'D'],
        HttpMethod::Options => seq!['O', 'P', 'T', 'I', 'O', 'N', 'S'],
        HttpMethod::Patch => seq!['P', 'A', 'T', 'C', 'H'],
        HttpMethod::Put => seq!['P', 'U', 'T'],
        HttpMethod::Delete => seq!['D', 'E', 'L', 'E', 'T', 'E'],
    }
}

impl Scope {
    fn wire_chars(&self) -> (r: Vec<char>)
        ensures
            r@ == scope_wire(*self),
    {
        let cs = match self {
            Scope::Persistent => vec!['p', 'e', 'r', 's', 'i', 's', 't', 'e', 'n', 't'],
            Scope::Ephemeral => vec!['e', 'p', 'h', 'e', 'm', 'e', 'r', 'a', 'l'],
            Scope::Countdown => vec!['c', 'o', 'u', 'n', 't', 'd', 'o', 'w', 'n'],
        };
        assert(cs@ =~= scope_wire(*self));
        cs
    }

    /// The wire name: `persistent`, `ephemeral` or `countdown`.
    pub fn to_wire(&self) -> (r: String)
        ensures
            r@ == scope_wire(*self),
    {
        string_of(&self.wire_chars())
    }

    /// The scope that a wire name names.
    pub fn from_wire(s: &str) -> (r: Option<Scope>)
        ensures
            match r {
                Some(k) => scope_wire(k) == s@,
                None => forall|k: Scope| scope_wire(k) != s@,
            },
    {
        let cs = chars_of(s);
        let r = if chars_are(&cs, &Scope::Persistent.wire_chars()) {
            Some(Scope::Persistent)
        } else if chars_are(&cs, &Scope::Ephemeral.wire_chars()) {
            Some(Scope::Ephemeral)
        } else if chars_are(&cs, &Scope::Countdown.wire_chars()) {
            Some(Scope::Countdown)
        } else {
            None
        };
        proof {
            if r.is_none() {
                assert forall|k: Scope| scope_wire(k) != s@ by {
                    match k {
                        Scope::Persistent => {},
                        Scope::Ephemeral => {},
                        Scope::Countdown => {},
                    }
                }
            }
        }
        r
    }
}

impl HttpMethod {
    fn wire_chars(&self) -> (r: Vec<char>)
        ensures
            r@ == method_wire(*self),
    {
        let cs = match self {
            HttpMethod::Get => vec!['G', 'E', 'T'],
            HttpMethod::Post => vec!['P', 'O', 'S', 'T'],
            HttpMethod::Head => vec!['H', 'E', 'A', 'D'],
            HttpMethod::Options => vec!['O', 'P', 'T', 'I', 'O', 'N', 'S'],
            HttpMethod::Patch => vec!['P', 'A', 'T', 'C', 'H'],
            HttpMethod::Put => vec!['P', 'U', 'T'],
            HttpMethod::Delete => vec!['D', 'E', 'L', 'E', 'T', 'E'],
        };
        assert(cs@ =~= method_wire(*self));
        cs
    }

    /// The wire name, in capitals (`GET`).
    pub fn to_wire(&self) -> (r: String)
        ensures
            r@ == method_wire(*self),
    {
        string_of(&self.wire_chars())
    }

    /// The method that a wire name names.
    pub fn from_wire(s: &str) -> (r: Option<HttpMethod>)
        ensures
            match r {
                Some(k) => method_wire(k) == s@,
                None => forall|k: HttpMethod| method_wire(k) != s@,
            },
    {
        let cs = chars_of(s);
        let r = if chars_are(&cs, &HttpMethod::Get.wire_chars()) {
            Some(HttpMethod::Get)
        } else if chars_are(&cs, &HttpMethod::Post.wire_chars()) {
            Some(HttpMethod::Post)
        } else if chars_are(&cs, &HttpMethod::Head.wire_chars()) {
            Some(HttpMethod::Head)
        } else if chars_are(&cs, &HttpMethod::Options.wire_chars()) {
            Some(HttpMethod::Options)
        } else if chars_are(&cs, &HttpMethod::Patch.wire_chars()) {
            Some(HttpMethod::Patch)
        } else if chars_are(&cs, &HttpMethod::Put.wire_chars()) {
            Some(HttpMethod::Put)
        } else if chars_are(&cs, &HttpMethod::Delete.wire_chars()) {
            Some(HttpMethod::Delete)
        } else {
            None
        };
        proof {
            if r.is_none() {
                assert forall|k: HttpMethod| method_wire(k) != s@ by {
                    match k {
                        HttpMethod::Get => {},
                        HttpMethod::Post => {},
                        HttpMethod::Head => {},
                        HttpMethod::Options => {},
                        HttpMethod::Patch => {},
                        HttpMethod::Put => {},
                        HttpMethod::Delete => {},
                    }
                }
            }
        }
        r
    }
}

/// Conditions per optic, as a stub's query and body predicates hold them.
pub type Conditions = Vec<(JsonOptic, Vec<(Keyword, Jsn)>)>;

/// What a stub asks of a request, by body mode. Header values match without
/// regard to case; a non-empty query predicate must hold of the query.
pub enum HttpStubRequest {
    /// No body.
    RequestWithoutBody { headers: Vec<(String, String)>, query: Conditions },
    /// A JSON body equal to `body`.
    JsonRequest { headers: Vec<(String, String)>, query: Conditions, body: Jsn },
    /// A body that is exactly `body`.
    RawRequest { headers: Vec<(String, String)>, query: Conditions, body: String },
    /// A JSON body that `body` holds of.
    JLensRequest { headers: Vec<(String, String)>, query: Conditions, body: JsonPredicate },
}

/// The body of an incoming request.
pub enum RequestBody {
    AbsentRequestBody,
    SimpleRequestBody { value: String },
}

/// What a stub answers.
pub enum HttpStubResponse {
    RawResponse { code: u16, headers: Vec<(String, String)>, body: String, delay_millis: Option<u64> },
    JsonResponse {
        code: u16,
        headers: Vec<(String, String)>,
        body: Jsn,
        delay_millis: Option<u64>,
        is_template: bool,
    },
}

pub enum CallbackResponseMode {
    Json,
}

/// The request a callback sends.
pub enum CallbackRequest {
    CallbackRequestWithoutBody { url: String, method: HttpMethod, headers: Vec<(String, String)> },
    RawCallbackRequest { url: String, method: HttpMethod, headers: Vec<(String, String)>, body: String },
    JsonCallbackRequest { url: String, method: HttpMethod, headers: Vec<(String, String)>, body: Jsn },
}

/// A request sent after a stub answers; it may carry a further callback.
pub enum Callback {
    HttpCallback {
        request: CallbackRequest,
        response_mode: Option<CallbackResponseMode>,
        persist: Option<Vec<(JsonOptic, Jsn)>>,
        callback: Option<Box<Callback>>,
        delay_millis: Option<u64>,
    },
}

/// A stored stub. `created` counts milliseconds since the Unix epoch.
pub struct HttpStub {
    pub id: i32,
    pub created: i64,
    pub scope: Scope,
    pub times: Option<i64>,
    pub service_suffix: String,
    pub name: String,
    pub method: HttpMethod,
    pub path: Option<String>,
    pub path_pattern: Option<String>,
    pub seed: Option<Jsn>,
    pub state: Option<Vec<(JsonOptic, Vec<(sql_json::Keyword, Jsn)>)>>,
    pub request: HttpStubRequest,
    pub persist: Option<Vec<(JsonOptic, Jsn)>>,
    pub response: HttpStubResponse,
    pub callback: Option<Callback>,
}

/// A stored state document. `created` counts milliseconds since the Unix epoch.
pub struct State {
    pub id: i32,
    pub created: i64,
    pub data: Jsn,
}

// ------------------------------------------------------------ outside calls

/// The lowercase form of a text.
pub uninterp spec fn lower_of(s: Seq<char>) -> Seq<char>;

/// Relies on `str::to_lowercase`: the result depends on the characters alone.
#[verifier::external_body]
fn lowercase(s: &str) -> (r: String)
    ensures
        r@ == lower_of(s@),
{
    s.to_lowercase()
}

/// Whether a stub's path pattern compiles as a regular expression.
pub fn path_pattern_compiles(pattern: &str) -> (r: bool)
    ensures
        r == regex_valid(pattern@),
{
    regex_search(pattern, "").is_some()
}

// ------------------------------------------------------------------ meaning

pub open spec fn headers_view(hs: Seq<(String, String)>) -> Seq<(Seq<char>, Seq<char>)> {
    hs.map_values(|h: (String, String)| (h.0@, h.1@))
}

/// Whether the incoming headers have a header like `h`: name and value equal
/// without regard to case.
pub open spec fn has_header(incoming: Seq<(Seq<char>, Seq<char>)>, h: (Seq<char>, Seq<char>)) -> bool {
    exists|j: int|
        0 <= j < incoming.len() && lower_of((#[trigger] incoming[j]).0) == lower_of(h.0) && lower_of(incoming[j].1)
            == lower_of(h.1)
}

/// Whether the incoming headers have every configured header.
pub open spec fn headers_match(conf: Seq<(Seq<char>, Seq<char>)>, incoming: Seq<(Seq<char>, Seq<char>)>) -> bool {
    forall|i: int| 0 <= i < conf.len() ==> has_header(incoming, #[trigger] conf[i])
}

pub open spec fn request_headers(r: HttpStubRequest) -> Seq<(String, String)> {
    match r {
        HttpStubRequest::RequestWithoutBody { headers, .. } => headers@,
        HttpStubRequest::JsonRequest { headers, .. } => headers@,
        HttpStubRequest::RawRequest { headers, .. } => headers@,
        HttpStubRequest::JLensRequest { headers, .. } => headers@,
    }
}

pub open spec fn request_query(r: HttpStubRequest) -> Seq<(JsonOptic, Vec<(Keyword, Jsn)>)> {
    match r {
        HttpStubRequest::RequestWithoutBody { query, .. } => query@,
        HttpStubRequest::JsonRequest { query, .. } => query@,
        HttpStubRequest::RawRequest { query, .. } => query@,
        HttpStubRequest::JLensRequest { query, .. } => query@,
    }
}

/// Whether the query predicate holds of the query: an empty one always does.
pub open spec fn query_matches(r: HttpStubRequest, query: Json) -> bool {
    request_query(r).len() == 0 || evaluate(spec_view(request_query(r)), query) == Ok::<bool, Seq<(Keyword, Json)>>(true)
}

/// Whether the body suits the stub's mode; `parsed` is the body read as JSON,
/// if it reads as JSON.
pub open spec fn body_matches(r: HttpStubRequest, body: RequestBody, parsed: Option<Json>) -> bool {
    match r {
        HttpStubRequest::RequestWithoutBody { .. } => body is AbsentRequestBody,
        HttpStubRequest::RawRequest { body: expected, .. } => match body {
            RequestBody::SimpleRequestBody { value } => value@ == expected@,
            _ => false,
        },
        HttpStubRequest::JsonRequest { body: expected, .. } => parsed == Some(json_of(expected)),
        HttpStubRequest::JLensRequest { body: pred, .. } => match parsed {
            Some(doc) => evaluate(pred@, doc) == Ok::<bool, Seq<(Keyword, Json)>>(true),
            None => false,
        },
    }
}

// --------------------------------------------------------------------- code

impl HttpStubRequest {
    fn headers(&self) -> (r: &Vec<(String, String)>)
        ensures
            r@ == request_headers(*self),
    {
        match self {
            HttpStubRequest::RequestWithoutBody { headers, .. } => headers,
            HttpStubRequest::JsonRequest { headers, .. } => headers,
            HttpStubRequest::RawRequest { headers, .. } => headers,
            HttpStubRequest::JLensRequest { headers, .. } => headers,
        }
    }

    fn query(&self) -> (r: &Conditions)
        ensures
            r@ == request_query(*self),
    {
        match self {
            HttpStubRequest::RequestWithoutBody { query, .. } => query,
            HttpStubRequest::JsonRequest { query, .. } => query,
            HttpStubRequest::RawRequest { query, .. } => query,
            HttpStubRequest::JLensRequest { query, .. } => query,
        }
    }

    /// Whether the incoming headers have every configured header, names and
    /// values compared without regard to case.
    pub fn check_headers(&self, hs: &Vec<(String, String)>) -> (r: bool)
        ensures
            r == headers_match(headers_view(request_headers(*self)), headers_view(hs@)),
    {
        let conf = lower_headers(self.headers());
        let incoming = lower_headers(hs);
        proof {
            lemma_headers_match_lowered(headers_view(request_headers(*self)), headers_view(hs@));
        }
        headers_contain(&conf, &incoming)
    }

    /// Whether the query predicate holds of the query; an empty one always does.
    pub fn check_query_params(&self, params: &Jsn) -> (r: bool)
        ensures
            r == query_matches(*self, params@),
    {
        let q = self.query();
        if q.len() == 0 {
            true
        } else {
            match validate_definition(q, params) {
                Ok(b) => b,
                Err(_) => false,
            }
        }
    }

    /// Whether the body suits the stub's mode; `parsed` is the body read as
    /// JSON, if it reads as JSON.
    pub fn check_body(&self, body: &RequestBody, parsed: &Option<Jsn>) -> (r: bool)
        ensures
            r == body_matches(*self, *body, match parsed {
                Some(p) => Some(json_of(*p)),
                None => None,
            }),
    {
        match self {
            HttpStubRequest::RequestWithoutBody { .. } => match body {
                RequestBody::AbsentRequestBody => true,
                _ => false,
            },
            HttpStubRequest::RawRequest { body: expected, .. } => match body {
                RequestBody::SimpleRequestBody { value } => *value == *expected,
                _ => false,
            },
            HttpStubRequest::JsonRequest { body: expected, .. } => match parsed {
                Some(p) => p.same(expected),
                None => false,
            },
            HttpStubRequest::JLensRequest { body: pred, .. } => match parsed {
                Some(p) => match pred.validate(p) {
                    Ok(b) => b,
                    Err(_) => false,
                },
                None => false,
            },
        }
    }
}

/// Headers with names and values lowercased.
pub open spec fn lowered(hs: Seq<(Seq<char>, Seq<char>)>) -> Seq<(Seq<char>, Seq<char>)> {
    hs.map_values(|h: (Seq<char>, Seq<char>)| (lower_of(h.0), lower_of(h.1)))
}

/// Whether every configured header is among the incoming ones, texts
/// compared exactly.
pub open spec fn headers_contained(conf: Seq<(Seq<char>, Seq<char>)>, incoming: Seq<(Seq<char>, Seq<char>)>) -> bool {
    forall|i: int| 0 <= i < conf.len() ==> incoming.contains(#[trigger] conf[i])
}

/// Matching without regard to case is matching exactly once both sides are
/// lowercased.
pub proof fn lemma_headers_match_lowered(conf: Seq<(Seq<char>, Seq<char>)>, incoming: Seq<(Seq<char>, Seq<char>)>)
    ensures
        headers_match(conf, incoming) == headers_contained(lowered(conf), lowered(incoming)),
{
    let lc = lowered(conf);
    let li = lowered(incoming);
    assert forall|i: int| 0 <= i < conf.len() implies has_header(incoming, #[trigger] conf[i]) == li.contains(lc[i]) by {
        if has_header(incoming, conf[i]) {
            let j = choose|j: int|
                0 <= j < incoming.len() && lower_of((#[trigger] incoming[j]).0) == lower_of(conf[i].0)
                    && lower_of(incoming[j].1) == lower_of(conf[i].1);
            assert(li[j] == lc[i]);
        }
        if li.contains(lc[i]) {
            let j = choose|j: int| 0 <= j < li.len() && li[j] == lc[i];
            assert(lower_of(incoming[j].0) == lower_of(conf[i].0) && lower_of(incoming[j].1) == lower_of(conf[i].1));
        }
    }
    if headers_match(conf, incoming) {
        assert forall|i: int| 0 <= i < lc.len() implies li.contains(#[trigger] lc[i]) by {
            assert(has_header(incoming, conf[i]));
        }
    }
    if headers_contained(lc, li) {
        assert forall|i: int| 0 <= i < conf.len() implies has_header(incoming, #[trigger] conf[i]) by {
            assert(li.contains(lc[i]));
        }
    }
}

fn lower_headers(hs: &Vec<(String, String)>) -> (r: Vec<(String, String)>)
    ensures
        headers_view(r@) == lowered(headers_view(hs@)),
{
    let mut out: Vec<(String, String)> = Vec::new();
    let mut i: usize = 0;
    while i < hs.len()
        invariant
            i <= hs@.len(),
            headers_view(out@) == lowered(headers_view(hs@)).take(i as int),
        decreases hs@.len() - i,
    {
        let e = (lowercase(hs[i].0.as_str()), lowercase(hs[i].1.as_str()));
        let ghost pre = out@;
        out.push(e);
        proof {
            let a = headers_view(out@);
            let b = lowered(headers_view(hs@)).take(i + 1);
            assert(headers_view(pre).len() == pre.len());
            assert forall|m: int| 0 <= m < a.len() implies a[m] == b[m] by {
                if m < i {
                    assert(a[m] == headers_view(pre)[m]);
                }
            }
            assert(a =~= b);
        }
        i += 1;
    }
    proof {
        assert(lowered(headers_view(hs@)).take(hs@.len() as int) =~= lowered(headers_view(hs@)));
    }
    out
}

/// Whether every configured header is among the incoming ones, names and
/// values compared exactly; lowercase both sides first to ignore case.
pub fn headers_contain(conf: &Vec<(String, String)>, incoming: &Vec<(String, String)>) -> (r: bool)
    ensures
        r == headers_contained(headers_view(conf@), headers_view(incoming@)),
{
    let ghost cv = headers_view(conf@);
    let ghost iv = headers_view(incoming@);
    let mut i: usize = 0;
    while i < conf.len()
        invariant
            i <= conf@.len(),
            cv == headers_view(conf@),
            iv == headers_view(incoming@),
            cv.len() == conf@.len(),
            iv.len() == incoming@.len(),
            forall|m: int| 0 <= m < i ==> iv.contains(#[trigger] cv[m]),
        decreases conf@.len() - i,
    {
        let ghost h = cv[i as int];
        let mut found = false;
        let mut j: usize = 0;
        while j < incoming.len()
            invariant
                j <= incoming@.len(),
                i < conf@.len(),
                cv == headers_view(conf@),
                iv == headers_view(incoming@),
                iv.len() == incoming@.len(),
                h == cv[i as int],
                h == (conf@[i as int].0@, conf@[i as int].1@),
                found ==> iv.contains(h),
                !found ==> forall|m: int| 0 <= m < j ==> #[trigger] iv[m] != h,
            decreases incoming@.len() - j,
        {
            if !found {
                proof {
                    assert(iv[j as int] == (incoming@[j as int].0@, incoming@[j as int].1@));
                }
                if incoming[j].0 == conf[i].0 && incoming[j].1 == conf[i].1 {
                    found = true;
                    assert(iv[j as int] == h);
                }
            }
            j += 1;
        }
        if !found {
            assert(!iv.contains(cv[i as int]));
            return false;
        }
        i += 1;
    }
    true
}

/// A stub whose single configured header is matched by an incoming header of
/// the same name whose value agrees without regard to case passes the header
/// stage.
pub proof fn lemma_header_case(name: Seq<char>, value: Seq<char>, incoming_value: Seq<char>)
    requires
        lower_of(incoming_value) == lower_of(value),
    ensures
        headers_match(seq![(name, value)], seq![(name, incoming_value)]),
{
    let inc = seq![(name, incoming_value)];
    assert(lower_of(inc[0].0) == lower_of(name) && lower_of(inc[0].1) == lower_of(value));
    assert(has_header(inc, (name, value)));
}

} // verus!
