use vstd::prelude::*;
use crate::json::{Json, Jsn, json_of};
use crate::model::{
    HttpStub, Scope, RequestBody, headers_view, headers_match, request_headers, query_matches, body_matches,
};

verus! {

broadcast use vstd::std_specs::vec::group_vec_axioms, vstd::seq::group_seq_axioms;

/// A stage of the resolver's narrowing.
#[derive(Clone, Copy, Debug, PartialEq, Eq, Hash, Structural)]
pub enum Stage {
    /// The stubs that the store found for scope, method and path, and that
    /// still have uses left.
    Lookup,
    Query,
    Headers,
    Body,
}

/// No stub got through `stage`.
#[derive(Clone, Copy, Debug, PartialEq, Eq, Hash, Structural)]
pub struct ResolverMiss {
    pub stage: Stage,
}

/// The chosen stub; `decrement` asks the store to use up one of its uses.
pub struct Resolution {
    pub stub: HttpStub,
    pub decrement: bool,
}

/// What an incoming request brings to the narrowing.
pub struct Incoming {
    pub headers: Seq<(Seq<char>, Seq<char>)>,
    pub query: Json,
    pub body: RequestBody,
    pub parsed: Option<Json>,
}

/// A countdown stub is eligible while it has uses left.
pub open spec fn eligible(s: HttpStub) -> bool {
    s.scope == Scope::Countdown ==> (s.times matches Some(t) && t > 0)
}

pub open spec fn passes(st: Stage, s: HttpStub, inc: Incoming) -> bool {
    match st {
        Stage::Lookup => eligible(s),
        Stage::Query => query_matches(s.request, inc.query),
        Stage::Headers => headers_match(headers_view(request_headers(s.request)), inc.headers),
        Stage::Body => body_matches(s.request, inc.body, inc.parsed),
    }
}

/// The positions among `idx` whose stubs pass `st`, in order.
pub open spec fn sift(c: Seq<HttpStub>, idx: Seq<int>, st: Stage, inc: Incoming) -> Seq<int>
    decreases idx.len(),
{
    if idx.len() == 0 {
        Seq::empty()
    } else {
        let r = sift(c, idx.drop_last(), st, inc);
        if passes(st, c[idx.last()], inc) {
            r.push(idx.last())
        } else {
            r
        }
    }
}

pub open spec fn scope_rank(s: Scope) -> int {
    match s {
        Scope::Countdown => 0,
        Scope::Ephemeral => 1,
        Scope::Persistent => 2,
    }
}

/// Whether stub `a` goes before stub `b`: smaller scope, then smaller id.
pub open spec fn before(a: HttpStub, b: HttpStub) -> bool {
    scope_rank(a.scope) < scope_rank(b.scope) || (scope_rank(a.scope) == scope_rank(b.scope) && a.id < b.id)
}

/// The position among `idx` of the stub that goes first; the earliest of equals.
pub open spec fn best(c: Seq<HttpStub>, idx: Seq<int>) -> int
    decreases idx.len(),
{
    if idx.len() <= 1 {
        idx[0]
    } else {
        let b = best(c, idx.drop_last());
        if before(c[idx.last()], c[b]) {
            idx.last()
        } else {
            b
        }
    }
}

pub open spec fn indices(n: nat) -> Seq<int> {
    Seq::new(n, |i: int| i)
}

pub open spec fn positions(v: Seq<usize>) -> Seq<int> {
    v.map_values(|k: usize| k as int)
}

/// The position of the stub that answers, or the first stage that leaves none.
pub open spec fn resolve(c: Seq<HttpStub>, inc: Incoming) -> Result<int, Stage> {
    let s0 = sift(c, indices(c.len()), Stage::Lookup, inc);
    let s1 = sift(c, s0, Stage::Query, inc);
    let s2 = sift(c, s1, Stage::Headers, inc);
    let s3 = sift(c, s2, Stage::Body, inc);
    if s0.len() == 0 {
        Err(Stage::Lookup)
    } else if s1.len() == 0 {
        Err(Stage::Query)
    } else if s2.len() == 0 {
        Err(Stage::Headers)
    } else if s3.len() == 0 {
        Err(Stage::Body)
    } else {
        Ok(best(c, s3))
    }
}

pub open spec fn incoming(
    headers: Seq<(String, String)>,
    query: Jsn,
    body: RequestBody,
    parsed: Option<Jsn>,
) -> Incoming {
    Incoming {
        headers: headers_view(headers),
        query: json_of(query),
        body,
        parsed: match parsed {
            Some(p) => Some(json_of(p)),
            None => None,
        },
    }
}

fn passes_exec(
    st: Stage,
    s: &HttpStub,
    headers: &Vec<(String, String)>,
    query: &Jsn,
    body: &RequestBody,
    parsed: &Option<Jsn>,
) -> (r: bool)
    ensures
        r == passes(st, *s, incoming(headers@, *query, *body, *parsed)),
{
    match st {
        Stage::Lookup => match s.scope {
            Scope::Countdown => match s.times {
                Some(t) => t > 0,
                None => false,
            },
            _ => true,
        },
        Stage::Query => s.request.check_query_params(query),
        Stage::Headers => s.request.check_headers(headers),
        Stage::Body => s.request.check_body(body, parsed),
    }
}

fn sift_exec(
    c: &Vec<HttpStub>,
    idx: &Vec<usize>,
    st: Stage,
    headers: &Vec<(String, String)>,
    query: &Jsn,
    body: &RequestBody,
    parsed: &Option<Jsn>,
) -> (r: Vec<usize>)
    requires
        forall|k: int| 0 <= k < idx@.len() ==> #[trigger] idx@[k] < c@.len(),
    ensures
        positions(r@) == sift(
            c@,
            positions(idx@),
            st,
            incoming(headers@, *query, *body, *parsed),
        ),
        forall|k: int| 0 <= k < r@.len() ==> #[trigger] r@[k] < c@.len(),
{
    let ghost inc = incoming(headers@, *query, *body, *parsed);
    let ghost iv = positions(idx@);
    let mut out: Vec<usize> = Vec::new();
    let mut k: usize = 0;
    while k < idx.len()
        invariant
            k <= idx@.len(),
            iv == positions(idx@),
            inc == incoming(headers@, *query, *body, *parsed),
            forall|m: int| 0 <= m < idx@.len() ==> #[trigger] idx@[m] < c@.len(),
            forall|m: int| 0 <= m < out@.len() ==> #[trigger] out@[m] < c@.len(),
            positions(out@) == sift(c@, iv.take(k as int), st, inc),
        decreases idx@.len() - k,
    {
        let i = idx[k];
        proof {
            assert(iv.take(k + 1).drop_last() =~= iv.take(k as int));
            assert(iv.take(k + 1).last() == i as int);
        }
        let ghost pre = out@;
        if passes_exec(st, &c[i], headers, query, body, parsed) {
            out.push(i);
            proof {
                assert(positions(out@) =~= positions(pre).push(i as int));
            }
        }
        k += 1;
    }
    proof {
        assert(iv.take(idx@.len() as int) =~= iv);
    }
    out
}

fn best_exec(c: &Vec<HttpStub>, idx: &Vec<usize>) -> (r: usize)
    requires
        idx@.len() > 0,
        forall|k: int| 0 <= k < idx@.len() ==> #[trigger] idx@[k] < c@.len(),
    ensures
        r as int == best(c@, positions(idx@)),
        r < c@.len(),
{
    let ghost iv = positions(idx@);
    let mut b = idx[0];
    let mut k: usize = 1;
    proof {
        assert(iv.take(1).len() == 1);
        assert(best(c@, iv.take(1)) == iv.take(1)[0]);
    }
    while k < idx.len()
        invariant
            1 <= k <= idx@.len(),
            iv == positions(idx@),
            forall|m: int| 0 <= m < idx@.len() ==> #[trigger] idx@[m] < c@.len(),
            b < c@.len(),
            b as int == best(c@, iv.take(k as int)),
        decreases idx@.len() - k,
    {
        let i = idx[k];
        proof {
            assert(iv.take(k + 1).drop_last() =~= iv.take(k as int));
            assert(iv.take(k + 1).last() == i as int);
        }
        let ri = scope_rank_exec(c[i].scope);
        let rb = scope_rank_exec(c[b].scope);
        if ri < rb || (ri == rb && c[i].id < c[b].id) {
            b = i;
        }
        k += 1;
    }
    proof {
        assert(iv.take(idx@.len() as int) =~= iv);
    }
    b
}

fn scope_rank_exec(s: Scope) -> (r: u8)
    ensures
        r as int == scope_rank(s),
{
    match s {
        Scope::Countdown => 0,
        Scope::Ephemeral => 1,
        Scope::Persistent => 2,
    }
}

/// Narrows the stubs that the store found for the request's scope, method and
/// path: those with uses left, then those whose query predicate holds, then
/// those whose headers the request has, then those whose body the request's
/// body suits. The stub that goes first by scope (countdown, ephemeral,
/// persistent) and then by id answers; a countdown stub is to use up one use.
/// `parsed` is the request body read as JSON, if it reads as JSON.
pub fn find_stub(
    candidates: Vec<HttpStub>,
    headers: &Vec<(String, String)>,
    query: &Jsn,
    body: &RequestBody,
    parsed: &Option<Jsn>,
) -> (r: Result<Resolution, ResolverMiss>)
    ensures
        match r {
            Ok(res) => {
                &&& resolve(candidates@, incoming(headers@, *query, *body, *parsed)) matches Ok(k)
                &&& res.stub == candidates@[k]
                &&& res.decrement == (candidates@[k].scope == Scope::Countdown)
            },
            Err(miss) => resolve(candidates@, incoming(headers@, *query, *body, *parsed)) == Err::<int, Stage>(
                miss.stage,
            ),
        },
{
    let mut all: Vec<usize> = Vec::new();
    let mut i: usize = 0;
    while i < candidates.len()
        invariant
            i <= candidates@.len(),
            positions(all@) == indices(i as nat),
            all@.len() == i,
            forall|m: int| 0 <= m < all@.len() ==> #[trigger] all@[m] == m,
            forall|m: int| 0 <= m < all@.len() ==> #[trigger] all@[m] < candidates@.len(),
        decreases candidates@.len() - i,
    {
        all.push(i);
        i += 1;
        proof {
            assert(positions(all@) =~= indices(i as nat));
        }
    }
    let s0 = sift_exec(&candidates, &all, Stage::Lookup, headers, query, body, parsed);
    if s0.len() == 0 {
        return Err(ResolverMiss { stage: Stage::Lookup });
    }
    let s1 = sift_exec(&candidates, &s0, Stage::Query, headers, query, body, parsed);
    if s1.len() == 0 {
        return Err(ResolverMiss { stage: Stage::Query });
    }
    let s2 = sift_exec(&candidates, &s1, Stage::Headers, headers, query, body, parsed);
    if s2.len() == 0 {
        return Err(ResolverMiss { stage: Stage::Headers });
    }
    let s3 = sift_exec(&candidates, &s2, Stage::Body, headers, query, body, parsed);
    if s3.len() == 0 {
        return Err(ResolverMiss { stage: Stage::Body });
    }
    let k = best_exec(&candidates, &s3);
    let mut candidates = candidates;
    let stub = candidates.remove(k);
    let decrement = match stub.scope {
        Scope::Countdown => true,
        _ => false,
    };
    Ok(Resolution { stub, decrement })
}

} // verus!
