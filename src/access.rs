use vstd::prelude::*;
use crate::json::{Json, Jsn, json_of, items_of, entries_of, lemma_items_of, lemma_entries_dom};
use crate::optic::{Part, PathPart, JsonOptic};

verus! {

broadcast use vstd::std_specs::vec::group_vec_axioms, vstd::seq::group_seq_axioms;

// ------------------------------------------------------------------ reading

/// What one part of a path reaches from one value.
pub open spec fn children(v: Json, p: Part) -> Seq<Json> {
    match p {
        Part::Field(f) => match v {
            Json::Object(m) => if m.contains_key(f) {
                seq![m[f]]
            } else {
                Seq::empty()
            },
            _ => Seq::empty(),
        },
        Part::Index(i) => match v {
            Json::Array(a) => if i < a.len() {
                seq![a[i as int]]
            } else {
                Seq::empty()
            },
            _ => Seq::empty(),
        },
        Part::Traverse => match v {
            Json::Array(a) => a,
            _ => Seq::empty(),
        },
    }
}

/// What one part reaches from each of `vals`, in order.
pub open spec fn step(vals: Seq<Json>, p: Part) -> Seq<Json>
    decreases vals.len(),
{
    if vals.len() == 0 {
        Seq::empty()
    } else {
        step(vals.drop_last(), p) + children(vals.last(), p)
    }
}

/// What a path reaches from each of `vals`, in walk order.
pub open spec fn select(vals: Seq<Json>, path: Seq<Part>) -> Seq<Json>
    decreases path.len(),
{
    if path.len() == 0 {
        vals
    } else {
        select(step(vals, path[0]), path.drop_first())
    }
}

/// Every value that a path addresses in a document, in walk order.
pub open spec fn get_all(d: Json, path: Seq<Part>) -> Seq<Json> {
    select(seq![d], path)
}

pub open spec fn all_traverse(path: Seq<Part>) -> bool {
    forall|i: int| 0 <= i < path.len() ==> #[trigger] path[i] == Part::Traverse
}

/// Whether a path addresses something in a document. A path made of
/// traversals only (the empty path too) asks whether the document is an array.
pub open spec fn valid_at(d: Json, path: Seq<Part>) -> bool {
    if all_traverse(path) {
        d is Array
    } else {
        get_all(d, path).len() > 0
    }
}

// ----------------------------------------------------------------- writing

/// What is done where a path ends: write a value, or cut out what a part addresses.
pub enum Action {
    Put(Json),
    Cut(Part),
}

pub open spec fn remove_part(x: Json, p: Part) -> Json {
    match p {
        Part::Field(f) => match x {
            Json::Object(m) => Json::Object(m.remove(f)),
            _ => x,
        },
        Part::Index(i) => match x {
            Json::Array(a) => if i < a.len() {
                Json::Array(a.remove(i as int))
            } else {
                x
            },
            _ => x,
        },
        Part::Traverse => match x {
            Json::Array(_) => Json::Null,
            _ => x,
        },
    }
}

pub open spec fn apply(act: Action, x: Json) -> Json {
    match act {
        Action::Put(v) => v,
        Action::Cut(p) => remove_part(x, p),
    }
}

pub open spec fn nulls(n: nat) -> Seq<Json> {
    Seq::new(n, |i: int| Json::Null)
}

/// The document after walking a path and doing `act` where it ends. Missing
/// structure is made on the way: a field on a non-object replaces it by an
/// object, an index past the end pads with nulls, and a traversal of a
/// non-array replaces it by a one-element array.
pub open spec fn modify_at(d: Json, path: Seq<Part>, act: Action) -> Json
    decreases path.len(), 1int,
{
    if path.len() == 0 {
        apply(act, d)
    } else {
        let rest = path.drop_first();
        match path[0] {
            Part::Field(f) => match d {
                Json::Object(m) => if m.contains_key(f) {
                    Json::Object(m.insert(f, modify_at(m[f], rest, act)))
                } else {
                    Json::Object(m.insert(f, modify_at(Json::Null, rest, act)))
                },
                _ => Json::Object(Map::empty().insert(f, modify_at(Json::Null, rest, act))),
            },
            Part::Index(i) => match d {
                Json::Array(a) => if i < a.len() {
                    Json::Array(a.update(i as int, modify_at(a[i as int], rest, act)))
                } else {
                    Json::Array((a + nulls((i - a.len()) as nat)).push(modify_at(Json::Null, rest, act)))
                },
                _ => Json::Array(nulls(i).push(modify_at(Json::Null, rest, act))),
            },
            Part::Traverse => match d {
                Json::Array(a) => Json::Array(modify_each(a, rest, act)),
                _ => Json::Array(seq![modify_at(Json::Null, rest, act)]),
            },
        }
    }
}

/// Each of `a` modified along `path`.
pub open spec fn modify_each(a: Seq<Json>, path: Seq<Part>, act: Action) -> Seq<Json>
    decreases path.len(), 2int,
{
    Seq::new(a.len(), |i: int| modify_at(a[i], path, act))
}

/// The document with `v` written wherever the path ends.
pub open spec fn set_at(d: Json, path: Seq<Part>, v: Json) -> Json {
    modify_at(d, path, Action::Put(v))
}

/// The document with what the path addresses cut out, if it addresses
/// anything: a field is removed, an array element is removed, and an array
/// that a final traversal addresses becomes null.
pub open spec fn prune_at(d: Json, path: Seq<Part>) -> Json {
    if valid_at(d, path) && path.len() > 0 {
        modify_at(d, path.drop_last(), Action::Cut(path.last()))
    } else {
        d
    }
}

/// Whether writing along the path reaches a place to write: it fails only
/// where every branch of a traversal meets an array with nothing that
/// reaches, such as an empty one.
pub open spec fn reaches(d: Json, path: Seq<Part>) -> bool
    decreases path.len(),
{
    if path.len() == 0 {
        true
    } else {
        let rest = path.drop_first();
        match path[0] {
            Part::Field(f) => match d {
                Json::Object(m) => if m.contains_key(f) {
                    reaches(m[f], rest)
                } else {
                    true
                },
                _ => true,
            },
            Part::Index(i) => match d {
                Json::Array(a) => if i < a.len() {
                    reaches(a[i as int], rest)
                } else {
                    true
                },
                _ => true,
            },
            Part::Traverse => match d {
                Json::Array(a) => exists|j: int| 0 <= j < a.len() && reaches(#[trigger] a[j], rest),
                _ => true,
            },
        }
    }
}

/// The position of the first entry with key `k`.
pub open spec fn first_key(es: Seq<(String, Jsn)>, k: Seq<char>) -> Option<int> {
    if exists|i: int| 0 <= i < es.len() && (#[trigger] es[i]).0@ == k {
        Some(choose|i: int| 0 <= i < es.len() && (#[trigger] es[i]).0@ == k && forall|j: int| 0 <= j < i ==> (#[trigger] es[j]).0@ != k)
    } else {
        None
    }
}

/// What one part reaches from one document, as documents.
pub open spec fn jsn_children(v: Jsn, p: Part) -> Seq<Jsn> {
    match p {
        Part::Field(f) => match v {
            Jsn::Object(es) => match first_key(es@, f) {
                Some(i) => seq![es@[i].1],
                None => Seq::empty(),
            },
            _ => Seq::empty(),
        },
        Part::Index(i) => match v {
            Jsn::Array(a) => if i < a@.len() {
                seq![a@[i as int]]
            } else {
                Seq::empty()
            },
            _ => Seq::empty(),
        },
        Part::Traverse => match v {
            Jsn::Array(a) => a@,
            _ => Seq::empty(),
        },
    }
}

pub open spec fn jsn_step(vals: Seq<Jsn>, p: Part) -> Seq<Jsn>
    decreases vals.len(),
{
    if vals.len() == 0 {
        Seq::empty()
    } else {
        jsn_step(vals.drop_last(), p) + jsn_children(vals.last(), p)
    }
}

pub open spec fn jsn_select(vals: Seq<Jsn>, path: Seq<Part>) -> Seq<Jsn>
    decreases path.len(),
{
    if path.len() == 0 {
        vals
    } else {
        jsn_select(jsn_step(vals, path[0]), path.drop_first())
    }
}

/// The documents that a path addresses, in walk order.
pub open spec fn jsn_get_all(d: Jsn, path: Seq<Part>) -> Seq<Jsn> {
    jsn_select(seq![d], path)
}

/// A first index found by a forward search is the one `first_key` names.
proof fn lemma_first_key(es: Seq<(String, Jsn)>, k: Seq<char>, i: int)
    requires
        0 <= i < es.len(),
        es[i].0@ == k,
        forall|j: int| 0 <= j < i ==> (#[trigger] es[j]).0@ != k,
    ensures
        first_key(es, k) == Some(i),
{
    assert(exists|i: int| 0 <= i < es.len() && (#[trigger] es[i]).0@ == k);
    let c = choose|c: int| 0 <= c < es.len() && (#[trigger] es[c]).0@ == k && forall|j: int| 0 <= j < c ==> (#[trigger] es[j]).0@ != k;
    if c < i {
        assert(es[c].0@ != k);
    } else if c > i {
        assert(es[i].0@ != k);
    }
}

// ------------------------------------------------------------------ lemmas

proof fn lemma_step_concat(x: Seq<Json>, y: Seq<Json>, p: Part)
    ensures
        step(x + y, p) == step(x, p) + step(y, p),
    decreases y.len(),
{
    if y.len() == 0 {
        assert(x + y == x);
    } else {
        lemma_step_concat(x, y.drop_last(), p);
        assert((x + y).drop_last() == x + y.drop_last());
        assert((x + y).last() == y.last());
    }
}

proof fn lemma_select_concat(x: Seq<Json>, y: Seq<Json>, path: Seq<Part>)
    ensures
        select(x + y, path) == select(x, path) + select(y, path),
    decreases path.len(),
{
    if path.len() > 0 {
        lemma_step_concat(x, y, path[0]);
        lemma_select_concat(step(x, path[0]), step(y, path[0]), path.drop_first());
    }
}

proof fn lemma_step_single(v: Json, p: Part)
    ensures
        step(seq![v], p) == children(v, p),
{
    assert(seq![v].drop_last() == Seq::<Json>::empty());
    assert(step(Seq::<Json>::empty(), p) == Seq::<Json>::empty());
    assert(step(seq![v], p) == step(seq![v].drop_last(), p) + children(seq![v].last(), p));
    assert(Seq::<Json>::empty() + children(v, p) == children(v, p));
}

/// What a path reaches from one of `vals` it also reaches from all of them.
proof fn lemma_select_member(vals: Seq<Json>, j: int, path: Seq<Part>, e: Json)
    requires
        0 <= j < vals.len(),
        select(seq![vals[j]], path).contains(e),
    ensures
        select(vals, path).contains(e),
{
    let a = vals.take(j);
    let b = vals.skip(j + 1);
    assert(vals == a + seq![vals[j]] + b);
    lemma_select_concat(a + seq![vals[j]], b, path);
    lemma_select_concat(a, seq![vals[j]], path);
    let s1 = select(seq![vals[j]], path);
    let k = choose|k: int| 0 <= k < s1.len() && s1[k] == e;
    let whole = select(a, path) + s1 + select(b, path);
    assert(whole[select(a, path).len() + k] == e);
}

/// After a write along a path, the path addresses the written value.
pub proof fn lemma_set_then_get(d: Json, path: Seq<Part>, v: Json)
    requires
        reaches(d, path),
    ensures
        get_all(set_at(d, path, v), path).contains(v),
    decreases path.len(),
{
    let d2 = set_at(d, path, v);
    if path.len() == 0 {
        assert(get_all(d2, path)[0] == v);
    } else {
        let rest = path.drop_first();
        lemma_step_single(d2, path[0]);
        assert(get_all(d2, path) == select(children(d2, path[0]), rest));
        match path[0] {
            Part::Field(f) => {
                let child = match d {
                    Json::Object(m) => if m.contains_key(f) {
                        m[f]
                    } else {
                        Json::Null
                    },
                    _ => Json::Null,
                };
                lemma_set_then_get(child, rest, v);
                assert(children(d2, path[0]) == seq![set_at(child, rest, v)]);
            },
            Part::Index(i) => {
                let child = match d {
                    Json::Array(a) => if i < a.len() {
                        a[i as int]
                    } else {
                        Json::Null
                    },
                    _ => Json::Null,
                };
                lemma_set_then_get(child, rest, v);
                match d {
                    Json::Array(a) => {
                        if i >= a.len() {
                            let b = (a + nulls((i - a.len()) as nat)).push(modify_at(Json::Null, rest, Action::Put(v)));
                            assert(b[i as int] == modify_at(Json::Null, rest, Action::Put(v)));
                        }
                    },
                    _ => {
                        let b = nulls(i).push(modify_at(Json::Null, rest, Action::Put(v)));
                        assert(b[i as int] == modify_at(Json::Null, rest, Action::Put(v)));
                    },
                }
                assert(children(d2, path[0]) == seq![set_at(child, rest, v)]);
            },
            Part::Traverse => {
                match d {
                    Json::Array(a) => {
                        let j = choose|j: int| 0 <= j < a.len() && reaches(#[trigger] a[j], rest);
                        lemma_set_then_get(a[j], rest, v);
                        let c = modify_each(a, rest, Action::Put(v));
                        assert(c[j] == set_at(a[j], rest, v));
                        lemma_select_member(c, j, rest, v);
                        assert(children(d2, path[0]) == c);
                    },
                    _ => {
                        lemma_set_then_get(Json::Null, rest, v);
                        assert(children(d2, path[0]) == seq![set_at(Json::Null, rest, v)]);
                    },
                }
            },
        }
    }
}

/// After a write along a path, the path validates; a path of traversals only
/// needs to be non-empty, or the written value an array.
pub proof fn lemma_set_then_valid(d: Json, path: Seq<Part>, v: Json)
    requires
        if all_traverse(path) {
            path.len() > 0 || v is Array
        } else {
            reaches(d, path)
        },
    ensures
        valid_at(set_at(d, path, v), path),
{
    if all_traverse(path) {
        if path.len() > 0 {
            assert(path[0] == Part::Traverse);
        }
    } else {
        lemma_set_then_get(d, path, v);
    }
}

proof fn lemma_cut_twice(d: Json, q: Seq<Part>, l: Part)
    requires
        !(l is Index),
    ensures
        modify_at(modify_at(d, q, Action::Cut(l)), q, Action::Cut(l)) == modify_at(d, q, Action::Cut(l)),
    decreases q.len(),
{
    let act = Action::Cut(l);
    if q.len() == 0 {
        match l {
            Part::Field(f) => match d {
                Json::Object(m) => {
                    assert(m.remove(f).remove(f) =~= m.remove(f));
                },
                _ => {},
            },
            _ => {},
        }
    } else {
        let rest = q.drop_first();
        match q[0] {
            Part::Field(f) => {
                let child = match d {
                    Json::Object(m) => if m.contains_key(f) {
                        m[f]
                    } else {
                        Json::Null
                    },
                    _ => Json::Null,
                };
                lemma_cut_twice(child, rest, l);
                match d {
                    Json::Object(m) => {
                        let m1 = m.insert(f, modify_at(child, rest, act));
                        assert(m1.insert(f, modify_at(m1[f], rest, act)) =~= m1);
                    },
                    _ => {
                        let m1 = Map::<Seq<char>, Json>::empty().insert(f, modify_at(Json::Null, rest, act));
                        assert(m1.insert(f, modify_at(m1[f], rest, act)) =~= m1);
                    },
                }
            },
            Part::Index(i) => {
                let child = match d {
                    Json::Array(a) => if i < a.len() {
                        a[i as int]
                    } else {
                        Json::Null
                    },
                    _ => Json::Null,
                };
                lemma_cut_twice(child, rest, l);
                let a1 = match modify_at(d, q, act) {
                    Json::Array(a1) => a1,
                    _ => Seq::empty(),
                };
                match d {
                    Json::Array(a) => {
                        if i < a.len() {
                            assert(a1 == a.update(i as int, modify_at(a[i as int], rest, act)));
                        } else {
                            assert(a1 == (a + nulls((i - a.len()) as nat)).push(modify_at(Json::Null, rest, act)));
                            assert(a1[i as int] == modify_at(Json::Null, rest, act));
                        }
                    },
                    _ => {
                        assert(a1 == nulls(i).push(modify_at(Json::Null, rest, act)));
                        assert(a1[i as int] == modify_at(Json::Null, rest, act));
                    },
                }
                assert(i < a1.len());
                assert(a1.update(i as int, modify_at(a1[i as int], rest, act)) =~= a1);
            },
            Part::Traverse => {
                match d {
                    Json::Array(a) => {
                        let a1 = modify_each(a, rest, act);
                        assert forall|k: int| 0 <= k < a1.len() implies #[trigger] modify_each(a1, rest, act)[k] == a1[k] by {
                            lemma_cut_twice(a[k], rest, l);
                        }
                        assert(modify_each(a1, rest, act) =~= a1);
                    },
                    _ => {
                        lemma_cut_twice(Json::Null, rest, l);
                        let a1 = seq![modify_at(Json::Null, rest, act)];
                        assert(modify_each(a1, rest, act) =~= a1);
                    },
                }
            },
        }
    }
}

/// Pruning twice along an optic that does not end in an index is pruning
/// once. (Cutting an array element shifts the ones after it, so an optic that
/// ends in an index may cut again.)
pub proof fn lemma_prune_idempotent(d: Json, path: Seq<Part>)
    requires
        path.len() == 0 || !(path.last() is Index),
    ensures
        prune_at(prune_at(d, path), path) == prune_at(d, path),
{
    if valid_at(d, path) && path.len() > 0 {
        lemma_cut_twice(d, path.drop_last(), path.last());
    }
}

// -------------------------------------------------------------------- code

/// The values of a list of borrowed documents.
pub open spec fn refs_view(s: Seq<&Jsn>) -> Seq<Json> {
    s.map_values(|r: &Jsn| json_of(*r))
}

pub open spec fn derefs(s: Seq<&Jsn>) -> Seq<Jsn> {
    s.map_values(|r: &Jsn| *r)
}

pub open spec fn optic_rest(o: Seq<Part>, k: int) -> Seq<Part> {
    o.subrange(k, o.len() as int)
}

fn children_refs<'a>(e: &'a Jsn, part: &PathPart) -> (r: Vec<&'a Jsn>)
    ensures
        refs_view(r@) == children(json_of(*e), part@),
        derefs(r@) == jsn_children(*e, part@),
{
    let mut next: Vec<&'a Jsn> = Vec::new();
    match part {
        PathPart::Field(f) => {
            match e {
                Jsn::Object(v) => {
                    match crate::json::find_key(v, f) {
                        Some(i) => {
                            proof {
                                crate::json::lemma_entries_dom(v@, f@);
                                crate::json::lemma_entries_first(v@, i as int);
                                lemma_first_key(v@, f@, i as int);
                            }
                            next.push(&v[i].1);
                            assert(refs_view(next@) =~= seq![json_of(v@[i as int].1)]);
                            assert(derefs(next@) =~= seq![v@[i as int].1]);
                        },
                        None => {
                            proof {
                                crate::json::lemma_entries_dom(v@, f@);
                            }
                            assert(refs_view(next@) =~= Seq::<Json>::empty());
                            assert(derefs(next@) =~= Seq::<Jsn>::empty());
                        },
                    }
                },
                _ => {
                    assert(refs_view(next@) =~= Seq::<Json>::empty());
                    assert(derefs(next@) =~= Seq::<Jsn>::empty());
                },
            }
        },
        PathPart::Index(i) => {
            match e {
                Jsn::Array(v) => {
                    proof {
                        lemma_items_of(v@);
                    }
                    if *i < v.len() {
                        next.push(&v[*i]);
                        assert(refs_view(next@) =~= seq![json_of(v@[*i as int])]);
                        assert(derefs(next@) =~= seq![v@[*i as int]]);
                    } else {
                        assert(refs_view(next@) =~= Seq::<Json>::empty());
                        assert(derefs(next@) =~= Seq::<Jsn>::empty());
                    }
                },
                _ => {
                    assert(refs_view(next@) =~= Seq::<Json>::empty());
                    assert(derefs(next@) =~= Seq::<Jsn>::empty());
                },
            }
        },
        PathPart::Traverse => {
            match e {
                Jsn::Array(v) => {
                    proof {
                        lemma_items_of(v@);
                    }
                    let mut k: usize = 0;
                    while k < v.len()
                        invariant
                            k <= v@.len(),
                            items_of(v@).len() == v@.len(),
                            forall|m: int| 0 <= m < v@.len() ==> #[trigger] items_of(v@)[m] == json_of(v@[m]),
                            refs_view(next@) == items_of(v@).take(k as int),
                            derefs(next@) == v@.take(k as int),
                        decreases v@.len() - k,
                    {
                        let ghost b2 = next@;
                        next.push(&v[k]);
                        proof {
                            assert(derefs(b2).len() == b2.len());
                            assert forall|m: int| 0 <= m < k + 1 implies #[trigger] derefs(next@)[m] == v@.take(k + 1)[m] by {
                                if m < k {
                                    assert(derefs(next@)[m] == derefs(b2)[m]);
                                }
                            }
                            assert(derefs(next@) =~= v@.take(k + 1));
                            assert(refs_view(next@) =~= refs_view(b2).push(json_of(v@[k as int])));
                            assert(items_of(v@).take(k + 1) =~= items_of(v@).take(k as int).push(items_of(v@)[k as int]));
                        }
                        k += 1;
                    }
                    proof {
                        assert(items_of(v@).take(v@.len() as int) =~= items_of(v@));
                        assert(v@.take(v@.len() as int) =~= v@);
                    }
                },
                _ => {
                    assert(refs_view(next@) =~= Seq::<Json>::empty());
                    assert(derefs(next@) =~= Seq::<Jsn>::empty());
                },
            }
        },
    }
    next
}

fn step_refs<'a>(cur: &Vec<&'a Jsn>, part: &PathPart) -> (r: Vec<&'a Jsn>)
    ensures
        refs_view(r@) == step(refs_view(cur@), part@),
        derefs(r@) == jsn_step(derefs(cur@), part@),
{
    let mut next: Vec<&'a Jsn> = Vec::new();
    let ghost src = refs_view(cur@);
    let ghost dsrc = derefs(cur@);
    let mut j: usize = 0;
    while j < cur.len()
        invariant
            j <= cur@.len(),
            src == refs_view(cur@),
            dsrc == derefs(cur@),
            refs_view(next@) == step(src.take(j as int), part@),
            derefs(next@) == jsn_step(dsrc.take(j as int), part@),
        decreases cur@.len() - j,
    {
        let e: &'a Jsn = cur[j];
        let ghost before = next@;
        let mut kids = children_refs(e, part);
        next.append(&mut kids);
        proof {
            assert(refs_view(next@) =~= refs_view(before) + children(json_of(*e), part@));
            assert(derefs(next@) =~= derefs(before) + jsn_children(*e, part@));
            assert(src.take(j + 1).drop_last() =~= src.take(j as int));
            assert(src.take(j + 1).last() == json_of(*e));
            assert(dsrc.take(j + 1).drop_last() =~= dsrc.take(j as int));
            assert(dsrc.take(j + 1).last() == *e);
        }
        j += 1;
    }
    proof {
        assert(src.take(cur@.len() as int) =~= src);
        assert(dsrc.take(cur@.len() as int) =~= dsrc);
    }
    next
}

impl Jsn {
    /// Every value that the optic addresses, in walk order.
    pub fn get_all<'a>(&'a self, optic: &JsonOptic) -> (r: Vec<&'a Jsn>)
        ensures
            refs_view(r@) == get_all(self@, optic@),
            derefs(r@) == jsn_get_all(*self, optic@),
    {
        let mut cur: Vec<&'a Jsn> = Vec::new();
        cur.push(self);
        let ghost o = optic@;
        proof {
            assert(refs_view(cur@) =~= seq![self@]);
            assert(derefs(cur@) =~= seq![*self]);
            assert(optic_rest(o, 0) =~= o);
        }
        let mut k: usize = 0;
        while k < optic.json_path.len()
            invariant
                k <= o.len(),
                o == optic@,
                o.len() == optic.json_path@.len(),
                select(refs_view(cur@), optic_rest(o, k as int)) == get_all(self@, o),
                jsn_select(derefs(cur@), optic_rest(o, k as int)) == jsn_get_all(*self, o),
            decreases o.len() - k,
        {
            let next = step_refs(&cur, &optic.json_path[k]);
            proof {
                assert(o[k as int] == optic.json_path@[k as int]@);
                assert(optic_rest(o, k as int)[0] == o[k as int]);
                assert(optic_rest(o, k as int).drop_first() =~= optic_rest(o, k + 1));
            }
            cur = next;
            k += 1;
        }
        proof {
            assert(optic_rest(o, o.len() as int) =~= Seq::<Part>::empty());
        }
        cur
    }

    fn all_traverse_exec(optic: &JsonOptic) -> (r: bool)
        ensures
            r == all_traverse(optic@),
    {
        let mut k: usize = 0;
        while k < optic.json_path.len()
            invariant
                k <= optic@.len(),
                optic@.len() == optic.json_path@.len(),
                forall|i: int| 0 <= i < k ==> #[trigger] optic@[i] == Part::Traverse,
            decreases optic@.len() - k,
        {
            match &optic.json_path[k] {
                PathPart::Traverse => {},
                _ => {
                    assert(optic@[k as int] != Part::Traverse);
                    return false;
                },
            }
            k += 1;
        }
        true
    }

    /// Whether the optic addresses anything; an optic of traversals only asks
    /// whether the document is an array.
    pub fn validate(&self, optic: &JsonOptic) -> (r: bool)
        ensures
            r == valid_at(self@, optic@),
    {
        if Jsn::all_traverse_exec(optic) {
            match self {
                Jsn::Array(_) => true,
                _ => false,
            }
        } else {
            let all = self.get_all(optic);
            all.len() > 0
        }
    }
}


// --------------------------------------------------------- writing, code

proof fn lemma_entries_set_first(s: Seq<(String, Jsn)>, i: int, e: (String, Jsn))
    requires
        0 <= i < s.len(),
        e.0@ == s[i].0@,
        forall|j: int| 0 <= j < i ==> (#[trigger] s[j]).0@ != s[i].0@,
    ensures
        entries_of(s.update(i, e)) == entries_of(s).insert(e.0@, json_of(e.1)),
    decreases s.len(),
{
    let k = e.0@;
    let t = s.update(i, e);
    let m = entries_of(s.drop_last());
    if i == s.len() - 1 {
        assert(t.drop_last() == s.drop_last());
        lemma_entries_dom(s.drop_last(), k);
        if m.contains_key(k) {
            let j = choose|j: int| 0 <= j < s.len() - 1 && (#[trigger] s.drop_last()[j]).0@ == k;
            assert(s.drop_last()[j] == s[j]);
        }
        assert(entries_of(t) =~= entries_of(s).insert(k, json_of(e.1)));
    } else {
        assert(t.drop_last() == s.drop_last().update(i, e));
        assert forall|j: int| 0 <= j < i implies (#[trigger] s.drop_last()[j]).0@ != s.drop_last()[i].0@ by {
            assert(s.drop_last()[j] == s[j]);
        }
        lemma_entries_set_first(s.drop_last(), i, e);
        crate::json::lemma_entries_first(s.drop_last(), i);
        assert(t.last() == s.last());
        assert(entries_of(t) =~= entries_of(s).insert(k, json_of(e.1)));
    }
}

proof fn lemma_entries_push_absent(s: Seq<(String, Jsn)>, e: (String, Jsn))
    requires
        !entries_of(s).contains_key(e.0@),
    ensures
        entries_of(s.push(e)) == entries_of(s).insert(e.0@, json_of(e.1)),
{
    assert(s.push(e).drop_last() == s);
}

/// The entries without those of key `k`.
fn without_key(v: &Vec<(String, Jsn)>, k: &String) -> (r: Vec<(String, Jsn)>)
    ensures
        entries_of(r@) == entries_of(v@).remove(k@),
{
    let mut out: Vec<(String, Jsn)> = Vec::new();
    let mut j: usize = 0;
    proof {
        assert(entries_of(out@) =~= entries_of(v@.take(0)).remove(k@));
    }
    while j < v.len()
        invariant
            j <= v@.len(),
            entries_of(out@) == entries_of(v@.take(j as int)).remove(k@),
        decreases v@.len() - j,
    {
        let ghost m = entries_of(v@.take(j as int));
        proof {
            assert(v@.take(j + 1).drop_last() == v@.take(j as int));
            assert(v@.take(j + 1).last() == v@[j as int]);
        }
        if v[j].0 != *k {
            let e = (v[j].0.clone(), v[j].1.duplicate());
            proof {
                assert(out@.push(e).drop_last() == out@);
            }
            out.push(e);
            proof {
                assert(entries_of(out@) =~= entries_of(v@.take(j + 1)).remove(k@));
            }
        } else {
            proof {
                assert(entries_of(out@) =~= entries_of(v@.take(j + 1)).remove(k@));
            }
        }
        j += 1;
    }
    proof {
        assert(v@.take(v@.len() as int) == v@);
    }
    out
}

fn null_vec(n: usize) -> (r: Vec<Jsn>)
    ensures
        items_of(r@) == nulls(n as nat),
        r@.len() == n,
{
    let mut r: Vec<Jsn> = Vec::new();
    let mut i: usize = 0;
    while i < n
        invariant
            i <= n,
            r@.len() == i,
            forall|m: int| 0 <= m < i ==> #[trigger] r@[m] == Jsn::Null,
        decreases n - i,
    {
        r.push(Jsn::Null);
        i += 1;
    }
    proof {
        lemma_items_of(r@);
        assert(items_of(r@) =~= nulls(n as nat));
    }
    r
}

fn cut_field(node: &Jsn, f: &String) -> (r: Option<Vec<(String, Jsn)>>)
    ensures
        r.is_some() == (node@ is Object),
        r.is_some() ==> Json::Object(entries_of(r.unwrap()@)) == remove_part(node@, Part::Field(f@)),
{
    match node {
        Jsn::Object(v) => Some(without_key(v, f)),
        _ => None,
    }
}

/// What a write does where its path ends.
pub enum Leaf<'a> {
    Put(&'a Jsn),
    Cut(&'a PathPart),
}

pub open spec fn leaf_action(l: Leaf) -> Action {
    match l {
        Leaf::Put(v) => Action::Put(json_of(*v)),
        Leaf::Cut(p) => Action::Cut(p@),
    }
}

fn cut_index(node: &mut Jsn, i: usize)
    ensures
        final(node)@ == remove_part(old(node)@, Part::Index(i as nat)),
{
    match node {
        Jsn::Array(v) => {
            proof {
                lemma_items_of(v@);
            }
            if i < v.len() {
                let ghost before = v@;
                v.remove(i);
                proof {
                    lemma_items_of(before);
                    lemma_items_of(v@);
                    assert(items_of(v@) =~= items_of(before).remove(i as int));
                }
            }
        },
        _ => {},
    }
}

fn apply_leaf(node: &mut Jsn, leaf: &Leaf)
    ensures
        final(node)@ == apply(leaf_action(*leaf), old(node)@),
{
    match leaf {
        Leaf::Put(v) => {
            *node = v.duplicate();
        },
        Leaf::Cut(part) => {
            match part {
                PathPart::Field(f) => {
                    let cut = cut_field(node, f);
                    match cut {
                        Some(r) => {
                            *node = Jsn::Object(r);
                        },
                        None => {},
                    }
                },
                PathPart::Index(i) => {
                    cut_index(node, *i);
                },
                PathPart::Traverse => {
                    let is_array = match node {
                        Jsn::Array(_) => true,
                        _ => false,
                    };
                    if is_array {
                        *node = Jsn::Null;
                    }
                },
            }
        },
    }
}

/// Walks `parts[k..end]` from `node`, making missing structure, and does
/// `leaf` where the walk ends.
fn modify_from(node: &mut Jsn, parts: &Vec<PathPart>, k: usize, end: usize, leaf: &Leaf)
    requires
        k <= end <= parts@.len(),
    ensures
        final(node)@ == modify_at(old(node)@, crate::optic::parts_view(parts@).subrange(k as int, end as int), leaf_action(*leaf)),
    decreases end - k, 1int,
{
    if k == end {
        apply_leaf(node, leaf);
        return;
    }
    match &parts[k] {
        PathPart::Field(f) => modify_field(node, f, parts, k, end, leaf),
        PathPart::Index(i) => modify_index(node, *i, parts, k, end, leaf),
        PathPart::Traverse => modify_traverse(node, parts, k, end, leaf),
    }
}

fn modify_field(node: &mut Jsn, f: &String, parts: &Vec<PathPart>, k: usize, end: usize, leaf: &Leaf)
    requires
        k < end <= parts@.len(),
        parts@[k as int]@ == Part::Field(f@),
    ensures
        final(node)@ == modify_at(old(node)@, crate::optic::parts_view(parts@).subrange(k as int, end as int), leaf_action(*leaf)),
    decreases end - k, 0int,
{
    let ghost path = crate::optic::parts_view(parts@).subrange(k as int, end as int);
    let ghost rest = crate::optic::parts_view(parts@).subrange(k + 1, end as int);
    let ghost act = leaf_action(*leaf);
    proof {
        assert(path[0] == parts@[k as int]@);
        assert(path.drop_first() =~= rest);
    }
        let is_object = match node {
            Jsn::Object(_) => true,
            _ => false,
        };
        if is_object {
            match node {
                Jsn::Object(v) => {
                    let ghost before = v@;
                    match crate::json::find_key(v, f) {
                        Some(i) => {
                            let entry = &mut v[i];
                            modify_from(&mut entry.1, parts, k + 1, end, leaf);
                            proof {
                                crate::json::lemma_entries_first(before, i as int);
                                assert(v@ == before.update(i as int, v@[i as int]));
                                lemma_entries_set_first(before, i as int, v@[i as int]);
                            }
                        },
                        None => {
                            let mut x = Jsn::Null;
                            modify_from(&mut x, parts, k + 1, end, leaf);
                            let e = (f.clone(), x);
                            proof {
                                crate::json::lemma_entries_dom(before, f@);
                                lemma_entries_push_absent(before, e);
                            }
                            v.push(e);
                        },
                    }
                },
                _ => {},
            }
        } else {
            let mut x = Jsn::Null;
            modify_from(&mut x, parts, k + 1, end, leaf);
            let mut v: Vec<(String, Jsn)> = Vec::new();
            let e = (f.clone(), x);
            proof {
                lemma_entries_push_absent(v@, e);
            }
            v.push(e);
            *node = Jsn::Object(v);
            proof {
                assert(entries_of(v@) =~= Map::<Seq<char>, Json>::empty().insert(f@, modify_at(Json::Null, rest, act)));
            }
        }
}

fn modify_index(node: &mut Jsn, i: usize, parts: &Vec<PathPart>, k: usize, end: usize, leaf: &Leaf)
    requires
        k < end <= parts@.len(),
        parts@[k as int]@ == Part::Index(i as nat),
    ensures
        final(node)@ == modify_at(old(node)@, crate::optic::parts_view(parts@).subrange(k as int, end as int), leaf_action(*leaf)),
    decreases end - k, 0int,
{
    let ghost path = crate::optic::parts_view(parts@).subrange(k as int, end as int);
    let ghost rest = crate::optic::parts_view(parts@).subrange(k + 1, end as int);
    let ghost act = leaf_action(*leaf);
    proof {
        assert(path[0] == parts@[k as int]@);
        assert(path.drop_first() =~= rest);
    }
        let is_array = match node {
            Jsn::Array(_) => true,
            _ => false,
        };
        if is_array {
            match node {
                Jsn::Array(v) => {
                    let ghost before = v@;
                    proof {
                        lemma_items_of(before);
                    }
                    if i < v.len() {
                        modify_from(&mut v[i], parts, k + 1, end, leaf);
                        proof {
                            lemma_items_of(v@);
                            assert(items_of(v@) =~= items_of(before).update(i as int, modify_at(items_of(before)[i as int], rest, act)));
                        }
                    } else {
                        let mut pad = null_vec(i - v.len());
                        let ghost padv = pad@;
                        v.append(&mut pad);
                        let mut x = Jsn::Null;
                        modify_from(&mut x, parts, k + 1, end, leaf);
                        v.push(x);
                        proof {
                            lemma_items_of(v@);
                            lemma_items_of(padv);
                            assert(items_of(v@) =~= (items_of(before) + nulls((i - before.len()) as nat)).push(modify_at(Json::Null, rest, act)));
                        }
                    }
                },
                _ => {},
            }
        } else {
            let mut v = null_vec(i);
            let mut x = Jsn::Null;
            modify_from(&mut x, parts, k + 1, end, leaf);
            let ghost pre = v@;
            v.push(x);
            *node = Jsn::Array(v);
            proof {
                assert(v@.drop_last() == pre);
            }
        }
}

fn modify_traverse(node: &mut Jsn, parts: &Vec<PathPart>, k: usize, end: usize, leaf: &Leaf)
    requires
        k < end <= parts@.len(),
        parts@[k as int]@ == Part::Traverse,
    ensures
        final(node)@ == modify_at(old(node)@, crate::optic::parts_view(parts@).subrange(k as int, end as int), leaf_action(*leaf)),
    decreases end - k, 0int,
{
    let ghost path = crate::optic::parts_view(parts@).subrange(k as int, end as int);
    let ghost rest = crate::optic::parts_view(parts@).subrange(k + 1, end as int);
    let ghost act = leaf_action(*leaf);
    proof {
        assert(path[0] == parts@[k as int]@);
        assert(path.drop_first() =~= rest);
    }
        let is_array = match node {
            Jsn::Array(_) => true,
            _ => false,
        };
        if is_array {
            match node {
                Jsn::Array(v) => {
                    let ghost before = v@;
                    proof {
                        lemma_items_of(before);
                    }
                    let mut j: usize = 0;
                    while j < v.len()
                        invariant
                            j <= v@.len(),
                            v@.len() == before.len(),
                            k < end <= parts@.len(),
                            rest == crate::optic::parts_view(parts@).subrange(k + 1, end as int),
                            act == leaf_action(*leaf),
                            forall|m: int| 0 <= m < j ==> json_of(#[trigger] v@[m]) == modify_at(json_of(before[m]), rest, act),
                            forall|m: int| j <= m < v@.len() ==> #[trigger] v@[m] == before[m],
                        decreases v@.len() - j,
                    {
                        modify_from(&mut v[j], parts, k + 1, end, leaf);
                        j += 1;
                    }
                    proof {
                        lemma_items_of(v@);
                        lemma_items_of(before);
                        assert(path[0] == parts@[k as int]@);
                        assert(path.drop_first() =~= rest);
                        assert(items_of(v@) =~= modify_each(items_of(before), rest, act));
                    }
                },
                _ => {},
            }
        } else {
            let mut x = Jsn::Null;
            modify_from(&mut x, parts, k + 1, end, leaf);
            let mut v: Vec<Jsn> = Vec::new();
            v.push(x);
            *node = Jsn::Array(v);
            proof {
                assert(v@.drop_last() =~= Seq::<Jsn>::empty());
                assert(items_of(v@) == items_of(v@.drop_last()).push(json_of(v@.last())));
                assert(items_of(v@) =~= seq![modify_at(Json::Null, rest, act)]);
            }
        }
}

impl Jsn {
    /// Writes a copy of `v` wherever the optic ends, making missing structure
    /// on the way.
    pub fn set(&mut self, optic: &JsonOptic, v: &Jsn)
        ensures
            final(self)@ == set_at(old(self)@, optic@, v@),
    {
        let leaf = Leaf::Put(v);
        modify_from(self, &optic.json_path, 0, optic.json_path.len(), &leaf);
        proof {
            assert(crate::optic::parts_view(optic.json_path@).subrange(0, optic.json_path@.len() as int) =~= optic@);
        }
    }

    /// Cuts out what the optic addresses, if it addresses anything.
    pub fn prune(&mut self, optic: &JsonOptic)
        ensures
            final(self)@ == prune_at(old(self)@, optic@),
    {
        let n = optic.json_path.len();
        if n > 0 && self.validate(optic) {
            let leaf = Leaf::Cut(&optic.json_path[n - 1]);
            modify_from(self, &optic.json_path, 0, n - 1, &leaf);
            proof {
                assert(crate::optic::parts_view(optic.json_path@).subrange(0, n - 1) =~= optic@.drop_last());
            }
        }
    }

    /// Writes `v` where the optic ends if there is a value, else cuts out what
    /// the optic addresses.
    pub fn set_opt(&mut self, optic: &JsonOptic, v: Option<&Jsn>)
        ensures
            match v {
                Some(x) => final(self)@ == set_at(old(self)@, optic@, x@),
                None => final(self)@ == prune_at(old(self)@, optic@),
            },
    {
        match v {
            Some(value) => self.set(optic, value),
            None => self.prune(optic),
        }
    }
}

} // verus!
