use vstd::prelude::*;

verus! {

broadcast use vstd::std_specs::vec::group_vec_axioms, vstd::seq::group_seq_axioms;

/// The mathematical value of a JSON document.
///
/// An object is a finite map from keys to values: the order of its entries
/// carries no meaning.
pub enum Json {
    Null,
    Bool(bool),
    Int(int),
    Float(Seq<char>),
    Str(Seq<char>),
    Array(Seq<Json>),
    Object(Map<Seq<char>, Json>),
}

/// A JSON document in plain values.
///
/// Integers and other numbers are kept apart: an integer that fits in `i64` is
/// `Signed`, any other number is `Float`, held as its shortest decimal numeral
/// (`45.99`, `1e300`). An object lists its entries; where a key occurs twice,
/// the first entry is the one that counts.
pub enum Jsn {
    Null,
    Bool(bool),
    Signed(i64),
    Float(String),
    String(String),
    Array(Vec<Jsn>),
    Object(Vec<(String, Jsn)>),
}

pub open spec fn json_of(j: Jsn) -> Json
    decreases j,
{
    match j {
        Jsn::Null => Json::Null,
        Jsn::Bool(b) => Json::Bool(b),
        Jsn::Signed(i) => Json::Int(i as int),
        Jsn::Float(t) => Json::Float(t@),
        Jsn::String(s) => Json::Str(s@),
        Jsn::Array(v) => Json::Array(items_of(v@)),
        Jsn::Object(v) => Json::Object(entries_of(v@)),
    }
}

/// The values of a list of documents.
pub open spec fn items_of(s: Seq<Jsn>) -> Seq<Json>
    decreases s,
{
    if s.len() == 0 {
        Seq::empty()
    } else {
        items_of(s.drop_last()).push(json_of(s.last()))
    }
}

/// The map that a list of entries stands for: the first entry of a key wins.
pub open spec fn entries_of(s: Seq<(String, Jsn)>) -> Map<Seq<char>, Json>
    decreases s,
{
    if s.len() == 0 {
        Map::empty()
    } else {
        let m = entries_of(s.drop_last());
        if m.contains_key(s.last().0@) {
            m
        } else {
            m.insert(s.last().0@, json_of(s.last().1))
        }
    }
}

impl View for Jsn {
    type V = Json;

    open spec fn view(&self) -> Json {
        json_of(*self)
    }
}

pub proof fn lemma_items_of(s: Seq<Jsn>)
    ensures
        items_of(s).len() == s.len(),
        forall|i: int| 0 <= i < s.len() ==> #[trigger] items_of(s)[i] == json_of(s[i]),
    decreases s.len(),
{
    if s.len() > 0 {
        lemma_items_of(s.drop_last());
    }
}

/// A key is in the map exactly when some entry has it.
pub proof fn lemma_entries_dom(s: Seq<(String, Jsn)>, k: Seq<char>)
    ensures
        entries_of(s).contains_key(k) <==> exists|i: int| 0 <= i < s.len() && (#[trigger] s[i]).0@ == k,
    decreases s.len(),
{
    if s.len() > 0 {
        lemma_entries_dom(s.drop_last(), k);
        if entries_of(s).contains_key(k) && s.last().0@ != k {
            let i = choose|i: int| 0 <= i < s.len() - 1 && (#[trigger] s.drop_last()[i]).0@ == k;
            assert(s[i] == s.drop_last()[i]);
        }
        if exists|i: int| 0 <= i < s.len() && (#[trigger] s[i]).0@ == k {
            let i = choose|i: int| 0 <= i < s.len() && (#[trigger] s[i]).0@ == k;
            if i < s.len() - 1 {
                assert(s.drop_last()[i] == s[i]);
            }
        }
    }
}

/// The value of a key is that of its first entry.
pub proof fn lemma_entries_first(s: Seq<(String, Jsn)>, i: int)
    requires
        0 <= i < s.len(),
        forall|j: int| 0 <= j < i ==> (#[trigger] s[j]).0@ != s[i].0@,
    ensures
        entries_of(s).contains_key(s[i].0@),
        entries_of(s)[s[i].0@] == json_of(s[i].1),
    decreases s.len(),
{
    let k = s[i].0@;
    if i < s.len() - 1 {
        let t = s.drop_last();
        assert(t[i] == s[i]);
        assert forall|j: int| 0 <= j < i implies (#[trigger] t[j]).0@ != t[i].0@ by {
            assert(t[j] == s[j]);
        }
        lemma_entries_first(t, i);
    } else {
        lemma_entries_dom(s.drop_last(), k);
        if entries_of(s.drop_last()).contains_key(k) {
            let j = choose|j: int| 0 <= j < s.len() - 1 && (#[trigger] s.drop_last()[j]).0@ == k;
            assert(s.drop_last()[j] == s[j]);
        }
    }
}


/// Position of the first entry whose key is `k`.
pub fn find_key(entries: &Vec<(String, Jsn)>, k: &String) -> (r: Option<usize>)
    ensures
        match r {
            Some(i) => {
                &&& i < entries@.len()
                &&& entries@[i as int].0@ == k@
                &&& forall|j: int| 0 <= j < i ==> (#[trigger] entries@[j]).0@ != k@
            },
            None => forall|j: int| 0 <= j < entries@.len() ==> (#[trigger] entries@[j]).0@ != k@,
        },
{
    let mut i: usize = 0;
    while i < entries.len()
        invariant
            i <= entries@.len(),
            forall|j: int| 0 <= j < i ==> (#[trigger] entries@[j]).0@ != k@,
        decreases entries@.len() - i,
    {
        if entries[i].0 == *k {
            return Some(i);
        }
        i += 1;
    }
    None
}

/// Where the value of key `k` stands among `entries`, if the map has it.
pub fn locate(entries: &Vec<(String, Jsn)>, k: &String) -> (r: Option<usize>)
    ensures
        r.is_some() == entries_of(entries@).contains_key(k@),
        r.is_some() ==> {
            let i = r.unwrap() as int;
            &&& i < entries@.len()
            &&& entries@[i].0@ == k@
            &&& entries_of(entries@)[k@] == json_of(entries@[i].1)
        },
{
    let r = find_key(entries, k);
    proof {
        lemma_entries_dom(entries@, k@);
        if r.is_some() {
            lemma_entries_first(entries@, r.unwrap() as int);
        }
    }
    r
}

impl Jsn {
    /// Whether the document is a string.
    pub fn is_string(&self) -> (r: bool)
        ensures
            r == (self@ is Str),
    {
        match self {
            Jsn::String(_) => true,
            _ => false,
        }
    }

    /// A copy of the document.
    pub fn duplicate(&self) -> (r: Jsn)
        ensures
            r@ == self@,
        decreases self,
    {
        match self {
            Jsn::Null => Jsn::Null,
            Jsn::Bool(b) => Jsn::Bool(*b),
            Jsn::Signed(i) => Jsn::Signed(*i),
            Jsn::Float(t) => Jsn::Float(t.clone()),
            Jsn::String(s) => Jsn::String(s.clone()),
            Jsn::Array(v) => {
                let mut out: Vec<Jsn> = Vec::new();
                let mut i: usize = 0;
                while i < v.len()
                    invariant
                        i <= v@.len(),
                        *self == Jsn::Array(*v),
                        items_of(out@) == items_of(v@.take(i as int)),
                    decreases v@.len() - i,
                {
                    proof {
                        assert(decreases_to!(*self => (*self)->Array_0));
                        assert(decreases_to!(*v => v[i as int]));
                        assert(decreases_to!(*self => v[i as int]));
                    }
                    let c = v[i].duplicate();
                    proof {
                        assert(v@.take(i + 1).drop_last() == v@.take(i as int));
                        assert(out@.push(c).drop_last() == out@);
                    }
                    out.push(c);
                    i += 1;
                }
                proof {
                    assert(v@.take(v@.len() as int) == v@);
                }
                Jsn::Array(out)
            },
            Jsn::Object(v) => {
                let mut out: Vec<(String, Jsn)> = Vec::new();
                let mut i: usize = 0;
                while i < v.len()
                    invariant
                        i <= v@.len(),
                        *self == Jsn::Object(*v),
                        entries_of(out@) == entries_of(v@.take(i as int)),
                    decreases v@.len() - i,
                {
                    proof {
                        assert(decreases_to!(*self => (*self)->Object_0));
                        assert(decreases_to!(*v => v[i as int]));
                        assert(decreases_to!(v[i as int] => v[i as int].1));
                        assert(decreases_to!(*self => v[i as int].1));
                    }
                    let e = (v[i].0.clone(), v[i].1.duplicate());
                    proof {
                        assert(v@.take(i + 1).drop_last() == v@.take(i as int));
                        assert(out@.push(e).drop_last() == out@);
                    }
                    out.push(e);
                    i += 1;
                }
                proof {
                    assert(v@.take(v@.len() as int) == v@);
                }
                Jsn::Object(out)
            },
        }
    }

    /// Whether two documents have the same value.
    pub fn same(&self, other: &Jsn) -> (r: bool)
        ensures
            r == (self@ == other@),
        decreases self,
    {
        match (self, other) {
            (Jsn::Null, Jsn::Null) => true,
            (Jsn::Bool(a), Jsn::Bool(b)) => *a == *b,
            (Jsn::Signed(a), Jsn::Signed(b)) => *a == *b,
            (Jsn::Float(a), Jsn::Float(b)) => *a == *b,
            (Jsn::String(a), Jsn::String(b)) => *a == *b,
            (Jsn::Array(a), Jsn::Array(b)) => {
                proof {
                    lemma_items_of(a@);
                    lemma_items_of(b@);
                }
                assert(self@ == Json::Array(items_of(a@)));
                assert(other@ == Json::Array(items_of(b@)));
                if a.len() != b.len() {
                    return false;
                }
                let mut i: usize = 0;
                while i < a.len()
                    invariant
                        i <= a@.len(),
                        *self == Jsn::Array(*a),
                        *other == Jsn::Array(*b),
                        a@.len() == b@.len(),
                        items_of(a@).len() == a@.len(),
                        items_of(b@).len() == b@.len(),
                        forall|j: int| 0 <= j < a@.len() ==> #[trigger] items_of(a@)[j] == json_of(a@[j]),
                        forall|j: int| 0 <= j < b@.len() ==> #[trigger] items_of(b@)[j] == json_of(b@[j]),
                        forall|j: int| 0 <= j < i ==> json_of(#[trigger] a@[j]) == json_of(b@[j]),
                    decreases a@.len() - i,
                {
                    proof {
                        assert(decreases_to!(*self => (*self)->Array_0));
                        assert(decreases_to!(*a => a[i as int]));
                        assert(decreases_to!(*self => a[i as int]));
                    }
                    if !a[i].same(&b[i]) {
                        assert(items_of(a@)[i as int] != items_of(b@)[i as int]);
                        return false;
                    }
                    i += 1;
                }
                assert(items_of(a@) =~= items_of(b@));
                true
            },
            (Jsn::Object(a), Jsn::Object(b)) => {
                let ghost ma = entries_of(a@);
                let ghost mb = entries_of(b@);
                assert(self@ == Json::Object(ma));
                assert(other@ == Json::Object(mb));
                let mut i: usize = 0;
                while i < a.len()
                    invariant
                        i <= a@.len(),
                        *self == Jsn::Object(*a),
                        *other == Jsn::Object(*b),
                        ma == entries_of(a@),
                        mb == entries_of(b@),
                        forall|j: int|
                            0 <= j < i ==> mb.contains_key(#[trigger] a@[j].0@) && ma.contains_key(a@[j].0@)
                                && mb[a@[j].0@] == ma[a@[j].0@],
                    decreases a@.len() - i,
                {
                    let k = &a[i].0;
                    proof {
                        lemma_entries_dom(a@, k@);
                    }
                    let ia = locate(a, k).unwrap();
                    match locate(b, k) {
                        None => {
                            return false;
                        },
                        Some(ib) => {
                            proof {
                                assert(decreases_to!(*self => (*self)->Object_0));
                                assert(decreases_to!(*a => a[ia as int]));
                                assert(decreases_to!(a[ia as int] => a[ia as int].1));
                                assert(decreases_to!(*self => a[ia as int].1));
                            }
                            if !a[ia].1.same(&b[ib].1) {
                                return false;
                            }
                            assert(mb.contains_key(a@[i as int].0@) && ma.contains_key(a@[i as int].0@)
                                && mb[a@[i as int].0@] == ma[a@[i as int].0@]);
                        },
                    }
                    i += 1;
                }
                let mut i: usize = 0;
                while i < b.len()
                    invariant
                        i <= b@.len(),
                        *self == Jsn::Object(*a),
                        *other == Jsn::Object(*b),
                        ma == entries_of(a@),
                        mb == entries_of(b@),
                        forall|j: int| 0 <= j < a@.len() ==> mb.contains_key(#[trigger] a@[j].0@) && ma.contains_key(a@[j].0@) && mb[a@[j].0@] == ma[a@[j].0@],
                        forall|j: int| 0 <= j < i ==> #[trigger] ma.contains_key(b@[j].0@),
                    decreases b@.len() - i,
                {
                    if locate(a, &b[i].0).is_none() {
                        proof {
                            lemma_entries_dom(b@, b@[i as int].0@);
                            assert(mb.contains_key(b@[i as int].0@));
                        }
                        return false;
                    }
                    i += 1;
                }
                proof {
                    assert forall|k: Seq<char>| #[trigger] ma.contains_key(k) implies mb.contains_key(k) && mb[k] == ma[k] by {
                        lemma_entries_dom(a@, k);
                        let j = choose|j: int| 0 <= j < a@.len() && (#[trigger] a@[j]).0@ == k;
                        assert(mb.contains_key(a@[j].0@));
                    }
                    assert forall|k: Seq<char>| #[trigger] mb.contains_key(k) implies ma.contains_key(k) by {
                        lemma_entries_dom(b@, k);
                        let j = choose|j: int| 0 <= j < b@.len() && (#[trigger] b@[j]).0@ == k;
                        assert(ma.contains_key(b@[j].0@));
                    }
                    assert(ma =~= mb);
                }
                true
            },
            _ => false,
        }
    }
}

} // verus!
