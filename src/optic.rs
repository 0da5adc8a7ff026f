use vstd::prelude::*;
use crate::text::{
    chars_of, string_of, push_decimal, push_str, is_digit, digit_value, decimal, digits_value,
    lemma_decimal,
};

verus! {

broadcast use vstd::std_specs::vec::group_vec_axioms, vstd::seq::group_seq_axioms;

/// One step of a path into a JSON document.
#[derive(Debug)]
pub enum PathPart {
    /// The named member of an object.
    Field(String),
    /// The element of an array at a position.
    Index(usize),
    /// Every element of an array.
    Traverse,
}

/// The value of a `PathPart`.
pub enum Part {
    Field(Seq<char>),
    Index(nat),
    Traverse,
}

impl PartialEq for PathPart {
    fn eq(&self, o: &PathPart) -> (r: bool) {
        match (self, o) {
            (PathPart::Field(a), PathPart::Field(b)) => *a == *b,
            (PathPart::Index(a), PathPart::Index(b)) => *a == *b,
            (PathPart::Traverse, PathPart::Traverse) => true,
            _ => false,
        }
    }
}

impl vstd::std_specs::cmp::PartialEqSpecImpl for PathPart {
    open spec fn obeys_eq_spec() -> bool {
        true
    }

    open spec fn eq_spec(&self, o: &PathPart) -> bool {
        self@ == o@
    }
}

impl View for PathPart {
    type V = Part;

    open spec fn view(&self) -> Part {
        match self {
            PathPart::Field(f) => Part::Field(f@),
            PathPart::Index(i) => Part::Index(*i as nat),
            PathPart::Traverse => Part::Traverse,
        }
    }
}

/// A path into a JSON document: a sequence of parts, read left to right.
#[derive(Debug)]
pub struct JsonOptic {
    pub json_path: Vec<PathPart>,
}

impl View for JsonOptic {
    type V = Seq<Part>;

    open spec fn view(&self) -> Seq<Part> {
        parts_view(self.json_path@)
    }
}

pub open spec fn parts_view(v: Seq<PathPart>) -> Seq<Part> {
    v.map_values(|p: PathPart| p@)
}

pub open spec fn token_parts(ts: Seq<Seq<char>>) -> Seq<Part> {
    ts.map_values(|t: Seq<char>| token_part(t))
}

proof fn lemma_parts_push(v: Seq<PathPart>, ts: Seq<Seq<char>>, p: PathPart, t: Seq<char>)
    requires
        parts_view(v) == token_parts(ts),
        p@ == token_part(t),
    ensures
        parts_view(v.push(p)) == token_parts(ts.push(t)),
{
    let a = parts_view(v.push(p));
    let b = token_parts(ts.push(t));
    assert(parts_view(v).len() == v.len());
    assert(token_parts(ts).len() == ts.len());
    assert(a.len() == b.len());
    assert forall|j: int| 0 <= j < a.len() implies a[j] == b[j] by {
        if j < v.len() {
            assert(a[j] == parts_view(v)[j]);
            assert(b[j] == token_parts(ts)[j]);
        }
    }
    assert(a =~= b);
}

// ---------------------------------------------------------------- parsing

/// The tokens of `s` between dots; `s` without a dot is one token.
pub open spec fn split_dots(s: Seq<char>) -> Seq<Seq<char>>
    decreases s.len(),
{
    if s.len() == 0 {
        seq![Seq::empty()]
    } else {
        let t = split_dots(s.drop_last());
        if s.last() == '.' {
            t.push(Seq::empty())
        } else {
            t.update(t.len() - 1, t.last().push(s.last()))
        }
    }
}

/// The first position at or after `j` that holds no digit.
pub open spec fn digit_run_end(t: Seq<char>, j: int) -> int
    decreases t.len() - j,
{
    if 0 <= j < t.len() && is_digit(t[j]) {
        digit_run_end(t, j + 1)
    } else {
        j
    }
}

/// Whether `[`, one or more digits and `]` start at position `p` of `t`.
pub open spec fn index_at(t: Seq<char>, p: int) -> bool {
    &&& 0 <= p < t.len()
    &&& t[p] == '['
    &&& digit_run_end(t, p + 1) > p + 1
    &&& digit_run_end(t, p + 1) < t.len()
    &&& t[digit_run_end(t, p + 1)] == ']'
}

/// The leftmost position at or after `p` where an index form starts.
pub open spec fn first_index_from(t: Seq<char>, p: int) -> Option<int>
    decreases t.len() - p,
{
    if p < 0 || p >= t.len() {
        None
    } else if index_at(t, p) {
        Some(p)
    } else {
        first_index_from(t, p + 1)
    }
}

/// The part that a token stands for: `$` traverses; a token holding `[`
/// digits `]` is the index it names, when the index fits in `usize`; any
/// other token is a field name.
pub open spec fn token_part(t: Seq<char>) -> Part {
    if t == seq!['$'] {
        Part::Traverse
    } else {
        match first_index_from(t, 0) {
            Some(p) => {
                let n = digits_value(t.subrange(p + 1, digit_run_end(t, p + 1)));
                if n <= usize::MAX {
                    Part::Index(n)
                } else {
                    Part::Field(t)
                }
            },
            None => Part::Field(t),
        }
    }
}

/// The optic that a human-form path stands for.
pub open spec fn parse_path(s: Seq<char>) -> Seq<Part> {
    token_parts(split_dots(s))
}

// -------------------------------------------------------------- rendering

pub open spec fn index_text(n: nat) -> Seq<char> {
    seq!['['] + decimal(n) + seq![']']
}

/// The human form of a part.
pub open spec fn part_text(p: Part) -> Seq<char> {
    match p {
        Part::Field(f) => f,
        Part::Index(i) => index_text(i),
        Part::Traverse => seq!['$'],
    }
}

/// The JSON-path form of a part.
pub open spec fn part_path_text(p: Part) -> Seq<char> {
    match p {
        Part::Field(f) => f,
        Part::Index(i) => index_text(i),
        Part::Traverse => seq!['[', '*', ']'],
    }
}

/// The tokens joined with dots between them.
pub open spec fn join_dots(ts: Seq<Seq<char>>) -> Seq<char>
    decreases ts.len(),
{
    if ts.len() == 0 {
        Seq::empty()
    } else if ts.len() == 1 {
        ts[0]
    } else {
        join_dots(ts.drop_last()) + seq!['.'] + ts.last()
    }
}

/// The human form of an optic: its parts joined with dots.
pub open spec fn render(o: Seq<Part>) -> Seq<char> {
    join_dots(o.map_values(|p: Part| part_text(p)))
}

/// Whether the character at `i` is kept when every `.[` is collapsed to `[`.
pub open spec fn kept_at(s: Seq<char>, i: int) -> bool {
    !(s[i] == '.' && i + 1 < s.len() && s[i + 1] == '[')
}

/// The first `n` characters of `s` with every `.[` collapsed to `[`.
pub open spec fn collapse_upto(s: Seq<char>, n: int) -> Seq<char>
    decreases n,
{
    if n <= 0 {
        Seq::empty()
    } else if kept_at(s, n - 1) {
        collapse_upto(s, n - 1).push(s[n - 1])
    } else {
        collapse_upto(s, n - 1)
    }
}

/// The JSON-path form of an optic: `$.`, then its parts joined with dots,
/// where every `.[` is then collapsed to `[` (so a leading index gives `$[0]`).
pub open spec fn json_path_text(o: Seq<Part>) -> Seq<char> {
    let full = seq!['$', '.'] + join_dots(o.map_values(|p: Part| part_path_text(p)));
    collapse_upto(full, full.len() as int)
}

// ----------------------------------------------------------------- lemmas

proof fn lemma_split_nonempty(s: Seq<char>)
    ensures
        split_dots(s).len() >= 1,
    decreases s.len(),
{
    if s.len() > 0 {
        lemma_split_nonempty(s.drop_last());
    }
}

proof fn lemma_join_extend(ts: Seq<Seq<char>>, c: char)
    requires
        ts.len() >= 1,
    ensures
        join_dots(ts.update(ts.len() - 1, ts.last().push(c))) == join_dots(ts).push(c),
{
    let u = ts.update(ts.len() - 1, ts.last().push(c));
    if ts.len() > 1 {
        assert(u.drop_last() == ts.drop_last());
    }
}

/// Joining the tokens of a path gives the path back.
pub proof fn lemma_join_split(s: Seq<char>)
    ensures
        join_dots(split_dots(s)) == s,
    decreases s.len(),
{
    if s.len() > 0 {
        let t = split_dots(s.drop_last());
        lemma_join_split(s.drop_last());
        lemma_split_nonempty(s.drop_last());
        if s.last() == '.' {
            assert(t.push(Seq::empty()).drop_last() == t);
            assert(s == s.drop_last() + seq!['.'] + Seq::<char>::empty());
        } else {
            lemma_join_extend(t, s.last());
            assert(s == s.drop_last().push(s.last()));
        }
    }
}

proof fn lemma_digit_run_end_bounds(t: Seq<char>, j: int)
    requires
        0 <= j <= t.len(),
    ensures
        j <= digit_run_end(t, j) <= t.len(),
        forall|k: int| j <= k < digit_run_end(t, j) ==> is_digit(#[trigger] t[k]),
        digit_run_end(t, j) < t.len() ==> !is_digit(t[digit_run_end(t, j)]),
    decreases t.len() - j,
{
    if j < t.len() && is_digit(t[j]) {
        lemma_digit_run_end_bounds(t, j + 1);
    }
}

proof fn lemma_digit_run_end_skip(t: Seq<char>, j: int, k: int)
    requires
        0 <= j <= k <= t.len(),
        forall|m: int| j <= m < k ==> is_digit(#[trigger] t[m]),
    ensures
        digit_run_end(t, j) == digit_run_end(t, k),
    decreases k - j,
{
    if j < k {
        lemma_digit_run_end_skip(t, j + 1, k);
    }
}

proof fn lemma_first_index(t: Seq<char>, from: int, p: int)
    requires
        0 <= from <= p,
        index_at(t, p),
        forall|q: int| from <= q < p ==> !index_at(t, q),
    ensures
        first_index_from(t, from) == Some(p),
    decreases p - from,
{
    if from < p {
        lemma_first_index(t, from + 1, p);
    }
}

proof fn lemma_no_index(t: Seq<char>, from: int)
    requires
        0 <= from,
        forall|q: int| from <= q < t.len() ==> !index_at(t, q),
    ensures
        first_index_from(t, from) == None::<int>,
    decreases t.len() - from,
{
    if from < t.len() {
        lemma_no_index(t, from + 1);
    }
}

/// A longer run of digits reads as at least as large a number.
pub proof fn lemma_digits_value_grows(s: Seq<char>, k: int)
    requires
        0 <= k <= s.len(),
    ensures
        digits_value(s.take(k)) <= digits_value(s),
    decreases s.len() - k,
{
    if k < s.len() {
        lemma_digits_value_grows(s, k + 1);
        assert(s.take(k + 1).drop_last() == s.take(k));
        assert(digits_value(s.take(k + 1)) == digits_value(s.take(k)) * 10 + digit_value(s.take(k + 1).last()));
    } else {
        assert(s.take(k) =~= s);
    }
}

/// Whether a token of a human-form path renders back as itself: `$`, an index
/// in its shortest form, or a field name that holds no index form.
pub open spec fn normal_token(t: Seq<char>) -> bool {
    ||| t == seq!['$']
    ||| exists|n: nat| n <= usize::MAX && t == index_text(n)
    ||| first_index_from(t, 0) is None
}

/// A human-form path whose every token is in normal form.
pub open spec fn normal_path(s: Seq<char>) -> bool {
    forall|i: int| 0 <= i < split_dots(s).len() ==> normal_token(#[trigger] split_dots(s)[i])
}

proof fn lemma_token_round_trip(t: Seq<char>)
    requires
        normal_token(t),
    ensures
        part_text(token_part(t)) == t,
{
    if t != seq!['$'] {
        if exists|n: nat| n <= usize::MAX && t == index_text(n) {
            let n = choose|n: nat| n <= usize::MAX && t == index_text(n);
            lemma_decimal(n);
            let d = decimal(n);
            let e: int = 1 + d.len() as int;
            assert forall|m: int| 1 <= m < e implies is_digit(#[trigger] t[m]) by {
                assert(t[m] == d[m - 1]);
            }
            lemma_digit_run_end_skip(t, 1, e);
            assert(t[e] == ']');
            assert(digit_run_end(t, e) == e);
            assert(index_at(t, 0));
            assert(first_index_from(t, 0) == Some(0int));
            assert(t.subrange(1, e) =~= d);
        }
    }
}

/// Rendering a parsed human-form path gives the path back.
pub proof fn lemma_render_parse(s: Seq<char>)
    requires
        normal_path(s),
    ensures
        render(parse_path(s)) == s,
{
    let ts = split_dots(s);
    let back = parse_path(s).map_values(|p: Part| part_text(p));
    assert forall|i: int| 0 <= i < ts.len() implies #[trigger] back[i] == ts[i] by {
        lemma_token_round_trip(ts[i]);
    }
    assert(back =~= ts);
    lemma_join_split(s);
}

// ------------------------------------------------------------------- code

/// Whether an index form starts at `p`; if so, where its digits end.
fn index_form_at(t: &Vec<char>, p: usize) -> (r: Option<usize>)
    requires
        p < t@.len(),
    ensures
        r.is_some() == index_at(t@, p as int),
        r.is_some() ==> r.unwrap() as int == digit_run_end(t@, p + 1),
{
    if t[p] != '[' {
        return None;
    }
    let n = t.len();
    let mut q: usize = p + 1;
    while q < t.len() && '0' <= t[q] && t[q] <= '9'
        invariant
            p + 1 <= q <= t@.len(),
            digit_run_end(t@, p + 1) == digit_run_end(t@, q as int),
        decreases t@.len() - q,
    {
        q += 1;
    }
    proof {
        lemma_digit_run_end_bounds(t@, q as int);
    }
    if q > p + 1 && q < t.len() && t[q] == ']' {
        Some(q)
    } else {
        None
    }
}

/// The number that digits `t[from..to]` read as, unless it exceeds `usize`.
fn read_index(t: &Vec<char>, from: usize, to: usize) -> (r: Option<usize>)
    requires
        from <= to <= t@.len(),
        forall|k: int| from <= k < to ==> is_digit(#[trigger] t@[k]),
    ensures
        r.is_some() == (digits_value(t@.subrange(from as int, to as int)) <= usize::MAX),
        r.is_some() ==> r.unwrap() as nat == digits_value(t@.subrange(from as int, to as int)),
{
    let ghost ds = t@.subrange(from as int, to as int);
    let mut v: usize = 0;
    let mut k: usize = from;
    while k < to
        invariant
            from <= k <= to <= t@.len(),
            ds == t@.subrange(from as int, to as int),
            forall|m: int| from <= m < to ==> is_digit(#[trigger] t@[m]),
            v as nat == digits_value(ds.take(k - from)),
        decreases to - k,
    {
        let d = (t[k] as u32 - '0' as u32) as usize;
        proof {
            assert(ds.take(k - from + 1).drop_last() == ds.take(k - from));
            assert(ds.take(k - from + 1).last() == t@[k as int]);
            assert(digit_value(t@[k as int]) == d);
        }
        match v.checked_mul(10) {
            None => {
                proof {
                    lemma_digits_value_grows(ds, k - from + 1);
                }
                return None;
            },
            Some(w) => match w.checked_add(d) {
                None => {
                    proof {
                        lemma_digits_value_grows(ds, k - from + 1);
                    }
                    return None;
                },
                Some(x) => {
                    v = x;
                },
            },
        }
        k += 1;
    }
    proof {
        assert(ds.take(to - from) == ds);
    }
    Some(v)
}

/// The part that a token of a human-form path stands for.
fn token_to_part(t: &Vec<char>) -> (r: PathPart)
    ensures
        r@ == token_part(t@),
{
    if t.len() == 1 && t[0] == '$' {
        assert(t@ =~= seq!['$']);
        return PathPart::Traverse;
    }
    assert(t@ != seq!['$']);
    let mut p: usize = 0;
    while p < t.len()
        invariant
            p <= t@.len(),
            t@ != seq!['$'],
            forall|q: int| 0 <= q < p ==> !index_at(t@, q),
        decreases t@.len() - p,
    {
        match index_form_at(t, p) {
            Some(q) => {
                proof {
                    lemma_first_index(t@, 0, p as int);
                    lemma_digit_run_end_bounds(t@, p + 1);
                }
                match read_index(t, p + 1, q) {
                    Some(n) => {
                        return PathPart::Index(n);
                    },
                    None => {
                        return PathPart::Field(string_of(t));
                    },
                }
            },
            None => {},
        }
        p += 1;
    }
    proof {
        lemma_no_index(t@, 0);
    }
    PathPart::Field(string_of(t))
}

impl PathPart {
    /// A copy of the part.
    pub fn duplicate(&self) -> (r: PathPart)
        ensures
            r@ == self@,
    {
        match self {
            PathPart::Field(f) => PathPart::Field(f.clone()),
            PathPart::Index(i) => PathPart::Index(*i),
            PathPart::Traverse => PathPart::Traverse,
        }
    }
}

impl JsonOptic {
    /// The optic of the document's root.
    pub fn empty() -> (r: JsonOptic)
        ensures
            r@ == Seq::<Part>::empty(),
    {
        let r = JsonOptic { json_path: Vec::new() };
        assert(r@ =~= Seq::<Part>::empty());
        r
    }

    /// Parses a human-form path: tokens between dots; `$` traverses, a token
    /// holding `[`digits`]` is that index, any other token a field name.
    pub fn from_path(path_str: &str) -> (r: JsonOptic)
        ensures
            r@ == parse_path(path_str@),
    {
        let cs = chars_of(path_str);
        let mut parts: Vec<PathPart> = Vec::new();
        let mut cur: Vec<char> = Vec::new();
        let ghost mut done: Seq<Seq<char>> = Seq::empty();
        let mut i: usize = 0;
        while i < cs.len()
            invariant
                i <= cs@.len(),
                cs@ == path_str@,
                split_dots(cs@.take(i as int)) == done.push(cur@),
                parts_view(parts@) == token_parts(done),
            decreases cs@.len() - i,
        {
            let c = cs[i];
            proof {
                assert(cs@.take(i + 1).drop_last() == cs@.take(i as int));
                assert(cs@.take(i + 1).last() == c);
            }
            if c == '.' {
                let p = token_to_part(&cur);
                proof {
                    lemma_parts_push(parts@, done, p, cur@);
                    done = done.push(cur@);
                }
                parts.push(p);
                cur = Vec::new();
                proof {
                    assert(split_dots(cs@.take(i + 1)) =~= done.push(cur@));
                }
            } else {
                proof {
                    assert(done.push(cur@).update(done.len() as int, cur@.push(c)) =~= done.push(cur@.push(c)));
                }
                cur.push(c);
            }
            i += 1;
        }
        let p = token_to_part(&cur);
        proof {
            assert(cs@.take(cs@.len() as int) == cs@);
            lemma_parts_push(parts@, done, p, cur@);
        }
        parts.push(p);
        JsonOptic { json_path: parts }
    }

    /// The optic extended by a field.
    pub fn field(self, rhs: String) -> (r: JsonOptic)
        ensures
            r@ == self@.push(Part::Field(rhs@)),
    {
        let ghost name = rhs@;
        let mut o = self;
        o.json_path.push(PathPart::Field(rhs));
        proof {
            assert(o@ =~= self@.push(Part::Field(name)));
        }
        o
    }

    /// The optic extended by an index.
    pub fn index(self, rhs: usize) -> (r: JsonOptic)
        ensures
            r@ == self@.push(Part::Index(rhs as nat)),
    {
        let mut o = self;
        o.json_path.push(PathPart::Index(rhs));
        proof {
            assert(o@ =~= self@.push(Part::Index(rhs as nat)));
        }
        o
    }

    /// The optic extended by a traversal of every array element.
    pub fn traverse(self) -> (r: JsonOptic)
        ensures
            r@ == self@.push(Part::Traverse),
    {
        let mut o = self;
        o.json_path.push(PathPart::Traverse);
        proof {
            assert(o@ =~= self@.push(Part::Traverse));
        }
        o
    }

    /// A copy of the optic.
    pub fn duplicate(&self) -> (r: JsonOptic)
        ensures
            r@ == self@,
    {
        let mut parts: Vec<PathPart> = Vec::new();
        let mut i: usize = 0;
        while i < self.json_path.len()
            invariant
                i <= self@.len(),
                parts_view(parts@) == self@.take(i as int),
            decreases self@.len() - i,
        {
            let p = self.json_path[i].duplicate();
            proof {
                let a = parts_view(parts@.push(p));
                assert(parts_view(parts@).len() == parts@.len());
                assert(parts@.len() == i);
                assert forall|j: int| 0 <= j < a.len() implies a[j] == self@.take(i + 1)[j] by {
                    if j < i {
                        assert(a[j] == parts_view(parts@)[j]);
                    }
                }
                assert(a =~= self@.take(i + 1));
            }
            parts.push(p);
            i += 1;
        }
        let r = JsonOptic { json_path: parts };
        proof {
            assert(self@.take(self@.len() as int) =~= self@);
        }
        r
    }

    /// The parts joined with dots, each written by `jp` in JSON-path form or
    /// else in human form.
    fn joined(&self, jp: bool) -> (r: Vec<char>)
        ensures
            jp ==> r@ == join_dots(self@.map_values(|p: Part| part_path_text(p))),
            !jp ==> r@ == join_dots(self@.map_values(|p: Part| part_text(p))),
    {
        let ghost texts = if jp {
            self@.map_values(|p: Part| part_path_text(p))
        } else {
            self@.map_values(|p: Part| part_text(p))
        };
        let mut out: Vec<char> = Vec::new();
        let mut i: usize = 0;
        while i < self.json_path.len()
            invariant
                i <= self@.len(),
                texts.len() == self@.len(),
                texts == if jp {
                    self@.map_values(|p: Part| part_path_text(p))
                } else {
                    self@.map_values(|p: Part| part_text(p))
                },
                out@ == join_dots(texts.take(i as int)),
            decreases self@.len() - i,
        {
            let ghost before = out@;
            if i > 0 {
                out.push('.');
            }
            match &self.json_path[i] {
                PathPart::Field(f) => push_str(f.as_str(), &mut out),
                PathPart::Index(n) => {
                    out.push('[');
                    push_decimal(*n as u64, &mut out);
                    out.push(']');
                },
                PathPart::Traverse => {
                    if jp {
                        out.push('[');
                        out.push('*');
                        out.push(']');
                    } else {
                        out.push('$');
                    }
                },
            }
            proof {
                let tk = texts.take(i + 1);
                assert(tk.drop_last() == texts.take(i as int));
                assert(tk.last() == texts[i as int]);
                if i > 0 {
                    assert(out@ =~= before + seq!['.'] + texts[i as int]);
                } else {
                    assert(out@ =~= texts[i as int]);
                }
            }
            i += 1;
        }
        proof {
            assert(texts.take(self@.len() as int) == texts);
        }
        out
    }

    /// The human form: the parts joined with dots (`outer.inner.[2].$`).
    pub fn to_string(&self) -> (r: String)
        ensures
            r@ == render(self@),
    {
        let cs = self.joined(false);
        string_of(&cs)
    }

    /// Renders the optic in JSON-path form (`$.outer.inner[2][*]`).
    pub fn to_json_path_string(&self) -> (r: String)
        ensures
            r@ == json_path_text(self@),
    {
        let joined = self.joined(true);
        let mut full: Vec<char> = Vec::new();
        full.push('$');
        full.push('.');
        let mut k: usize = 0;
        while k < joined.len()
            invariant
                k <= joined@.len(),
                full@ == seq!['$', '.'] + joined@.take(k as int),
            decreases joined@.len() - k,
        {
            full.push(joined[k]);
            k += 1;
            proof {
                assert(full@ =~= seq!['$', '.'] + joined@.take(k as int));
            }
        }
        proof {
            assert(joined@.take(joined@.len() as int) =~= joined@);
        }
        let mut out: Vec<char> = Vec::new();
        let mut i: usize = 0;
        while i < full.len()
            invariant
                i <= full@.len(),
                out@ == collapse_upto(full@, i as int),
            decreases full@.len() - i,
        {
            let c = full[i];
            let drop = c == '.' && i + 1 < full.len() && full[i + 1] == '[';
            if !drop {
                out.push(c);
            }
            proof {
                assert(kept_at(full@, i as int) == !drop);
            }
            i += 1;
        }
        string_of(&out)
    }
}

} // verus!
