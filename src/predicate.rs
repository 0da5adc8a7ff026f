use vstd::prelude::*;
use core::cmp::Ordering;
use std::str::FromStr;
use bigdecimal::ToPrimitive;
use crate::json::{Json, Jsn, json_of, items_of, lemma_items_of};
use crate::optic::{JsonOptic, Part, render};
use crate::access::{get_all, refs_view};
use crate::text::{chars_of, string_of, push_int, push_str, int_numeral};
use crate::error::Error;

verus! {

broadcast use vstd::std_specs::vec::group_vec_axioms, vstd::seq::group_seq_axioms;

/// A condition's keyword, written on the wire as `==`, `!=`, `>`, `>=`, `<`,
/// `<=`, `~=`, `size`, `exists`, `[_]`, `![_]` and `&[_]`.
#[derive(Clone, Copy, Debug, PartialEq, Eq, Hash, Structural)]
pub enum Keyword {
    Equals,
    NotEq,
    Greater,
    Gte,
    Less,
    Lte,
    Rx,
    Size,
    Exists,
    In,
    NotIn,
    AllIn,
}

pub open spec fn wire(k: Keyword) -> Seq<char> {
    match k {
        Keyword::Equals => seq!['=', '='],
        Keyword::NotEq => seq!['!', '='],
        Keyword::Greater => seq!['>'],
        Keyword::Gte => seq!['>', '='],
        Keyword::Less => seq!['<'],
        Keyword::Lte => seq!['<', '='],
        Keyword::Rx => seq!['~', '='],
        Keyword::Size => seq!['s', 'i', 'z', 'e'],
        Keyword::Exists => seq!['e', 'x', 'i', 's', 't', 's'],
        Keyword::In => seq!['[', '_', ']'],
        Keyword::NotIn => seq!['!', '[', '_', ']'],
        Keyword::AllIn => seq!['&', '[', '_', ']'],
    }
}

/// Whether the characters are exactly `w`.
pub(crate) fn chars_are(cs: &Vec<char>, w: &Vec<char>) -> (r: bool)
    ensures
        r == (cs@ == w@),
{
    if cs.len() != w.len() {
        return false;
    }
    let mut i: usize = 0;
    while i < cs.len()
        invariant
            i <= cs@.len(),
            cs@.len() == w@.len(),
            forall|j: int| 0 <= j < i ==> cs@[j] == w@[j],
        decreases cs@.len() - i,
    {
        if cs[i] != w[i] {
            return false;
        }
        i += 1;
    }
    assert(cs@ =~= w@);
    true
}

impl Keyword {
    /// The keyword that a wire spelling names.
    pub fn from_wire(s: &str) -> (r: Option<Keyword>)
        ensures
            match r {
                Some(k) => wire(k) == s@,
                None => forall|k: Keyword| wire(k) != s@,
            },
    {
        let cs = chars_of(s);
        let r = if chars_are(&cs, &Keyword::Equals.wire_chars()) {
            Some(Keyword::Equals)
        } else if chars_are(&cs, &Keyword::NotEq.wire_chars()) {
            Some(Keyword::NotEq)
        } else if chars_are(&cs, &Keyword::Greater.wire_chars()) {
            Some(Keyword::Greater)
        } else if chars_are(&cs, &Keyword::Gte.wire_chars()) {
            Some(Keyword::Gte)
        } else if chars_are(&cs, &Keyword::Less.wire_chars()) {
            Some(Keyword::Less)
        } else if chars_are(&cs, &Keyword::Lte.wire_chars()) {
            Some(Keyword::Lte)
        } else if chars_are(&cs, &Keyword::Rx.wire_chars()) {
            Some(Keyword::Rx)
        } else if chars_are(&cs, &Keyword::Size.wire_chars()) {
            Some(Keyword::Size)
        } else if chars_are(&cs, &Keyword::Exists.wire_chars()) {
            Some(Keyword::Exists)
        } else if chars_are(&cs, &Keyword::In.wire_chars()) {
            Some(Keyword::In)
        } else if chars_are(&cs, &Keyword::NotIn.wire_chars()) {
            Some(Keyword::NotIn)
        } else if chars_are(&cs, &Keyword::AllIn.wire_chars()) {
            Some(Keyword::AllIn)
        } else {
            None
        };
        proof {
            if r.is_none() {
                assert forall|k: Keyword| wire(k) != s@ by {
                    match k {
                        Keyword::Equals => {},
                        Keyword::NotEq => {},
                        Keyword::Greater => {},
                        Keyword::Gte => {},
                        Keyword::Less => {},
                        Keyword::Lte => {},
                        Keyword::Rx => {},
                        Keyword::Size => {},
                        Keyword::Exists => {},
                        Keyword::In => {},
                        Keyword::NotIn => {},
                        Keyword::AllIn => {},
                    }
                }
            }
        }
        r
    }

    fn wire_chars(&self) -> (r: Vec<char>)
        ensures
            r@ == wire(*self),
    {
        let cs: Vec<char> = match self {
            Keyword::Equals => vec!['=', '='],
            Keyword::NotEq => vec!['!', '='],
            Keyword::Greater => vec!['>'],
            Keyword::Gte => vec!['>', '='],
            Keyword::Less => vec!['<'],
            Keyword::Lte => vec!['<', '='],
            Keyword::Rx => vec!['~', '='],
            Keyword::Size => vec!['s', 'i', 'z', 'e'],
            Keyword::Exists => vec!['e', 'x', 'i', 's', 't', 's'],
            Keyword::In => vec!['[', '_', ']'],
            Keyword::NotIn => vec!['!', '[', '_', ']'],
            Keyword::AllIn => vec!['&', '[', '_', ']'],
        };
        assert(cs@ =~= wire(*self));
        cs
    }

    /// The wire spelling.
    pub fn to_wire(&self) -> (r: String)
        ensures
            r@ == wire(*self),
    {
        string_of(&self.wire_chars())
    }
}

// ------------------------------------------------------------ outside calls

/// How two decimal numerals order as exact decimal values; `None` where one
/// of them is no numeral.
pub uninterp spec fn numeral_order(a: Seq<char>, b: Seq<char>) -> Option<Ordering>;

/// The `usize` that a decimal numeral truncates to; none where it is no
/// numeral or does not fit.
pub uninterp spec fn numeral_usize(t: Seq<char>) -> Option<usize>;

/// Whether `pattern` compiles as a regular expression.
pub uninterp spec fn regex_valid(pattern: Seq<char>) -> bool;

/// Whether the regular expression `pattern` matches somewhere in `text`.
pub uninterp spec fn regex_finds(pattern: Seq<char>, text: Seq<char>) -> bool;

/// Relies on `bigdecimal::BigDecimal::from_str`, which reads a numeral into an
/// exact decimal, and on `BigDecimal`'s `Ord`, which orders two of them.
#[verifier::external_body]
fn compare_numerals(a: &str, b: &str) -> (r: Option<Ordering>)
    ensures
        r == numeral_order(a@, b@),
{
    let x = bigdecimal::BigDecimal::from_str(a).ok()?;
    let y = bigdecimal::BigDecimal::from_str(b).ok()?;
    Some(x.cmp(&y))
}

/// Relies on `bigdecimal::BigDecimal::from_str` and on its `ToPrimitive`,
/// which truncates toward zero and gives nothing for what does not fit.
#[verifier::external_body]
fn numeral_to_usize(t: &str) -> (r: Option<usize>)
    requires
        short_exponent(t@),
    ensures
        r == numeral_usize(t@),
{
    bigdecimal::BigDecimal::from_str(t).ok().and_then(|d| d.to_usize())
}

/// Relies on `regex::Regex::new`, which fails on what is no regular
/// expression, and on `Regex::is_match`, which finds a match anywhere in the
/// text.
#[verifier::external_body]
pub(crate) fn regex_search(pattern: &str, text: &str) -> (r: Option<bool>)
    ensures
        r.is_some() == regex_valid(pattern@),
        r.is_some() ==> r.unwrap() == regex_finds(pattern@, text@),
{
    regex::Regex::new(pattern).ok().map(|re| re.is_match(text))
}

// ------------------------------------------------------------------ meaning

/// The outcome of one condition on one value.
pub enum Check {
    Holds(bool),
    /// The argument suits the keyword but the value does not.
    DataError,
    /// The argument does not suit the keyword.
    ConditionError(Keyword, Json),
}

pub open spec fn is_number(v: Json) -> bool {
    v is Int || v is Float
}

/// The numeral of a number.
pub open spec fn numeral(v: Json) -> Seq<char> {
    match v {
        Json::Int(i) => int_numeral(i),
        Json::Float(t) => t,
        _ => Seq::empty(),
    }
}

/// How two numbers order: integers exactly, any other pair as decimals.
pub open spec fn number_order(a: Json, b: Json) -> Option<Ordering> {
    match (a, b) {
        (Json::Int(x), Json::Int(y)) => Some(
            if x < y {
                Ordering::Less
            } else if x == y {
                Ordering::Equal
            } else {
                Ordering::Greater
            },
        ),
        _ => numeral_order(numeral(a), numeral(b)),
    }
}

/// The length that a number asks `size` for. A number with no `usize` value
/// (negative, too large, or unreadable) asks for 0, and so does a numeral
/// whose exponent is longer than a sign and four digits.
pub open spec fn size_of_number(v: Json) -> nat {
    match v {
        Json::Int(i) => if 0 <= i <= usize::MAX {
            i as nat
        } else {
            0
        },
        Json::Float(t) => if short_exponent(t) {
            match numeral_usize(t) {
                Some(n) => n as nat,
                None => 0,
            }
        } else {
            0
        },
        _ => 0,
    }
}

/// Whether every exponent mark (`e` or `E`) of a numeral is followed by at
/// most five characters: a sign and four digits. Reading a numeral scales it
/// by ten to its exponent, so a longer exponent is not read.
pub open spec fn short_exponent(t: Seq<char>) -> bool {
    forall|i: int| 0 <= i < t.len() && (t[i] == 'e' || t[i] == 'E') ==> t.len() - i <= 6
}

/// The length of a string in UTF-8 bytes.
pub open spec fn utf8_len(s: Seq<char>) -> nat
    decreases s.len(),
{
    if s.len() == 0 {
        0
    } else {
        utf8_len(s.drop_last()) + char_width(s.last())
    }
}

pub open spec fn char_width(c: char) -> nat {
    if (c as u32) < 0x80 {
        1
    } else if (c as u32) < 0x800 {
        2
    } else if (c as u32) < 0x10000 {
        3
    } else {
        4
    }
}

pub open spec fn ordered(kw: Keyword, o: Option<Ordering>) -> bool {
    match kw {
        Keyword::Greater => o == Some(Ordering::Greater),
        Keyword::Gte => o == Some(Ordering::Greater) || o == Some(Ordering::Equal),
        Keyword::Less => o == Some(Ordering::Less),
        _ => o == Some(Ordering::Less) || o == Some(Ordering::Equal),
    }
}

/// Whether some value of `p` is among `vs`.
pub open spec fn overlaps(p: Seq<Json>, vs: Seq<Json>) -> bool {
    exists|i: int| 0 <= i < p.len() && vs.contains(#[trigger] p[i])
}

/// Whether every value of `p` is among `vs`.
pub open spec fn covers(vs: Seq<Json>, p: Seq<Json>) -> bool {
    forall|i: int| 0 <= i < p.len() ==> vs.contains(#[trigger] p[i])
}

/// What condition `kw` with argument `arg` says of `val`.
pub open spec fn check(kw: Keyword, arg: Json, val: Json) -> Check {
    match kw {
        Keyword::Equals => Check::Holds(arg == val),
        Keyword::NotEq => Check::Holds(arg != val),
        Keyword::Greater | Keyword::Gte | Keyword::Less | Keyword::Lte => if is_number(arg) {
            if is_number(val) {
                Check::Holds(ordered(kw, number_order(val, arg)))
            } else {
                Check::DataError
            }
        } else {
            Check::ConditionError(kw, arg)
        },
        Keyword::Rx => match arg {
            Json::Str(rx) => if !regex_valid(rx) {
                Check::ConditionError(kw, arg)
            } else {
                match val {
                    Json::Str(s) => Check::Holds(regex_finds(rx, s)),
                    _ => Check::DataError,
                }
            },
            _ => Check::ConditionError(kw, arg),
        },
        Keyword::Size => if is_number(arg) {
            match val {
                Json::Str(s) => Check::Holds(utf8_len(s) == size_of_number(arg)),
                Json::Array(a) => Check::Holds(a.len() == size_of_number(arg)),
                _ => Check::DataError,
            }
        } else {
            Check::ConditionError(kw, arg)
        },
        Keyword::Exists => match arg {
            Json::Bool(true) => Check::Holds(val != Json::Null),
            Json::Bool(false) => Check::Holds(val == Json::Null),
            _ => Check::ConditionError(kw, arg),
        },
        Keyword::In => match arg {
            Json::Array(p) => match val {
                Json::Array(vs) => Check::Holds(overlaps(p, vs)),
                _ => Check::Holds(p.contains(val)),
            },
            _ => Check::ConditionError(kw, arg),
        },
        Keyword::NotIn => match arg {
            Json::Array(p) => match val {
                Json::Array(vs) => Check::Holds(!overlaps(p, vs)),
                _ => Check::Holds(!p.contains(val)),
            },
            _ => Check::ConditionError(kw, arg),
        },
        Keyword::AllIn => match arg {
            Json::Array(p) => match val {
                Json::Array(vs) => Check::Holds(covers(vs, p)),
                _ => Check::DataError,
            },
            _ => Check::ConditionError(kw, arg),
        },
    }
}

/// Whether an argument suits a keyword.
pub open spec fn admissible(kw: Keyword, arg: Json) -> bool {
    match kw {
        Keyword::Equals | Keyword::NotEq => true,
        Keyword::Greater | Keyword::Gte | Keyword::Less | Keyword::Lte | Keyword::Size => is_number(arg),
        Keyword::Rx => arg is Str && regex_valid(arg->Str_0),
        Keyword::Exists => arg is Bool,
        Keyword::In | Keyword::NotIn | Keyword::AllIn => arg is Array,
    }
}

/// A predicate's value: for each optic, the conditions on what it addresses.
pub type Spec = Seq<(Seq<Part>, Seq<(Keyword, Json)>)>;

/// The value a predicate tests for an optic: the first one it addresses, or null.
pub open spec fn target(doc: Json, o: Seq<Part>) -> Json {
    let vs = get_all(doc, o);
    if vs.len() > 0 {
        vs[0]
    } else {
        Json::Null
    }
}

pub open spec fn optic_checks(doc: Json, o: Seq<Part>, conds: Seq<(Keyword, Json)>) -> Seq<Check>
    decreases conds.len(),
{
    if conds.len() == 0 {
        Seq::empty()
    } else {
        optic_checks(doc, o, conds.drop_last()).push(check(conds.last().0, conds.last().1, target(doc, o)))
    }
}

/// The outcomes of all conditions of a predicate, optic by optic.
pub open spec fn all_checks(doc: Json, p: Spec) -> Seq<Check>
    decreases p.len(),
{
    if p.len() == 0 {
        Seq::empty()
    } else {
        all_checks(doc, p.drop_last()) + optic_checks(doc, p.last().0, p.last().1)
    }
}

pub open spec fn condition_errors(cs: Seq<Check>) -> Seq<(Keyword, Json)>
    decreases cs.len(),
{
    if cs.len() == 0 {
        Seq::empty()
    } else {
        let before = condition_errors(cs.drop_last());
        match cs.last() {
            Check::ConditionError(k, a) => before.push((k, a)),
            _ => before,
        }
    }
}

/// The verdict over a list of outcomes: with no error, whether all hold;
/// with data errors only, false; else the faulty conditions.
pub open spec fn verdict(cs: Seq<Check>) -> Result<bool, Seq<(Keyword, Json)>> {
    if forall|i: int| 0 <= i < cs.len() ==> #[trigger] cs[i] is Holds {
        Ok(forall|i: int| 0 <= i < cs.len() ==> #[trigger] cs[i] == Check::Holds(true))
    } else if forall|i: int| 0 <= i < cs.len() ==> (#[trigger] cs[i] is Holds || cs[i] is DataError) {
        Ok(false)
    } else {
        Err(condition_errors(cs))
    }
}

/// What a predicate says of a document.
pub open spec fn evaluate(p: Spec, doc: Json) -> Result<bool, Seq<(Keyword, Json)>> {
    verdict(all_checks(doc, p))
}


// ------------------------------------------------------------------- lemmas

/// The outcome of condition `j` on optic `i`.
pub open spec fn cond_check(doc: Json, p: Spec, i: int, j: int) -> Check {
    check(p[i].1[j].0, p[i].1[j].1, target(doc, p[i].0))
}

/// Whether every condition of the predicate holds.
pub open spec fn every_condition_holds(doc: Json, p: Spec) -> bool {
    forall|i: int, j: int| 0 <= i < p.len() && 0 <= j < p[i].1.len() ==> #[trigger] cond_check(doc, p, i, j) == Check::Holds(true)
}

proof fn lemma_optic_checks(doc: Json, o: Seq<Part>, conds: Seq<(Keyword, Json)>)
    ensures
        optic_checks(doc, o, conds).len() == conds.len(),
        forall|k: int| 0 <= k < conds.len() ==> #[trigger] optic_checks(doc, o, conds)[k] == check(conds[k].0, conds[k].1, target(doc, o)),
    decreases conds.len(),
{
    if conds.len() > 0 {
        lemma_optic_checks(doc, o, conds.drop_last());
    }
}

proof fn lemma_all_checks_true(doc: Json, p: Spec)
    ensures
        (forall|m: int| 0 <= m < all_checks(doc, p).len() ==> #[trigger] all_checks(doc, p)[m] == Check::Holds(true))
            <==> every_condition_holds(doc, p),
    decreases p.len(),
{
    if p.len() > 0 {
        let q = p.drop_last();
        let last = p.len() - 1;
        lemma_all_checks_true(doc, q);
        lemma_optic_checks(doc, p[last].0, p[last].1);
        let a = all_checks(doc, q);
        let b = optic_checks(doc, p[last].0, p[last].1);
        assert(all_checks(doc, p) == a + b);
        assert forall|i: int, j: int| 0 <= i < q.len() && 0 <= j < q[i].1.len() implies #[trigger] cond_check(doc, q, i, j) == cond_check(doc, p, i, j) by {
            assert(q[i] == p[i]);
        }
        if forall|m: int| 0 <= m < (a + b).len() ==> #[trigger] (a + b)[m] == Check::Holds(true) {
            assert forall|m: int| 0 <= m < a.len() implies #[trigger] a[m] == Check::Holds(true) by {
                assert((a + b)[m] == a[m]);
            }
            assert forall|i: int, j: int| 0 <= i < p.len() && 0 <= j < p[i].1.len() implies #[trigger] cond_check(doc, p, i, j) == Check::Holds(true) by {
                if i < last {
                    assert(cond_check(doc, q, i, j) == cond_check(doc, p, i, j));
                } else {
                    assert((a + b)[a.len() + j] == b[j]);
                }
            }
        }
        if every_condition_holds(doc, p) {
            assert forall|i: int, j: int| 0 <= i < q.len() && 0 <= j < q[i].1.len() implies #[trigger] cond_check(doc, q, i, j) == Check::Holds(true) by {
                assert(cond_check(doc, q, i, j) == cond_check(doc, p, i, j));
            }
            assert forall|m: int| 0 <= m < (a + b).len() implies #[trigger] (a + b)[m] == Check::Holds(true) by {
                if m < a.len() {
                    assert((a + b)[m] == a[m]);
                } else {
                    assert((a + b)[m] == b[m - a.len()]);
                    assert(cond_check(doc, p, last, m - a.len()) == Check::Holds(true));
                }
            }
        }
    }
}

proof fn lemma_evaluate_true(doc: Json, p: Spec)
    ensures
        evaluate(p, doc) == Ok::<bool, Seq<(Keyword, Json)>>(true) <==> every_condition_holds(doc, p),
{
    lemma_all_checks_true(doc, p);
    let cs = all_checks(doc, p);
    if forall|m: int| 0 <= m < cs.len() ==> #[trigger] cs[m] == Check::Holds(true) {
        assert forall|m: int| 0 <= m < cs.len() implies #[trigger] cs[m] is Holds by {
            assert(cs[m] == Check::Holds(true));
        }
    }
}

/// Dropping one condition from an optic's conjunction keeps a predicate
/// that holds of a document holding.
pub proof fn lemma_drop_condition(p: Spec, doc: Json, i: int, j: int)
    requires
        0 <= i < p.len(),
        0 <= j < p[i].1.len(),
        evaluate(p, doc) == Ok::<bool, Seq<(Keyword, Json)>>(true),
    ensures
        evaluate(p.update(i, (p[i].0, p[i].1.remove(j))), doc) == Ok::<bool, Seq<(Keyword, Json)>>(true),
{
    let q = p.update(i, (p[i].0, p[i].1.remove(j)));
    lemma_evaluate_true(doc, p);
    lemma_evaluate_true(doc, q);
    assert forall|a: int, b: int| 0 <= a < q.len() && 0 <= b < q[a].1.len() implies #[trigger] cond_check(doc, q, a, b) == Check::Holds(true) by {
        if a != i {
            assert(cond_check(doc, q, a, b) == cond_check(doc, p, a, b));
        } else if b < j {
            assert(cond_check(doc, q, a, b) == cond_check(doc, p, a, b));
        } else {
            assert(cond_check(doc, q, a, b) == cond_check(doc, p, a, b + 1));
        }
    }
}

// --------------------------------------------------------------------- code

/// The outcome of one condition on one value.
pub enum Validation {
    Holds(bool),
    DataError,
    ConditionError(Keyword, Jsn),
}

impl View for Validation {
    type V = Check;

    open spec fn view(&self) -> Check {
        match self {
            Validation::Holds(b) => Check::Holds(*b),
            Validation::DataError => Check::DataError,
            Validation::ConditionError(k, a) => Check::ConditionError(*k, a@),
        }
    }
}

pub open spec fn checks_view(s: Seq<Validation>) -> Seq<Check> {
    s.map_values(|c: Validation| c@)
}

pub open spec fn conds_view(s: Seq<(Keyword, Jsn)>) -> Seq<(Keyword, Json)> {
    s.map_values(|c: (Keyword, Jsn)| (c.0, json_of(c.1)))
}

pub open spec fn spec_view(s: Seq<(JsonOptic, Vec<(Keyword, Jsn)>)>) -> Spec {
    s.map_values(|e: (JsonOptic, Vec<(Keyword, Jsn)>)| (e.0@, conds_view(e.1@)))
}

fn numeral_string(v: &Jsn) -> (r: String)
    ensures
        r@ == numeral(v@),
{
    match v {
        Jsn::Signed(i) => {
            let mut cs: Vec<char> = Vec::new();
            push_int(*i, &mut cs);
            assert(cs@ =~= int_numeral(*i as int));
            string_of(&cs)
        },
        Jsn::Float(t) => t.clone(),
        _ => String::new(),
    }
}

fn compare_numbers(a: &Jsn, b: &Jsn) -> (r: Option<Ordering>)
    ensures
        r == number_order(a@, b@),
{
    match (a, b) {
        (Jsn::Signed(x), Jsn::Signed(y)) => Some(
            if *x < *y {
                Ordering::Less
            } else if *x == *y {
                Ordering::Equal
            } else {
                Ordering::Greater
            },
        ),
        _ => {
            let ta = numeral_string(a);
            let tb = numeral_string(b);
            compare_numerals(ta.as_str(), tb.as_str())
        },
    }
}

fn size_number(v: &Jsn) -> (r: usize)
    ensures
        r == size_of_number(v@),
{
    match v {
        Jsn::Signed(i) => if *i >= 0 && (*i as u64) <= (usize::MAX as u64) {
            *i as usize
        } else {
            0
        },
        Jsn::Float(t) => if has_short_exponent(t.as_str()) {
            match numeral_to_usize(t.as_str()) {
                Some(n) => n,
                None => 0,
            }
        } else {
            0
        },
        _ => 0,
    }
}

fn has_short_exponent(t: &str) -> (r: bool)
    ensures
        r == short_exponent(t@),
{
    let cs = chars_of(t);
    let n = cs.len();
    let mut i: usize = 0;
    while i < n
        invariant
            i <= n,
            n == cs@.len(),
            cs@ == t@,
            forall|k: int| 0 <= k < i && (cs@[k] == 'e' || cs@[k] == 'E') ==> n - k <= 6,
        decreases n - i,
    {
        if (cs[i] == 'e' || cs[i] == 'E') && n - i > 6 {
            return false;
        }
        i += 1;
    }
    true
}

fn char_width_exec(c: char) -> (r: u128)
    ensures
        r == char_width(c),
{
    if (c as u32) < 0x80 {
        1
    } else if (c as u32) < 0x800 {
        2
    } else if (c as u32) < 0x10000 {
        3
    } else {
        4
    }
}

/// Whether a string is `n` UTF-8 bytes long.
fn byte_length_is(s: &String, n: usize) -> (r: bool)
    ensures
        r == (utf8_len(s@) == n),
{
    let cs = chars_of(s.as_str());
    let mut total: u128 = 0;
    let mut i: usize = 0;
    while i < cs.len()
        invariant
            i <= cs@.len(),
            cs@ == s@,
            total == utf8_len(cs@.take(i as int)),
            total <= 4 * i,
        decreases cs@.len() - i,
    {
        proof {
            assert(cs@.take(i + 1).drop_last() == cs@.take(i as int));
        }
        total = total + char_width_exec(cs[i]);
        i += 1;
    }
    proof {
        assert(cs@.take(cs@.len() as int) == cs@);
    }
    total == n as u128
}

/// Whether `x` is among the values of `p`.
fn contains_value(p: &Vec<Jsn>, x: &Jsn) -> (r: bool)
    ensures
        r == items_of(p@).contains(x@),
{
    proof {
        lemma_items_of(p@);
    }
    let mut i: usize = 0;
    while i < p.len()
        invariant
            i <= p@.len(),
            items_of(p@).len() == p@.len(),
            forall|m: int| 0 <= m < p@.len() ==> #[trigger] items_of(p@)[m] == json_of(p@[m]),
            forall|m: int| 0 <= m < i ==> items_of(p@)[m] != x@,
        decreases p@.len() - i,
    {
        if p[i].same(x) {
            assert(items_of(p@)[i as int] == x@);
            return true;
        }
        i += 1;
    }
    false
}

/// Whether some value of `p` is among the values of `vs`.
fn any_contained(p: &Vec<Jsn>, vs: &Vec<Jsn>) -> (r: bool)
    ensures
        r == overlaps(items_of(p@), items_of(vs@)),
{
    proof {
        lemma_items_of(p@);
    }
    let mut i: usize = 0;
    while i < p.len()
        invariant
            i <= p@.len(),
            items_of(p@).len() == p@.len(),
            forall|m: int| 0 <= m < p@.len() ==> #[trigger] items_of(p@)[m] == json_of(p@[m]),
            forall|m: int| 0 <= m < i ==> !items_of(vs@).contains(#[trigger] items_of(p@)[m]),
        decreases p@.len() - i,
    {
        if contains_value(vs, &p[i]) {
            assert(items_of(vs@).contains(items_of(p@)[i as int]));
            return true;
        }
        i += 1;
    }
    false
}

/// Whether every value of `p` is among the values of `vs`.
fn all_contained(p: &Vec<Jsn>, vs: &Vec<Jsn>) -> (r: bool)
    ensures
        r == covers(items_of(vs@), items_of(p@)),
{
    proof {
        lemma_items_of(p@);
    }
    let mut i: usize = 0;
    while i < p.len()
        invariant
            i <= p@.len(),
            items_of(p@).len() == p@.len(),
            forall|m: int| 0 <= m < p@.len() ==> #[trigger] items_of(p@)[m] == json_of(p@[m]),
            forall|m: int| 0 <= m < i ==> items_of(vs@).contains(#[trigger] items_of(p@)[m]),
        decreases p@.len() - i,
    {
        if !contains_value(vs, &p[i]) {
            assert(!items_of(vs@).contains(items_of(p@)[i as int]));
            return false;
        }
        i += 1;
    }
    true
}

fn is_number_exec(v: &Jsn) -> (r: bool)
    ensures
        r == is_number(v@),
{
    match v {
        Jsn::Signed(_) | Jsn::Float(_) => true,
        _ => false,
    }
}

fn validate_order(kwd: Keyword, etalon: &Jsn, value: &Jsn) -> (r: Validation)
    requires
        kwd == Keyword::Greater || kwd == Keyword::Gte || kwd == Keyword::Less || kwd == Keyword::Lte,
    ensures
        r@ == check(kwd, etalon@, value@),
{
    if !is_number_exec(etalon) {
        Validation::ConditionError(kwd, etalon.duplicate())
    } else if !is_number_exec(value) {
        Validation::DataError
    } else {
        let o = compare_numbers(value, etalon);
        let holds = match o {
            Some(Ordering::Greater) => kwd == Keyword::Greater || kwd == Keyword::Gte,
            Some(Ordering::Equal) => kwd == Keyword::Gte || kwd == Keyword::Lte,
            Some(Ordering::Less) => kwd == Keyword::Less || kwd == Keyword::Lte,
            None => false,
        };
        Validation::Holds(holds)
    }
}

fn validate_rx(etalon: &Jsn, value: &Jsn) -> (r: Validation)
    ensures
        r@ == check(Keyword::Rx, etalon@, value@),
{
    match etalon {
        Jsn::String(rx) => {
            let text = match value {
                Jsn::String(s) => s.as_str(),
                _ => "",
            };
            match regex_search(rx.as_str(), text) {
                None => Validation::ConditionError(Keyword::Rx, etalon.duplicate()),
                Some(found) => match value {
                    Jsn::String(_) => Validation::Holds(found),
                    _ => Validation::DataError,
                },
            }
        },
        _ => Validation::ConditionError(Keyword::Rx, etalon.duplicate()),
    }
}

fn validate_size(etalon: &Jsn, value: &Jsn) -> (r: Validation)
    ensures
        r@ == check(Keyword::Size, etalon@, value@),
{
    if !is_number_exec(etalon) {
        Validation::ConditionError(Keyword::Size, etalon.duplicate())
    } else {
        let n = size_number(etalon);
        match value {
            Jsn::String(s) => Validation::Holds(byte_length_is(s, n)),
            Jsn::Array(a) => {
                proof {
                    lemma_items_of(a@);
                }
                Validation::Holds(a.len() == n)
            },
            _ => Validation::DataError,
        }
    }
}

fn validate_exists(etalon: &Jsn, value: &Jsn) -> (r: Validation)
    ensures
        r@ == check(Keyword::Exists, etalon@, value@),
{
    match etalon {
        Jsn::Bool(b) => {
            let is_null = value.same(&Jsn::Null);
            if *b {
                Validation::Holds(!is_null)
            } else {
                Validation::Holds(is_null)
            }
        },
        _ => Validation::ConditionError(Keyword::Exists, etalon.duplicate()),
    }
}

fn validate_membership(kwd: Keyword, etalon: &Jsn, value: &Jsn) -> (r: Validation)
    requires
        kwd == Keyword::In || kwd == Keyword::NotIn || kwd == Keyword::AllIn,
    ensures
        r@ == check(kwd, etalon@, value@),
{
    match etalon {
        Jsn::Array(p) => match value {
            Jsn::Array(vs) => {
                let ghost ps = items_of(p@);
                let ghost vv = items_of(vs@);
                assert(etalon@ == Json::Array(ps));
                assert(value@ == Json::Array(vv));
                match kwd {
                    Keyword::In => {
                        let any = any_contained(p, vs);
                        assert(check(kwd, etalon@, value@) == Check::Holds(any));
                        Validation::Holds(any)
                    },
                    Keyword::NotIn => {
                        let any = any_contained(p, vs);
                        assert(check(kwd, etalon@, value@) == Check::Holds(!any));
                        Validation::Holds(!any)
                    },
                    _ => {
                        let all = all_contained(p, vs);
                        assert(check(kwd, etalon@, value@) == Check::Holds(all));
                        Validation::Holds(all)
                    },
                }
            },
            _ => {
                assert(!(value@ is Array));
                assert(etalon@ == Json::Array(items_of(p@)));
                match kwd {
                Keyword::In => Validation::Holds(contains_value(p, value)),
                Keyword::NotIn => Validation::Holds(!contains_value(p, value)),
                _ => Validation::DataError,
                }
            },
        },
        _ => Validation::ConditionError(kwd, etalon.duplicate()),
    }
}

/// What one condition says of one value.
pub fn validate_one(kwd: Keyword, etalon: &Jsn, value: &Jsn) -> (r: Validation)
    ensures
        r@ == check(kwd, etalon@, value@),
{
    match kwd {
        Keyword::Equals => Validation::Holds(etalon.same(value)),
        Keyword::NotEq => Validation::Holds(!etalon.same(value)),
        Keyword::Greater | Keyword::Gte | Keyword::Less | Keyword::Lte => validate_order(kwd, etalon, value),
        Keyword::Rx => validate_rx(etalon, value),
        Keyword::Size => validate_size(etalon, value),
        Keyword::Exists => validate_exists(etalon, value),
        Keyword::In | Keyword::NotIn | Keyword::AllIn => validate_membership(kwd, etalon, value),
    }
}

/// Whether an argument suits a keyword.
pub fn validate_condition(kwd: Keyword, etalon: &Jsn) -> (r: bool)
    ensures
        r == admissible(kwd, etalon@),
{
    match kwd {
        Keyword::Equals | Keyword::NotEq => true,
        Keyword::Greater | Keyword::Gte | Keyword::Less | Keyword::Lte | Keyword::Size => is_number_exec(etalon),
        Keyword::Rx => match etalon {
            Jsn::String(rx) => regex_search(rx.as_str(), "").is_some(),
            _ => false,
        },
        Keyword::Exists => match etalon {
            Jsn::Bool(_) => true,
            _ => false,
        },
        Keyword::In | Keyword::NotIn | Keyword::AllIn => match etalon {
            Jsn::Array(_) => true,
            _ => false,
        },
    }
}


// ---------------------------------------------------------------- predicates

/// A predicate over JSON documents: for each optic, a conjunction of
/// conditions on the first value it addresses.
pub struct JsonPredicate {
    pub definition: Vec<(JsonOptic, Vec<(Keyword, Jsn)>)>,
}

impl View for JsonPredicate {
    type V = Spec;

    open spec fn view(&self) -> Spec {
        spec_view(self.definition@)
    }
}

/// The conditions whose arguments do not suit their keywords.
pub struct PredicateConstructionError {
    pub problems: Vec<(Keyword, Jsn)>,
}

impl View for PredicateConstructionError {
    type V = Seq<(Keyword, Json)>;

    open spec fn view(&self) -> Seq<(Keyword, Json)> {
        conds_view(self.problems@)
    }
}

/// The optic, once for each condition on it whose argument does not suit its keyword.
pub open spec fn faulty_in(o: Seq<Part>, conds: Seq<(Keyword, Json)>) -> Seq<Seq<char>>
    decreases conds.len(),
{
    if conds.len() == 0 {
        Seq::empty()
    } else if admissible(conds.last().0, conds.last().1) {
        faulty_in(o, conds.drop_last())
    } else {
        faulty_in(o, conds.drop_last()).push(render(o))
    }
}

/// The optics of a predicate, once for each faulty condition, in order.
pub open spec fn faulty_fields(p: Spec) -> Seq<Seq<char>>
    decreases p.len(),
{
    if p.len() == 0 {
        Seq::empty()
    } else {
        faulty_fields(p.drop_last()) + faulty_in(p.last().0, p.last().1)
    }
}

/// Texts joined with `, ` between them.
pub open spec fn join_commas(ts: Seq<Seq<char>>) -> Seq<char>
    decreases ts.len(),
{
    if ts.len() == 0 {
        Seq::empty()
    } else if ts.len() == 1 {
        ts[0]
    } else {
        join_commas(ts.drop_last()) + seq![',', ' '] + ts.last()
    }
}

pub open spec fn faulty_message(p: Spec) -> Seq<char> {
    "Conditions are faulty on fields: "@ + join_commas(faulty_fields(p))
}

impl JsonPredicate {
    /// A predicate of these conditions, taken as they are.
    pub fn from_spec(spec: Vec<(JsonOptic, Vec<(Keyword, Jsn)>)>) -> (r: JsonPredicate)
        ensures
            r@ == spec_view(spec@),
    {
        JsonPredicate { definition: spec }
    }

    /// A predicate of these conditions, refused where an argument does not
    /// suit its keyword; the error names the optic of each such condition.
    pub fn from_conditions(spec: Vec<(JsonOptic, Vec<(Keyword, Jsn)>)>) -> (r: Result<JsonPredicate, Error>)
        ensures
            r is Ok <==> faulty_fields(spec_view(spec@)).len() == 0,
            match r {
                Ok(p) => p@ == spec_view(spec@),
                Err(e) => e.cause@ == faulty_message(spec_view(spec@)),
            },
    {
        let ghost sv = spec_view(spec@);
        let mut faulty: Vec<String> = Vec::new();
        let mut i: usize = 0;
        while i < spec.len()
            invariant
                i <= spec@.len(),
                sv == spec_view(spec@),
                faulty@.map_values(|t: String| t@) == faulty_fields(sv.take(i as int)),
            decreases spec@.len() - i,
        {
            let optic = &spec[i].0;
            let conds = &spec[i].1;
            let ghost before = faulty@.map_values(|t: String| t@);
            let mut j: usize = 0;
            while j < conds.len()
                invariant
                    j <= conds@.len(),
                    i < spec@.len(),
                    sv == spec_view(spec@),
                    *conds == spec@[i as int].1,
                    *optic == spec@[i as int].0,
                    before == faulty_fields(sv.take(i as int)),
                    faulty@.map_values(|t: String| t@) == before + faulty_in(optic@, conds_view(conds@).take(j as int)),
                decreases conds@.len() - j,
            {
                let ghost cv = conds_view(conds@);
                proof {
                    assert(cv.take(j + 1).drop_last() =~= cv.take(j as int));
                    assert(cv.take(j + 1).last() == cv[j as int]);
                }
                if !validate_condition(conds[j].0, &conds[j].1) {
                    let t = optic.to_string();
                    let ghost pre = faulty@;
                    faulty.push(t);
                    proof {
                        assert(faulty@.map_values(|t: String| t@) =~= pre.map_values(|t: String| t@).push(t@));
                    }
                }
                j += 1;
            }
            proof {
                assert(conds_view(conds@).take(conds@.len() as int) =~= conds_view(conds@));
                assert(sv.take(i + 1).drop_last() =~= sv.take(i as int));
                assert(sv.take(i + 1).last() == sv[i as int]);
            }
            i += 1;
        }
        proof {
            assert(sv.take(spec@.len() as int) =~= sv);
        }
        if faulty.len() == 0 {
            Ok(JsonPredicate { definition: spec })
        } else {
            let mut msg: Vec<char> = Vec::new();
            push_str("Conditions are faulty on fields: ", &mut msg);
            let ghost head = msg@;
            let ghost names = faulty@.map_values(|t: String| t@);
            let mut k: usize = 0;
            while k < faulty.len()
                invariant
                    k <= faulty@.len(),
                    names == faulty@.map_values(|t: String| t@),
                    msg@ == head + join_commas(names.take(k as int)),
                decreases faulty@.len() - k,
            {
                let ghost pre = msg@;
                if k > 0 {
                    push_str(", ", &mut msg);
                }
                push_str(faulty[k].as_str(), &mut msg);
                proof {
                    reveal_strlit(", ");
                    assert(names.take(k + 1).drop_last() =~= names.take(k as int));
                    assert(names.take(k + 1).last() == names[k as int]);
                    if k > 0 {
                        assert(msg@ =~= head + (join_commas(names.take(k as int)) + seq![',', ' '] + names[k as int]));
                    } else {
                        assert(msg@ =~= head + names[k as int]);
                    }
                }
                k += 1;
            }
            proof {
                assert(names.take(faulty@.len() as int) =~= names);
            }
            Err(Error::new(string_of(&msg)))
        }
    }

    /// What the predicate says of a document: with no error, whether every
    /// condition holds; with only data errors, false; else the faulty
    /// conditions.
    pub fn validate(&self, json: &Jsn) -> (r: Result<bool, PredicateConstructionError>)
        ensures
            match r {
                Ok(b) => evaluate(self@, json@) == Ok::<bool, Seq<(Keyword, Json)>>(b),
                Err(e) => evaluate(self@, json@) == Err::<bool, Seq<(Keyword, Json)>>(e@),
            },
    {
        validate_definition(&self.definition, json)
    }
}

/// What a list of conditions per optic says of a document, as
/// `JsonPredicate::validate` does.
pub fn validate_definition(definition: &Vec<(JsonOptic, Vec<(Keyword, Jsn)>)>, json: &Jsn) -> (r: Result<bool, PredicateConstructionError>)
    ensures
        match r {
            Ok(b) => evaluate(spec_view(definition@), json@) == Ok::<bool, Seq<(Keyword, Json)>>(b),
            Err(e) => evaluate(spec_view(definition@), json@) == Err::<bool, Seq<(Keyword, Json)>>(e@),
        },
{
    let ghost sv = spec_view(definition@);
    let ghost doc = json@;
    let null = Jsn::Null;
    let mut checks: Vec<Validation> = Vec::new();
    let mut i: usize = 0;
    while i < definition.len()
        invariant
            i <= definition@.len(),
            sv == spec_view(definition@),
            doc == json@,
            null == Jsn::Null,
            checks_view(checks@) == all_checks(doc, sv.take(i as int)),
        decreases definition@.len() - i,
    {
        let optic = &definition[i].0;
        let conds = &definition[i].1;
        let all = json.get_all(optic);
        let data: &Jsn = if all.len() > 0 {
            all[0]
        } else {
            &null
        };
        proof {
            if all@.len() > 0 {
                assert(refs_view(all@)[0] == json_of(*all@[0]));
            }
            assert(json_of(*data) == target(doc, optic@));
        }
        let ghost before = checks_view(checks@);
        let mut j: usize = 0;
        while j < conds.len()
            invariant
                j <= conds@.len(),
                i < definition@.len(),
                sv == spec_view(definition@),
                *conds == definition@[i as int].1,
                *optic == definition@[i as int].0,
                json_of(*data) == target(doc, optic@),
                before == all_checks(doc, sv.take(i as int)),
                checks_view(checks@) == before + optic_checks(doc, optic@, conds_view(conds@).take(j as int)),
            decreases conds@.len() - j,
        {
            let ghost cv = conds_view(conds@);
            proof {
                assert(cv.take(j + 1).drop_last() =~= cv.take(j as int));
                assert(cv.take(j + 1).last() == cv[j as int]);
            }
            let c = validate_one(conds[j].0, &conds[j].1, data);
            let ghost pre = checks@;
            checks.push(c);
            proof {
                assert(checks_view(checks@) =~= checks_view(pre).push(c@));
            }
            j += 1;
        }
        proof {
            assert(conds_view(conds@).take(conds@.len() as int) =~= conds_view(conds@));
            assert(sv.take(i + 1).drop_last() =~= sv.take(i as int));
            assert(sv.take(i + 1).last() == sv[i as int]);
        }
        i += 1;
    }
    proof {
        assert(sv.take(definition@.len() as int) =~= sv);
    }
    let ghost cs = checks_view(checks@);
    let mut all_holds = true;
    let mut all_true = true;
    let mut only_data = true;
    let mut problems: Vec<(Keyword, Jsn)> = Vec::new();
    let mut k: usize = 0;
    while k < checks.len()
        invariant
            k <= checks@.len(),
            cs == checks_view(checks@),
            all_holds == forall|m: int| 0 <= m < k ==> #[trigger] cs[m] is Holds,
            all_true == forall|m: int| 0 <= m < k ==> #[trigger] cs[m] == Check::Holds(true),
            only_data == forall|m: int| 0 <= m < k ==> (#[trigger] cs[m] is Holds || cs[m] is DataError),
            conds_view(problems@) == condition_errors(cs.take(k as int)),
        decreases checks@.len() - k,
    {
        proof {
            assert(cs.take(k + 1).drop_last() =~= cs.take(k as int));
            assert(cs.take(k + 1).last() == cs[k as int]);
        }
        match &checks[k] {
            Validation::Holds(b) => {
                if !*b {
                    all_true = false;
                }
            },
            Validation::DataError => {
                all_holds = false;
                all_true = false;
            },
            Validation::ConditionError(kw, arg) => {
                all_holds = false;
                all_true = false;
                only_data = false;
                let ghost pre = problems@;
                problems.push((*kw, arg.duplicate()));
                proof {
                    assert(conds_view(problems@) =~= conds_view(pre).push((*kw, arg@)));
                }
            },
        }
        k += 1;
    }
    proof {
        assert(cs.take(checks@.len() as int) =~= cs);
    }
    if all_holds {
        Ok(all_true)
    } else if only_data {
        Ok(false)
    } else {
        Err(PredicateConstructionError { problems })
    }
}

} // verus!
