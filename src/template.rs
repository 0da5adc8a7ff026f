use vstd::prelude::*;
use crate::json::{Json, Jsn, json_of, items_of, entries_of, find_key};
use crate::optic::{JsonOptic, Part, parse_path, render};
use crate::access::{jsn_get_all, derefs, set_at};
use crate::text::{chars_of, string_of, push_str, push_int, int_numeral, is_digit, digits_value, digit_value};
use crate::predicate::{chars_are, JsonPredicate, Keyword, wire, regex_search, regex_valid, regex_finds};

verus! {

broadcast use vstd::std_specs::vec::group_vec_axioms, vstd::seq::group_seq_axioms;

// ------------------------------------------------------------ outside calls

/// A lowercase hexadecimal digit.
pub open spec fn hex_digit(d: nat) -> char {
    if d < 10 {
        crate::text::digit_char(d)
    } else if d == 10 {
        'a'
    } else if d == 11 {
        'b'
    } else if d == 12 {
        'c'
    } else if d == 13 {
        'd'
    } else if d == 14 {
        'e'
    } else {
        'f'
    }
}

/// The lowercase hexadecimal numeral of `n`, without leading zeros.
pub open spec fn hex_text(n: nat) -> Seq<char>
    decreases n,
{
    if n < 16 {
        seq![hex_digit(n)]
    } else {
        hex_text(n / 16).push(hex_digit(n % 16))
    }
}

/// How JSON writes one character inside a string literal: `"` and `\`
/// escaped, backspace, form feed, line feed, carriage return and tab by
/// their letters, other controls below 0x20 as `\u00XX`, the rest as is.
pub open spec fn json_char_escape(c: char) -> Seq<char> {
    let u = c as u32;
    if c == '"' {
        seq!['\\', '"']
    } else if c == '\\' {
        seq!['\\', '\\']
    } else if u == 8 {
        seq!['\\', 'b']
    } else if u == 12 {
        seq!['\\', 'f']
    } else if u == 10 {
        seq!['\\', 'n']
    } else if u == 13 {
        seq!['\\', 'r']
    } else if u == 9 {
        seq!['\\', 't']
    } else if u < 0x20 {
        seq!['\\', 'u', '0', '0', hex_digit((u / 16) as nat), hex_digit((u % 16) as nat)]
    } else {
        seq![c]
    }
}

pub open spec fn json_escaped(s: Seq<char>) -> Seq<char>
    decreases s.len(),
{
    if s.len() == 0 {
        Seq::empty()
    } else {
        json_escaped(s.drop_last()) + json_char_escape(s.last())
    }
}

/// The JSON string literal of a text: quoted, with JSON's escapes.
pub open spec fn json_quoted(s: Seq<char>) -> Seq<char> {
    seq!['"'] + json_escaped(s) + seq!['"']
}

/// How Rust's `escape_default` writes one character: tab, carriage return
/// and line feed by their letters, `\`, `'` and `"` escaped, printable ASCII
/// as is, anything else as `\u{hex}`.
pub open spec fn rust_char_escape(c: char) -> Seq<char> {
    let u = c as u32;
    if u == 9 {
        seq!['\\', 't']
    } else if u == 13 {
        seq!['\\', 'r']
    } else if u == 10 {
        seq!['\\', 'n']
    } else if c == '\\' || c == '\'' || c == '"' {
        seq!['\\', c]
    } else if 0x20 <= u && u <= 0x7e {
        seq![c]
    } else {
        seq!['\\', 'u', '{'] + hex_text(u as nat) + seq!['}']
    }
}

/// A text with Rust's default escapes.
pub open spec fn escaped(s: Seq<char>) -> Seq<char>
    decreases s.len(),
{
    if s.len() == 0 {
        Seq::empty()
    } else {
        escaped(s.drop_last()) + rust_char_escape(s.last())
    }
}

/// The rendering of the JSON number that a text reads as, if it reads as one.
pub uninterp spec fn number_rendering(s: Seq<char>) -> Option<Seq<char>>;

/// Relies on `str::escape_default`, which escapes each character as
/// `char::escape_default` does, collected into a `String`.
#[verifier::external_body]
fn escape_default(s: &str) -> (r: String)
    ensures
        r@ == escaped(s@),
{
    s.escape_default().to_string()
}

/// Relies on `serde_json::to_string` of a string, which writes its JSON
/// literal by serde_json's escape table (`ser.rs`, `ESCAPE` and
/// `write_char_escape`); serializing a string cannot fail.
#[verifier::external_body]
fn quote_json(s: &str) -> (r: String)
    ensures
        r@ == json_quoted(s@),
{
    serde_json::to_string(s).unwrap_or_default()
}

/// Relies on `serde_json::from_str::<serde_json::Number>`, which reads a JSON
/// number, and on `Number`'s `Display`, which renders it.
#[verifier::external_body]
fn read_number(s: &str) -> (r: Option<String>)
    ensures
        match r {
            Some(t) => number_rendering(s@) == Some(t@),
            None => number_rendering(s@) is None,
        },
{
    serde_json::from_str::<serde_json::Number>(s).ok().map(|n| n.to_string())
}

// ------------------------------------------------------------- expressions

/// An expression found in a text: `$`, an optional modifier `:` or `~`, and
/// a path in braces, from `start` up to `end`.
pub struct Found {
    pub start: int,
    pub end: int,
    pub modifier: Option<char>,
    pub path: Seq<char>,
}

/// Whether a character is a Unicode letter or decimal digit, as the regular
/// expression class `[\p{L}\d]` reads it.
pub open spec fn letter_or_digit(c: char) -> bool {
    regex_valid("^[\\p{L}\\d]$"@) && regex_finds("^[\\p{L}\\d]$"@, seq![c])
}

/// The characters of a path inside an expression: letters, digits, `.`, `[`,
/// `]`, `-` and `_`.
pub open spec fn is_path_char(c: char) -> bool {
    letter_or_digit(c) || c == '.' || c == '[' || c == ']' || c == '-' || c == '_'
}

fn letter_or_digit_exec(c: char) -> (r: bool)
    ensures
        r == letter_or_digit(c),
{
    let cs = vec![c];
    assert(cs@ =~= seq![c]);
    let t = string_of(&cs);
    match regex_search("^[\\p{L}\\d]$", t.as_str()) {
        Some(found) => found,
        None => false,
    }
}

/// The first position at or after `j` that holds no path character.
pub open spec fn path_end(s: Seq<char>, j: int) -> int
    decreases s.len() - j,
{
    if 0 <= j < s.len() && is_path_char(s[j]) {
        path_end(s, j + 1)
    } else {
        j
    }
}

pub open spec fn brace_at(s: Seq<char>, p: int) -> int {
    if p + 1 < s.len() && (s[p + 1] == ':' || s[p + 1] == '~') {
        p + 2
    } else {
        p + 1
    }
}

/// The expression that starts at `p`, if one does.
pub open spec fn found_at(s: Seq<char>, p: int) -> Option<Found> {
    let b = brace_at(s, p);
    let q = path_end(s, b + 1);
    if 0 <= p < s.len() && s[p] == '$' && b < s.len() && s[b] == '{' && q > b + 1 && q < s.len() && s[q] == '}' {
        Some(
            Found {
                start: p,
                end: q + 1,
                modifier: if b == p + 2 {
                    Some(s[p + 1])
                } else {
                    None
                },
                path: s.subrange(b + 1, q),
            },
        )
    } else {
        None
    }
}

/// The expressions of `s` from `p` on, leftmost first, none overlapping.
pub open spec fn finds_from(s: Seq<char>, p: int) -> Seq<Found>
    decreases s.len() - p,
{
    if p < 0 || p >= s.len() {
        Seq::empty()
    } else {
        match found_at(s, p) {
            Some(f) => if f.end > p {
                seq![f] + finds_from(s, f.end)
            } else {
                Seq::empty()
            },
            None => finds_from(s, p + 1),
        }
    }
}

pub open spec fn finds(s: Seq<char>) -> Seq<Found> {
    finds_from(s, 0)
}

// --------------------------------------------------------------- rendering

/// Texts joined with `sep` between them.
pub open spec fn join_sep(ts: Seq<Seq<char>>, sep: Seq<char>) -> Seq<char>
    decreases ts.len(),
{
    if ts.len() == 0 {
        Seq::empty()
    } else if ts.len() == 1 {
        ts[0]
    } else {
        join_sep(ts.drop_last(), sep) + sep + ts.last()
    }
}

pub open spec fn bool_text(b: bool) -> Seq<char> {
    if b {
        seq!['t', 'r', 'u', 'e']
    } else {
        seq!['f', 'a', 'l', 's', 'e']
    }
}

/// Whether entry `i` is the first of its key.
pub open spec fn visible(es: Seq<(String, Jsn)>, i: int) -> bool {
    forall|j: int| 0 <= j < i ==> (#[trigger] es[j]).0@ != es[i].0@
}

/// The JSON encoding of a document, without spaces; an object lists the
/// first entry of each key, in order.
pub open spec fn json_text(j: Jsn) -> Seq<char>
    decreases j, 0int,
{
    match j {
        Jsn::Null => seq!['n', 'u', 'l', 'l'],
        Jsn::Bool(b) => bool_text(b),
        Jsn::Signed(i) => int_numeral(i as int),
        Jsn::Float(t) => t@,
        Jsn::String(s) => json_quoted(s@),
        Jsn::Array(v) => seq!['['] + join_sep(json_item_texts(v@), seq![',']) + seq![']'],
        Jsn::Object(es) => seq!['{'] + join_sep(json_entry_texts(es@, es@.len() as int), seq![',']) + seq!['}'],
    }
}

pub open spec fn json_item_texts(s: Seq<Jsn>) -> Seq<Seq<char>>
    decreases s, 0int,
{
    if s.len() == 0 {
        Seq::empty()
    } else {
        json_item_texts(s.drop_last()).push(json_text(s.last()))
    }
}

pub open spec fn json_entry_texts(es: Seq<(String, Jsn)>, n: int) -> Seq<Seq<char>>
    decreases es, n,
{
    if n <= 0 || n > es.len() {
        Seq::empty()
    } else if visible(es, n - 1) {
        json_entry_texts(es, n - 1).push(json_quoted(es[n - 1].0@) + seq![':'] + json_text(es[n - 1].1))
    } else {
        json_entry_texts(es, n - 1)
    }
}

/// How a value is written into a composite template: scalars as they read,
/// strings bare, arrays as their elements joined with `, `, objects as JSON.
pub open spec fn subst_text(j: Jsn) -> Seq<char>
    decreases j, 0int,
{
    match j {
        Jsn::Null => seq!['n', 'u', 'l', 'l'],
        Jsn::Bool(b) => bool_text(b),
        Jsn::Signed(i) => int_numeral(i as int),
        Jsn::Float(t) => t@,
        Jsn::String(s) => s@,
        Jsn::Array(v) => join_sep(subst_item_texts(v@), seq![',', ' ']),
        Jsn::Object(_) => json_text(j),
    }
}

pub open spec fn subst_item_texts(s: Seq<Jsn>) -> Seq<Seq<char>>
    decreases s, 0int,
{
    if s.len() == 0 {
        Seq::empty()
    } else {
        subst_item_texts(s.drop_last()).push(subst_text(s.last()))
    }
}

// ------------------------------------------------------------------- casts

pub open spec fn negative_numeral(t: Seq<char>) -> bool {
    t.len() > 0 && t[0] == '-'
}

pub open spec fn numeral_digits(t: Seq<char>) -> Seq<char> {
    if negative_numeral(t) {
        t.drop_first()
    } else {
        t
    }
}

pub open spec fn all_digits(ds: Seq<char>) -> bool {
    ds.len() > 0 && forall|i: int| 0 <= i < ds.len() ==> is_digit(#[trigger] ds[i])
}

/// The value of an integer numeral that fits in `i64`.
pub open spec fn int_value(t: Seq<char>) -> Option<int> {
    let ds = numeral_digits(t);
    if all_digits(ds) {
        let v: int = if negative_numeral(t) {
            -digits_value(ds)
        } else {
            digits_value(ds) as int
        };
        if i64::MIN <= v <= i64::MAX {
            Some(v)
        } else {
            None
        }
    } else {
        None
    }
}

/// The number a rendered numeral stands for.
pub open spec fn number_of(t: Seq<char>) -> Json {
    match int_value(t) {
        Some(v) => Json::Int(v),
        None => Json::Float(t),
    }
}

/// `:` casts to a string: booleans and numbers to their text.
pub open spec fn cast_to_string(v: Json) -> Json {
    match v {
        Json::Bool(b) => Json::Str(bool_text(b)),
        Json::Int(i) => Json::Str(int_numeral(i)),
        Json::Float(t) => Json::Str(t),
        _ => v,
    }
}

/// `~` casts from a string: `true`, `false` and numbers to their values.
pub open spec fn cast_from_string(v: Json) -> Json {
    match v {
        Json::Str(s) => if s == bool_text(true) {
            Json::Bool(true)
        } else if s == bool_text(false) {
            Json::Bool(false)
        } else {
            match number_rendering(s) {
                Some(t) => number_of(t),
                None => v,
            }
        },
        _ => v,
    }
}

pub open spec fn cast(modifier: Option<char>, v: Json) -> Json {
    if modifier == Some(':') {
        cast_to_string(v)
    } else if modifier == Some('~') {
        cast_from_string(v)
    } else {
        v
    }
}

// ---------------------------------------------------------------- patching

/// What an expression is replaced by inside a longer text: the first value
/// its path addresses, or else the path itself.
pub open spec fn replacement(f: Found, values: Jsn) -> Seq<char> {
    let vs = jsn_get_all(values, parse_path(f.path));
    if vs.len() > 0 {
        subst_text(vs[0])
    } else {
        f.path
    }
}

/// `s` from `p` on, with each expression replaced.
pub open spec fn composite_from(s: Seq<char>, p: int, values: Jsn) -> Seq<char>
    decreases s.len() - p,
{
    if p < 0 || p >= s.len() {
        Seq::empty()
    } else {
        match found_at(s, p) {
            Some(f) => if f.end > p {
                replacement(f, values) + composite_from(s, f.end, values)
            } else {
                Seq::empty()
            },
            None => seq![s[p]] + composite_from(s, p + 1, values),
        }
    }
}

/// The value that a template text becomes: none without expressions; a text
/// that is one expression whole becomes the (cast) first value its path
/// addresses, or stays where there is none; any other text becomes the text
/// with each expression replaced.
pub open spec fn patch(s: Seq<char>, values: Jsn) -> Option<Json> {
    let es = finds(s);
    if es.len() == 0 {
        None
    } else if es.len() == 1 && es[0].start == 0 && es[0].end == s.len() {
        let vs = jsn_get_all(values, parse_path(es[0].path));
        if vs.len() > 0 {
            Some(cast(es[0].modifier, json_of(vs[0])))
        } else {
            None
        }
    } else {
        Some(Json::Str(composite_from(s, 0, values)))
    }
}


// ------------------------------------------------------------ code: scanning

proof fn lemma_path_end_bounds(s: Seq<char>, j: int)
    requires
        0 <= j <= s.len(),
    ensures
        j <= path_end(s, j) <= s.len(),
    decreases s.len() - j,
{
    if j < s.len() && is_path_char(s[j]) {
        lemma_path_end_bounds(s, j + 1);
    }
}

fn path_end_exec(cs: &Vec<char>, j: usize) -> (r: usize)
    requires
        j <= cs@.len(),
    ensures
        r as int == path_end(cs@, j as int),
{
    let mut q = j;
    while q < cs.len() && (letter_or_digit_exec(cs[q]) || cs[q] == '.' || cs[q] == '[' || cs[q] == ']' || cs[q] == '-' || cs[q] == '_')
        invariant
            j <= q <= cs@.len(),
            path_end(cs@, j as int) == path_end(cs@, q as int),
        decreases cs@.len() - q,
    {
        q += 1;
    }
    q
}

/// The expression that starts at `p`: where it ends, where its path lies,
/// and its modifier.
fn found_at_exec(cs: &Vec<char>, p: usize) -> (r: Option<(usize, usize, usize, Option<char>)>)
    requires
        p < cs@.len(),
    ensures
        match r {
            Some((e, a, b, m)) => {
                &&& found_at(cs@, p as int) == Some(
                    Found { start: p as int, end: e as int, modifier: m, path: cs@.subrange(a as int, b as int) },
                )
                &&& p < e <= cs@.len()
                &&& a <= b <= cs@.len()
            },
            None => found_at(cs@, p as int) is None,
        },
{
    if cs[p] != '$' {
        return None;
    }
    let n = cs.len();
    let b: usize = if p + 1 < n && (cs[p + 1] == ':' || cs[p + 1] == '~') {
        p + 2
    } else {
        p + 1
    };
    if b >= n || cs[b] != '{' {
        return None;
    }
    let q = path_end_exec(cs, b + 1);
    proof {
        lemma_path_end_bounds(cs@, b + 1);
    }
    if q > b + 1 && q < n && cs[q] == '}' {
        let m = if b == p + 2 {
            Some(cs[p + 1])
        } else {
            None
        };
        Some((q + 1, b + 1, q, m))
    } else {
        None
    }
}

// ----------------------------------------------------------- code: rendering

proof fn lemma_join_push(ts: Seq<Seq<char>>, t: Seq<char>, sep: Seq<char>)
    ensures
        join_sep(ts.push(t), sep) == if ts.len() == 0 {
            t
        } else {
            join_sep(ts, sep) + sep + t
        },
{
    assert(ts.push(t).drop_last() == ts);
    if ts.len() == 0 {
        assert(ts.push(t)[0] == t);
    }
}

proof fn lemma_item_texts_len(s: Seq<Jsn>)
    ensures
        json_item_texts(s).len() == s.len(),
        subst_item_texts(s).len() == s.len(),
    decreases s.len(),
{
    if s.len() > 0 {
        lemma_item_texts_len(s.drop_last());
    }
}

fn push_bool(b: bool, out: &mut Vec<char>)
    ensures
        final(out)@ == old(out)@ + bool_text(b),
{
    let ghost pre = out@;
    if b {
        out.push('t');
        out.push('r');
        out.push('u');
        out.push('e');
    } else {
        out.push('f');
        out.push('a');
        out.push('l');
        out.push('s');
        out.push('e');
    }
    assert(out@ =~= pre + bool_text(b));
}

fn push_null(out: &mut Vec<char>)
    ensures
        final(out)@ == old(out)@ + seq!['n', 'u', 'l', 'l'],
{
    let ghost pre = out@;
    out.push('n');
    out.push('u');
    out.push('l');
    out.push('l');
    assert(out@ =~= pre + seq!['n', 'u', 'l', 'l']);
}

/// Appends the JSON encoding of a document.
pub fn render_json(j: &Jsn, out: &mut Vec<char>)
    ensures
        final(out)@ == old(out)@ + json_text(*j),
    decreases j,
{
    match j {
        Jsn::Null => push_null(out),
        Jsn::Bool(b) => push_bool(*b, out),
        Jsn::Signed(i) => push_int(*i, out),
        Jsn::Float(t) => push_str(t.as_str(), out),
        Jsn::String(s) => {
            let q = quote_json(s.as_str());
            push_str(q.as_str(), out);
        },
        Jsn::Array(v) => {
            let ghost start = out@;
            out.push('[');
            let mut i: usize = 0;
            while i < v.len()
                invariant
                    i <= v@.len(),
                    *j == Jsn::Array(*v),
                    out@ == start + seq!['['] + join_sep(json_item_texts(v@.take(i as int)), seq![',']),
                decreases v@.len() - i,
            {
                proof {
                    lemma_item_texts_len(v@.take(i as int));
                    assert(v@.take(i + 1).drop_last() =~= v@.take(i as int));
                    lemma_join_push(json_item_texts(v@.take(i as int)), json_text(v@[i as int]), seq![',']);
                    assert(decreases_to!(*j => (*j)->Array_0));
                    assert(decreases_to!(*v => v[i as int]));
                }
                let ghost pre = out@;
                if i > 0 {
                    out.push(',');
                }
                render_json(&v[i], out);
                proof {
                    if i > 0 {
                        assert(out@ =~= start + seq!['['] + (join_sep(json_item_texts(v@.take(i as int)), seq![',']) + seq![','] + json_text(v@[i as int])));
                    } else {
                        assert(out@ =~= start + seq!['['] + json_text(v@[i as int]));
                    }
                }
                i += 1;
            }
            out.push(']');
            proof {
                assert(v@.take(v@.len() as int) =~= v@);
                assert(out@ =~= start + json_text(*j));
            }
        },
        Jsn::Object(es) => {
            let ghost start = out@;
            out.push('{');
            let mut count: usize = 0;
            let mut i: usize = 0;
            while i < es.len()
                invariant
                    i <= es@.len(),
                    *j == Jsn::Object(*es),
                    count == json_entry_texts(es@, i as int).len(),
                    count <= i,
                    out@ == start + seq!['{'] + join_sep(json_entry_texts(es@, i as int), seq![',']),
                decreases es@.len() - i,
            {
                let first = find_key(es, &es[i].0);
                if first == Some(i) {
                    proof {
                        assert(visible(es@, i as int));
                        assert(decreases_to!(*j => (*j)->Object_0));
                        assert(decreases_to!(*es => es[i as int]));
                        assert(decreases_to!(es[i as int] => es[i as int].1));
                        lemma_join_push(
                            json_entry_texts(es@, i as int),
                            json_quoted(es@[i as int].0@) + seq![':'] + json_text(es@[i as int].1),
                            seq![','],
                        );
                    }
                    if count > 0 {
                        out.push(',');
                    }
                    let q = quote_json(es[i].0.as_str());
                    push_str(q.as_str(), out);
                    out.push(':');
                    render_json(&es[i].1, out);
                    count += 1;
                    proof {
                        let t = json_quoted(es@[i as int].0@) + seq![':'] + json_text(es@[i as int].1);
                        if count > 1 {
                            assert(out@ =~= start + seq!['{'] + (join_sep(json_entry_texts(es@, i as int), seq![',']) + seq![','] + t));
                        } else {
                            assert(out@ =~= start + seq!['{'] + t);
                        }
                    }
                } else {
                    proof {
                        let k = es@[i as int].0@;
                        if first.is_some() {
                            let f = first.unwrap() as int;
                            assert(es@[f].0@ == k && f != i);
                            assert(f < i);
                        }
                        assert(!visible(es@, i as int));
                    }
                }
                i += 1;
            }
            out.push('}');
            proof {
                assert(out@ =~= start + json_text(*j));
            }
        },
    }
}

/// Appends how a value is written into a composite template.
pub fn render_subst(j: &Jsn, out: &mut Vec<char>)
    ensures
        final(out)@ == old(out)@ + subst_text(*j),
    decreases j,
{
    match j {
        Jsn::Null => push_null(out),
        Jsn::Bool(b) => push_bool(*b, out),
        Jsn::Signed(i) => push_int(*i, out),
        Jsn::Float(t) => push_str(t.as_str(), out),
        Jsn::String(s) => push_str(s.as_str(), out),
        Jsn::Array(v) => {
            let ghost start = out@;
            let mut i: usize = 0;
            while i < v.len()
                invariant
                    i <= v@.len(),
                    *j == Jsn::Array(*v),
                    out@ == start + join_sep(subst_item_texts(v@.take(i as int)), seq![',', ' ']),
                decreases v@.len() - i,
            {
                proof {
                    lemma_item_texts_len(v@.take(i as int));
                    assert(v@.take(i + 1).drop_last() =~= v@.take(i as int));
                    lemma_join_push(subst_item_texts(v@.take(i as int)), subst_text(v@[i as int]), seq![',', ' ']);
                    assert(decreases_to!(*j => (*j)->Array_0));
                    assert(decreases_to!(*v => v[i as int]));
                }
                if i > 0 {
                    out.push(',');
                    out.push(' ');
                }
                render_subst(&v[i], out);
                proof {
                    if i > 0 {
                        assert(out@ =~= start + (join_sep(subst_item_texts(v@.take(i as int)), seq![',', ' ']) + seq![',', ' '] + subst_text(v@[i as int])));
                    } else {
                        assert(out@ =~= start + subst_text(v@[i as int]));
                    }
                }
                i += 1;
            }
            proof {
                assert(v@.take(v@.len() as int) =~= v@);
            }
        },
        Jsn::Object(_) => render_json(j, out),
    }
}


// --------------------------------------------------------------- code: casts

fn bool_string(b: bool) -> (r: String)
    ensures
        r@ == bool_text(b),
{
    let mut cs: Vec<char> = Vec::new();
    push_bool(b, &mut cs);
    string_of(&cs)
}

/// The number that a rendered numeral stands for.
pub fn number_from(t: String) -> (r: Jsn)
    ensures
        r@ == number_of(t@),
{
    let cs = chars_of(t.as_str());
    let ghost s = cs@;
    let neg = cs.len() > 0 && cs[0] == '-';
    let from: usize = if neg {
        1
    } else {
        0
    };
    let ghost ds = if neg {
        s.drop_first()
    } else {
        s
    };
    proof {
        assert(ds =~= s.subrange(from as int, s.len() as int));
    }
    if from >= cs.len() {
        return Jsn::Float(t);
    }
    let mut mag: u64 = 0;
    let mut k: usize = from;
    let mut fits = true;
    while k < cs.len()
        invariant
            from <= k <= cs@.len(),
            s == cs@,
            s == t@,
            neg == negative_numeral(s),
            from == (if neg { 1usize } else { 0usize }),
            ds == numeral_digits(s),
            ds == s.subrange(from as int, s.len() as int),
            forall|m: int| 0 <= m < k - from ==> is_digit(#[trigger] ds[m]),
            fits ==> mag as nat == digits_value(ds.take(k - from)),
            !fits ==> digits_value(ds.take(k - from)) > u64::MAX,
        decreases cs@.len() - k,
    {
        let c = cs[k];
        if !('0' <= c && c <= '9') {
            proof {
                assert(ds[k - from] == c);
                assert(!is_digit(ds[k - from]));
                assert(s == t@);
                assert(!all_digits(ds));
                assert(int_value(t@) is None);
            }
            return Jsn::Float(t);
        }
        let d = (c as u32 - '0' as u32) as u64;
        proof {
            assert(ds.take(k - from + 1).drop_last() == ds.take(k - from));
            assert(ds.take(k - from + 1).last() == c);
            assert(digit_value(c) == d);
            assert(digits_value(ds.take(k - from + 1)) == digits_value(ds.take(k - from)) * 10 + d);
        }
        if fits {
            match mag.checked_mul(10) {
                Some(w) => match w.checked_add(d) {
                    Some(x) => {
                        mag = x;
                    },
                    None => {
                        fits = false;
                    },
                },
                None => {
                    fits = false;
                },
            }
        }
        k += 1;
    }
    proof {
        assert(ds.take(k - from) =~= ds);
    }
    if fits && !neg && mag <= 9223372036854775807u64 {
        Jsn::Signed(mag as i64)
    } else if fits && neg && mag <= 9223372036854775808u64 {
        if mag == 9223372036854775808u64 {
            Jsn::Signed(i64::MIN)
        } else {
            Jsn::Signed(-(mag as i64))
        }
    } else {
        Jsn::Float(t)
    }
}

fn cast_to_string_exec(v: &Jsn) -> (r: Jsn)
    ensures
        r@ == cast_to_string(v@),
{
    match v {
        Jsn::Bool(b) => Jsn::String(bool_string(*b)),
        Jsn::Signed(i) => {
            let mut cs: Vec<char> = Vec::new();
            push_int(*i, &mut cs);
            assert(cs@ =~= int_numeral(*i as int));
            Jsn::String(string_of(&cs))
        },
        Jsn::Float(t) => Jsn::String(t.clone()),
        _ => v.duplicate(),
    }
}

fn cast_from_string_exec(v: &Jsn) -> (r: Jsn)
    ensures
        r@ == cast_from_string(v@),
{
    match v {
        Jsn::String(s) => {
            let cs = chars_of(s.as_str());
            if chars_are(&cs, &vec!['t', 'r', 'u', 'e']) {
                assert(s@ == bool_text(true));
                Jsn::Bool(true)
            } else if chars_are(&cs, &vec!['f', 'a', 'l', 's', 'e']) {
                assert(s@ == bool_text(false));
                Jsn::Bool(false)
            } else {
                assert(cs@ != bool_text(true));
                assert(cs@ != bool_text(false));
                match read_number(s.as_str()) {
                    Some(t) => number_from(t),
                    None => v.duplicate(),
                }
            }
        },
        _ => v.duplicate(),
    }
}

fn cast_exec(modifier: Option<char>, v: &Jsn) -> (r: Jsn)
    ensures
        r@ == cast(modifier, v@),
{
    match modifier {
        Some(':') => cast_to_string_exec(v),
        Some('~') => cast_from_string_exec(v),
        _ => v.duplicate(),
    }
}

// ------------------------------------------------------------ code: patching

/// The value that a template text sets in place of what it patches.
pub struct JsonPatcher {
    pub new_value: Jsn,
}

impl JsonPatcher {
    fn new(new_value: Jsn) -> (r: JsonPatcher)
        ensures
            r.new_value == new_value,
    {
        JsonPatcher { new_value }
    }

    /// Overwrites the target with the patch value.
    pub fn apply(&self, target: &mut Jsn)
        ensures
            final(target)@ == self.new_value@,
    {
        *target = self.new_value.duplicate();
    }
}

/// Fills templates from a document of values.
pub struct JsonTemplater {
    pub values: Jsn,
}

impl JsonTemplater {
    pub fn new(values: Jsn) -> (r: JsonTemplater)
        ensures
            r.values == values,
    {
        JsonTemplater { values }
    }

    /// What the expression found at `f` is replaced by in a longer text.
    fn push_replacement(&self, cs: &Vec<char>, a: usize, b: usize, out: &mut Vec<char>)
        requires
            a <= b <= cs@.len(),
        ensures
            final(out)@ == old(out)@ + replacement(
                Found { start: 0, end: 0, modifier: None, path: cs@.subrange(a as int, b as int) },
                self.values,
            ),
    {
        let ghost path = cs@.subrange(a as int, b as int);
        let mut pcs: Vec<char> = Vec::new();
        let mut k: usize = a;
        while k < b
            invariant
                a <= k <= b <= cs@.len(),
                pcs@ == cs@.subrange(a as int, k as int),
            decreases b - k,
        {
            pcs.push(cs[k]);
            k += 1;
            proof {
                assert(pcs@ =~= cs@.subrange(a as int, k as int));
            }
        }
        let ps = string_of(&pcs);
        let optic = JsonOptic::from_path(ps.as_str());
        let vs = self.values.get_all(&optic);
        if vs.len() > 0 {
            proof {
                assert(derefs(vs@)[0] == *vs@[0]);
            }
            render_subst(vs[0], out);
        } else {
            push_str(ps.as_str(), out);
        }
    }

    /// The patch that a template text makes: see `patch`.
    pub fn make_patcher_fn(&self, defn: &str) -> (r: Option<JsonPatcher>)
        ensures
            match r {
                Some(p) => patch(defn@, self.values) == Some(p.new_value@),
                None => patch(defn@, self.values) is None,
            },
    {
        let cs = chars_of(defn);
        let ghost s = cs@;
        // the expressions, and the text with each one replaced
        let mut count: usize = 0;
        let mut only: Option<(usize, usize, usize, usize, Option<char>)> = None;
        let mut out: Vec<char> = Vec::new();
        let ghost mut found: Seq<Found> = Seq::empty();
        let mut p: usize = 0;
        while p < cs.len()
            invariant
                p <= cs@.len(),
                s == cs@,
                found + finds_from(s, p as int) == finds(s),
                out@ + composite_from(s, p as int, self.values) == composite_from(s, 0, self.values),
                count == found.len(),
                count <= p,
                count >= 1 ==> only is Some,
                only matches Some((st, e, a, b, m)) ==> found.len() >= 1 && found[0] == (Found {
                    start: st as int,
                    end: e as int,
                    modifier: m,
                    path: s.subrange(a as int, b as int),
                }) && a <= b <= s.len(),
            decreases cs@.len() - p,
        {
            match found_at_exec(&cs, p) {
                Some((e, a, b, m)) => {
                    let ghost f = Found { start: p as int, end: e as int, modifier: m, path: s.subrange(a as int, b as int) };
                    let ghost pre = out@;
                    self.push_replacement(&cs, a, b, &mut out);
                    proof {
                        assert(finds_from(s, p as int) == seq![f] + finds_from(s, e as int));
                        assert(found.push(f) + finds_from(s, e as int) =~= found + finds_from(s, p as int));
                        assert(composite_from(s, p as int, self.values) == replacement(f, self.values) + composite_from(s, e as int, self.values));
                        assert(replacement(f, self.values) == replacement(
                            Found { start: 0, end: 0, modifier: None, path: s.subrange(a as int, b as int) },
                            self.values,
                        ));
                        assert(out@ + composite_from(s, e as int, self.values) =~= pre + composite_from(s, p as int, self.values));
                        found = found.push(f);
                    }
                    if count == 0 {
                        only = Some((p, e, a, b, m));
                    }
                    count = count + 1;
                    p = e;
                },
                None => {
                    let ghost pre = out@;
                    out.push(cs[p]);
                    proof {
                        assert(finds_from(s, p as int) == finds_from(s, p + 1));
                        assert(out@ + composite_from(s, p + 1, self.values) =~= pre + composite_from(s, p as int, self.values));
                    }
                    p += 1;
                },
            }
        }
        proof {
            assert(found + Seq::<Found>::empty() =~= found);
            assert(out@ + Seq::<char>::empty() =~= out@);
        }
        if count == 0 {
            return None;
        }
        let (st, e, a, b, m) = only.unwrap();
        if count == 1 && st == 0 && e == cs.len() {
            let mut pcs: Vec<char> = Vec::new();
            let mut k: usize = a;
            while k < b
                invariant
                    a <= k <= b <= cs@.len(),
                    pcs@ == cs@.subrange(a as int, k as int),
                decreases b - k,
            {
                pcs.push(cs[k]);
                k += 1;
                proof {
                    assert(pcs@ =~= cs@.subrange(a as int, k as int));
                }
            }
            let ps = string_of(&pcs);
            let optic = JsonOptic::from_path(ps.as_str());
            let vs = self.values.get_all(&optic);
            if vs.len() > 0 {
                proof {
                    assert(derefs(vs@)[0] == *vs@[0]);
                }
                let v = cast_exec(m, vs[0]);
                return Some(JsonPatcher::new(v));
            } else {
                return None;
            }
        }
        Some(JsonPatcher::new(Jsn::String(string_of(&out))))
    }
}


// ------------------------------------------------------------ scalar walk

/// Whether `r` has the shape of `d` (the same arrays, and objects with the
/// same keys in the same order) with each scalar `x` of `d` replaced by a `y`
/// such that `leaf(x, y)`.
pub open spec fn mapped(d: Jsn, r: Jsn, leaf: spec_fn(Jsn, Jsn) -> bool) -> bool
    decreases d, 0int,
{
    match d {
        Jsn::Array(v) => match r {
            Jsn::Array(w) => mapped_items(v@, w@, leaf),
            _ => false,
        },
        Jsn::Object(es) => match r {
            Jsn::Object(fs) => mapped_entries(es@, fs@, leaf),
            _ => false,
        },
        _ => leaf(d, r),
    }
}

pub open spec fn mapped_items(s: Seq<Jsn>, t: Seq<Jsn>, leaf: spec_fn(Jsn, Jsn) -> bool) -> bool
    decreases s, 0int,
{
    s.len() == t.len() && (s.len() == 0 || (mapped_items(s.drop_last(), t.drop_last(), leaf) && mapped(
        s.last(),
        t.last(),
        leaf,
    )))
}

pub open spec fn mapped_entries(
    s: Seq<(String, Jsn)>,
    t: Seq<(String, Jsn)>,
    leaf: spec_fn(Jsn, Jsn) -> bool,
) -> bool
    decreases s, 0int,
{
    s.len() == t.len() && (s.len() == 0 || (mapped_entries(s.drop_last(), t.drop_last(), leaf) && s.last().0@
        == t.last().0@ && mapped(s.last().1, t.last().1, leaf)))
}

fn update_copy<F: Fn(&Jsn) -> Jsn>(d: &Jsn, modify: &F) -> (r: Jsn)
    requires
        forall|x: &Jsn| call_requires(*modify, (x,)),
    ensures
        mapped(*d, r, |x: Jsn, y: Jsn| call_ensures(*modify, (&x,), y)),
    decreases d,
{
    let ghost leaf = |x: Jsn, y: Jsn| call_ensures(*modify, (&x,), y);
    match d {
        Jsn::Array(v) => {
            let mut out: Vec<Jsn> = Vec::new();
            let mut i: usize = 0;
            while i < v.len()
                invariant
                    i <= v@.len(),
                    *d == Jsn::Array(*v),
                    forall|x: &Jsn| call_requires(*modify, (x,)),
                    leaf == (|x: Jsn, y: Jsn| call_ensures(*modify, (&x,), y)),
                    mapped_items(v@.take(i as int), out@, leaf),
                decreases v@.len() - i,
            {
                proof {
                    assert(decreases_to!(*d => (*d)->Array_0));
                    assert(decreases_to!(*v => v[i as int]));
                }
                let c = update_copy(&v[i], modify);
                let ghost pre = out@;
                out.push(c);
                proof {
                    assert(v@.take(i + 1).drop_last() =~= v@.take(i as int));
                    assert(out@.drop_last() =~= pre);
                }
                i += 1;
            }
            proof {
                assert(v@.take(v@.len() as int) =~= v@);
            }
            Jsn::Array(out)
        },
        Jsn::Object(es) => {
            let mut out: Vec<(String, Jsn)> = Vec::new();
            let mut i: usize = 0;
            while i < es.len()
                invariant
                    i <= es@.len(),
                    *d == Jsn::Object(*es),
                    forall|x: &Jsn| call_requires(*modify, (x,)),
                    leaf == (|x: Jsn, y: Jsn| call_ensures(*modify, (&x,), y)),
                    mapped_entries(es@.take(i as int), out@, leaf),
                decreases es@.len() - i,
            {
                proof {
                    assert(decreases_to!(*d => (*d)->Object_0));
                    assert(decreases_to!(*es => es[i as int]));
                    assert(decreases_to!(es[i as int] => es[i as int].1));
                }
                let e = (es[i].0.clone(), update_copy(&es[i].1, modify));
                let ghost pre = out@;
                out.push(e);
                proof {
                    assert(es@.take(i + 1).drop_last() =~= es@.take(i as int));
                    assert(out@.drop_last() =~= pre);
                }
                i += 1;
            }
            proof {
                assert(es@.take(es@.len() as int) =~= es@);
            }
            Jsn::Object(out)
        },
        _ => modify(d),
    }
}

impl Jsn {
    /// Replaces each scalar of the document by what `modify` makes of it;
    /// arrays and objects keep their shape, and object keys are left alone.
    pub fn update_in_place_by_closure<F: Fn(&Jsn) -> Jsn>(&mut self, modify: &F)
        requires
            forall|x: &Jsn| call_requires(*modify, (x,)),
        ensures
            mapped(*old(self), *final(self), |x: Jsn, y: Jsn| call_ensures(*modify, (&x,), y)),
    {
        let r = update_copy(self, modify);
        *self = r;
    }
}

// ----------------------------------------------------------- substitution

/// A document with each string replaced by its patch, where it has one.
pub open spec fn substituted(d: Jsn, values: Jsn) -> Json
    decreases d, 0int,
{
    match d {
        Jsn::String(s) => match patch(s@, values) {
            Some(v) => v,
            None => Json::Str(s@),
        },
        Jsn::Array(v) => Json::Array(subst_items(v@, values)),
        Jsn::Object(es) => Json::Object(subst_entries(es@, values)),
        _ => json_of(d),
    }
}

pub open spec fn subst_items(s: Seq<Jsn>, values: Jsn) -> Seq<Json>
    decreases s, 0int,
{
    if s.len() == 0 {
        Seq::empty()
    } else {
        subst_items(s.drop_last(), values).push(substituted(s.last(), values))
    }
}

pub open spec fn subst_entries(s: Seq<(String, Jsn)>, values: Jsn) -> Map<Seq<char>, Json>
    decreases s, 0int,
{
    if s.len() == 0 {
        Map::empty()
    } else {
        let m = subst_entries(s.drop_last(), values);
        if m.contains_key(s.last().0@) {
            m
        } else {
            m.insert(s.last().0@, substituted(s.last().1, values))
        }
    }
}

/// Whether no string in a document holds an expression.
pub open spec fn no_exprs(d: Jsn) -> bool
    decreases d, 0int,
{
    match d {
        Jsn::String(s) => finds(s@).len() == 0,
        Jsn::Array(v) => items_free(v@),
        Jsn::Object(es) => entries_free(es@),
        _ => true,
    }
}

pub open spec fn items_free(s: Seq<Jsn>) -> bool
    decreases s, 0int,
{
    s.len() == 0 || (items_free(s.drop_last()) && no_exprs(s.last()))
}

pub open spec fn entries_free(s: Seq<(String, Jsn)>) -> bool
    decreases s, 0int,
{
    s.len() == 0 || (entries_free(s.drop_last()) && no_exprs(s.last().1))
}

/// A document whose strings hold no expression is left as it is.
pub proof fn lemma_substitute_fixed_point(d: Jsn, values: Jsn)
    requires
        no_exprs(d),
    ensures
        substituted(d, values) == json_of(d),
    decreases d, 1int,
{
    match d {
        Jsn::Array(v) => {
            lemma_items_fixed(v@, values);
        },
        Jsn::Object(es) => {
            lemma_entries_fixed(es@, values);
        },
        _ => {},
    }
}

proof fn lemma_items_fixed(s: Seq<Jsn>, values: Jsn)
    requires
        items_free(s),
    ensures
        subst_items(s, values) == crate::json::items_of(s),
    decreases s, 1int,
{
    if s.len() > 0 {
        lemma_items_fixed(s.drop_last(), values);
        lemma_substitute_fixed_point(s.last(), values);
    }
}

proof fn lemma_entries_fixed(s: Seq<(String, Jsn)>, values: Jsn)
    requires
        entries_free(s),
    ensures
        subst_entries(s, values) == entries_of(s),
    decreases s, 1int,
{
    if s.len() > 0 {
        lemma_entries_fixed(s.drop_last(), values);
        lemma_substitute_fixed_point(s.last().1, values);
    }
}

impl JsonTemplater {
    /// A copy of the document with each string replaced by its patch.
    fn substitute_copy(&self, d: &Jsn) -> (r: Jsn)
        ensures
            r@ == substituted(*d, self.values),
        decreases d,
    {
        match d {
            Jsn::String(s) => match self.make_patcher_fn(s.as_str()) {
                Some(p) => p.new_value.duplicate(),
                None => Jsn::String(s.clone()),
            },
            Jsn::Array(v) => {
                let mut out: Vec<Jsn> = Vec::new();
                let mut i: usize = 0;
                while i < v.len()
                    invariant
                        i <= v@.len(),
                        *d == Jsn::Array(*v),
                        items_of(out@) == subst_items(v@.take(i as int), self.values),
                    decreases v@.len() - i,
                {
                    proof {
                        assert(decreases_to!(*d => (*d)->Array_0));
                        assert(decreases_to!(*v => v[i as int]));
                        assert(v@.take(i + 1).drop_last() =~= v@.take(i as int));
                    }
                    let c = self.substitute_copy(&v[i]);
                    let ghost pre = out@;
                    out.push(c);
                    proof {
                        assert(out@.drop_last() == pre);
                    }
                    i += 1;
                }
                proof {
                    assert(v@.take(v@.len() as int) =~= v@);
                }
                Jsn::Array(out)
            },
            Jsn::Object(es) => {
                let mut out: Vec<(String, Jsn)> = Vec::new();
                let mut i: usize = 0;
                while i < es.len()
                    invariant
                        i <= es@.len(),
                        *d == Jsn::Object(*es),
                        entries_of(out@) == subst_entries(es@.take(i as int), self.values),
                    decreases es@.len() - i,
                {
                    proof {
                        assert(decreases_to!(*d => (*d)->Object_0));
                        assert(decreases_to!(*es => es[i as int]));
                        assert(decreases_to!(es[i as int] => es[i as int].1));
                        assert(es@.take(i + 1).drop_last() =~= es@.take(i as int));
                    }
                    let e = (es[i].0.clone(), self.substitute_copy(&es[i].1));
                    let ghost pre = out@;
                    out.push(e);
                    proof {
                        assert(out@.drop_last() == pre);
                    }
                    i += 1;
                }
                proof {
                    assert(es@.take(es@.len() as int) =~= es@);
                }
                Jsn::Object(out)
            },
            _ => d.duplicate(),
        }
    }
}

pub open spec fn schema_view(s: Seq<(JsonOptic, String)>) -> Seq<(Seq<Part>, Seq<char>)> {
    s.map_values(|e: (JsonOptic, String)| (e.0@, e.1@))
}

/// A document after each schema entry in turn writes its template's patch
/// at its optic, where the template makes one.
pub open spec fn patched(d: Json, values: Jsn, schema: Seq<(Seq<Part>, Seq<char>)>) -> Json
    decreases schema.len(),
{
    if schema.len() == 0 {
        d
    } else {
        let prev = patched(d, values, schema.drop_last());
        match patch(schema.last().1, values) {
            Some(v) => set_at(prev, schema.last().0, v),
            None => prev,
        }
    }
}

impl Jsn {
    /// Replaces each string of the document by its patch from `values`.
    pub fn substitute_in_place(&mut self, values: Jsn)
        ensures
            final(self)@ == substituted(*old(self), values),
    {
        let templater = JsonTemplater::new(values);
        let r = templater.substitute_copy(self);
        *self = r;
    }

    /// Writes, for each schema entry in turn, its template's patch from
    /// `values` at its optic.
    pub fn patch_in_place(&mut self, values: Jsn, schema: Vec<(JsonOptic, String)>)
        ensures
            final(self)@ == patched(old(self)@, values, schema_view(schema@)),
    {
        let templater = JsonTemplater::new(values);
        let ghost start = self@;
        let ghost sv = schema_view(schema@);
        let mut i: usize = 0;
        while i < schema.len()
            invariant
                i <= schema@.len(),
                sv == schema_view(schema@),
                templater.values == values,
                self@ == patched(start, values, sv.take(i as int)),
            decreases schema@.len() - i,
        {
            proof {
                assert(sv.take(i + 1).drop_last() =~= sv.take(i as int));
                assert(sv.take(i + 1).last() == sv[i as int]);
            }
            match templater.make_patcher_fn(schema[i].1.as_str()) {
                Some(p) => {
                    let mut new_value = Jsn::Null;
                    p.apply(&mut new_value);
                    self.set(&schema[i].0, &new_value);
                },
                None => {},
            }
            i += 1;
        }
        proof {
            assert(sv.take(schema@.len() as int) =~= sv);
        }
    }
}


// ---------------------------------------------------------------- display

/// The canonical text of a document: strings quoted with Rust's escapes,
/// arrays as `[a, b]`, objects as `{"k": v, "l": w}` with the first entry of
/// each key.
pub open spec fn display_text(j: Jsn) -> Seq<char>
    decreases j, 0int,
{
    match j {
        Jsn::Null => seq!['n', 'u', 'l', 'l'],
        Jsn::Bool(b) => bool_text(b),
        Jsn::Signed(i) => int_numeral(i as int),
        Jsn::Float(t) => t@,
        Jsn::String(s) => seq!['"'] + escaped(s@) + seq!['"'],
        Jsn::Array(v) => seq!['['] + join_sep(display_item_texts(v@), seq![',', ' ']) + seq![']'],
        Jsn::Object(es) => seq!['{'] + join_sep(display_entry_texts(es@, es@.len() as int), seq![',', ' ']) + seq!['}'],
    }
}

pub open spec fn display_item_texts(s: Seq<Jsn>) -> Seq<Seq<char>>
    decreases s, 0int,
{
    if s.len() == 0 {
        Seq::empty()
    } else {
        display_item_texts(s.drop_last()).push(display_text(s.last()))
    }
}

pub open spec fn display_entry_texts(es: Seq<(String, Jsn)>, n: int) -> Seq<Seq<char>>
    decreases es, n,
{
    if n <= 0 || n > es.len() {
        Seq::empty()
    } else if visible(es, n - 1) {
        display_entry_texts(es, n - 1).push(
            seq!['"'] + escaped(es[n - 1].0@) + seq!['"', ':', ' '] + display_text(es[n - 1].1),
        )
    } else {
        display_entry_texts(es, n - 1)
    }
}

proof fn lemma_display_items_len(s: Seq<Jsn>)
    ensures
        display_item_texts(s).len() == s.len(),
    decreases s.len(),
{
    if s.len() > 0 {
        lemma_display_items_len(s.drop_last());
    }
}

fn render_display(j: &Jsn, out: &mut Vec<char>)
    ensures
        final(out)@ == old(out)@ + display_text(*j),
    decreases j,
{
    match j {
        Jsn::Null => push_null(out),
        Jsn::Bool(b) => push_bool(*b, out),
        Jsn::Signed(i) => push_int(*i, out),
        Jsn::Float(t) => push_str(t.as_str(), out),
        Jsn::String(s) => {
            let ghost pre = out@;
            out.push('"');
            let e = escape_default(s.as_str());
            push_str(e.as_str(), out);
            out.push('"');
            assert(out@ =~= pre + display_text(*j));
        },
        Jsn::Array(v) => {
            let ghost start = out@;
            out.push('[');
            let mut i: usize = 0;
            while i < v.len()
                invariant
                    i <= v@.len(),
                    *j == Jsn::Array(*v),
                    out@ == start + seq!['['] + join_sep(display_item_texts(v@.take(i as int)), seq![',', ' ']),
                decreases v@.len() - i,
            {
                proof {
                    lemma_display_items_len(v@.take(i as int));
                    assert(v@.take(i + 1).drop_last() =~= v@.take(i as int));
                    lemma_join_push(display_item_texts(v@.take(i as int)), display_text(v@[i as int]), seq![',', ' ']);
                    assert(decreases_to!(*j => (*j)->Array_0));
                    assert(decreases_to!(*v => v[i as int]));
                }
                if i > 0 {
                    out.push(',');
                    out.push(' ');
                }
                render_display(&v[i], out);
                proof {
                    if i > 0 {
                        assert(out@ =~= start + seq!['['] + (join_sep(display_item_texts(v@.take(i as int)), seq![',', ' ']) + seq![',', ' '] + display_text(v@[i as int])));
                    } else {
                        assert(out@ =~= start + seq!['['] + display_text(v@[i as int]));
                    }
                }
                i += 1;
            }
            out.push(']');
            proof {
                assert(v@.take(v@.len() as int) =~= v@);
                assert(out@ =~= start + display_text(*j));
            }
        },
        Jsn::Object(es) => {
            let ghost start = out@;
            out.push('{');
            let mut count: usize = 0;
            let mut i: usize = 0;
            while i < es.len()
                invariant
                    i <= es@.len(),
                    *j == Jsn::Object(*es),
                    count == display_entry_texts(es@, i as int).len(),
                    count <= i,
                    out@ == start + seq!['{'] + join_sep(display_entry_texts(es@, i as int), seq![',', ' ']),
                decreases es@.len() - i,
            {
                let first = find_key(es, &es[i].0);
                if first == Some(i) {
                    let ghost t = seq!['"'] + escaped(es@[i as int].0@) + seq!['"', ':', ' '] + display_text(es@[i as int].1);
                    proof {
                        assert(visible(es@, i as int));
                        assert(decreases_to!(*j => (*j)->Object_0));
                        assert(decreases_to!(*es => es[i as int]));
                        assert(decreases_to!(es[i as int] => es[i as int].1));
                        lemma_join_push(display_entry_texts(es@, i as int), t, seq![',', ' ']);
                    }
                    let ghost pre = out@;
                    if count > 0 {
                        out.push(',');
                        out.push(' ');
                    }
                    let ghost mid = out@;
                    out.push('"');
                    let e = escape_default(es[i].0.as_str());
                    push_str(e.as_str(), out);
                    out.push('"');
                    out.push(':');
                    out.push(' ');
                    render_display(&es[i].1, out);
                    count += 1;
                    proof {
                        assert(out@ =~= mid + t);
                        if count > 1 {
                            assert(out@ =~= start + seq!['{'] + (join_sep(display_entry_texts(es@, i as int), seq![',', ' ']) + seq![',', ' '] + t));
                        } else {
                            assert(out@ =~= start + seq!['{'] + t);
                        }
                    }
                } else {
                    proof {
                        if first.is_some() {
                            let f = first.unwrap() as int;
                            assert(es@[f].0@ == es@[i as int].0@ && f != i);
                        }
                        assert(!visible(es@, i as int));
                    }
                }
                i += 1;
            }
            out.push('}');
            proof {
                assert(out@ =~= start + display_text(*j));
            }
        },
    }
}

impl Jsn {
    /// The debugging text of the document.
    pub fn to_string(&self) -> (r: String)
        ensures
            r@ == display_text(*self),
    {
        let mut out: Vec<char> = Vec::new();
        render_display(self, &mut out);
        string_of(&out)
    }
}


// ------------------------------------------------------ predicate as JSON

pub open spec fn condition_texts(cs: Seq<(Keyword, Jsn)>) -> Seq<Seq<char>>
    decreases cs.len(),
{
    if cs.len() == 0 {
        Seq::empty()
    } else {
        condition_texts(cs.drop_last()).push(json_quoted(wire(cs.last().0)) + seq![':'] + json_text(cs.last().1))
    }
}

pub open spec fn optic_texts(d: Seq<(JsonOptic, Vec<(Keyword, Jsn)>)>) -> Seq<Seq<char>>
    decreases d.len(),
{
    if d.len() == 0 {
        Seq::empty()
    } else {
        optic_texts(d.drop_last()).push(
            json_quoted(render(d.last().0@)) + seq![':', '{'] + join_sep(condition_texts(d.last().1@), seq![',']) + seq!['}'],
        )
    }
}

/// The JSON text of a predicate: `{"<optic>":{"<keyword>":<argument>,...},...}`.
pub open spec fn predicate_text(d: Seq<(JsonOptic, Vec<(Keyword, Jsn)>)>) -> Seq<char> {
    seq!['{'] + join_sep(optic_texts(d), seq![',']) + seq!['}']
}

proof fn lemma_texts_len(d: Seq<(JsonOptic, Vec<(Keyword, Jsn)>)>, cs: Seq<(Keyword, Jsn)>)
    ensures
        optic_texts(d).len() == d.len(),
        condition_texts(cs).len() == cs.len(),
    decreases d.len() + cs.len(),
{
    if d.len() > 0 {
        lemma_texts_len(d.drop_last(), cs);
    } else if cs.len() > 0 {
        lemma_texts_len(d, cs.drop_last());
    }
}

fn render_conditions(cs: &Vec<(Keyword, Jsn)>, out: &mut Vec<char>)
    ensures
        final(out)@ == old(out)@ + join_sep(condition_texts(cs@), seq![',']),
{
    let ghost start = out@;
    let mut i: usize = 0;
    while i < cs.len()
        invariant
            i <= cs@.len(),
            out@ == start + join_sep(condition_texts(cs@.take(i as int)), seq![',']),
        decreases cs@.len() - i,
    {
        let ghost t = json_quoted(wire(cs@[i as int].0)) + seq![':'] + json_text(cs@[i as int].1);
        proof {
            lemma_texts_len(Seq::empty(), cs@.take(i as int));
            assert(cs@.take(i + 1).drop_last() =~= cs@.take(i as int));
            lemma_join_push(condition_texts(cs@.take(i as int)), t, seq![',']);
        }
        let ghost pre = out@;
        if i > 0 {
            out.push(',');
        }
        let kw = cs[i].0.to_wire();
        let q = quote_json(kw.as_str());
        push_str(q.as_str(), out);
        out.push(':');
        render_json(&cs[i].1, out);
        proof {
            if i > 0 {
                assert(out@ =~= start + (join_sep(condition_texts(cs@.take(i as int)), seq![',']) + seq![','] + t));
            } else {
                assert(out@ =~= start + t);
            }
        }
        i += 1;
    }
    proof {
        assert(cs@.take(cs@.len() as int) =~= cs@);
    }
}

impl JsonPredicate {
    /// The predicate as JSON text, optics and conditions in the order it holds them.
    pub fn to_string(&self) -> (r: String)
        ensures
            r@ == predicate_text(self.definition@),
    {
        let d = &self.definition;
        let mut out: Vec<char> = Vec::new();
        out.push('{');
        let ghost start = out@;
        let mut i: usize = 0;
        while i < d.len()
            invariant
                i <= d@.len(),
                start == seq!['{'],
                out@ == start + join_sep(optic_texts(d@.take(i as int)), seq![',']),
            decreases d@.len() - i,
        {
            let ghost t = json_quoted(render(d@[i as int].0@)) + seq![':', '{'] + join_sep(condition_texts(d@[i as int].1@), seq![',']) + seq!['}'];
            proof {
                lemma_texts_len(d@.take(i as int), Seq::empty());
                assert(d@.take(i + 1).drop_last() =~= d@.take(i as int));
                lemma_join_push(optic_texts(d@.take(i as int)), t, seq![',']);
            }
            if i > 0 {
                out.push(',');
            }
            let name = d[i].0.to_string();
            let q = quote_json(name.as_str());
            push_str(q.as_str(), &mut out);
            out.push(':');
            out.push('{');
            render_conditions(&d[i].1, &mut out);
            out.push('}');
            proof {
                if i > 0 {
                    assert(out@ =~= start + (join_sep(optic_texts(d@.take(i as int)), seq![',']) + seq![','] + t));
                } else {
                    assert(out@ =~= start + t);
                }
            }
            i += 1;
        }
        out.push('}');
        proof {
            assert(d@.take(d@.len() as int) =~= d@);
        }
        string_of(&out)
    }
}

} // verus!
