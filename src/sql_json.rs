use vstd::prelude::*;
use crate::json::{Json, Jsn, json_of};
use crate::optic::{JsonOptic, Part, json_path_text};
use crate::text::{chars_of, string_of, push_str, push_decimal, decimal};
use crate::predicate::chars_are;
use crate::error::Error;

verus! {

broadcast use vstd::std_specs::vec::group_vec_axioms, vstd::seq::group_seq_axioms;

/// A keyword of the conditions that a store can test inside JSON documents,
/// written on the wire as `==`, `!=`, `<`, `<=`, `>`, `>=`, `~=` and `^`.
#[derive(Clone, Copy, Debug, PartialEq, Eq, Hash, Structural)]
pub enum Keyword {
    Eq,
    NotEq,
    Less,
    Lte,
    Greater,
    Gte,
    Rx,
    StartsWith,
}

pub open spec fn sql_wire(k: Keyword) -> Seq<char> {
    match k {
        Keyword::Eq => seq!['=', '='],
        Keyword::NotEq => seq!['!', '='],
        Keyword::Less => seq!['<'],
        Keyword::Lte => seq!['<', '='],
        Keyword::Greater => seq!['>'],
        Keyword::Gte => seq!['>', '='],
        Keyword::Rx => seq!['~', '='],
        Keyword::StartsWith => seq!['^'],
    }
}

impl Keyword {
    fn wire_chars(&self) -> (r: Vec<char>)
        ensures
            r@ == sql_wire(*self),
    {
        let cs: Vec<char> = match self {
            Keyword::Eq => vec!['=', '='],
            Keyword::NotEq => vec!['!', '='],
            Keyword::Less => vec!['<'],
            Keyword::Lte => vec!['<', '='],
            Keyword::Greater => vec!['>'],
            Keyword::Gte => vec!['>', '='],
            Keyword::Rx => vec!['~', '='],
            Keyword::StartsWith => vec!['^'],
        };
        assert(cs@ =~= sql_wire(*self));
        cs
    }

    /// The keyword that a wire spelling names.
    pub fn from_wire(s: &str) -> (r: Option<Keyword>)
        ensures
            match r {
                Some(k) => sql_wire(k) == s@,
                None => forall|k: Keyword| sql_wire(k) != s@,
            },
    {
        let cs = chars_of(s);
        let r = if chars_are(&cs, &Keyword::Eq.wire_chars()) {
            Some(Keyword::Eq)
        } else if chars_are(&cs, &Keyword::NotEq.wire_chars()) {
            Some(Keyword::NotEq)
        } else if chars_are(&cs, &Keyword::Less.wire_chars()) {
            Some(Keyword::Less)
        } else if chars_are(&cs, &Keyword::Lte.wire_chars()) {
            Some(Keyword::Lte)
        } else if chars_are(&cs, &Keyword::Greater.wire_chars()) {
            Some(Keyword::Greater)
        } else if chars_are(&cs, &Keyword::Gte.wire_chars()) {
            Some(Keyword::Gte)
        } else if chars_are(&cs, &Keyword::Rx.wire_chars()) {
            Some(Keyword::Rx)
        } else if chars_are(&cs, &Keyword::StartsWith.wire_chars()) {
            Some(Keyword::StartsWith)
        } else {
            None
        };
        proof {
            if r.is_none() {
                assert forall|k: Keyword| sql_wire(k) != s@ by {
                    match k {
                        Keyword::Eq => {},
                        Keyword::NotEq => {},
                        Keyword::Less => {},
                        Keyword::Lte => {},
                        Keyword::Greater => {},
                        Keyword::Gte => {},
                        Keyword::Rx => {},
                        Keyword::StartsWith => {},
                    }
                }
            }
        }
        r
    }

    /// The wire spelling.
    pub fn to_wire(&self) -> (r: String)
        ensures
            r@ == sql_wire(*self),
    {
        string_of(&self.wire_chars())
    }
}

/// A piece of SQL text: literal text, or a value bound as a parameter.
pub enum SqlPiece {
    Sql(String),
    Bind(Jsn),
}

/// The value of an `SqlPiece`.
pub enum Piece {
    Sql(Seq<char>),
    Bind(Json),
}

impl View for SqlPiece {
    type V = Piece;

    open spec fn view(&self) -> Piece {
        match self {
            SqlPiece::Sql(s) => Piece::Sql(s@),
            SqlPiece::Bind(v) => Piece::Bind(json_of(*v)),
        }
    }
}

pub open spec fn pieces_view(s: Seq<SqlPiece>) -> Seq<Piece> {
    s.map_values(|p: SqlPiece| p@)
}

/// A jsonpath expression as SQL: `format('<path> ?(@ <op> %s)...', to_json($n)...)::jsonpath`,
/// with each argument bound as a parameter.
pub struct JsonPath {
    pub pieces: Vec<SqlPiece>,
}

impl View for JsonPath {
    type V = Seq<Piece>;

    open spec fn view(&self) -> Seq<Piece> {
        pieces_view(self.pieces@)
    }
}

/// The conditions on one optic that a store tests inside a JSON column.
pub struct Predicate {
    pub optic: JsonOptic,
    pub conditions: Vec<(Keyword, Jsn)>,
}

pub open spec fn sql_conds_view(s: Seq<(Keyword, Jsn)>) -> Seq<(Keyword, Json)> {
    s.map_values(|c: (Keyword, Jsn)| (c.0, json_of(c.1)))
}

// ------------------------------------------------------------------ meaning

/// The jsonpath filter of a keyword.
pub open spec fn op_text(k: Keyword) -> Seq<char> {
    match k {
        Keyword::Eq => " ?(@ == %s)"@,
        Keyword::NotEq => " ?(@ != %s)"@,
        Keyword::Less => " ?(@ < %s)"@,
        Keyword::Lte => " ?(@ <= %s)"@,
        Keyword::Greater => " ?(@ > %s)"@,
        Keyword::Gte => " ?(@ >= %s)"@,
        Keyword::Rx => " ?(@ like_regex %s)"@,
        Keyword::StartsWith => " ?(@ starts with %s)"@,
    }
}

/// The error of a condition whose argument must be a string and is not.
pub open spec fn condition_error(c: (Keyword, Json)) -> Option<Seq<char>> {
    if c.1 is Str {
        None
    } else {
        match c.0 {
            Keyword::Rx => Some("Incorrect argument for 'like_regex'"@),
            Keyword::StartsWith => Some("Incorrect argument for 'starts with'"@),
            _ => None,
        }
    }
}

/// The error of the first condition that has one.
pub open spec fn first_condition_error(cs: Seq<(Keyword, Json)>) -> Option<Seq<char>>
    decreases cs.len(),
{
    if cs.len() == 0 {
        None
    } else {
        match first_condition_error(cs.drop_last()) {
            Some(e) => Some(e),
            None => condition_error(cs.last()),
        }
    }
}

proof fn lemma_first_error_extends(cs: Seq<(Keyword, Json)>, k: int)
    requires
        0 <= k <= cs.len(),
        first_condition_error(cs.take(k)) is Some,
    ensures
        first_condition_error(cs) == first_condition_error(cs.take(k)),
    decreases cs.len() - k,
{
    if k < cs.len() {
        assert(cs.take(k + 1).drop_last() =~= cs.take(k));
        lemma_first_error_extends(cs, k + 1);
    } else {
        assert(cs.take(k) =~= cs);
    }
}

pub open spec fn ops_text(cs: Seq<(Keyword, Json)>) -> Seq<char>
    decreases cs.len(),
{
    if cs.len() == 0 {
        Seq::empty()
    } else {
        ops_text(cs.drop_last()) + op_text(cs.last().0)
    }
}

/// How a bound argument is cast: strings to text, arrays and objects to json.
pub open spec fn cast_text(v: Json) -> Seq<char> {
    match v {
        Json::Str(_) => "::text)"@,
        Json::Array(_) | Json::Object(_) => "::json)"@,
        _ => ")"@,
    }
}

pub open spec fn arg_pieces(cs: Seq<(Keyword, Json)>) -> Seq<Piece>
    decreases cs.len(),
{
    if cs.len() == 0 {
        Seq::empty()
    } else {
        arg_pieces(cs.drop_last()) + seq![
            Piece::Sql(", to_json("@),
            Piece::Bind(cs.last().1),
            Piece::Sql(cast_text(cs.last().1)),
        ]
    }
}

/// The SQL of the conditions on an optic, or the error that stops it: an
/// argument of `~=` or `^` that is no string, then a null argument.
pub open spec fn jsonpath_sql(o: Seq<Part>, cs: Seq<(Keyword, Json)>) -> Result<Seq<Piece>, Seq<char>> {
    match first_condition_error(cs) {
        Some(e) => Err(e),
        None => if exists|i: int| 0 <= i < cs.len() && (#[trigger] cs[i]).1 == Json::Null {
            Err("Incorrect condition"@)
        } else {
            Ok(
                seq![Piece::Sql("format('"@ + json_path_text(o) + ops_text(cs) + "'"@)] + arg_pieces(cs)
                    + seq![Piece::Sql(")::jsonpath"@)],
            )
        },
    }
}

/// The SQL text of pieces, with parameters numbered `$n`, `$n+1`, ... in order.
pub open spec fn render_sql(ps: Seq<Piece>, n: nat) -> Seq<char>
    decreases ps.len(),
{
    if ps.len() == 0 {
        Seq::empty()
    } else {
        match ps[0] {
            Piece::Sql(s) => s + render_sql(ps.drop_first(), n),
            Piece::Bind(_) => seq!['$'] + decimal(n) + render_sql(ps.drop_first(), n + 1),
        }
    }
}

// --------------------------------------------------------------------- code

impl Predicate {
    /// The conditions on one optic.
    pub fn from(optic: JsonOptic, spec: Vec<(Keyword, Jsn)>) -> (r: Predicate)
        ensures
            r.optic@ == optic@,
            sql_conds_view(r.conditions@) == sql_conds_view(spec@),
    {
        Predicate { optic, conditions: spec }
    }

    /// The jsonpath expression that tests the conditions, or why there is none.
    pub fn to_json_path(&self) -> (r: Result<JsonPath, Error>)
        ensures
            match r {
                Ok(jp) => jsonpath_sql(self.optic@, sql_conds_view(self.conditions@)) == Ok::<Seq<Piece>, Seq<char>>(jp@),
                Err(e) => jsonpath_sql(self.optic@, sql_conds_view(self.conditions@)) == Err::<Seq<Piece>, Seq<char>>(e.cause@),
            },
    {
        let ghost cs = sql_conds_view(self.conditions@);
        let mut head: Vec<char> = Vec::new();
        push_str("format('", &mut head);
        let path = self.optic.to_json_path_string();
        push_str(path.as_str(), &mut head);
        let ghost start = head@;
        let mut i: usize = 0;
        while i < self.conditions.len()
            invariant
                i <= self.conditions@.len(),
                cs == sql_conds_view(self.conditions@),
                first_condition_error(cs.take(i as int)) is None,
                head@ == start + ops_text(cs.take(i as int)),
            decreases self.conditions@.len() - i,
        {
            let kwd = self.conditions[i].0;
            let val = &self.conditions[i].1;
            proof {
                assert(cs.take(i + 1).drop_last() =~= cs.take(i as int));
                assert(cs.take(i + 1).last() == cs[i as int]);
                assert(cs[i as int] == (kwd, json_of(*val)));
            }
            let is_string = val.is_string();
            match kwd {
                Keyword::Rx => if !is_string {
                    proof {
                        lemma_first_error_extends(cs, i + 1);
                    }
                    return Err(Error::new("Incorrect argument for 'like_regex'".to_owned()));
                },
                Keyword::StartsWith => if !is_string {
                    proof {
                        lemma_first_error_extends(cs, i + 1);
                    }
                    return Err(Error::new("Incorrect argument for 'starts with'".to_owned()));
                },
                _ => {},
            }
            let op = match kwd {
                Keyword::Eq => " ?(@ == %s)",
                Keyword::NotEq => " ?(@ != %s)",
                Keyword::Less => " ?(@ < %s)",
                Keyword::Lte => " ?(@ <= %s)",
                Keyword::Greater => " ?(@ > %s)",
                Keyword::Gte => " ?(@ >= %s)",
                Keyword::Rx => " ?(@ like_regex %s)",
                Keyword::StartsWith => " ?(@ starts with %s)",
            };
            push_str(op, &mut head);
            proof {
                assert(head@ =~= start + ops_text(cs.take(i + 1)));
            }
            i += 1;
        }
        proof {
            assert(cs.take(self.conditions@.len() as int) =~= cs);
        }
        push_str("'", &mut head);
        let ghost head_text = "format('"@ + json_path_text(self.optic@) + ops_text(cs) + "'"@;
        assert(head@ =~= head_text);
        let mut pieces: Vec<SqlPiece> = Vec::new();
        pieces.push(SqlPiece::Sql(string_of(&head)));
        let ghost first = pieces@;
        assert(pieces_view(first) =~= seq![Piece::Sql(head_text)]);
        let mut k: usize = 0;
        while k < self.conditions.len()
            invariant
                k <= self.conditions@.len(),
                cs == sql_conds_view(self.conditions@),
                first_condition_error(cs) is None,
                pieces_view(first) == seq![Piece::Sql(head_text)],
                head_text == "format('"@ + json_path_text(self.optic@) + ops_text(cs) + "'"@,
                forall|m: int| 0 <= m < k ==> (#[trigger] cs[m]).1 != Json::Null,
                pieces_view(pieces@) == pieces_view(first) + arg_pieces(cs.take(k as int)),
            decreases self.conditions@.len() - k,
        {
            let val = &self.conditions[k].1;
            proof {
                assert(cs.take(k + 1).drop_last() =~= cs.take(k as int));
                assert(cs.take(k + 1).last() == cs[k as int]);
                assert(cs[k as int].1 == json_of(*val));
            }
            let cast = match val {
                Jsn::Null => {
                    return Err(Error::new("Incorrect condition".to_owned()));
                },
                Jsn::String(_) => "::text)",
                Jsn::Array(_) | Jsn::Object(_) => "::json)",
                _ => ")",
            };
            let ghost pre = pieces@;
            pieces.push(SqlPiece::Sql(", to_json(".to_owned()));
            pieces.push(SqlPiece::Bind(val.duplicate()));
            pieces.push(SqlPiece::Sql(cast.to_string()));
            proof {
                assert(pieces_view(pieces@) =~= pieces_view(pre) + seq![
                    Piece::Sql(", to_json("@),
                    Piece::Bind(cs[k as int].1),
                    Piece::Sql(cast_text(cs[k as int].1)),
                ]);
            }
            k += 1;
        }
        let ghost pre = pieces@;
        pieces.push(SqlPiece::Sql(")::jsonpath".to_owned()));
        proof {
            assert(cs.take(self.conditions@.len() as int) =~= cs);
            assert(pieces_view(pieces@) =~= pieces_view(pre).push(Piece::Sql(")::jsonpath"@)));
            assert(pieces_view(pieces@) =~= seq![Piece::Sql(head_text)] + arg_pieces(cs) + seq![Piece::Sql(")::jsonpath"@)]);
        }
        Ok(JsonPath { pieces })
    }
}

impl JsonPath {
    /// The SQL text with parameters numbered from `first`.
    pub fn to_sql(&self, first: u64) -> (r: String)
        requires
            first + self.pieces@.len() <= u64::MAX,
        ensures
            r@ == render_sql(self@, first as nat),
    {
        let r = render_from(&self.pieces, 0, first);
        proof {
            assert(pieces_view(self.pieces@).subrange(0, self.pieces@.len() as int) =~= self@);
        }
        r
    }
}

fn render_from(pieces: &Vec<SqlPiece>, i: usize, n: u64) -> (r: String)
    requires
        i <= pieces@.len(),
        n + (pieces@.len() - i) <= u64::MAX,
    ensures
        r@ == render_sql(pieces_view(pieces@).subrange(i as int, pieces@.len() as int), n as nat),
    decreases pieces@.len() - i,
{
    let ghost rest = pieces_view(pieces@).subrange(i as int, pieces@.len() as int);
    if i == pieces.len() {
        return String::new();
    }
    proof {
        assert(rest[0] == pieces@[i as int]@);
        assert(rest.drop_first() =~= pieces_view(pieces@).subrange(i + 1, pieces@.len() as int));
    }
    let mut out: Vec<char> = Vec::new();
    let tail = match &pieces[i] {
        SqlPiece::Sql(s) => {
            push_str(s.as_str(), &mut out);
            render_from(pieces, i + 1, n)
        },
        SqlPiece::Bind(_) => {
            out.push('$');
            push_decimal(n, &mut out);
            render_from(pieces, i + 1, n + 1)
        },
    };
    push_str(tail.as_str(), &mut out);
    proof {
        match pieces@[i as int]@ {
            Piece::Sql(s) => assert(out@ =~= s + render_sql(rest.drop_first(), n as nat)),
            Piece::Bind(_) => assert(out@ =~= seq!['$'] + decimal(n as nat) + render_sql(rest.drop_first(), (n + 1) as nat)),
        }
    }
    string_of(&out)
}

} // verus!
