//! One searchable field, and the SQL condition a `name:value` term on it becomes.

use regex::Regex;
use vstd::prelude::*;
use vstd::string::*;

verus! {

/// How a searchable field is matched; each names the SQL expression it reads.
#[derive(Debug, Clone, Copy, PartialEq, Eq)]
pub enum SearchField {
    /// A text array, matched case-insensitively as one comma-separated text.
    Array(&'static str),
    /// A text, matched case-insensitively.
    Text(&'static str),
    /// A date, compared (`<`, `<=`, `>`, `>=`; `>=` by default); the flag says whether
    /// relative dates point to the future.
    Date(&'static str, bool),
    /// A value matched exactly.
    Equals(&'static str),
    /// A number, compared (`<`, `<=`, `>`, `>=`, `=` by default).
    Number(&'static str),
}

/// A value bound to a placeholder of an SQL condition.
#[derive(Debug, Clone, PartialEq, Eq)]
pub enum SqlValue {
    Text(String),
    Number(u16),
    /// A date as the user wrote it, still to be read, and whether relative dates point to
    /// the future.
    Date(String, bool),
}

/// An SQL condition with the values of its placeholders `$1`, `$2`, ...
#[derive(Debug, Clone, PartialEq, Eq)]
pub struct SqlExpr {
    pub sql: String,
    pub values: Vec<SqlValue>,
}

/// Why a search was refused.
#[derive(Debug, Clone, PartialEq, Eq)]
pub enum SearchError {
    /// No field has this name.
    UnknownField(String),
    /// A number field was given something else than a number.
    ExpectedNumber(String),
}

impl SearchError {
    /// The message the caller is answered with.
    pub fn message(&self) -> (r: String)
        ensures
            r@ == match *self {
                SearchError::UnknownField(n) => "Field with name '"@ + n@ + "' is not allowed"@,
                SearchError::ExpectedNumber(v) => "Expected number but got "@ + v@,
            },
    {
        match self {
            SearchError::UnknownField(n) => {
                let mut m = "Field with name '".to_owned();
                m.append(n.as_str());
                m.append("' is not allowed");
                m
            },
            SearchError::ExpectedNumber(v) => {
                let mut m = "Expected number but got ".to_owned();
                m.append(v.as_str());
                m
            },
        }
    }
}

/// A placeholder value as mathematics sees it.
pub enum ValueView {
    Text(Seq<char>),
    Number(u16),
    Date(Seq<char>, bool),
}

pub open spec fn value_view(v: SqlValue) -> ValueView {
    match v {
        SqlValue::Text(s) => ValueView::Text(s@),
        SqlValue::Number(n) => ValueView::Number(n),
        SqlValue::Date(s, f) => ValueView::Date(s@, f),
    }
}

pub open spec fn values_view(vs: Seq<SqlValue>) -> Seq<ValueView> {
    vs.map_values(|v: SqlValue| value_view(v))
}

/// The comparison pattern that date and number terms are read with.
pub const COMPARISON: &'static str = "([<>]=?)?(.+)";

/// `text` without the line breaks it starts with.
pub open spec fn skip_breaks(text: Seq<char>) -> Seq<char>
    decreases text.len(),
{
    if text.len() > 0 && text[0] == '\n' {
        skip_breaks(text.drop_first())
    } else {
        text
    }
}

/// The characters `text` starts with up to its first line break: the run that `.+` takes.
pub open spec fn line_of(text: Seq<char>) -> Seq<char>
    decreases text.len(),
{
    if text.len() == 0 || text[0] == '\n' {
        Seq::empty()
    } else {
        seq![text[0]] + line_of(text.drop_first())
    }
}

/// Whether `c` opens a comparison operator.
pub open spec fn is_angle(c: char) -> bool {
    c == '<' || c == '>'
}

/// The capture groups of `COMPARISON` in `text`, as the leftmost-first match gives them:
/// the match starts at the first character other than a line break and runs to the next
/// line break; the operator is a leading `<` or `>`, with the `=` after it when something
/// is left for the rest; the rest is all of what follows. No match when `text` holds only
/// line breaks.
pub open spec fn comparison_captures(text: Seq<char>) -> Option<(Option<Seq<char>>, Seq<char>)> {
    let run = line_of(skip_breaks(text));
    if run.len() == 0 {
        None
    } else if is_angle(run[0]) && run.len() >= 3 && run[1] == '=' {
        Some((Some(run.subrange(0, 2)), run.subrange(2, run.len() as int)))
    } else if is_angle(run[0]) && run.len() >= 2 {
        Some((Some(run.subrange(0, 1)), run.subrange(1, run.len() as int)))
    } else {
        Some((None, run))
    }
}

/// Whether `text` holds a character other than a line break: what `.+` needs to match.
pub open spec fn has_line_char(text: Seq<char>) -> bool {
    exists|i: int| 0 <= i < text.len() && text[i] != '\n'
}

/// `COMPARISON` matches exactly the texts holding a character other than a line break.
pub proof fn lemma_comparison_matches(text: Seq<char>)
    ensures
        comparison_captures(text) is Some <==> has_line_char(text),
    decreases text.len(),
{
    if text.len() > 0 {
        if text[0] == '\n' {
            lemma_comparison_matches(text.drop_first());
            if has_line_char(text) {
                let i = choose|i: int| 0 <= i < text.len() && text[i] != '\n';
                assert(text.drop_first()[i - 1] == text[i]);
            }
            if has_line_char(text.drop_first()) {
                let i = choose|i: int| 0 <= i < text.drop_first().len() && text.drop_first()[i] != '\n';
                assert(text[i + 1] == text.drop_first()[i]);
            }
        } else {
            assert(line_of(text).len() > 0);
            assert(text[0] != '\n');
        }
    }
}

/// The capture groups of `([<>]=?)?(.+)` in `text`, through `regex`'s `Regex::new` and
/// `Regex::captures`. Claimed: they are the ones that leftmost-first matching gives (see
/// `comparison_captures`), `.` matching every character but the line break.
#[verifier::external_body]
pub(crate) fn capture_comparison(text: &str) -> (r: Option<(Option<String>, String)>)
    ensures
        comparison_captures(text@) == match r {
            Some((op, rest)) => Some((
                match op {
                    Some(o) => Some(o@),
                    None => None,
                },
                rest@,
            )),
            None => None,
        },
{
    match Regex::new(COMPARISON).unwrap().captures(text) {
        None => None,
        Some(c) => {
            let op = match c.get(1) {
                Some(m) => Some(m.as_str().to_string()),
                None => None,
            };
            Some((op, c.get(2).unwrap().as_str().to_string()))
        },
    }
}

/// Value of the decimal digits `s`.
pub open spec fn digits_value(s: Seq<char>) -> int
    decreases s.len(),
{
    if s.len() == 0 {
        0
    } else {
        10 * digits_value(s.drop_last()) + (s.last() as u32 - 48)
    }
}

/// Whether every character of `s` is an ASCII digit.
pub open spec fn all_digits(s: Seq<char>) -> bool {
    forall|i: int| 0 <= i < s.len() ==> 48 <= #[trigger] (s[i] as u32) <= 57
}

/// What `str::parse::<u16>` makes of `s`: an optional `+`, then at least one digit, of
/// value at most `u16::MAX`.
pub open spec fn spec_parse_u16(s: Seq<char>) -> Option<u16> {
    let d = if s.len() > 0 && s[0] == '+' { s.drop_first() } else { s };
    if d.len() > 0 && all_digits(d) && digits_value(d) <= 65535 {
        Some(digits_value(d) as u16)
    } else {
        None
    }
}

proof fn lemma_digits_value_nonneg(s: Seq<char>)
    requires
        all_digits(s),
    ensures
        digits_value(s) >= 0,
    decreases s.len(),
{
    if s.len() > 0 {
        assert(all_digits(s.drop_last())) by {
            assert forall|i: int| 0 <= i < s.drop_last().len() implies 48 <= #[trigger] (s.drop_last()[i] as u32) <= 57 by {
                assert(s.drop_last()[i] == s[i]);
            }
        }
        lemma_digits_value_nonneg(s.drop_last());
        assert(48 <= (s[s.len() - 1] as u32) <= 57);
    }
}

proof fn lemma_digits_value_grows(s: Seq<char>, i: int)
    requires
        all_digits(s),
        0 <= i <= s.len(),
    ensures
        digits_value(s.subrange(0, i)) <= digits_value(s),
    decreases s.len() - i,
{
    if i < s.len() {
        lemma_digits_value_grows(s, i + 1);
        let p = s.subrange(0, i + 1);
        assert(p.drop_last() =~= s.subrange(0, i));
        assert(all_digits(s.subrange(0, i))) by {
            assert forall|k: int| 0 <= k < i implies 48 <= #[trigger] (s.subrange(0, i)[k] as u32) <= 57 by {
                assert(s.subrange(0, i)[k] == s[k]);
            }
        }
        lemma_digits_value_nonneg(s.subrange(0, i));
        assert(48 <= (p.last() as u32) <= 57) by {
            assert(p.last() == s[i]);
        }
    } else {
        assert(s.subrange(0, i) =~= s);
    }
}

/// `s` read as a `u16`, the way `str::parse::<u16>` reads it.
pub fn parse_u16(s: &str) -> (r: Option<u16>)
    ensures
        r == spec_parse_u16(s@),
{
    let n = s.unicode_len();
    let mut start: usize = 0;
    if n > 0 && s.get_char(0) == '+' {
        start = 1;
    }
    let ghost d = if s@.len() > 0 && s@[0] == '+' { s@.drop_first() } else { s@ };
    proof {
        assert(d =~= s@.subrange(start as int, n as int));
    }
    if start == n {
        return None;
    }
    let mut value: u32 = 0;
    let mut i: usize = start;
    while i < n
        invariant
            start <= i <= n,
            n == s@.len(),
            start < n,
            d == s@.subrange(start as int, n as int),
            d == (if s@.len() > 0 && s@[0] == '+' { s@.drop_first() } else { s@ }),
            all_digits(d.subrange(0, i - start)),
            value == digits_value(d.subrange(0, i - start)),
            value <= 65535,
        decreases n - i,
    {
        let c = s.get_char(i);
        let u = c as u32;
        let ghost p = d.subrange(0, i - start + 1);
        proof {
            assert(p.drop_last() =~= d.subrange(0, i - start));
            assert(p.last() == c);
        }
        if u < 48 || u > 57 {
            proof {
                assert(d[i - start] == c);
                assert(!all_digits(d)) by {
                    assert(!(48 <= (d[i - start] as u32) <= 57));
                }
            }
            return None;
        }
        let next = value * 10 + (u - 48);
        proof {
            assert(all_digits(p)) by {
                assert forall|k: int| 0 <= k < p.len() implies 48 <= #[trigger] (p[k] as u32) <= 57 by {
                    if k < p.len() - 1 {
                        assert(p[k] == d.subrange(0, i - start)[k]);
                    }
                }
            }
        }
        if next > 65535 {
            proof {
                if all_digits(d) {
                    lemma_digits_value_grows(d, i - start + 1);
                    assert(d.subrange(0, i - start + 1) == p);
                }
            }
            return None;
        }
        value = next;
        i = i + 1;
    }
    proof {
        assert(d.subrange(0, n - start) =~= d);
    }
    Some(value as u16)
}

/// `s` with its last character: whether `s` ends with `=`.
pub open spec fn ends_with_eq(s: Seq<char>) -> bool {
    s.len() > 0 && s.last() == '='
}

/// The comparison operator of a date term: the one given, with `=` added when missing,
/// or `>=`.
pub open spec fn date_operator(op: Option<Seq<char>>) -> Seq<char> {
    match op {
        Some(o) => if ends_with_eq(o) { o } else { o + "="@ },
        None => ">="@,
    }
}

/// The comparison operator of a number term: the one given, or `=`.
pub open spec fn number_operator(op: Option<Seq<char>>) -> Seq<char> {
    match op {
        Some(o) => o,
        None => "="@,
    }
}

/// `NOT ` in front of an excluded term's condition.
pub open spec fn not_prefix(exclude: bool) -> Seq<char> {
    if exclude { "NOT "@ } else { Seq::empty() }
}

/// The condition a term with `value` on field `f` becomes, `None` when a number field is
/// given no number.
pub open spec fn spec_into_expression(f: SearchField, value: Seq<char>, exclude: bool) -> Option<(Seq<char>, Seq<ValueView>)> {
    match f {
        SearchField::Array(ident) => Some((
            not_prefix(exclude) + "ARRAY_TO_STRING("@ + ident@ + ", ', ') ILIKE $1"@,
            seq![ValueView::Text(value)],
        )),
        SearchField::Text(ident) => Some((not_prefix(exclude) + ident@ + " ILIKE $1"@, seq![ValueView::Text(value)])),
        SearchField::Equals(ident) => Some((not_prefix(exclude) + ident@ + " = $1"@, seq![ValueView::Text(value)])),
        SearchField::Date(ident, future) => match comparison_captures(value) {
            Some((op, date)) => Some((ident@ + " "@ + date_operator(op) + " $1"@, seq![ValueView::Date(date, future)])),
            None => None,
        },
        SearchField::Number(ident) => match comparison_captures(value) {
            Some((op, number)) => match spec_parse_u16(number) {
                Some(n) => Some((ident@ + " "@ + number_operator(op) + " $1"@, seq![ValueView::Number(n)])),
                None => None,
            },
            None => None,
        },
    }
}

impl SearchField {
    /// The SQL condition that a term with `value` on this field becomes, negated when
    /// `exclude` (dates and numbers are never negated).
    pub fn into_expression(self, value: &str, exclude: bool) -> (r: Result<SqlExpr, SearchError>)
        requires
            self is Date ==> has_line_char(value@),
        ensures
            match r {
                Ok(e) => spec_into_expression(self, value@, exclude) == Some((e.sql@, values_view(e.values@))),
                Err(e) => spec_into_expression(self, value@, exclude) is None && (e matches SearchError::ExpectedNumber(v)
                    && v@ == value@),
            },
    {
        let mut expr = String::new();
        if exclude {
            expr.append("NOT ");
        }
        match self {
            SearchField::Array(ident) => {
                expr.append("ARRAY_TO_STRING(");
                expr.append(ident);
                expr.append(", ', ') ILIKE $1");
            },
            SearchField::Text(ident) => {
                expr.append(ident);
                expr.append(" ILIKE $1");
            },
            SearchField::Date(ident, future) => {
                proof {
                    lemma_comparison_matches(value@);
                }
                let (op, date) = match capture_comparison(value) {
                    Some(c) => c,
                    None => {
                        assert(false);
                        (None, String::new())
                    },
                };
                let compare = match op {
                    Some(o) => {
                        let n = o.as_str().unicode_len();
                        if n > 0 && o.as_str().get_char(n - 1) == '=' {
                            o
                        } else {
                            o.concat("=")
                        }
                    },
                    None => ">=".to_owned(),
                };
                let mut sql = ident.to_owned();
                sql.append(" ");
                sql.append(compare.as_str());
                sql.append(" $1");
                let mut values: Vec<SqlValue> = Vec::new();
                values.push(SqlValue::Date(date, future));
                proof {
                    assert(values_view(values@) =~= seq![ValueView::Date(date@, future)]);
                }
                return Ok(SqlExpr { sql, values });
            },
            SearchField::Equals(ident) => {
                expr.append(ident);
                expr.append(" = $1");
            },
            SearchField::Number(ident) => {
                let (op, number) = match capture_comparison(value) {
                    Some(c) => c,
                    None => {
                        return Err(SearchError::ExpectedNumber(value.to_owned()));
                    },
                };
                let compare = match op {
                    Some(o) => o,
                    None => "=".to_owned(),
                };
                match parse_u16(number.as_str()) {
                    Some(n) => {
                        let mut sql = ident.to_owned();
                        sql.append(" ");
                        sql.append(compare.as_str());
                        sql.append(" $1");
                        let mut values: Vec<SqlValue> = Vec::new();
                        values.push(SqlValue::Number(n));
                        proof {
                            assert(values_view(values@) =~= seq![ValueView::Number(n)]);
                        }
                        return Ok(SqlExpr { sql, values });
                    },
                    None => {
                        return Err(SearchError::ExpectedNumber(value.to_owned()));
                    },
                }
            },
        }
        let mut values: Vec<SqlValue> = Vec::new();
        values.push(SqlValue::Text(value.to_owned()));
        proof {
            assert(values_view(values@) =~= seq![ValueView::Text(value@)]);
            assert(not_prefix(exclude) == (if exclude { "NOT "@ } else { Seq::<char>::empty() }));
        }
        Ok(SqlExpr { sql: expr, values })
    }
}

} // verus!
