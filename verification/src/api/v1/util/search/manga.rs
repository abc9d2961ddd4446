//! The searchable fields of the manga listing, and the filter that a whole search query
//! becomes.

use vstd::prelude::*;
use vstd::string::*;

use super::field::{has_line_char, spec_into_expression, values_view, SearchError, SearchField, SqlExpr, SqlValue, ValueView};
use crate::text::same_text;

verus! {

/// When the next chapter of a manga is expected: its last chapter plus the mean gap
/// between its chapters.
pub const NEXT_UPDATE_QUERY: &'static str =
    "(MAX(chapter.posted) + (MAX(chapter.posted) - MIN(chapter.posted)) / NULLIF(COUNT(*) - 1, 0))";

/// Titles searched by `title:`: the alternative titles, then the title.
pub const TITLE_SQL: &'static str = "ARRAY_TO_STRING(manga.alt_titles, ', ') || ' ' || manga.title";

/// Condition on the free words of a query, before its placeholders.
pub const WORDS_SQL: &'static str = "\n                ARRAY_TO_STRING(manga.genres, ', ')     || ' ' ||\n                ARRAY_TO_STRING(manga.authors, ', ')    || ' ' ||\n                ARRAY_TO_STRING(manga.alt_titles, ', ') || ' ' ||\n                manga.description                       || ' ' ||\n                manga.title                             ILIKE ";

/// Condition on the excluded free words of a query, before its placeholders.
pub const EXCLUDED_WORDS_SQL: &'static str = "\n                NOT (ARRAY_TO_STRING(manga.genres, ', ')|| ' ' ||\n                ARRAY_TO_STRING(manga.authors, ', ')    || ' ' ||\n                ARRAY_TO_STRING(manga.alt_titles, ', ') || ' ' ||\n                manga.description                       || ' ' ||\n                manga.title                             ILIKE ";

/// The field a term's name selects, if any.
pub open spec fn search_field(name: Seq<char>) -> Option<SearchField> {
    if name == "title"@ {
        Some(SearchField::Text(TITLE_SQL))
    } else if name == "description"@ {
        Some(SearchField::Text("manga.description"))
    } else if name == "url"@ {
        Some(SearchField::Equals("manga.url"))
    } else if name == "genres"@ || name == "genre"@ {
        Some(SearchField::Array("manga.genres"))
    } else if name == "authors"@ || name == "author"@ {
        Some(SearchField::Array("manga.authors"))
    } else if name == "last"@ {
        Some(SearchField::Date("MAX(chapter.posted)", false))
    } else if name == "next"@ {
        Some(SearchField::Date(NEXT_UPDATE_QUERY, true))
    } else if name == "chapters"@ {
        Some(SearchField::Number("COUNT(chapter.id)"))
    } else {
        None
    }
}

/// The names a query term can use, and the field each one selects: `title` searches the
/// alternative titles and the title, `description` the description, `url` is matched
/// whole, `genre(s)` and `author(s)` search those arrays, `last` and `next` compare the
/// last and the expected next chapter date, `chapters` counts chapters; no other name
/// selects a field.
pub proof fn lemma_search_field_table(name: Seq<char>)
    ensures
        name == "title"@ ==> search_field(name) == Some(
            SearchField::Text("ARRAY_TO_STRING(manga.alt_titles, ', ') || ' ' || manga.title"),
        ),
        name == "description"@ ==> search_field(name) == Some(SearchField::Text("manga.description")),
        name == "url"@ ==> search_field(name) == Some(SearchField::Equals("manga.url")),
        name == "genres"@ || name == "genre"@ ==> search_field(name) == Some(SearchField::Array("manga.genres")),
        name == "authors"@ || name == "author"@ ==> search_field(name) == Some(SearchField::Array("manga.authors")),
        name == "last"@ ==> search_field(name) == Some(SearchField::Date("MAX(chapter.posted)", false)),
        name == "next"@ ==> search_field(name) == Some(
            SearchField::Date(
                "(MAX(chapter.posted) + (MAX(chapter.posted) - MIN(chapter.posted)) / NULLIF(COUNT(*) - 1, 0))",
                true,
            ),
        ),
        name == "chapters"@ ==> search_field(name) == Some(SearchField::Number("COUNT(chapter.id)")),
        search_field(name) is Some <==> name == "title"@ || name == "description"@ || name == "url"@ || name
            == "genres"@ || name == "genre"@ || name == "authors"@ || name == "author"@ || name == "last"@ || name
            == "next"@ || name == "chapters"@,
{
    reveal_strlit("title");
    reveal_strlit("description");
    reveal_strlit("url");
    reveal_strlit("genres");
    reveal_strlit("genre");
    reveal_strlit("authors");
    reveal_strlit("author");
    reveal_strlit("last");
    reveal_strlit("next");
    reveal_strlit("chapters");
    assert("title"@.len() == 5 && "description"@.len() == 11 && "url"@.len() == 3);
    assert("genres"@.len() == 6 && "genre"@.len() == 5 && "authors"@.len() == 7 && "author"@.len() == 6);
    assert("last"@.len() == 4 && "next"@.len() == 4 && "chapters"@.len() == 8);
    assert("title"@[0] == 't' && "genre"@[0] == 'g' && "last"@[0] == 'l' && "next"@[0] == 'n');
    assert("genres"@[0] == 'g' && "author"@[0] == 'a');
}

/// The field named `name`, if any.
pub fn field_for(name: &str) -> (r: Option<SearchField>)
    ensures
        r == search_field(name@),
        name@ == "title"@ ==> r == Some(
            SearchField::Text("ARRAY_TO_STRING(manga.alt_titles, ', ') || ' ' || manga.title"),
        ),
        name@ == "description"@ ==> r == Some(SearchField::Text("manga.description")),
        name@ == "url"@ ==> r == Some(SearchField::Equals("manga.url")),
        name@ == "genres"@ || name@ == "genre"@ ==> r == Some(SearchField::Array("manga.genres")),
        name@ == "authors"@ || name@ == "author"@ ==> r == Some(SearchField::Array("manga.authors")),
        name@ == "last"@ ==> r == Some(SearchField::Date("MAX(chapter.posted)", false)),
        name@ == "next"@ ==> r == Some(
            SearchField::Date(
                "(MAX(chapter.posted) + (MAX(chapter.posted) - MIN(chapter.posted)) / NULLIF(COUNT(*) - 1, 0))",
                true,
            ),
        ),
        name@ == "chapters"@ ==> r == Some(SearchField::Number("COUNT(chapter.id)")),
        r is Some <==> name@ == "title"@ || name@ == "description"@ || name@ == "url"@ || name@ == "genres"@
            || name@ == "genre"@ || name@ == "authors"@ || name@ == "author"@ || name@ == "last"@ || name@
            == "next"@ || name@ == "chapters"@,
{
    proof {
        lemma_search_field_table(name@);
    }
    if same_text(name, "title") {
        Some(SearchField::Text(TITLE_SQL))
    } else if same_text(name, "description") {
        Some(SearchField::Text("manga.description"))
    } else if same_text(name, "url") {
        Some(SearchField::Equals("manga.url"))
    } else if same_text(name, "genres") || same_text(name, "genre") {
        Some(SearchField::Array("manga.genres"))
    } else if same_text(name, "authors") || same_text(name, "author") {
        Some(SearchField::Array("manga.authors"))
    } else if same_text(name, "last") {
        Some(SearchField::Date("MAX(chapter.posted)", false))
    } else if same_text(name, "next") {
        Some(SearchField::Date(NEXT_UPDATE_QUERY, true))
    } else if same_text(name, "chapters") {
        Some(SearchField::Number("COUNT(chapter.id)"))
    } else {
        None
    }
}

/// One term of a search query: `name:value`, a bare word when there is no name, and
/// `exclude` when it was written with a leading `-`.
#[derive(Debug, Clone)]
pub struct SearchTerm {
    pub name: Option<String>,
    pub value: String,
    pub exclude: bool,
}

/// A refusal as mathematics sees it.
pub enum SearchErrorView {
    UnknownField(Seq<char>),
    ExpectedNumber(Seq<char>),
}

pub open spec fn error_view(e: SearchError) -> SearchErrorView {
    match e {
        SearchError::UnknownField(n) => SearchErrorView::UnknownField(n@),
        SearchError::ExpectedNumber(v) => SearchErrorView::ExpectedNumber(v@),
    }
}

/// The conditions of the named terms, in order, or the refusal of the first bad one.
pub open spec fn spec_named(terms: Seq<SearchTerm>) -> Result<Seq<(Seq<char>, Seq<ValueView>)>, SearchErrorView>
    decreases terms.len(),
{
    if terms.len() == 0 {
        Ok(Seq::empty())
    } else {
        match spec_named(terms.drop_last()) {
            Err(e) => Err(e),
            Ok(es) => {
                let t = terms.last();
                match t.name {
                    None => Ok(es),
                    Some(n) => match search_field(n@) {
                        None => Err(SearchErrorView::UnknownField(n@)),
                        Some(f) => match spec_into_expression(f, t.value@, t.exclude) {
                            None => Err(SearchErrorView::ExpectedNumber(t.value@)),
                            Some(e) => Ok(es.push(e)),
                        },
                    },
                }
            },
        }
    }
}

/// Whether every date term that gets read before the first refusal has something to read.
pub open spec fn readable_dates(terms: Seq<SearchTerm>) -> bool
    decreases terms.len(),
{
    if terms.len() == 0 {
        true
    } else {
        &&& readable_dates(terms.drop_last())
        &&& spec_named(terms.drop_last()) is Ok ==> match terms.last().name {
            Some(n) => match search_field(n@) {
                Some(SearchField::Date(_, _)) => has_line_char(terms.last().value@),
                _ => true,
            },
            None => true,
        }
    }
}

/// `%value%` of the bare words, excluded ones when `excluded`, in order.
pub open spec fn like_values(terms: Seq<SearchTerm>, excluded: bool) -> Seq<Seq<char>>
    decreases terms.len(),
{
    if terms.len() == 0 {
        Seq::empty()
    } else {
        let t = terms.last();
        if t.name is None && t.exclude == excluded {
            like_values(terms.drop_last(), excluded).push("%"@ + t.value@ + "%"@)
        } else {
            like_values(terms.drop_last(), excluded)
        }
    }
}

/// Decimal digits of `n`.
pub open spec fn spec_decimal(n: nat) -> Seq<char>
    decreases n,
{
    if n < 10 {
        seq![(48 + n) as char]
    } else {
        spec_decimal(n / 10).push((48 + n % 10) as char)
    }
}

/// `$1 || $2 || ... || $n`.
pub open spec fn placeholders(n: nat) -> Seq<char>
    decreases n,
{
    if n == 0 {
        Seq::empty()
    } else if n == 1 {
        "$"@ + spec_decimal(1)
    } else {
        placeholders((n - 1) as nat) + " || "@ + "$"@ + spec_decimal(n)
    }
}

/// The filter a whole query becomes: the named terms' conditions, then one on the bare
/// words, then one against the excluded bare words; all must hold, and none means no
/// restriction.
pub open spec fn spec_lucene_filter(terms: Seq<SearchTerm>) -> Result<Seq<(Seq<char>, Seq<ValueView>)>, SearchErrorView> {
    match spec_named(terms) {
        Err(e) => Err(e),
        Ok(es) => {
            let inc = like_values(terms, false);
            let exc = like_values(terms, true);
            let es2 = if inc.len() > 0 {
                es.push((WORDS_SQL@ + placeholders(inc.len()), inc.map_values(|v: Seq<char>| ValueView::Text(v))))
            } else {
                es
            };
            Ok(
                if exc.len() > 0 {
                    es2.push(
                        (
                            EXCLUDED_WORDS_SQL@ + placeholders(exc.len()) + ")"@,
                            exc.map_values(|v: Seq<char>| ValueView::Text(v)),
                        ),
                    )
                } else {
                    es2
                },
            )
        },
    }
}

/// The conditions `es` as mathematics sees them.
pub open spec fn exprs_view(es: Seq<SqlExpr>) -> Seq<(Seq<char>, Seq<ValueView>)> {
    es.map_values(|e: SqlExpr| (e.sql@, values_view(e.values@)))
}

/// The decimal digit `d`.
fn digit_str(d: usize) -> (r: &'static str)
    requires
        d < 10,
    ensures
        r@ == seq![(48 + d) as char],
{
    proof {
        reveal_strlit("0");
        reveal_strlit("1");
        reveal_strlit("2");
        reveal_strlit("3");
        reveal_strlit("4");
        reveal_strlit("5");
        reveal_strlit("6");
        reveal_strlit("7");
        reveal_strlit("8");
        reveal_strlit("9");
    }
    match d {
        0 => "0",
        1 => "1",
        2 => "2",
        3 => "3",
        4 => "4",
        5 => "5",
        6 => "6",
        7 => "7",
        8 => "8",
        _ => "9",
    }
}

/// `n` in decimal.
pub fn decimal(n: usize) -> (r: String)
    ensures
        r@ == spec_decimal(n as nat),
    decreases n,
{
    if n < 10 {
        digit_str(n).to_owned()
    } else {
        let mut s = decimal(n / 10);
        s.append(digit_str(n % 10));
        s
    }
}

/// `$1 || $2 || ... || $n`.
fn placeholder_list(n: usize) -> (r: String)
    ensures
        r@ == placeholders(n as nat),
{
    let mut s = String::new();
    let mut i: usize = 0;
    while i < n
        invariant
            i <= n,
            s@ == placeholders(i as nat),
        decreases n - i,
    {
        if i > 0 {
            s.append(" || ");
        }
        s.append("$");
        s.append(decimal(i + 1).as_str());
        proof {
            if i == 0 {
                assert(s@ =~= "$"@ + spec_decimal(1));
            } else {
                assert(s@ =~= placeholders(i as nat) + " || "@ + "$"@ + spec_decimal((i + 1) as nat));
            }
        }
        i = i + 1;
    }
    s
}

/// The condition on a list of bare words: `sql`, the placeholders of the words, `close`.
fn words_condition(sql: &str, words: Vec<String>, close: &str) -> (r: SqlExpr)
    ensures
        r.sql@ == sql@ + placeholders(words@.len()) + close@,
        values_view(r.values@) == words@.map_values(|w: String| ValueView::Text(w@)),
{
    let mut text = sql.to_owned();
    text.append(placeholder_list(words.len()).as_str());
    text.append(close);
    let ghost ws = words@;
    let mut values: Vec<SqlValue> = Vec::new();
    let mut rest = words;
    let mut i: usize = 0;
    let n = rest.len();
    while i < n
        invariant
            n == ws.len(),
            i <= n,
            rest@ == ws.skip(i as int),
            values@.len() == i,
            values_view(values@) == ws.take(i as int).map_values(|w: String| ValueView::Text(w@)),
        decreases n - i,
    {
        let w = rest.remove(0);
        proof {
            assert(w == ws[i as int]);
        }
        let ghost before = values@;
        let ghost wv = w@;
        values.push(SqlValue::Text(w));
        proof {
            assert(values@[i as int] matches SqlValue::Text(x) && x@ == wv);
            assert(ws.take(i as int + 1)[i as int] == ws[i as int]);
            let lhs = values_view(values@);
            let rhs = ws.take(i as int + 1).map_values(|w: String| ValueView::Text(w@));
            let old_rhs = ws.take(i as int).map_values(|w: String| ValueView::Text(w@));
            assert(values_view(before) == old_rhs);
            assert forall|k: int| 0 <= k < i implies #[trigger] lhs[k] == rhs[k] by {
                assert(values@[k] == before[k]);
                assert(lhs[k] == values_view(before)[k]);
                assert(ws.take(i as int + 1)[k] == ws.take(i as int)[k]);
                assert(rhs[k] == old_rhs[k]);
            }
            assert(lhs[i as int] == rhs[i as int]);
            assert(lhs =~= rhs);
            assert(rest@ =~= ws.skip(i as int + 1));
        }
        i = i + 1;
    }
    proof {
        assert(ws.take(n as int) =~= ws);
    }
    SqlExpr { sql: text, values }
}

/// Turns a search query into the conditions a manga must meet, all of them (none means
/// no restriction): one per `name:value` term, in order, then one requiring any of the
/// bare words somewhere in the manga's texts, then one excluding the `-`words. A term
/// naming an unknown field, or a number field given no number, refuses the query.
pub fn lucene_filter(terms: &Vec<SearchTerm>) -> (r: Result<Vec<SqlExpr>, SearchError>)
    requires
        readable_dates(terms@),
    ensures
        match r {
            Ok(es) => spec_lucene_filter(terms@) == Ok::<_, SearchErrorView>(exprs_view(es@)),
            Err(e) => spec_lucene_filter(terms@) == Err::<Seq<(Seq<char>, Seq<ValueView>)>, _>(error_view(e)),
        },
{
    let mut exprs: Vec<SqlExpr> = Vec::new();
    let mut words: Vec<String> = Vec::new();
    let mut excluded: Vec<String> = Vec::new();
    let mut i: usize = 0;
    proof {
        assert(terms@.take(0) =~= Seq::<SearchTerm>::empty());
        assert(exprs_view(exprs@) =~= Seq::<(Seq<char>, Seq<ValueView>)>::empty());
        assert(words@.map_values(|w: String| w@) =~= Seq::<Seq<char>>::empty());
        assert(excluded@.map_values(|w: String| w@) =~= Seq::<Seq<char>>::empty());
    }
    while i < terms.len()
        invariant
            i <= terms@.len(),
            readable_dates(terms@),
            spec_named(terms@.take(i as int)) == Ok::<_, SearchErrorView>(exprs_view(exprs@)),
            words@.map_values(|w: String| w@) == like_values(terms@.take(i as int), false),
            excluded@.map_values(|w: String| w@) == like_values(terms@.take(i as int), true),
        decreases terms@.len() - i,
    {
        let ghost pre = terms@.take(i as int);
        let ghost now = terms@.take(i as int + 1);
        proof {
            assert(now.drop_last() =~= pre);
            assert(now.last() == terms@[i as int]);
            lemma_readable_prefix(terms@, i as int + 1);
        }
        let t = &terms[i];
        match &t.name {
            Some(n) => match field_for(n.as_str()) {
                None => {
                    proof {
                        lemma_named_error_persists(terms@, i as int + 1);
                    }
                    return Err(SearchError::UnknownField(n.clone()));
                },
                Some(f) => match f.into_expression(t.value.as_str(), t.exclude) {
                    Ok(e) => {
                        let ghost before = exprs@;
                        let ghost ev = (e.sql@, values_view(e.values@));
                        exprs.push(e);
                        proof {
                            assert(exprs_view(exprs@) =~= exprs_view(before).push(ev));
                        }
                    },
                    Err(e) => {
                        proof {
                            lemma_named_error_persists(terms@, i as int + 1);
                        }
                        return Err(e);
                    },
                },
            },
            None => {
                let mut w = "%".to_owned();
                w.append(t.value.as_str());
                w.append("%");
                if t.exclude {
                    excluded.push(w);
                } else {
                    words.push(w);
                }
            },
        }
        proof {
            assert(words@.map_values(|w: String| w@) =~= like_values(now, false));
            assert(excluded@.map_values(|w: String| w@) =~= like_values(now, true));
        }
        i = i + 1;
    }
    proof {
        assert(terms@.take(i as int) =~= terms@);
    }
    let ghost named = exprs@;
    let ghost inc = like_values(terms@, false);
    let ghost exc = like_values(terms@, true);
    proof {
        assert(words@.len() == inc.len());
        assert(excluded@.len() == exc.len());
    }
    if words.len() > 0 {
        proof {
            let wv = words@.map_values(|w: String| ValueView::Text(w@));
            let iv = inc.map_values(|v: Seq<char>| ValueView::Text(v));
            let wn = words@.map_values(|w: String| w@);
            assert forall|k: int| 0 <= k < inc.len() implies #[trigger] wv[k] == iv[k] by {
                assert(wn[k] == inc[k]);
            }
            assert(wv =~= iv);
            reveal_strlit("");
        }
        let c = words_condition(WORDS_SQL, words, "");
        let ghost cv = (c.sql@, values_view(c.values@));
        proof {
            assert(c.sql@ =~= WORDS_SQL@ + placeholders(inc.len()));
        }
        let ghost before = exprs@;
        exprs.push(c);
        proof {
            assert(exprs_view(exprs@) =~= exprs_view(before).push(cv));
        }
    }
    let ghost mid = exprs@;
    if excluded.len() > 0 {
        proof {
            let wv = excluded@.map_values(|w: String| ValueView::Text(w@));
            let iv = exc.map_values(|v: Seq<char>| ValueView::Text(v));
            let wn = excluded@.map_values(|w: String| w@);
            assert forall|k: int| 0 <= k < exc.len() implies #[trigger] wv[k] == iv[k] by {
                assert(wn[k] == exc[k]);
            }
            assert(wv =~= iv);
        }
        let c = words_condition(EXCLUDED_WORDS_SQL, excluded, ")");
        let ghost cv = (c.sql@, values_view(c.values@));
        let ghost before = exprs@;
        exprs.push(c);
        proof {
            assert(exprs_view(exprs@) =~= exprs_view(before).push(cv));
        }
    }
    Ok(exprs)
}

/// Once a prefix of a query is refused, the whole query is refused the same way.
pub proof fn lemma_named_error_persists(terms: Seq<SearchTerm>, k: int)
    requires
        0 <= k <= terms.len(),
        spec_named(terms.take(k)) is Err,
    ensures
        spec_named(terms) == spec_named(terms.take(k)),
    decreases terms.len() - k,
{
    if k == terms.len() {
        assert(terms.take(k) =~= terms);
    } else {
        assert(terms.take(k + 1).drop_last() =~= terms.take(k));
        lemma_named_error_persists(terms, k + 1);
    }
}

/// A query whose dates are readable has readable dates in every prefix.
pub proof fn lemma_readable_prefix(terms: Seq<SearchTerm>, k: int)
    requires
        0 <= k <= terms.len(),
        readable_dates(terms),
    ensures
        readable_dates(terms.take(k)),
    decreases terms.len() - k,
{
    if k == terms.len() {
        assert(terms.take(k) =~= terms);
    } else {
        lemma_readable_prefix(terms, k + 1);
        assert(terms.take(k + 1).drop_last() =~= terms.take(k));
    }
}

/// Whether `text` holds a character other than a line break.
pub fn has_line_char_exec(text: &str) -> (r: bool)
    ensures
        r == has_line_char(text@),
{
    let n = text.unicode_len();
    let mut i: usize = 0;
    while i < n
        invariant
            n == text@.len(),
            i <= n,
            forall|k: int| 0 <= k < i ==> text@[k] == '\n',
        decreases n - i,
    {
        if text.get_char(i) != '\n' {
            return true;
        }
        i = i + 1;
    }
    false
}

/// Whether every date term that gets read before the first refusal has something to read:
/// the condition under which `lucene_filter` can be asked.
pub fn dates_readable(terms: &Vec<SearchTerm>) -> (r: bool)
    ensures
        r == readable_dates(terms@),
{
    let mut ok = true;
    let mut i: usize = 0;
    while i < terms.len()
        invariant
            i <= terms@.len(),
            ok == spec_named(terms@.take(i as int)) is Ok,
            readable_dates(terms@.take(i as int)),
        decreases terms@.len() - i,
    {
        let t = &terms[i];
        proof {
            assert(terms@.take(i as int + 1).drop_last() =~= terms@.take(i as int));
            assert(terms@.take(i as int + 1).last() == *t);
        }
        if ok {
            match &t.name {
                None => {},
                Some(n) => match field_for(n.as_str()) {
                    None => {
                        ok = false;
                    },
                    Some(f) => {
                        let readable = match f {
                            SearchField::Date(_, _) => has_line_char_exec(t.value.as_str()),
                            _ => true,
                        };
                        if !readable {
                            proof {
                                if readable_dates(terms@) {
                                    lemma_readable_prefix(terms@, i as int + 1);
                                }
                            }
                            return false;
                        }
                        if f.into_expression(t.value.as_str(), t.exclude).is_err() {
                            ok = false;
                        }
                    },
                },
            }
        }
        i = i + 1;
    }
    proof {
        assert(terms@.take(i as int) =~= terms@);
    }
    true
}

/// `lucene_filter` on every query it can be asked: `None` for a query with a date term,
/// read before any refusal, that holds nothing but line breaks (on which the filter's
/// date reading fails), the filter's answer otherwise.
pub fn lucene_filter_checked(terms: &Vec<SearchTerm>) -> (r: Option<Result<Vec<SqlExpr>, SearchError>>)
    ensures
        r is None <==> !readable_dates(terms@),
        r matches Some(x) ==> match x {
            Ok(es) => spec_lucene_filter(terms@) == Ok::<_, SearchErrorView>(exprs_view(es@)),
            Err(e) => spec_lucene_filter(terms@) == Err::<Seq<(Seq<char>, Seq<ValueView>)>, _>(error_view(e)),
        },
{
    if dates_readable(terms) {
        Some(lucene_filter(terms))
    } else {
        None
    }
}

} // verus!
