//! Routes of the mangas: what the listing and the detail route decide before querying.

use vstd::prelude::*;

use crate::text::{spec_split, split_by};

verus! {

/// Items per page when the query string names none.
pub const DEFAULT_LIMIT: u64 = 10;

/// Path under which the routes of the mangas are mounted.
pub fn base() -> (r: &'static str)
    ensures
        r@ == "manga"@,
{
    "manga"
}

/// Why a manga listing was refused.
#[derive(Debug, Clone, Copy, PartialEq, Eq)]
pub enum ListError {
    ZeroPage,
    ZeroLimit,
    /// Hiding the mangas being read needs a logged-in user.
    HideReadingAnonymously,
}

impl ListError {
    /// The message the caller is answered with.
    pub fn message(&self) -> (r: &'static str)
        ensures
            *self == ListError::ZeroPage ==> r@ == "page should be bigger than 0"@,
            *self == ListError::ZeroLimit ==> r@ == "limit should be bigger than 0"@,
            *self == ListError::HideReadingAnonymously
                ==> r@ == "cannot hide reading if bearer token is missing in Authorization header"@,
    {
        match self {
            ListError::ZeroPage => "page should be bigger than 0",
            ListError::ZeroLimit => "limit should be bigger than 0",
            ListError::HideReadingAnonymously => "cannot hide reading if bearer token is missing in Authorization header",
        }
    }
}

/// The (1-based) page and the page size of a manga listing: `page` defaults to 1 and
/// `limit` to 10; a zero page or limit is refused, and so is hiding the mangas being read
/// without a logged-in user.
pub fn list_window(page: Option<u64>, limit: Option<u64>, hide_reading: Option<bool>, logged_in: bool) -> (r: Result<
    (u64, u64),
    ListError,
>)
    ensures
        ({
            let p = match page {
                Some(p) => p,
                None => 1,
            };
            let l = match limit {
                Some(l) => l,
                None => DEFAULT_LIMIT,
            };
            &&& p == 0 ==> r == Err::<(u64, u64), ListError>(ListError::ZeroPage)
            &&& p != 0 && l == 0 ==> r == Err::<(u64, u64), ListError>(ListError::ZeroLimit)
            &&& p != 0 && l != 0 && hide_reading is Some && !logged_in ==> r == Err::<(u64, u64), ListError>(
                ListError::HideReadingAnonymously,
            )
            &&& r is Ok <==> p != 0 && l != 0 && !(hide_reading is Some && !logged_in)
            &&& r is Ok ==> r == Ok::<(u64, u64), ListError>((p, l))
        }),
{
    let p = match page {
        Some(p) => p,
        None => 1,
    };
    let l = match limit {
        Some(l) => l,
        None => DEFAULT_LIMIT,
    };
    if p == 0 {
        Err(ListError::ZeroPage)
    } else if l == 0 {
        Err(ListError::ZeroLimit)
    } else if hide_reading.is_some() && !logged_in {
        Err(ListError::HideReadingAnonymously)
    } else {
        Ok((p, l))
    }
}

/// How long a scraped manga stays fresh, in milliseconds: ten minutes.
pub const FRESH_MS: i64 = 600000;

/// Whether the detail route re-scrapes a manga last updated at `updated_ms` when asked at
/// `now_ms`: when forced, or when it is more than ten minutes old.
pub fn needs_update(force_refresh: Option<bool>, now_ms: i64, updated_ms: i64) -> (r: bool)
    ensures
        r == ((force_refresh == Some(true)) || now_ms - updated_ms > FRESH_MS),
{
    let force = match force_refresh {
        Some(f) => f,
        None => false,
    };
    force || (now_ms as i128) - (updated_ms as i128) > (FRESH_MS as i128)
}

/// The parts of the listing query that depend on the caller: the reading flag column and
/// the join it needs (only for a logged-in user), and the clause hiding the mangas being
/// read (only when asked to).
pub fn list_query_parts(logged_in: bool, hide_reading: Option<bool>) -> (r: (&'static str, &'static str, &'static str))
    ensures
        r.0@ == (if logged_in { ", IFNULL(reading.manga_id, 0) != 0 AS reading"@ } else { ""@ }),
        r.1@ == (if logged_in {
            "LEFT JOIN reading ON reading.user_id = ? AND reading.manga_id = manga.id"@
        } else {
            ""@
        }),
        r.2@ == (if hide_reading == Some(true) { "HAVING reading = 0"@ } else { ""@ }),
{
    let column = if logged_in {
        ", IFNULL(reading.manga_id, 0) != 0 AS reading"
    } else {
        ""
    };
    let join = if logged_in {
        "LEFT JOIN reading ON reading.user_id = ? AND reading.manga_id = manga.id"
    } else {
        ""
    };
    let having = match hide_reading {
        Some(true) => "HAVING reading = 0",
        _ => "",
    };
    (column, join, having)
}

/// The list columns of a stored manga, each holding its items joined by one separator.
#[derive(Debug, Clone, PartialEq, Eq)]
pub struct JoinedLists {
    pub alt_titles: String,
    pub genres: String,
    pub authors: String,
}

/// The list columns of a manga as the reply lists them.
#[derive(Debug, Clone, PartialEq, Eq)]
pub struct MangaLists {
    pub alt_titles: Vec<String>,
    pub genres: Vec<String>,
    pub authors: Vec<String>,
}

/// The texts of `v`.
pub open spec fn texts(v: Seq<String>) -> Seq<Seq<char>> {
    v.map_values(|x: String| x@)
}

/// The alternative titles, genres and authors of a stored manga, each split at the
/// separator `splitter` the columns were joined with.
pub fn map_manga_json(lists: &JoinedLists, splitter: &str) -> (r: MangaLists)
    requires
        splitter@.len() > 0,
    ensures
        texts(r.alt_titles@) == spec_split(lists.alt_titles@, splitter@),
        texts(r.genres@) == spec_split(lists.genres@, splitter@),
        texts(r.authors@) == spec_split(lists.authors@, splitter@),
{
    MangaLists {
        alt_titles: split_by(lists.alt_titles.as_str(), splitter),
        genres: split_by(lists.genres.as_str(), splitter),
        authors: split_by(lists.authors.as_str(), splitter),
    }
}

} // verus!
