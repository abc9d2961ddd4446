//! Page windows and chapter numbering shared by every paginated endpoint.

use vstd::prelude::*;

verus! {

/// Smallest number of items per page that a paginated RPC accepts.
pub const MIN_PER_PAGE: u64 = 1;

/// Largest number of items per page that a paginated RPC accepts.
pub const MAX_PER_PAGE: u64 = 50;

/// Items per page when the request names none.
pub const DEFAULT_PER_PAGE: u64 = 10;

/// `per_page.unwrap_or(10).clamp(1, 50)`.
pub open spec fn spec_per_page(requested: Option<u64>) -> u64 {
    let p = match requested {
        Some(p) => p,
        None => DEFAULT_PER_PAGE,
    };
    if p < MIN_PER_PAGE {
        MIN_PER_PAGE
    } else if p > MAX_PER_PAGE {
        MAX_PER_PAGE
    } else {
        p
    }
}

/// Number of pages the database paginator reports for `total` items.
pub open spec fn spec_number_of_pages(total: u64, per_page: u64) -> int
    recommends
        per_page > 0,
{
    if total % per_page == 0 {
        (total / per_page) as int
    } else {
        total / per_page + 1
    }
}

/// Highest (0-based) page index, `0` when there are no pages at all.
pub open spec fn spec_max_page(number_of_pages: u64) -> u64 {
    if number_of_pages == 0 {
        0
    } else {
        (number_of_pages - 1) as u64
    }
}

/// `page.unwrap_or(0).clamp(0, max_page)`.
pub open spec fn spec_page(requested: Option<u64>, max_page: u64) -> u64 {
    let p = match requested {
        Some(p) => p,
        None => 0,
    };
    if p > max_page {
        max_page
    } else {
        p
    }
}

/// The pagination block of every paginated reply.
#[derive(Debug, Clone, Copy, PartialEq, Eq)]
pub struct PaginateReply {
    pub page: u64,
    pub per_page: u64,
    pub max_page: u64,
    pub total: u64,
}

/// Query string of the HTTP listing endpoints.
#[derive(Debug, Clone, Copy, PartialEq, Eq)]
pub struct PaginateQuery {
    pub page: u64,
    pub limit: u64,
}

/// Page used when the query string names none.
pub fn default_page() -> (r: u64)
    ensures
        r == 0,
{
    0
}

/// Page size used when the query string names none.
pub fn default_limit() -> (r: u64)
    ensures
        r == 20,
{
    20
}

impl PaginateQuery {
    /// Builds the query from the two optional query-string fields, filling in the defaults.
    pub fn from_parts(page: Option<u64>, limit: Option<u64>) -> (r: Self)
        ensures
            r.page == (match page {
                Some(p) => p,
                None => 0,
            }),
            r.limit == (match limit {
                Some(l) => l,
                None => 20,
            }),
    {
        let page = match page {
            Some(p) => p,
            None => default_page(),
        };
        let limit = match limit {
            Some(l) => l,
            None => default_limit(),
        };
        PaginateQuery { page, limit }
    }
}

/// Items per page for a paginated RPC: the request's value, or 10, clamped to `1..=50`.
pub fn per_page(requested: Option<u64>) -> (r: u64)
    ensures
        r == spec_per_page(requested),
        MIN_PER_PAGE <= r <= MAX_PER_PAGE,
{
    let p = match requested {
        Some(p) => p,
        None => DEFAULT_PER_PAGE,
    };
    if p < MIN_PER_PAGE {
        MIN_PER_PAGE
    } else if p > MAX_PER_PAGE {
        MAX_PER_PAGE
    } else {
        p
    }
}

/// Number of pages the paginator reports for `total` items of `per_page` each.
pub fn number_of_pages(total: u64, per_page: u64) -> (r: u64)
    requires
        per_page > 0,
    ensures
        r == spec_number_of_pages(total, per_page),
{
    if total % per_page == 0 {
        total / per_page
    } else {
        assert(per_page >= 2);
        assert(total / per_page <= total / 2) by {
            vstd::arithmetic::div_mod::lemma_div_is_ordered_by_denominator(total as int, 2, per_page as int);
        }
        total / per_page + 1
    }
}

/// The pagination block of a reply: the requested page clamped into `0..=max_page`.
pub fn paginate_reply(requested_page: Option<u64>, per_page: u64, total: u64, number_of_pages: u64) -> (r:
    PaginateReply)
    ensures
        r.per_page == per_page,
        r.total == total,
        r.max_page == spec_max_page(number_of_pages),
        r.page == spec_page(requested_page, r.max_page),
{
    let max_page = if number_of_pages == 0 {
        0
    } else {
        number_of_pages - 1
    };
    let p = match requested_page {
        Some(p) => p,
        None => 0,
    };
    let page = if p > max_page {
        max_page
    } else {
        p
    };
    PaginateReply { page, per_page, max_page, total }
}

/// 1-based reading index of the `position`-th item of a page of chapters.
///
/// Oldest-first listings count up from the start of the page; newest-first listings
/// count down from `total`.
pub open spec fn spec_chapter_index(reversed: bool, total: int, page: int, per_page: int, position: int) -> int {
    if reversed {
        page * per_page + position + 1
    } else {
        total - page * per_page - position
    }
}

/// Reading index of the `position`-th chapter on `page`.
pub fn chapter_index(reversed: bool, total: u64, page: u64, per_page: u64, position: u64) -> (r: i64)
    requires
        page * per_page + position < total,
        total <= i64::MAX,
    ensures
        r == spec_chapter_index(reversed, total as int, page as int, per_page as int, position as int),
        1 <= r <= total,
{
    let skipped = page * per_page + position;
    if reversed {
        (skipped + 1) as i64
    } else {
        (total - skipped) as i64
    }
}

/// Offset (0-based) of the chapter asked for by its 1-based `index`, clamped into the
/// chapters that exist: an index below 1 gives the first chapter, one past the end the last.
pub fn chapter_offset(index: i32, total_chapters: u64) -> (r: u64)
    requires
        total_chapters <= i32::MAX,
    ensures
        total_chapters == 0 ==> r == 0,
        total_chapters > 0 ==> r < total_chapters,
        index < 1 ==> r == 0,
        1 <= index && index <= total_chapters ==> r == index - 1,
        index > total_chapters && total_chapters > 0 ==> r == total_chapters - 1,
{
    let upper: i32 = if total_chapters == 0 {
        1
    } else {
        total_chapters as i32
    };
    let clamped: i32 = if index < 1 {
        1
    } else if index > upper {
        upper
    } else {
        index
    };
    (clamped - 1) as u64
}

/// Why a `page`/`limit` pair of the HTTP listings is refused.
#[derive(Debug, Clone, Copy, PartialEq, Eq)]
pub enum PageError {
    /// `page` was 0; the listings count pages from 1.
    ZeroPage,
    /// `limit` was 0.
    ZeroLimit,
}

impl PageError {
    /// The message the caller is answered with.
    pub fn message(&self) -> (r: &'static str)
        ensures
            *self == PageError::ZeroPage ==> r@ == "page should be bigger than 0"@,
            *self == PageError::ZeroLimit ==> r@ == "limit should be bigger than 0"@,
    {
        match self {
            PageError::ZeroPage => "page should be bigger than 0",
            PageError::ZeroLimit => "limit should be bigger than 0",
        }
    }
}

/// `page.unwrap_or(1)` and `limit.unwrap_or(default)`, refusing a zero page or limit.
pub fn one_based_page(page: Option<u64>, limit: Option<u64>, default_limit: u64) -> (r: Result<
    (u64, u64),
    PageError,
>)
    ensures
        ({
            let p = match page {
                Some(p) => p,
                None => 1,
            };
            let l = match limit {
                Some(l) => l,
                None => default_limit,
            };
            &&& p == 0 ==> r == Err::<(u64, u64), PageError>(PageError::ZeroPage)
            &&& p != 0 && l == 0 ==> r == Err::<(u64, u64), PageError>(PageError::ZeroLimit)
            &&& p != 0 && l != 0 ==> r == Ok::<(u64, u64), PageError>((p, l))
        }),
{
    let p = match page {
        Some(p) => p,
        None => 1,
    };
    let l = match limit {
        Some(l) => l,
        None => default_limit,
    };
    if p == 0 {
        Err(PageError::ZeroPage)
    } else if l == 0 {
        Err(PageError::ZeroLimit)
    } else {
        Ok((p, l))
    }
}

/// Index that the one-based HTTP chapter listing gives its `position`-th item:
/// `num_items - (position + (page - 1) * limit)`.
pub fn one_based_chapter_index(num_items: u64, page: u64, limit: u64, position: u64) -> (r: u64)
    requires
        page >= 1,
        (page - 1) * limit + position < num_items,
    ensures
        r == num_items - (position + (page - 1) * limit),
        1 <= r <= num_items,
{
    num_items - (position + (page - 1) * limit)
}

/// Every item that a page shows is numbered the same whichever way the chapters are
/// listed: the chapter at 0-based ascending position `p` is the `p + 1`-th chapter in
/// oldest-first order and at descending position `total - 1 - p` in newest-first order.
pub proof fn lemma_chapter_index_order_independent(total: int, per_page: int, p: int, q: int)
    requires
        per_page > 0,
        0 <= p < total,
        0 <= q < total,
        p + q == total - 1,
    ensures
        spec_chapter_index(true, total, p / per_page, per_page, p % per_page) == spec_chapter_index(
            false,
            total,
            q / per_page,
            per_page,
            q % per_page,
        ),
{
    vstd::arithmetic::div_mod::lemma_fundamental_div_mod(p, per_page);
    vstd::arithmetic::div_mod::lemma_fundamental_div_mod(q, per_page);
    assert(per_page * (p / per_page) == (p / per_page) * per_page) by (nonlinear_arith);
    assert(per_page * (q / per_page) == (q / per_page) * per_page) by (nonlinear_arith);
}

/// A reply's page always lies inside the window it reports: at most `max_page`, and
/// strictly below the page count whenever there is a page at all.
pub proof fn lemma_page_in_window(requested: Option<u64>, number_of_pages: u64)
    ensures
        spec_page(requested, spec_max_page(number_of_pages)) <= spec_max_page(number_of_pages),
        number_of_pages > 0 ==> spec_page(requested, spec_max_page(number_of_pages)) < number_of_pages,
{
}

/// A page of the paginator holds at least one item exactly when its index is below the
/// page count: page `k` starts at item `k * per_page`.
pub proof fn lemma_pages_cover_items(total: u64, per_page: u64, k: int)
    requires
        per_page > 0,
        k >= 0,
    ensures
        k < spec_number_of_pages(total, per_page) <==> k * per_page < total,
{
    vstd::arithmetic::div_mod::lemma_fundamental_div_mod(total as int, per_page as int);
    assert(k < spec_number_of_pages(total, per_page) <==> k * per_page < total) by (nonlinear_arith)
        requires
            per_page > 0,
            k >= 0,
            total == per_page * (total / per_page) + total % per_page,
            0 <= total % per_page < per_page,
            spec_number_of_pages(total, per_page) == (if total % per_page == 0 {
                (total / per_page) as int
            } else {
                total / per_page + 1
            }),
    ;
}

} // verus!
