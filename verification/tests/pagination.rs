use rumgap::pagination::{
    chapter_index, chapter_offset, default_limit, default_page, number_of_pages, one_based_chapter_index,
    one_based_page, paginate_reply, per_page, PageError, PaginateQuery,
};

#[test]
fn per_page_defaults_to_ten_and_is_clamped() {
    assert_eq!(per_page(None), 10);
    assert_eq!(per_page(Some(0)), 1);
    assert_eq!(per_page(Some(25)), 25);
    assert_eq!(per_page(Some(51)), 50);
}

#[test]
fn query_string_defaults() {
    assert_eq!(default_page(), 0);
    assert_eq!(default_limit(), 20);
    assert_eq!(PaginateQuery::from_parts(None, None), PaginateQuery { page: 0, limit: 20 });
    assert_eq!(PaginateQuery::from_parts(Some(3), Some(7)), PaginateQuery { page: 3, limit: 7 });
}

#[test]
fn pages_round_up() {
    assert_eq!(number_of_pages(0, 10), 0);
    assert_eq!(number_of_pages(10, 10), 1);
    assert_eq!(number_of_pages(11, 10), 2);
}

#[test]
fn requested_page_is_clamped_into_the_window() {
    let r = paginate_reply(Some(9), 10, 25, 3);
    assert_eq!(r.page, 2);
    assert_eq!(r.max_page, 2);
    assert_eq!(r.per_page, 10);
    assert_eq!(r.total, 25);
    let empty = paginate_reply(Some(4), 10, 0, 0);
    assert_eq!((empty.page, empty.max_page), (0, 0));
    assert_eq!(paginate_reply(None, 10, 25, 3).page, 0);
}

#[test]
fn chapter_numbering_both_ways() {
    // 25 chapters, 10 per page, second page (index 1)
    assert_eq!(chapter_index(true, 25, 1, 10, 0), 11);
    assert_eq!(chapter_index(false, 25, 1, 10, 0), 15);
    assert_eq!(chapter_index(false, 25, 0, 10, 0), 25);
    assert_eq!(chapter_index(true, 25, 2, 10, 4), 25);
    // the same chapter gets the same number whichever way it is listed
    assert_eq!(chapter_index(true, 25, 0, 10, 3), chapter_index(false, 25, 2, 10, 25 - 1 - 3 - 20));
}

#[test]
fn chapter_offset_clamps_the_index() {
    assert_eq!(chapter_offset(0, 5), 0);
    assert_eq!(chapter_offset(-3, 5), 0);
    assert_eq!(chapter_offset(3, 5), 2);
    assert_eq!(chapter_offset(9, 5), 4);
    assert_eq!(chapter_offset(4, 0), 0);
}

#[test]
fn one_based_listing_refuses_zero() {
    assert_eq!(one_based_page(None, None, 20), Ok((1, 20)));
    assert_eq!(one_based_page(Some(0), None, 20), Err(PageError::ZeroPage));
    assert_eq!(one_based_page(Some(2), Some(0), 20), Err(PageError::ZeroLimit));
    assert_eq!(PageError::ZeroPage.message(), "page should be bigger than 0");
    assert_eq!(PageError::ZeroLimit.message(), "limit should be bigger than 0");
    assert_eq!(one_based_chapter_index(25, 2, 10, 0), 15);
}
