use rumgap::api::v1::util::order::reading_order_field;
use rumgap::api::{chapter, manga, reading};

#[test]
fn route_bases() {
    assert_eq!(chapter::base(), "/manga/");
    assert_eq!(manga::base(), "manga");
    assert_eq!(reading::base(), "reading");
}

#[test]
fn list_window_defaults_and_refusals() {
    assert_eq!(manga::list_window(None, None, None, false), Ok((1, 10)));
    assert_eq!(manga::list_window(Some(3), Some(25), Some(true), true), Ok((3, 25)));
    assert_eq!(manga::list_window(Some(0), Some(5), None, true), Err(manga::ListError::ZeroPage));
    assert_eq!(manga::list_window(Some(2), Some(0), None, true), Err(manga::ListError::ZeroLimit));
    assert_eq!(
        manga::list_window(None, None, Some(false), false),
        Err(manga::ListError::HideReadingAnonymously)
    );
    assert_eq!(manga::ListError::ZeroPage.message(), "page should be bigger than 0");
    assert_eq!(manga::ListError::ZeroLimit.message(), "limit should be bigger than 0");
    assert_eq!(
        manga::ListError::HideReadingAnonymously.message(),
        "cannot hide reading if bearer token is missing in Authorization header"
    );
}

#[test]
fn stale_mangas_are_rescraped() {
    assert!(!manga::needs_update(None, 1_000_000, 1_000_000 - 600_000));
    assert!(manga::needs_update(None, 1_000_000, 1_000_000 - 600_001));
    assert!(manga::needs_update(Some(true), 5, 5));
    assert!(!manga::needs_update(Some(false), 5, 5));
    assert!(!manga::needs_update(None, i64::MIN, i64::MAX));
    assert!(manga::needs_update(None, i64::MAX, i64::MIN));
}

#[test]
fn listing_query_parts_follow_the_caller() {
    let (column, join, having) = manga::list_query_parts(true, Some(true));
    assert_eq!(column, ", IFNULL(reading.manga_id, 0) != 0 AS reading");
    assert_eq!(join, "LEFT JOIN reading ON reading.user_id = ? AND reading.manga_id = manga.id");
    assert_eq!(having, "HAVING reading = 0");
    assert_eq!(manga::list_query_parts(false, Some(false)), ("", "", ""));
}

#[test]
fn reading_keyword_becomes_prefix_terms() {
    assert_eq!(reading::boolean_mode_keyword(Some(" one, two ")), "+one* +two*");
    assert_eq!(reading::boolean_mode_keyword(Some("Kimetsu no Yaiba!")), "+Kimetsu* +no* +Yaiba*");
    assert_eq!(reading::boolean_mode_keyword(Some("a-b")), "+a* +b*");
    assert_eq!(reading::boolean_mode_keyword(Some("   ")), "");
    assert_eq!(reading::boolean_mode_keyword(None), "");
}

#[test]
fn cleaned_keywords_become_prefix_terms() {
    assert_eq!(reading::boolean_mode_terms("one  two"), "+one* +two*");
    assert_eq!(reading::boolean_mode_terms(" lone "), "+lone*");
    assert_eq!(reading::boolean_mode_terms(""), "");
}

#[test]
fn reading_order_fields() {
    assert_eq!(reading_order_field("progress"), Some("reading.title"));
    assert_eq!(reading_order_field("title"), Some("manga.title"));
    assert_eq!(reading_order_field("chapters"), Some("COUNT(chapter.id)"));
    assert_eq!(reading_order_field("updated"), Some("reading.updated_at"));
    assert_eq!(reading_order_field("created"), Some("reading.created_at"));
    assert_eq!(reading_order_field("Title"), None);
}

#[test]
fn stored_lists_are_split_as_str_split_does() {
    let lists = manga::JoinedLists {
        alt_titles: "One;;Two;;".to_string(),
        genres: "Action".to_string(),
        authors: "".to_string(),
    };
    let out = manga::map_manga_json(&lists, ";;");
    assert_eq!(out.alt_titles, vec!["One", "Two", ""]);
    assert_eq!(out.genres, vec!["Action"]);
    assert_eq!(out.authors, vec![""]);
    for (text, sep) in [("a,b,,c", ","), ("xxaxx", "xx"), ("aaa", "aa"), ("no separator", "|")] {
        let lists = manga::JoinedLists { alt_titles: text.to_string(), genres: String::new(), authors: String::new() };
        let expected: Vec<&str> = text.split(sep).collect();
        assert_eq!(manga::map_manga_json(&lists, sep).alt_titles, expected);
    }
}
