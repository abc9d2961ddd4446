use rumgap::api::v1::util::search::field::{parse_u16, SearchError, SearchField, SqlExpr, SqlValue};
use rumgap::api::v1::util::search::manga::{
    dates_readable, decimal, field_for, lucene_filter, lucene_filter_checked, SearchTerm, EXCLUDED_WORDS_SQL, WORDS_SQL,
};
use rumgap::service::v1::manga::{MangaController, MangaRefusal};
use rumgap::service::v1::search::{KnownSource, SearchController, SearchItem, SearchMatch};

fn term(name: Option<&str>, value: &str, exclude: bool) -> SearchTerm {
    SearchTerm { name: name.map(|n| n.to_string()), value: value.to_string(), exclude }
}

fn text(sql: &str, value: &str) -> SqlExpr {
    SqlExpr { sql: sql.to_string(), values: vec![SqlValue::Text(value.to_string())] }
}

#[test]
fn field_expressions() {
    assert_eq!(
        SearchField::Array("manga.genres").into_expression("%action%", false),
        Ok(text("ARRAY_TO_STRING(manga.genres, ', ') ILIKE $1", "%action%"))
    );
    assert_eq!(SearchField::Text("manga.description").into_expression("x", true), Ok(text("NOT manga.description ILIKE $1", "x")));
    assert_eq!(SearchField::Equals("manga.url").into_expression("u", false), Ok(text("manga.url = $1", "u")));
    assert_eq!(
        SearchField::Number("COUNT(chapter.id)").into_expression(">=12", false),
        Ok(SqlExpr { sql: "COUNT(chapter.id) >= $1".to_string(), values: vec![SqlValue::Number(12)] })
    );
    assert_eq!(
        SearchField::Number("COUNT(chapter.id)").into_expression("12", true),
        Ok(SqlExpr { sql: "COUNT(chapter.id) = $1".to_string(), values: vec![SqlValue::Number(12)] })
    );
    assert_eq!(
        SearchField::Number("COUNT(chapter.id)").into_expression("many", false),
        Err(SearchError::ExpectedNumber("many".to_string()))
    );
    assert_eq!(
        SearchField::Date("MAX(chapter.posted)", false).into_expression("<2020-01-01", false),
        Ok(SqlExpr {
            sql: "MAX(chapter.posted) <= $1".to_string(),
            values: vec![SqlValue::Date("2020-01-01".to_string(), false)]
        })
    );
    assert_eq!(
        SearchField::Date("MAX(chapter.posted)", true).into_expression("1 week", false),
        Ok(SqlExpr {
            sql: "MAX(chapter.posted) >= $1".to_string(),
            values: vec![SqlValue::Date("1 week".to_string(), true)]
        })
    );
    assert_eq!(SearchError::ExpectedNumber("x".to_string()).message(), "Expected number but got x");
}

#[test]
fn comparison_captures_follow_leftmost_first_matching() {
    let number = SearchField::Number("n");
    assert_eq!(number.into_expression(">10", false), Ok(SqlExpr { sql: "n > $1".to_string(), values: vec![SqlValue::Number(10)] }));
    assert_eq!(number.into_expression("\n\n<=7\nrest", false), Ok(SqlExpr { sql: "n <= $1".to_string(), values: vec![SqlValue::Number(7)] }));
    // `>=` with nothing after it: the `=` is what `.+` gets
    assert_eq!(number.into_expression(">=", false), Err(SearchError::ExpectedNumber(">=".to_string())));
    // a lone `<` is the rest itself
    assert_eq!(number.into_expression("<", false), Err(SearchError::ExpectedNumber("<".to_string())));
    assert_eq!(number.into_expression("\n", false), Err(SearchError::ExpectedNumber("\n".to_string())));
    assert_eq!(number.into_expression("ten", false), Err(SearchError::ExpectedNumber("ten".to_string())));
    let date = SearchField::Date("d", false);
    assert_eq!(
        date.into_expression(">=", false),
        Ok(SqlExpr { sql: "d >= $1".to_string(), values: vec![SqlValue::Date("=".to_string(), false)] })
    );
    assert_eq!(
        date.into_expression("<", false),
        Ok(SqlExpr { sql: "d >= $1".to_string(), values: vec![SqlValue::Date("<".to_string(), false)] })
    );
    assert_eq!(SearchError::UnknownField("y".to_string()).message(), "Field with name 'y' is not allowed");
}

#[test]
fn numbers_parse_like_std() {
    for s in ["0", "12", "+7", "65535", "65536", "", "+", "1a", "-1", "007", "999999"] {
        assert_eq!(parse_u16(s), s.parse::<u16>().ok(), "{s:?}");
    }
}

#[test]
fn field_names() {
    assert_eq!(field_for("genre"), Some(SearchField::Array("manga.genres")));
    assert_eq!(field_for("author"), field_for("authors"));
    assert_eq!(field_for("chapters"), Some(SearchField::Number("COUNT(chapter.id)")));
    assert_eq!(field_for("rating"), None);
    assert_eq!(decimal(0), "0");
    assert_eq!(decimal(1203), "1203");
}

#[test]
fn whole_queries() {
    assert_eq!(lucene_filter(&vec![]), Ok(vec![]));
    assert_eq!(
        lucene_filter(&vec![term(Some("rating"), "5", false), term(Some("chapters"), "x", false)]),
        Err(SearchError::UnknownField("rating".to_string()))
    );
    let r = lucene_filter(&vec![
        term(None, "hero", false),
        term(Some("genre"), "action", false),
        term(None, "villain", true),
        term(None, "sword", false),
    ])
    .unwrap();
    assert_eq!(r.len(), 3);
    assert_eq!(r[0], text("ARRAY_TO_STRING(manga.genres, ', ') ILIKE $1", "action"));
    assert_eq!(r[1].sql, format!("{}$1 || $2", WORDS_SQL));
    assert_eq!(r[1].values, vec![SqlValue::Text("%hero%".to_string()), SqlValue::Text("%sword%".to_string())]);
    assert_eq!(r[2].sql, format!("{}$1)", EXCLUDED_WORDS_SQL));
    assert_eq!(r[2].values, vec![SqlValue::Text("%villain%".to_string())]);
}

#[test]
fn search_results_find_their_tracked_manga() {
    let known = vec![
        KnownSource { manga_id: 3, url: "https://a.test/m".to_string(), progress: None },
        KnownSource { manga_id: 4, url: "https://b.test/m".to_string(), progress: Some(2) },
        KnownSource { manga_id: 5, url: "https://b.test/m".to_string(), progress: None },
    ];
    let urls = vec!["https://b.test/m".to_string(), "https://c.test/m".to_string(), "https://a.test/m".to_string()];
    assert_eq!(
        SearchController::match_results(&urls, &known),
        vec![
            SearchMatch { manga_id: Some(4), is_reading: true },
            SearchMatch { manga_id: None, is_reading: false },
            SearchMatch { manga_id: Some(3), is_reading: false },
        ]
    );
}

#[test]
fn manga_service_decisions() {
    assert!(MangaController::needs_refresh(10_000, 3_600, 5_000));
    assert!(!MangaController::needs_refresh(10_000, 3_600, 6_400));
    assert!(!MangaController::needs_refresh(i64::MIN, i64::MAX, i64::MIN));
    assert_eq!(MangaController::check_merge(false, 1, 2), Err(MangaRefusal::AdminRequired));
    assert_eq!(MangaController::check_merge(true, 1, 1), Err(MangaRefusal::MergeIntoItself));
    assert_eq!(MangaController::check_merge(true, 1, 2), Ok(()));
    assert_eq!(MangaController::check_move(false), Err(MangaRefusal::AdminRequired));
    assert_eq!(MangaRefusal::MergeIntoItself.message(), "Cannot merge a manga into itself");
}

#[test]
fn unreadable_dates_are_caught_before_filtering() {
    let bad = vec![term(Some("last"), "\n", false)];
    assert!(!dates_readable(&bad));
    assert!(lucene_filter_checked(&bad).is_none());
    // a refusal before the date term means the date is never read
    let refused_first = vec![term(Some("nope"), "x", false), term(Some("last"), "\n", false)];
    assert!(dates_readable(&refused_first));
    assert_eq!(
        lucene_filter_checked(&refused_first),
        Some(Err(SearchError::UnknownField("nope".to_string())))
    );
    let good = vec![term(Some("last"), ">2020-01-01", false), term(None, "word", false)];
    assert!(dates_readable(&good));
    assert_eq!(lucene_filter_checked(&good), Some(lucene_filter(&good)));
}

#[test]
fn only_unmatched_results_get_a_title_suggestion() {
    let unmatched = SearchMatch { manga_id: None, is_reading: false };
    let matched = SearchMatch { manga_id: Some(4), is_reading: true };
    assert!(SearchController::needs_suggestion(unmatched));
    assert!(!SearchController::needs_suggestion(matched));
    assert_eq!(
        SearchController::search_item("https://a.test/m".to_string(), "M".to_string(), unmatched, Some(9)),
        SearchItem {
            url: "https://a.test/m".to_string(),
            title: "M".to_string(),
            manga_id: None,
            is_reading: false,
            suggested_manga_id: Some(9),
        }
    );
    assert_eq!(
        SearchController::search_item("https://b.test/m".to_string(), "N".to_string(), matched, Some(9)).suggested_manga_id,
        None
    );
}
