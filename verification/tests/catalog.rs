use rumgap::status::Code;
use rumgap::catalog::{
    Catalog, CatalogError, MangaMeta, RemoveSourceOutcome, ScrapedChapter, ScrapedManga, SyncOutcome,
};

/// A scraped chapter of `source` numbered `number` (in thousandths), at a url of its own.
fn chapter(source: &str, number: i64) -> ScrapedChapter {
    let label = if number % 1000 == 0 {
        format!("{}", number / 1000)
    } else {
        format!("{}.{}", number / 1000, (number % 1000) / 100)
    };
    ScrapedChapter {
        url: format!("https://{source}.test/c{label}"),
        ordinal: number,
        title: format!("Chapter {label}"),
        posted: None,
    }
}

fn meta(title: &str) -> MangaMeta {
    MangaMeta {
        title: title.to_string(),
        description: String::new(),
        is_ongoing: true,
        authors: vec![],
        alt_titles: vec![],
        genres: vec![],
        status: None,
    }
}

/// A scrape of the manga at `https://{host}/manga`, chapters newest first.
fn scraped(title: &str, host: &str, chapters: Vec<ScrapedChapter>) -> ScrapedManga {
    ScrapedManga {
        url: format!("https://{host}/manga"),
        hostname: host.to_string(),
        meta: meta(title),
        cover_url: None,
        chapters,
    }
}

/// Creates a manga whose one (primary) source is at `host`; gives (manga, source).
fn make_manga(cat: &mut Catalog, title: &str, host: &str, chapters: Vec<ScrapedChapter>) -> (i32, i32) {
    let s = scraped(title, host, chapters);
    let manga = cat.create_manga(s).unwrap();
    let source = cat.source_ids_of(manga)[0];
    (manga, source)
}

/// The chapter of `source` with `ordinal`.
fn chapter_at(cat: &Catalog, source: i32, ordinal: i64) -> rumgap::catalog::ChapterRow {
    let id = cat
        .chapter_ids_of(source)
        .into_iter()
        .find(|id| cat.chapter(*id).unwrap().ordinal == ordinal)
        .unwrap();
    let c = cat.chapter(id).unwrap();
    rumgap::catalog::ChapterRow {
        id: c.id,
        manga_source_id: c.manga_source_id,
        url: c.url.clone(),
        ordinal: c.ordinal,
        title: c.title.clone(),
        posted: c.posted,
        canonical_chapter_id: c.canonical_chapter_id,
    }
}

/// The canonical chapter of `manga` at `ordinal`, through the chapter of `source` there.
fn canonical_at(cat: &Catalog, source: i32, ordinal: i64) -> i32 {
    chapter_at(cat, source, ordinal).canonical_chapter_id.unwrap()
}

/// Starts a reading row of `user` on `manga`, read up to `canonical`.
fn make_reading(cat: &mut Catalog, user: i32, manga: i32, canonical: i32) {
    cat.create_reading(user, manga).unwrap();
    cat.sync_reading_progress(user, manga, canonical).unwrap();
}

#[test]
fn move_source_relinks_canonical_chapters_onto_target() {
    let mut cat = Catalog::new();
    let (manga_a, source_a) = make_manga(
        &mut cat,
        "Manga A",
        "move-a.test",
        vec![chapter("move-a-1", 1000), chapter("move-a-2", 2000), chapter("move-a-3", 3000)],
    );
    let (manga_b, source_b) = make_manga(
        &mut cat,
        "Manga B",
        "move-b.test",
        vec![chapter("move-b-2", 2000), chapter("move-b-3", 3000), chapter("move-b-4", 4000)],
    );

    cat.move_source_to_manga(source_a, manga_b).unwrap();

    assert!(!cat.contains_manga(manga_a), "manga_a should be deleted once its only source moved away");

    let moved_source = cat.source(source_a).unwrap();
    assert_eq!(moved_source.manga_id, manga_b);
    assert!(!moved_source.is_primary, "moved source must not steal manga_b's primary flag");

    let moved_2 = chapter_at(&cat, source_a, 2000);
    let target_2 = chapter_at(&cat, source_b, 2000);
    assert_eq!(
        moved_2.canonical_chapter_id, target_2.canonical_chapter_id,
        "moved chapter 2 should converge onto manga_b's existing ordinal-2 canonical row"
    );

    assert_eq!(
        cat.count_canonical_chapters(manga_b, Some(2000)),
        1,
        "must reuse the existing ordinal-2 row, not duplicate it"
    );

    let moved_1 = chapter_at(&cat, source_a, 1000);
    let canonical_1 = cat.canonical_chapter(moved_1.canonical_chapter_id.unwrap()).unwrap();
    assert_eq!(canonical_1.manga_id, manga_b, "ordinal 1 (new to manga_b) must be created under manga_b");
}

#[test]
fn merge_manga_reconciles_reading_progress() {
    let mut cat = Catalog::new();
    let (manga_a, source_a) = make_manga(
        &mut cat,
        "Merge A",
        "merge-a.test",
        vec![chapter("merge-a-1", 1000), chapter("merge-a-2", 2000), chapter("merge-a-3", 3000)],
    );
    let (manga_b, source_b) = make_manga(
        &mut cat,
        "Merge B",
        "merge-b.test",
        vec![chapter("merge-b-1", 1000), chapter("merge-b-2", 2000), chapter("merge-b-3", 3000)],
    );

    let user1 = 1; // further along on A - A should win
    let user2 = 2; // only ever read B - untouched
    let user3 = 3; // further along on B - B should win

    let a3 = canonical_at(&cat, source_a, 3000);
    let a1 = canonical_at(&cat, source_a, 1000);
    let b1 = canonical_at(&cat, source_b, 1000);
    let b2 = canonical_at(&cat, source_b, 2000);
    make_reading(&mut cat, user1, manga_a, a3);
    make_reading(&mut cat, user1, manga_b, b1);
    make_reading(&mut cat, user2, manga_b, b2);
    make_reading(&mut cat, user3, manga_a, a1);
    make_reading(&mut cat, user3, manga_b, b2);

    cat.merge_manga_sources(manga_a, manga_b).unwrap();

    assert!(!cat.contains_manga(manga_a), "manga_a should be deleted once fully merged into manga_b");

    for user in [user1, user2, user3] {
        assert!(cat.reading(user, manga_a).is_none(), "no reading row should survive for the deleted manga_a");
    }

    let user1_reading = cat.reading(user1, manga_b).unwrap();
    assert_eq!(user1_reading.progress, 3, "user1 was further along on A (3 > 1) - A's progress should win");
    let user1_canonical = cat.canonical_chapter(user1_reading.last_canonical_chapter_id.unwrap()).unwrap();
    assert_eq!(user1_canonical.manga_id, manga_b);
    assert_eq!(user1_canonical.ordinal, 3000);

    let user2_reading = cat.reading(user2, manga_b).unwrap();
    assert_eq!(user2_reading.progress, 2, "user2 never had progress on A - manga_b's row must be untouched");

    let user3_reading = cat.reading(user3, manga_b).unwrap();
    assert_eq!(user3_reading.progress, 2, "user3 was further along on B (2 > 1) - B's progress should win");
}

#[test]
fn convergence_and_ambiguity() {
    let mut cat = Catalog::new();
    let (manga, source_a) =
        make_manga(&mut cat, "Test Manga", "a.test", vec![chapter("a", 1000), chapter("a", 2000), chapter("a", 3000)]);
    assert_eq!(cat.count_canonical_chapters(manga, None), 3, "expected 3 solo canonical rows after source A");

    let b = scraped("Test Manga", "b.test", vec![chapter("b", 1000), chapter("b", 2000), chapter("b", 4000)]);
    let source_b = cat.add_manga_source(manga, &"https://b.test/manga".to_string(), b).unwrap();
    assert_eq!(
        cat.count_canonical_chapters(manga, None),
        4,
        "expected only 1 new canonical row (ordinal 4) after source B converges on 1/2"
    );

    let a1 = chapter_at(&cat, source_a, 1000);
    let b1 = chapter_at(&cat, source_b, 1000);
    assert_eq!(
        a1.canonical_chapter_id, b1.canonical_chapter_id,
        "source A's and source B's chapter 1 should converge on the same canonical row"
    );
    assert!(a1.canonical_chapter_id.is_some());
    assert_eq!(chapter_at(&cat, source_a, 2000).canonical_chapter_id, chapter_at(&cat, source_b, 2000).canonical_chapter_id);
    let b4 = chapter_at(&cat, source_b, 4000);
    assert!(b4.canonical_chapter_id.is_some());
    assert_ne!(b4.canonical_chapter_id, a1.canonical_chapter_id);
    assert_eq!(cat.source(source_b).unwrap().is_primary, false);

    // Source C: two chapters of the same scrape both claim ordinal 5 - ambiguous: one is
    // linked, the other left unlinked, and only one canonical row exists at ordinal 5.
    let c = scraped("Test Manga", "c.test", vec![chapter("c-5a", 5000), chapter("c-5b", 5000)]);
    let source_c = cat.add_manga_source(manga, &"https://c.test/manga".to_string(), c).unwrap();
    let ids = cat.chapter_ids_of(source_c);
    assert_eq!(ids.len(), 2);
    let linked = ids.iter().filter(|id| cat.chapter(**id).unwrap().canonical_chapter_id.is_some()).count();
    assert_eq!(linked, 1, "exactly one of the two same-ordinal chapters should be linked");
    assert_eq!(cat.count_canonical_chapters(manga, Some(5000)), 1, "only one canonical row should ever exist at ordinal 5");
}

#[test]
fn an_ambiguous_chapter_can_be_linked_by_hand() {
    let mut cat = Catalog::new();
    let (manga, source) = make_manga(&mut cat, "M", "m.test", vec![chapter("m-5a", 5000), chapter("m-5b", 5000)]);
    let ids = cat.chapter_ids_of(source);
    let first = cat.chapter(ids[0]).unwrap().canonical_chapter_id;
    assert!(first.is_some(), "the first chapter inserted at an ordinal is the one linked");
    assert_eq!(cat.chapter(ids[1]).unwrap().canonical_chapter_id, None);
    assert_eq!(cat.link_chapter(ids[1], first.unwrap()), Ok(()));
    assert_eq!(cat.chapter(ids[1]).unwrap().canonical_chapter_id, first);
    assert_eq!(cat.count_canonical_chapters(manga, Some(5000)), 1);
}

#[test]
fn scrape_inserts_oldest_first_and_skips_taken_urls() {
    let mut cat = Catalog::new();
    let (_, source) = make_manga(&mut cat, "M", "m.test", vec![chapter("m", 3000), chapter("m", 2000), chapter("m", 1000)]);
    let ids = cat.chapter_ids_of(source);
    let ordinals: Vec<i64> = ids.iter().map(|id| cat.chapter(*id).unwrap().ordinal).collect();
    assert_eq!(ordinals, vec![1000, 2000, 3000]);
    assert!(ids[0] < ids[1] && ids[1] < ids[2]);

    // the same chapters plus a new one: only the new one is inserted
    let manga = cat.source(source).unwrap().manga_id;
    let outcome = cat.sync_chapters_for_source(
        manga,
        source,
        false,
        &vec![chapter("m", 4000), chapter("m", 3000), chapter("m", 2000), chapter("m", 1000)],
    );
    match outcome {
        SyncOutcome::Synced { cleared, inserted } => {
            assert_eq!(cleared, 0);
            assert_eq!(inserted.len(), 1);
            assert_eq!(cat.chapter(inserted[0]).unwrap().ordinal, 4000);
            assert!(cat.chapter(inserted[0]).unwrap().canonical_chapter_id.is_some());
        }
        other => panic!("unexpected outcome {other:?}"),
    }
    assert_eq!(cat.chapter_ids_of(source).len(), 4);
}

#[test]
fn empty_scrape_changes_nothing() {
    let mut cat = Catalog::new();
    let (manga, source) = make_manga(&mut cat, "M", "m.test", vec![chapter("m", 1000)]);
    let outcome = cat.sync_chapters_for_source(manga, source, true, &vec![]);
    assert!(matches!(outcome, SyncOutcome::NoChapters));
    assert_eq!(cat.chapter_ids_of(source).len(), 1);
}

#[test]
fn suspicious_drop_is_reported_and_not_applied() {
    let mut cat = Catalog::new();
    let chapters: Vec<ScrapedChapter> = (1..=4).rev().map(|n| chapter("m", n * 1000)).collect();
    let (manga, source) = make_manga(&mut cat, "M", "m.test", chapters);
    // 4 -> 1: three of four lost, more than half
    let outcome = cat.sync_chapters_for_source(manga, source, false, &vec![chapter("m-new", 1000)]);
    match outcome {
        SyncOutcome::SuspiciousDrop { scraped, existing } => {
            assert_eq!(scraped, 1);
            assert_eq!(existing, 4);
        }
        other => panic!("unexpected outcome {other:?}"),
    }
    assert_eq!(cat.chapter_ids_of(source).len(), 4);

    // forced, the same drop clears the source and inserts the scrape
    let outcome = cat.sync_chapters_for_source(manga, source, true, &vec![chapter("m-new", 1000)]);
    match outcome {
        SyncOutcome::Synced { cleared, inserted } => {
            assert_eq!(cleared, 4);
            assert_eq!(inserted.len(), 1);
        }
        other => panic!("unexpected outcome {other:?}"),
    }
    assert_eq!(cat.chapter_ids_of(source).len(), 1);
}

#[test]
fn modest_drop_resets_the_source_chapters() {
    let mut cat = Catalog::new();
    let chapters: Vec<ScrapedChapter> = (1..=4).rev().map(|n| chapter("m", n * 1000)).collect();
    let (manga, source) = make_manga(&mut cat, "M", "m.test", chapters);
    // 4 -> 2: exactly half lost is not more than half
    let outcome = cat.sync_chapters_for_source(manga, source, false, &vec![chapter("m", 2000), chapter("m", 1000)]);
    match outcome {
        SyncOutcome::Synced { cleared, inserted } => {
            assert_eq!(cleared, 4);
            assert_eq!(inserted.len(), 2);
        }
        other => panic!("unexpected outcome {other:?}"),
    }
    assert_eq!(cat.chapter_ids_of(source).len(), 2);
}

#[test]
fn creating_a_manga_whose_scraped_url_is_taken_is_refused() {
    let mut cat = Catalog::new();
    make_manga(&mut cat, "M", "m.test", vec![chapter("m", 1000)]);
    let again = scraped("M", "m.test", vec![]);
    let r = cat.create_manga(again);
    assert_eq!(r, Err(CatalogError::ScrapedUrlTaken));
    assert!(cat.create_manga(scraped("M", "n.test", vec![])).is_ok());
    let other = scraped("M", "n.test", vec![]);
    let r = cat.add_manga_source(99, &"https://n.test/manga".to_string(), other);
    assert_eq!(r, Err(CatalogError::MangaNotFound));
    let (manga, _) = make_manga(&mut cat, "P", "p.test", vec![chapter("p", 1000)]);
    let r = cat.add_manga_source(manga, &"https://m.test/manga".to_string(), scraped("P", "q.test", vec![]));
    assert_eq!(r, Err(CatalogError::SourceUrlTaken), "the requested url is taken");
    let r = cat.add_manga_source(manga, &"https://q.test/manga".to_string(), scraped("P", "m.test", vec![]));
    assert_eq!(r, Err(CatalogError::ScrapedUrlTaken), "the scraped url is taken");
}

#[test]
fn removing_the_primary_promotes_the_lowest_other_source() {
    let mut cat = Catalog::new();
    let (manga, first) = make_manga(&mut cat, "M", "a.test", vec![chapter("a", 1000)]);
    let second = cat.add_manga_source(manga, &"https://b.test/manga".to_string(), scraped("M", "b.test", vec![chapter("b", 1000)])).unwrap();
    let third = cat.add_manga_source(manga, &"https://c.test/manga".to_string(), scraped("M", "c.test", vec![chapter("c", 1000)])).unwrap();
    assert_eq!(cat.find_primary_source_id(manga), Some(first));

    assert_eq!(cat.remove_source(first), Ok(RemoveSourceOutcome::Kept(manga)));
    assert_eq!(cat.find_primary_source_id(manga), Some(second));
    assert!(!cat.source(third).unwrap().is_primary);
    assert!(cat.source(first).is_none());
    assert!(cat.chapter_ids_of(first).is_empty());

    assert_eq!(cat.remove_source(third), Ok(RemoveSourceOutcome::Kept(manga)));
    assert_eq!(cat.remove_source(second), Ok(RemoveSourceOutcome::MangaDeleted(manga)));
    assert!(!cat.contains_manga(manga));
    assert_eq!(cat.count_canonical_chapters(manga, None), 0);
    assert_eq!(cat.remove_source(second), Err(CatalogError::SourceNotFound));
}

#[test]
fn set_primary_source_leaves_exactly_one_primary() {
    let mut cat = Catalog::new();
    let (manga, first) = make_manga(&mut cat, "M", "a.test", vec![]);
    let second = cat.add_manga_source(manga, &"https://b.test/manga".to_string(), scraped("M", "b.test", vec![])).unwrap();
    assert_eq!(cat.set_primary_source(second), Ok(manga));
    assert!(cat.source(second).unwrap().is_primary);
    assert!(!cat.source(first).unwrap().is_primary);
    assert_eq!(cat.find_primary_source_id(manga), Some(second));
    assert_eq!(cat.set_primary_source(77), Err(CatalogError::SourceNotFound));
}

#[test]
fn move_refusals() {
    let mut cat = Catalog::new();
    let (manga_a, source_a) = make_manga(&mut cat, "A", "a.test", vec![]);
    assert_eq!(cat.move_source_to_manga(500, manga_a), Err(CatalogError::SourceNotFound));
    assert_eq!(cat.move_source_to_manga(source_a, manga_a), Err(CatalogError::SourceAlreadyInTarget));
    assert_eq!(cat.move_source_to_manga(source_a, 500), Err(CatalogError::TargetMangaNotFound));
    assert!(cat.contains_manga(manga_a));
}

#[test]
fn moving_one_of_two_sources_keeps_the_old_manga() {
    let mut cat = Catalog::new();
    let (manga_a, first) = make_manga(&mut cat, "A", "a.test", vec![chapter("a", 1000)]);
    let second = cat.add_manga_source(manga_a, &"https://a2.test/manga".to_string(), scraped("A", "a2.test", vec![])).unwrap();
    let (manga_b, _) = make_manga(&mut cat, "B", "b.test", vec![]);
    cat.move_source_to_manga(first, manga_b).unwrap();
    assert!(cat.contains_manga(manga_a));
    assert_eq!(cat.find_primary_source_id(manga_a), Some(second), "the remaining source is promoted");
    assert_eq!(cat.count_canonical_chapters(manga_b, Some(1000)), 1);
}

#[test]
fn merge_refusals() {
    let mut cat = Catalog::new();
    let (manga_a, _) = make_manga(&mut cat, "A", "a.test", vec![]);
    assert_eq!(cat.merge_manga_sources(manga_a, 404), Err(CatalogError::TargetMangaNotFound));
    assert_eq!(cat.merge_manga_sources(404, manga_a), Err(CatalogError::MergeSourceNotFound));
    assert_eq!(cat.merge_manga_sources(manga_a, manga_a), Err(CatalogError::SourceAlreadyInTarget));
    assert!(cat.contains_manga(manga_a));
}

#[test]
fn link_and_unlink_chapters() {
    let mut cat = Catalog::new();
    let (_, source_a) = make_manga(&mut cat, "A", "a.test", vec![chapter("a", 2000), chapter("a", 1000)]);
    let (_, source_b) = make_manga(&mut cat, "B", "b.test", vec![chapter("b", 1000)]);
    let c1 = chapter_at(&cat, source_a, 1000);
    let c2 = chapter_at(&cat, source_a, 2000);
    let other = canonical_at(&cat, source_b, 1000);

    assert_eq!(cat.link_chapter(c1.id, c2.canonical_chapter_id.unwrap()), Ok(()));
    assert_eq!(chapter_at(&cat, source_a, 1000).canonical_chapter_id, c2.canonical_chapter_id);
    assert_eq!(cat.link_chapter(c1.id, other), Err(CatalogError::CanonicalOfOtherManga));
    assert_eq!(cat.link_chapter(999, other), Err(CatalogError::ChapterNotFound));
    assert_eq!(cat.link_chapter(c1.id, 999), Err(CatalogError::CanonicalChapterNotFound));

    assert_eq!(cat.unlink_chapter(c1.id), Ok(()));
    assert_eq!(chapter_at(&cat, source_a, 1000).canonical_chapter_id, None);
    assert_eq!(cat.unlink_chapter(999), Err(CatalogError::ChapterNotFound));
    assert_eq!(cat.find_equivalent(c2.canonical_chapter_id.unwrap(), source_a), Some(c2.id));
    assert_eq!(cat.find_equivalent(c2.canonical_chapter_id.unwrap(), source_b), None);
}

#[test]
fn reading_rows_follow_canonical_ranks() {
    let mut cat = Catalog::new();
    let (manga, source) = make_manga(&mut cat, "A", "a.test", vec![chapter("a", 3000), chapter("a", 2000), chapter("a", 1000)]);
    let user = 7;
    assert_eq!(cat.update_reading(user, manga, None, 5), Err(CatalogError::ReadingNotFound));
    assert_eq!(cat.create_reading(user, manga), Ok(()));
    assert_eq!(cat.create_reading(user, manga), Err(CatalogError::ReadingExists));
    assert_eq!(cat.create_reading(user, 404), Err(CatalogError::MangaNotFound));
    let fresh = cat.reading(user, manga).unwrap();
    assert_eq!((fresh.progress, fresh.last_canonical_chapter_id), (0, None));

    let c2 = chapter_at(&cat, source, 2000);
    assert_eq!(cat.update_reading(user, manga, Some(c2.id), 0), Ok(()));
    let r = cat.reading(user, manga).unwrap();
    assert_eq!(r.progress, 2);
    assert_eq!(r.last_canonical_chapter_id, c2.canonical_chapter_id);

    // the legacy path writes the raw progress and keeps the last chapter
    assert_eq!(cat.update_reading(user, manga, None, 9), Ok(()));
    let r = cat.reading(user, manga).unwrap();
    assert_eq!(r.progress, 9);
    assert_eq!(r.last_canonical_chapter_id, c2.canonical_chapter_id);

    assert_eq!(cat.update_reading(user, manga, Some(12345), 0), Err(CatalogError::ChapterNotFound));
    cat.unlink_chapter(c2.id).unwrap();
    assert_eq!(cat.update_reading(user, manga, Some(c2.id), 0), Err(CatalogError::ChapterNotLinked));

    assert_eq!(cat.delete_reading(user, manga), Ok(()));
    assert_eq!(cat.delete_reading(user, manga), Err(CatalogError::ReadingNotFound));
}

#[test]
fn sync_progress_refuses_a_canonical_chapter_of_another_manga() {
    let mut cat = Catalog::new();
    let (manga_a, _) = make_manga(&mut cat, "A", "a.test", vec![chapter("a", 1000)]);
    let (_, source_b) = make_manga(&mut cat, "B", "b.test", vec![chapter("b", 1000)]);
    cat.create_reading(1, manga_a).unwrap();
    let b1 = canonical_at(&cat, source_b, 1000);
    assert_eq!(cat.sync_reading_progress(1, manga_a, b1), Err(CatalogError::CanonicalChapterNotFound));
    assert_eq!(cat.reading(1, manga_a).unwrap().progress, 0);
}

#[test]
fn find_or_create_canonical_chapter_is_idempotent() {
    let mut cat = Catalog::new();
    let (manga, _) = make_manga(&mut cat, "A", "a.test", vec![]);
    let first = cat.find_or_create_canonical_chapter(manga, 1500);
    let again = cat.find_or_create_canonical_chapter(manga, 1500);
    assert_eq!(first, again);
    assert_eq!(cat.count_canonical_chapters(manga, None), 1);
    let other = cat.find_or_create_canonical_chapter(manga, 2500);
    assert_ne!(first, other);
}

#[test]
fn refreshing_the_primary_updates_metadata_and_cover() {
    let mut cat = Catalog::new();
    let mut first = scraped("Old Title", "a.test", vec![chapter("a", 1000)]);
    first.cover_url = Some("https://a.test/cover-1.jpg".to_string());
    first.meta.status = Some("Ongoing".to_string());
    let manga = cat.create_manga(first).unwrap();
    let primary = cat.source_ids_of(manga)[0];
    let cover = &cat.manga(manga).unwrap().cover;
    assert_eq!(cover.status, "pending");
    assert_eq!(cover.source_url.as_deref(), Some("https://a.test/cover-1.jpg"));

    // same cover url: the download state stays
    let mut again = scraped("New Title", "a.test", vec![chapter("a", 1000)]);
    again.cover_url = Some("https://a.test/cover-1.jpg".to_string());
    let out = cat.refresh_manga_source(primary, false, again).unwrap();
    assert_eq!(out.manga_id, manga);
    assert_eq!(out.stale_cover_key, None);
    let row = cat.manga(manga).unwrap();
    assert_eq!(row.meta.title, "New Title");
    assert_eq!(row.meta.status.as_deref(), Some("Ongoing"), "a status the scrape lacks stays");

    // a scrape without a cover keeps the cover
    let out = cat.refresh_manga_source(primary, false, scraped("Newer Title", "a.test", vec![])).unwrap();
    assert!(matches!(out.sync, SyncOutcome::NoChapters));
    assert_eq!(cat.manga(manga).unwrap().cover.source_url.as_deref(), Some("https://a.test/cover-1.jpg"));

    // a new cover url restarts the download
    let mut moved = scraped("Newer Title", "a.test", vec![]);
    moved.cover_url = Some("https://a.test/cover-2.jpg".to_string());
    cat.refresh_manga_source(primary, false, moved).unwrap();
    let cover = &cat.manga(manga).unwrap().cover;
    assert_eq!(cover.source_url.as_deref(), Some("https://a.test/cover-2.jpg"));
    assert_eq!(cover.status, "pending");
    assert_eq!(cover.attempts, 0);

    // a secondary source never touches the manga
    let second = cat.add_manga_source(manga, &"https://b.test/manga".to_string(), scraped("B Title", "b.test", vec![])).unwrap();
    let out = cat.refresh_manga_source(second, false, scraped("Secondary Title", "b.test", vec![])).unwrap();
    assert_eq!(out.stale_cover_key, None);
    assert_eq!(cat.manga(manga).unwrap().meta.title, "Newer Title");

    assert!(matches!(cat.refresh_manga_source(404, false, scraped("X", "x.test", vec![])), Err(CatalogError::SourceNotFound)));
}

#[test]
fn refusals_have_their_status_and_message() {
    assert_eq!(CatalogError::MangaNotFound.message(), "Manga not found");
    assert_eq!(CatalogError::MangaNotFound.code(), Code::NotFound);
    assert_eq!(CatalogError::SourceUrlTaken.code(), Code::AlreadyExists);
    assert_eq!(CatalogError::ScrapedUrlTaken.code(), Code::Internal);
    assert_eq!(CatalogError::ChapterNotLinked.code(), Code::FailedPrecondition);
    assert_eq!(CatalogError::ChapterNotLinked.message(), "This chapter is not linked to a canonical chapter");
    assert_eq!(CatalogError::SourceAlreadyInTarget.code(), Code::InvalidArgument);
    assert_eq!(
        CatalogError::CanonicalOfOtherManga.message(),
        "canonical_chapter_id does not belong to the same manga as this chapter"
    );
}
