//! The relational catalog that the manga services read and write: canonical mangas,
//! their scraped sources, the sources' chapters, the per-manga canonical chapters that
//! chapters of different sources converge on, and every user's reading progress.
//!
//! Rows are held in insertion order; every table hands out increasing ids the way the
//! database's serial columns do.

use vstd::prelude::*;

use crate::status::Code;

verus! {

/// Descriptive fields of a manga, as its primary source's scrape last reported them.
#[derive(Debug)]
pub struct MangaMeta {
    pub title: String,
    pub description: String,
    pub is_ongoing: bool,
    pub authors: Vec<String>,
    pub alt_titles: Vec<String>,
    pub genres: Vec<String>,
    /// `None` leaves the column at its default.
    pub status: Option<String>,
}

/// Download state of a manga's cover image.
#[derive(Debug)]
pub struct CoverState {
    pub source_url: Option<String>,
    pub status: String,
    pub storage_key: Option<String>,
    pub content_type: Option<String>,
    pub checksum: Option<String>,
    pub attempts: i32,
}

#[derive(Debug)]
pub struct MangaRow {
    pub id: i32,
    pub meta: MangaMeta,
    pub cover: CoverState,
}

#[derive(Debug)]
pub struct SourceRow {
    pub id: i32,
    pub manga_id: i32,
    pub url: String,
    pub hostname: String,
    pub is_primary: bool,
}

/// A scraped chapter of one source. `ordinal` is the chapter number rounded to three
/// decimals, in thousandths (chapter 12.5 has ordinal 12500).
#[derive(Debug)]
pub struct ChapterRow {
    pub id: i32,
    pub manga_source_id: i32,
    pub url: String,
    pub ordinal: i64,
    pub title: String,
    /// Release time, in milliseconds since the Unix epoch, when the source gives one.
    pub posted: Option<i64>,
    pub canonical_chapter_id: Option<i32>,
}

/// A chapter as a scrape of its source reports it.
#[derive(Debug)]
pub struct ScrapedChapter {
    pub url: String,
    /// Chapter number rounded to three decimals, in thousandths.
    pub ordinal: i64,
    pub title: String,
    /// Release time, in milliseconds since the Unix epoch.
    pub posted: Option<i64>,
}

/// The one row per manga and ordinal that equivalent chapters of all sources link to.
#[derive(Debug, Clone, Copy, PartialEq, Eq)]
pub struct CanonicalRow {
    pub id: i32,
    pub manga_id: i32,
    pub ordinal: i64,
}

/// A user's progress on a manga: `progress` chapters read, the last one being
/// `last_canonical_chapter_id` when it is known.
#[derive(Debug, Clone, Copy, PartialEq, Eq)]
pub struct ReadingRow {
    pub user_id: i32,
    pub manga_id: i32,
    pub progress: i32,
    pub last_canonical_chapter_id: Option<i32>,
}

pub struct Catalog {
    pub(crate) mangas: Vec<MangaRow>,
    pub(crate) sources: Vec<SourceRow>,
    pub(crate) chapters: Vec<ChapterRow>,
    pub(crate) canonicals: Vec<CanonicalRow>,
    pub(crate) readings: Vec<ReadingRow>,
    pub(crate) next_manga_id: i32,
    pub(crate) next_source_id: i32,
    pub(crate) next_chapter_id: i32,
    pub(crate) next_canonical_id: i32,
}

/// The catalog's tables as mathematical sequences.
pub struct CatalogView {
    pub mangas: Seq<MangaRow>,
    pub sources: Seq<SourceRow>,
    pub chapters: Seq<ChapterRow>,
    pub canonicals: Seq<CanonicalRow>,
    pub readings: Seq<ReadingRow>,
    pub next_manga_id: int,
    pub next_source_id: int,
    pub next_chapter_id: int,
    pub next_canonical_id: int,
}

impl View for Catalog {
    type V = CatalogView;

    closed spec fn view(&self) -> CatalogView {
        CatalogView {
            mangas: self.mangas@,
            sources: self.sources@,
            chapters: self.chapters@,
            canonicals: self.canonicals@,
            readings: self.readings@,
            next_manga_id: self.next_manga_id as int,
            next_source_id: self.next_source_id as int,
            next_chapter_id: self.next_chapter_id as int,
            next_canonical_id: self.next_canonical_id as int,
        }
    }
}

// ---------------------------------------------------------------------------------------
// Lookups in the model
// ---------------------------------------------------------------------------------------

pub open spec fn has_manga(v: CatalogView, id: int) -> bool {
    exists|i: int| 0 <= i < v.mangas.len() && #[trigger] v.mangas[i].id == id
}

pub open spec fn has_source(v: CatalogView, id: int) -> bool {
    exists|i: int| 0 <= i < v.sources.len() && #[trigger] v.sources[i].id == id
}

pub open spec fn has_chapter(v: CatalogView, id: int) -> bool {
    exists|i: int| 0 <= i < v.chapters.len() && #[trigger] v.chapters[i].id == id
}

/// Position of the source with id `id` (meaningful when it exists).
pub open spec fn source_index(v: CatalogView, id: int) -> int {
    choose|i: int| 0 <= i < v.sources.len() && #[trigger] v.sources[i].id == id
}

/// Position of the chapter with id `id` (meaningful when it exists).
pub open spec fn chapter_index(v: CatalogView, id: int) -> int {
    choose|i: int| 0 <= i < v.chapters.len() && #[trigger] v.chapters[i].id == id
}

/// Position of the canonical chapter with id `id` (meaningful when it exists).
pub open spec fn canonical_index(v: CatalogView, id: int) -> int {
    choose|i: int| 0 <= i < v.canonicals.len() && #[trigger] v.canonicals[i].id == id
}

/// Whether canonical chapter `id` exists and belongs to manga `manga_id`.
pub open spec fn canonical_of_manga(v: CatalogView, id: int, manga_id: int) -> bool {
    exists|k: int| 0 <= k < v.canonicals.len() && #[trigger] v.canonicals[k].id == id
        && v.canonicals[k].manga_id == manga_id
}

/// The manga that the source with id `source_id` belongs to.
pub open spec fn manga_of_source(v: CatalogView, source_id: int) -> int {
    v.sources[source_index(v, source_id)].manga_id as int
}

/// Whether the canonical chapter of (`manga_id`, `ordinal`) exists.
pub open spec fn has_canonical_at(v: CatalogView, manga_id: int, ordinal: int) -> bool {
    exists|k: int| 0 <= k < v.canonicals.len() && #[trigger] v.canonicals[k].manga_id == manga_id
        && v.canonicals[k].ordinal == ordinal
}

/// Position of the canonical chapter of (`manga_id`, `ordinal`) (meaningful when it exists).
pub open spec fn canonical_at_index(v: CatalogView, manga_id: int, ordinal: int) -> int {
    choose|k: int| 0 <= k < v.canonicals.len() && #[trigger] v.canonicals[k].manga_id == manga_id
        && v.canonicals[k].ordinal == ordinal
}

/// Whether `manga_id` has a primary source.
pub open spec fn has_primary(v: CatalogView, manga_id: int) -> bool {
    exists|j: int| 0 <= j < v.sources.len() && #[trigger] v.sources[j].manga_id == manga_id
        && v.sources[j].is_primary
}

/// Whether `manga_id` has any source at all.
pub open spec fn has_any_source(v: CatalogView, manga_id: int) -> bool {
    exists|j: int| 0 <= j < v.sources.len() && #[trigger] v.sources[j].manga_id == manga_id
}

/// Every manga that has sources has a primary one: canonical metadata always has a
/// source backing it.
pub open spec fn primaries_backed(v: CatalogView) -> bool {
    forall|m: int| has_any_source(v, m) ==> #[trigger] has_primary(v, m)
}

/// Whether the reading row of (`user_id`, `manga_id`) exists.
pub open spec fn has_reading(v: CatalogView, user_id: int, manga_id: int) -> bool {
    exists|r: int| 0 <= r < v.readings.len() && #[trigger] v.readings[r].user_id == user_id
        && v.readings[r].manga_id == manga_id
}

// ---------------------------------------------------------------------------------------
// Well-formedness
// ---------------------------------------------------------------------------------------

/// Ids are unique, positive and below the table's next id, which fits an `i32`.
pub open spec fn wf_ids(v: CatalogView) -> bool {
    &&& 1 <= v.next_manga_id <= i32::MAX
    &&& 1 <= v.next_source_id <= i32::MAX
    &&& 1 <= v.next_chapter_id <= i32::MAX
    &&& 1 <= v.next_canonical_id <= i32::MAX
    &&& v.mangas.len() < v.next_manga_id
    &&& v.sources.len() < v.next_source_id
    &&& v.chapters.len() < v.next_chapter_id
    &&& v.canonicals.len() < v.next_canonical_id
    &&& forall|i: int| 0 <= i < v.mangas.len() ==> 1 <= #[trigger] v.mangas[i].id < v.next_manga_id
    &&& forall|i: int| 0 <= i < v.sources.len() ==> 1 <= #[trigger] v.sources[i].id < v.next_source_id
    &&& forall|i: int|
        0 <= i < v.chapters.len() ==> 1 <= #[trigger] v.chapters[i].id < v.next_chapter_id
    &&& forall|i: int|
        0 <= i < v.canonicals.len() ==> 1 <= #[trigger] v.canonicals[i].id < v.next_canonical_id
    &&& forall|i: int, j: int|
        0 <= i < v.mangas.len() && 0 <= j < v.mangas.len() && #[trigger] v.mangas[i].id
            == #[trigger] v.mangas[j].id ==> i == j
    &&& forall|i: int, j: int|
        0 <= i < v.sources.len() && 0 <= j < v.sources.len() && #[trigger] v.sources[i].id
            == #[trigger] v.sources[j].id ==> i == j
    &&& forall|i: int, j: int|
        0 <= i < v.chapters.len() && 0 <= j < v.chapters.len() && #[trigger] v.chapters[i].id
            == #[trigger] v.chapters[j].id ==> i == j
    &&& forall|i: int, j: int|
        0 <= i < v.canonicals.len() && 0 <= j < v.canonicals.len() && #[trigger] v.canonicals[i].id
            == #[trigger] v.canonicals[j].id ==> i == j
}

/// A manga has at most one primary source, not counting source `excluding`.
pub open spec fn primaries_unique_except(v: CatalogView, excluding: int) -> bool {
    forall|i: int, j: int|
        0 <= i < v.sources.len() && 0 <= j < v.sources.len() && #[trigger] v.sources[i].is_primary
            && #[trigger] v.sources[j].is_primary && v.sources[i].manga_id == v.sources[j].manga_id
            && v.sources[i].id != excluding && v.sources[j].id != excluding ==> i == j
}

/// Sources belong to existing mangas and have unique urls.
pub open spec fn wf_source_rows(v: CatalogView) -> bool {
    &&& forall|i: int| 0 <= i < v.sources.len() ==> has_manga(v, #[trigger] v.sources[i].manga_id as int)
    &&& forall|i: int, j: int|
        0 <= i < v.sources.len() && 0 <= j < v.sources.len() && #[trigger] v.sources[i].url@
            == #[trigger] v.sources[j].url@ ==> i == j
}

/// Sources belong to existing mangas, have unique urls, and a manga has at most one
/// primary source.
pub open spec fn wf_sources(v: CatalogView) -> bool {
    &&& wf_source_rows(v)
    &&& primaries_unique_except(v, 0)
}

/// Chapters belong to existing sources and have unique urls.
pub open spec fn wf_chapters(v: CatalogView) -> bool {
    &&& forall|i: int|
        0 <= i < v.chapters.len() ==> has_source(v, #[trigger] v.chapters[i].manga_source_id as int)
    &&& forall|i: int, j: int|
        0 <= i < v.chapters.len() && 0 <= j < v.chapters.len() && #[trigger] v.chapters[i].url@
            == #[trigger] v.chapters[j].url@ ==> i == j
}

/// A chapter's canonical chapter, when it has one, belongs to the manga of the chapter's
/// own source.
pub open spec fn wf_links(v: CatalogView) -> bool {
    forall|i: int|
        0 <= i < v.chapters.len() && (#[trigger] v.chapters[i].canonical_chapter_id) is Some
            ==> canonical_of_manga(
            v,
            v.chapters[i].canonical_chapter_id->0 as int,
            manga_of_source(v, v.chapters[i].manga_source_id as int),
        )
}

/// Canonical chapters belong to existing mangas, one per manga and ordinal.
pub open spec fn wf_canonicals(v: CatalogView) -> bool {
    &&& forall|i: int|
        0 <= i < v.canonicals.len() ==> has_manga(v, #[trigger] v.canonicals[i].manga_id as int)
    &&& forall|i: int, j: int|
        0 <= i < v.canonicals.len() && 0 <= j < v.canonicals.len() && #[trigger] v.canonicals[i].manga_id
            == #[trigger] v.canonicals[j].manga_id && v.canonicals[i].ordinal == v.canonicals[j].ordinal
            ==> i == j
}

/// Reading rows belong to existing mangas, one per user and manga, and the last chapter
/// read belongs to the same manga.
pub open spec fn wf_readings(v: CatalogView) -> bool {
    &&& forall|i: int| 0 <= i < v.readings.len() ==> has_manga(v, #[trigger] v.readings[i].manga_id as int)
    &&& forall|i: int, j: int|
        0 <= i < v.readings.len() && 0 <= j < v.readings.len() && #[trigger] v.readings[i].user_id
            == #[trigger] v.readings[j].user_id && v.readings[i].manga_id == v.readings[j].manga_id
            ==> i == j
    &&& forall|i: int|
        0 <= i < v.readings.len() && (#[trigger] v.readings[i].last_canonical_chapter_id) is Some
            ==> canonical_of_manga(
            v,
            v.readings[i].last_canonical_chapter_id->0 as int,
            v.readings[i].manga_id as int,
        )
}

/// Everything but the chapter links.
pub open spec fn wf_except_links(v: CatalogView) -> bool {
    &&& wf_ids(v)
    &&& wf_sources(v)
    &&& wf_chapters(v)
    &&& wf_canonicals(v)
    &&& wf_readings(v)
}

/// The catalog's integrity constraints.
pub open spec fn wf(v: CatalogView) -> bool {
    &&& wf_except_links(v)
    &&& wf_links(v)
}

/// Ids still available in every table for `n` more inserts.
pub open spec fn has_room(v: CatalogView, n: int) -> bool {
    &&& v.next_manga_id + n <= i32::MAX
    &&& v.next_source_id + n <= i32::MAX
    &&& v.next_chapter_id + n <= i32::MAX
    &&& v.next_canonical_id + n <= i32::MAX
}

impl Catalog {
    /// An empty catalog.
    pub fn new() -> (r: Self)
        ensures
            wf(r@),
            r@.mangas.len() == 0,
            r@.sources.len() == 0,
            r@.chapters.len() == 0,
            r@.canonicals.len() == 0,
            r@.readings.len() == 0,
            r@.next_manga_id == 1,
            r@.next_source_id == 1,
            r@.next_chapter_id == 1,
            r@.next_canonical_id == 1,
    {
        Catalog {
            mangas: Vec::new(),
            sources: Vec::new(),
            chapters: Vec::new(),
            canonicals: Vec::new(),
            readings: Vec::new(),
            next_manga_id: 1,
            next_source_id: 1,
            next_chapter_id: 1,
            next_canonical_id: 1,
        }
    }
}


// ---------------------------------------------------------------------------------------
// Model-level operations
// ---------------------------------------------------------------------------------------

/// The catalog after inserting canonical chapter (`manga_id`, `ordinal`) under the next id.
pub open spec fn spec_push_canonical(v: CatalogView, manga_id: int, ordinal: int) -> CatalogView {
    CatalogView {
        canonicals: v.canonicals.push(
            CanonicalRow { id: v.next_canonical_id as i32, manga_id: manga_id as i32, ordinal: ordinal as i64 },
        ),
        next_canonical_id: v.next_canonical_id + 1,
        ..v
    }
}

/// Finds the canonical chapter of (`manga_id`, `ordinal`), creating it when it does not
/// exist yet: the resulting catalog and the canonical chapter's id.
pub open spec fn spec_find_or_create(v: CatalogView, manga_id: int, ordinal: int) -> (CatalogView, int) {
    if has_canonical_at(v, manga_id, ordinal) {
        (v, v.canonicals[canonical_at_index(v, manga_id, ordinal)].id as int)
    } else {
        (spec_push_canonical(v, manga_id, ordinal), v.next_canonical_id)
    }
}

// ---------------------------------------------------------------------------------------
// Lemmas about the model
// ---------------------------------------------------------------------------------------

/// Membership facts survive appending a canonical chapter.
pub proof fn lemma_canonical_of_manga_extend(v: CatalogView, w: CatalogView, id: int, manga_id: int)
    requires
        canonical_of_manga(v, id, manga_id),
        w.canonicals.len() >= v.canonicals.len(),
        forall|k: int| 0 <= k < v.canonicals.len() ==> w.canonicals[k] == v.canonicals[k],
    ensures
        canonical_of_manga(w, id, manga_id),
{
    let k = choose|k: int| 0 <= k < v.canonicals.len() && #[trigger] v.canonicals[k].id == id
        && v.canonicals[k].manga_id == manga_id;
    assert(w.canonicals[k] == v.canonicals[k]);
}

/// Inserting a canonical chapter at a fresh (manga, ordinal) keeps the catalog well formed.
pub proof fn lemma_push_canonical_wf(v: CatalogView, manga_id: int, ordinal: int)
    requires
        wf_except_links(v),
        has_manga(v, manga_id),
        !has_canonical_at(v, manga_id, ordinal),
        v.next_canonical_id < i32::MAX,
        i32::MIN <= manga_id <= i32::MAX,
        i64::MIN <= ordinal <= i64::MAX,
    ensures
        wf_except_links(spec_push_canonical(v, manga_id, ordinal)),
        wf_links(v) ==> wf_links(spec_push_canonical(v, manga_id, ordinal)),
{
    let w = spec_push_canonical(v, manga_id, ordinal);
    let n = v.canonicals.len();
    assert(w.canonicals[n as int].id == v.next_canonical_id);
    assert(w.mangas == v.mangas && w.sources == v.sources && w.chapters == v.chapters && w.readings == v.readings);
    assert forall|i: int| 0 <= i < w.canonicals.len() implies 1 <= #[trigger] w.canonicals[i].id < w.next_canonical_id by {
        if i < n {
            assert(w.canonicals[i] == v.canonicals[i]);
        }
    }
    assert forall|i: int, j: int|
        0 <= i < w.canonicals.len() && 0 <= j < w.canonicals.len() && #[trigger] w.canonicals[i].id
            == #[trigger] w.canonicals[j].id implies i == j by {
        if i < n && j < n {
            assert(w.canonicals[i] == v.canonicals[i]);
            assert(w.canonicals[j] == v.canonicals[j]);
        }
    }
    assert forall|i: int, j: int|
        0 <= i < w.canonicals.len() && 0 <= j < w.canonicals.len() && #[trigger] w.canonicals[i].manga_id
            == #[trigger] w.canonicals[j].manga_id && w.canonicals[i].ordinal == w.canonicals[j].ordinal
            implies i == j by {
        if i < n && j < n {
            assert(w.canonicals[i] == v.canonicals[i]);
            assert(w.canonicals[j] == v.canonicals[j]);
        } else if i < n {
            assert(w.canonicals[i] == v.canonicals[i]);
        } else if j < n {
            assert(w.canonicals[j] == v.canonicals[j]);
        }
    }
    assert forall|i: int| 0 <= i < w.canonicals.len() implies has_manga(w, #[trigger] w.canonicals[i].manga_id as int) by {
        if i < n {
            assert(w.canonicals[i] == v.canonicals[i]);
        }
    }
    assert forall|i: int| 0 <= i < w.readings.len() && (#[trigger] w.readings[i].last_canonical_chapter_id) is Some
        implies canonical_of_manga(w, w.readings[i].last_canonical_chapter_id->0 as int, w.readings[i].manga_id as int) by {
        lemma_canonical_of_manga_extend(v, w, w.readings[i].last_canonical_chapter_id->0 as int, w.readings[i].manga_id as int);
    }
    assert(wf_ids(w));
    assert(wf_sources(w));
    assert(wf_chapters(w));
    assert(wf_canonicals(w));
    assert(wf_readings(w));
    if wf_links(v) {
        assert forall|i: int| 0 <= i < w.chapters.len() && (#[trigger] w.chapters[i].canonical_chapter_id) is Some
            implies canonical_of_manga(w, w.chapters[i].canonical_chapter_id->0 as int,
                manga_of_source(w, w.chapters[i].manga_source_id as int)) by {
            lemma_canonical_of_manga_extend(v, w, w.chapters[i].canonical_chapter_id->0 as int,
                manga_of_source(v, w.chapters[i].manga_source_id as int));
        }
    }
}

impl Catalog {
    /// Position of manga `id`, if it exists.
    pub(crate) fn find_manga(&self, id: i32) -> (r: Option<usize>)
        ensures
            r is Some <==> has_manga(self@, id as int),
            r matches Some(i) ==> i < self@.mangas.len() && self@.mangas[i as int].id == id,
    {
        let mut i: usize = 0;
        while i < self.mangas.len()
            invariant
                i <= self.mangas@.len(),
                forall|k: int| 0 <= k < i ==> self.mangas@[k].id != id,
            decreases self.mangas@.len() - i,
        {
            if self.mangas[i].id == id {
                assert(self@.mangas[i as int].id == id);
                return Some(i);
            }
            i = i + 1;
        }
        None
    }

    /// Position of source `id`, if it exists.
    pub(crate) fn find_source(&self, id: i32) -> (r: Option<usize>)
        ensures
            r is Some <==> has_source(self@, id as int),
            r matches Some(i) ==> i < self@.sources.len() && self@.sources[i as int].id == id,
    {
        let mut i: usize = 0;
        while i < self.sources.len()
            invariant
                i <= self.sources@.len(),
                forall|k: int| 0 <= k < i ==> self.sources@[k].id != id,
            decreases self.sources@.len() - i,
        {
            if self.sources[i].id == id {
                assert(self@.sources[i as int].id == id);
                return Some(i);
            }
            i = i + 1;
        }
        None
    }

    /// Position of chapter `id`, if it exists.
    pub(crate) fn find_chapter(&self, id: i32) -> (r: Option<usize>)
        ensures
            r is Some <==> has_chapter(self@, id as int),
            r matches Some(i) ==> i < self@.chapters.len() && self@.chapters[i as int].id == id,
    {
        let mut i: usize = 0;
        while i < self.chapters.len()
            invariant
                i <= self.chapters@.len(),
                forall|k: int| 0 <= k < i ==> self.chapters@[k].id != id,
            decreases self.chapters@.len() - i,
        {
            if self.chapters[i].id == id {
                assert(self@.chapters[i as int].id == id);
                return Some(i);
            }
            i = i + 1;
        }
        None
    }

    /// Position of canonical chapter `id`, if it exists.
    pub(crate) fn find_canonical(&self, id: i32) -> (r: Option<usize>)
        ensures
            r is None <==> forall|k: int| 0 <= k < self@.canonicals.len() ==> self@.canonicals[k].id != id,
            r matches Some(i) ==> i < self@.canonicals.len() && self@.canonicals[i as int].id == id,
    {
        let mut i: usize = 0;
        while i < self.canonicals.len()
            invariant
                i <= self.canonicals@.len(),
                forall|k: int| 0 <= k < i ==> self.canonicals@[k].id != id,
            decreases self.canonicals@.len() - i,
        {
            if self.canonicals[i].id == id {
                assert(self@.canonicals[i as int].id == id);
                return Some(i);
            }
            i = i + 1;
        }
        None
    }

    /// Position of the canonical chapter of (`manga_id`, `ordinal`), if it exists.
    pub(crate) fn find_canonical_at(&self, manga_id: i32, ordinal: i64) -> (r: Option<usize>)
        ensures
            r is Some <==> has_canonical_at(self@, manga_id as int, ordinal as int),
            r matches Some(i) ==> i < self@.canonicals.len() && self@.canonicals[i as int].manga_id == manga_id
                && self@.canonicals[i as int].ordinal == ordinal,
    {
        let mut i: usize = 0;
        while i < self.canonicals.len()
            invariant
                i <= self.canonicals@.len(),
                forall|k: int| 0 <= k < i ==> !(self.canonicals@[k].manga_id == manga_id
                    && self.canonicals@[k].ordinal == ordinal),
            decreases self.canonicals@.len() - i,
        {
            if self.canonicals[i].manga_id == manga_id && self.canonicals[i].ordinal == ordinal {
                assert(self@.canonicals[i as int].manga_id == manga_id);
                return Some(i);
            }
            i = i + 1;
        }
        None
    }

    /// Position of the reading row of (`user_id`, `manga_id`), if it exists.
    pub(crate) fn find_reading(&self, user_id: i32, manga_id: i32) -> (r: Option<usize>)
        ensures
            r is Some <==> has_reading(self@, user_id as int, manga_id as int),
            r matches Some(i) ==> i < self@.readings.len() && self@.readings[i as int].user_id == user_id
                && self@.readings[i as int].manga_id == manga_id,
    {
        let mut i: usize = 0;
        while i < self.readings.len()
            invariant
                i <= self.readings@.len(),
                forall|k: int| 0 <= k < i ==> !(self.readings@[k].user_id == user_id
                    && self.readings@[k].manga_id == manga_id),
            decreases self.readings@.len() - i,
        {
            if self.readings[i].user_id == user_id && self.readings[i].manga_id == manga_id {
                assert(self@.readings[i as int].user_id == user_id);
                return Some(i);
            }
            i = i + 1;
        }
        None
    }

    /// Finds the canonical chapter of (`manga_id`, `ordinal`), creating it when `manga_id`
    /// has none at that ordinal yet.
    pub fn find_or_create_canonical_chapter(&mut self, manga_id: i32, ordinal: i64) -> (r: i32)
        requires
            wf_except_links(old(self)@),
            has_manga(old(self)@, manga_id as int),
            old(self)@.next_canonical_id < i32::MAX,
        ensures
            (final(self)@, r as int) == spec_find_or_create(old(self)@, manga_id as int, ordinal as int),
            wf_except_links(final(self)@),
            wf_links(old(self)@) ==> wf_links(final(self)@),
    {
        match self.find_canonical_at(manga_id, ordinal) {
            Some(i) => {
                proof {
                    let k = canonical_at_index(self@, manga_id as int, ordinal as int);
                    assert(self@.canonicals[k].manga_id == manga_id && self@.canonicals[k].ordinal == ordinal);
                }
                self.canonicals[i].id
            },
            None => {
                proof {
                    lemma_push_canonical_wf(self@, manga_id as int, ordinal as int);
                }
                let id = self.next_canonical_id;
                self.canonicals.push(CanonicalRow { id, manga_id, ordinal });
                self.next_canonical_id = id + 1;
                proof {
                    assert(self@.canonicals =~= spec_push_canonical(old(self)@, manga_id as int, ordinal as int).canonicals);
                }
                id
            },
        }
    }
}


// ---------------------------------------------------------------------------------------
// Linking chapters to canonical chapters
// ---------------------------------------------------------------------------------------

/// Whether canonical chapter `id` is the one of (`manga_id`, `ordinal`).
pub open spec fn canonical_is(v: CatalogView, id: int, manga_id: int, ordinal: int) -> bool {
    exists|k: int| 0 <= k < v.canonicals.len() && #[trigger] v.canonicals[k].id == id
        && v.canonicals[k].manga_id == manga_id && v.canonicals[k].ordinal == ordinal
}

/// The catalog with the chapter at position `i` linked to canonical chapter `canonical_id`.
pub open spec fn spec_link(v: CatalogView, i: int, canonical_id: int) -> CatalogView {
    CatalogView {
        chapters: v.chapters.update(
            i,
            ChapterRow { canonical_chapter_id: Some(canonical_id as i32), ..v.chapters[i] },
        ),
        ..v
    }
}

/// Links chapter `chapter_id` to the canonical chapter of `manga_id` at the chapter's
/// ordinal, creating that canonical chapter when needed.
pub open spec fn spec_match_one(v: CatalogView, manga_id: int, chapter_id: int) -> CatalogView {
    let ci = chapter_index(v, chapter_id);
    let (v1, cid) = spec_find_or_create(v, manga_id, v.chapters[ci].ordinal as int);
    spec_link(v1, ci, cid)
}

/// The ordinal of chapter `chapter_id`.
pub open spec fn chapter_ordinal(v: CatalogView, chapter_id: int) -> i64 {
    v.chapters[chapter_index(v, chapter_id)].ordinal
}

/// Whether the `k`-th chapter of the batch `chapter_ids` comes, at one of its places in the
/// batch, before every other chapter of the batch at its ordinal: the chapter of the batch
/// that the matching links at that ordinal.
pub open spec fn leads_its_ordinal(v: CatalogView, chapter_ids: Seq<i32>, k: int) -> bool {
    exists|j: int|
        0 <= j <= k && #[trigger] chapter_ids[j] == chapter_ids[k] && forall|i: int|
            0 <= i < j ==> chapter_ordinal(v, #[trigger] chapter_ids[i] as int) != chapter_ordinal(
                v,
                chapter_ids[k] as int,
            )
}

/// Matches the chapters `chapter_ids`, in order, to the canonical chapters of `manga_id`:
/// the first chapter of the batch at each ordinal is linked, and a later chapter of the
/// batch at an ordinal already met is ambiguous and left unlinked rather than guessed.
pub open spec fn spec_match(v: CatalogView, manga_id: int, chapter_ids: Seq<i32>) -> CatalogView
    decreases chapter_ids.len(),
{
    if chapter_ids.len() == 0 {
        v
    } else {
        let prev = spec_match(v, manga_id, chapter_ids.drop_last());
        let id = chapter_ids.last() as int;
        if leads_its_ordinal(v, chapter_ids, chapter_ids.len() - 1) {
            spec_match_one(prev, manga_id, id)
        } else {
            spec_unlink(prev, chapter_index(prev, id))
        }
    }
}

/// `w` differs from `v` at most in chapter links and in canonical chapters of `manga_id`
/// appended at the end.
pub open spec fn match_frame(v: CatalogView, w: CatalogView, manga_id: int) -> bool {
    &&& w.mangas == v.mangas
    &&& w.sources == v.sources
    &&& w.readings == v.readings
    &&& w.next_manga_id == v.next_manga_id
    &&& w.next_source_id == v.next_source_id
    &&& w.next_chapter_id == v.next_chapter_id
    &&& w.canonicals.len() >= v.canonicals.len()
    &&& w.next_canonical_id - v.next_canonical_id == w.canonicals.len() - v.canonicals.len()
    &&& forall|k: int| 0 <= k < v.canonicals.len() ==> #[trigger] w.canonicals[k] == v.canonicals[k]
    &&& forall|k: int| v.canonicals.len() <= k < w.canonicals.len() ==> #[trigger] w.canonicals[k].manga_id == manga_id
    &&& w.chapters.len() == v.chapters.len()
    &&& forall|i: int|
        0 <= i < v.chapters.len() ==> {
            &&& (#[trigger] w.chapters[i]).id == v.chapters[i].id
            &&& w.chapters[i].manga_source_id == v.chapters[i].manga_source_id
            &&& w.chapters[i].url == v.chapters[i].url
            &&& w.chapters[i].ordinal == v.chapters[i].ordinal
        }
}

/// Every chapter of the batch `chapter_ids` that leads its ordinal in the batch is linked
/// to the canonical chapter of `manga_id` at its own ordinal; every other one is unlinked.
#[verifier::opaque]
pub open spec fn all_linked(w: CatalogView, manga_id: int, chapter_ids: Seq<i32>) -> bool {
    forall|k: int|
        0 <= k < chapter_ids.len() ==> {
            let ci = chapter_index(w, #[trigger] chapter_ids[k] as int);
            &&& leads_its_ordinal(w, chapter_ids, k) ==> {
                &&& w.chapters[ci].canonical_chapter_id is Some
                &&& canonical_is(
                    w,
                    w.chapters[ci].canonical_chapter_id->0 as int,
                    manga_id,
                    w.chapters[ci].ordinal as int,
                )
            }
            &&& !leads_its_ordinal(w, chapter_ids, k) ==> w.chapters[ci].canonical_chapter_id is None
        }
}

/// All the chapters in `chapter_ids` exist.
pub open spec fn all_chapters_exist(v: CatalogView, chapter_ids: Seq<i32>) -> bool {
    forall|k: int| 0 <= k < chapter_ids.len() ==> has_chapter(v, #[trigger] chapter_ids[k] as int)
}

/// The chapter's position is the same in two catalogs whose chapter ids agree.
pub proof fn lemma_chapter_index_stable(v: CatalogView, w: CatalogView, id: int)
    requires
        wf_ids(v),
        has_chapter(v, id),
        w.chapters.len() == v.chapters.len(),
        forall|i: int| 0 <= i < v.chapters.len() ==> (#[trigger] w.chapters[i]).id == v.chapters[i].id,
    ensures
        has_chapter(w, id),
        chapter_index(w, id) == chapter_index(v, id),
        0 <= chapter_index(v, id) < v.chapters.len(),
        v.chapters[chapter_index(v, id)].id == id,
{
    let i = chapter_index(v, id);
    assert(w.chapters[i].id == id);
    let j = chapter_index(w, id);
    assert(w.chapters[j].id == v.chapters[j].id);
}

/// Canonical chapter facts survive extending the canonical table.
pub proof fn lemma_canonical_is_extend(v: CatalogView, w: CatalogView, id: int, manga_id: int, ordinal: int)
    requires
        canonical_is(v, id, manga_id, ordinal),
        w.canonicals.len() >= v.canonicals.len(),
        forall|k: int| 0 <= k < v.canonicals.len() ==> w.canonicals[k] == v.canonicals[k],
    ensures
        canonical_is(w, id, manga_id, ordinal),
{
    let k = choose|k: int| 0 <= k < v.canonicals.len() && #[trigger] v.canonicals[k].id == id
        && v.canonicals[k].manga_id == manga_id && v.canonicals[k].ordinal == ordinal;
    assert(w.canonicals[k] == v.canonicals[k]);
}

/// In a well-formed catalog a (manga, ordinal) pair names at most one canonical chapter.
pub proof fn lemma_canonical_is_unique(v: CatalogView, a: int, b: int, manga_id: int, ordinal: int)
    requires
        wf_canonicals(v),
        canonical_is(v, a, manga_id, ordinal),
        canonical_is(v, b, manga_id, ordinal),
    ensures
        a == b,
{
    let ka = choose|k: int| 0 <= k < v.canonicals.len() && #[trigger] v.canonicals[k].id == a
        && v.canonicals[k].manga_id == manga_id && v.canonicals[k].ordinal == ordinal;
    let kb = choose|k: int| 0 <= k < v.canonicals.len() && #[trigger] v.canonicals[k].id == b
        && v.canonicals[k].manga_id == manga_id && v.canonicals[k].ordinal == ordinal;
    assert(v.canonicals[ka].manga_id == v.canonicals[kb].manga_id);
}

/// One matching step keeps the catalog well formed, stays inside the frame, and links
/// the chapter to the canonical chapter at its ordinal.
pub proof fn lemma_match_one(v: CatalogView, manga_id: int, chapter_id: int)
    requires
        wf_except_links(v),
        has_manga(v, manga_id),
        has_chapter(v, chapter_id),
        v.next_canonical_id < i32::MAX,
        i32::MIN <= manga_id <= i32::MAX,
    ensures
        ({
            let w = spec_match_one(v, manga_id, chapter_id);
            let ci = chapter_index(v, chapter_id);
            &&& wf_except_links(w)
            &&& match_frame(v, w, manga_id)
            &&& w.next_canonical_id <= v.next_canonical_id + 1
            &&& chapter_index(w, chapter_id) == ci
            &&& w.chapters[ci].canonical_chapter_id is Some
            &&& canonical_is(w, w.chapters[ci].canonical_chapter_id->0 as int, manga_id, w.chapters[ci].ordinal as int)
            &&& forall|i: int| 0 <= i < v.chapters.len() && i != ci ==> #[trigger] w.chapters[i] == v.chapters[i]
        }),
{
    let ci = chapter_index(v, chapter_id);
    let o = v.chapters[ci].ordinal as int;
    let (v1, cid) = spec_find_or_create(v, manga_id, o);
    if has_canonical_at(v, manga_id, o) {
        let k = canonical_at_index(v, manga_id, o);
        assert(v.canonicals[k].id == cid);
    } else {
        lemma_push_canonical_wf(v, manga_id, o);
        assert(v1.canonicals[v.canonicals.len() as int].id == cid);
    }
    assert(canonical_is(v1, cid, manga_id, o));
    let w = spec_link(v1, ci, cid);
    assert(w.canonicals == v1.canonicals);
    assert(w.mangas == v.mangas && w.sources == v.sources && w.readings == v.readings);
    lemma_chapter_index_stable(v, w, chapter_id);
    assert(wf_chapters(w)) by {
        assert forall|i: int| 0 <= i < w.chapters.len() implies has_source(w, #[trigger] w.chapters[i].manga_source_id as int) by {
            assert(w.chapters[i].manga_source_id == v.chapters[i].manga_source_id);
        }
        assert forall|i: int, j: int|
            0 <= i < w.chapters.len() && 0 <= j < w.chapters.len() && #[trigger] w.chapters[i].url@
                == #[trigger] w.chapters[j].url@ implies i == j by {
            assert(w.chapters[i].url == v.chapters[i].url);
            assert(w.chapters[j].url == v.chapters[j].url);
        }
    }
    assert(wf_ids(w)) by {
        assert forall|i: int| 0 <= i < w.chapters.len() implies 1 <= #[trigger] w.chapters[i].id < w.next_chapter_id by {
            assert(w.chapters[i].id == v.chapters[i].id);
        }
        assert forall|i: int, j: int|
            0 <= i < w.chapters.len() && 0 <= j < w.chapters.len() && #[trigger] w.chapters[i].id
                == #[trigger] w.chapters[j].id implies i == j by {
            assert(w.chapters[i].id == v.chapters[i].id);
            assert(w.chapters[j].id == v.chapters[j].id);
        }
    }
}

/// Whether a chapter leads its ordinal in a batch depends only on the batch up to it.
pub proof fn lemma_leads_prefix(v: CatalogView, ids: Seq<i32>, n: int, k: int)
    requires
        0 <= k < n <= ids.len(),
    ensures
        leads_its_ordinal(v, ids.take(n), k) == leads_its_ordinal(v, ids, k),
{
    let t = ids.take(n);
    if leads_its_ordinal(v, ids, k) {
        let j = choose|j: int|
            0 <= j <= k && #[trigger] ids[j] == ids[k] && forall|i: int|
                0 <= i < j ==> chapter_ordinal(v, #[trigger] ids[i] as int) != chapter_ordinal(v, ids[k] as int);
        assert(t[j] == ids[j]);
        assert forall|i: int| 0 <= i < j implies chapter_ordinal(v, #[trigger] t[i] as int) != chapter_ordinal(
            v,
            t[k] as int,
        ) by {
            assert(t[i] == ids[i]);
        }
    }
    if leads_its_ordinal(v, t, k) {
        let j = choose|j: int|
            0 <= j <= k && #[trigger] t[j] == t[k] && forall|i: int|
                0 <= i < j ==> chapter_ordinal(v, #[trigger] t[i] as int) != chapter_ordinal(v, t[k] as int);
        assert(t[j] == ids[j]);
        assert forall|i: int| 0 <= i < j implies chapter_ordinal(v, #[trigger] ids[i] as int) != chapter_ordinal(
            v,
            ids[k] as int,
        ) by {
            assert(t[i] == ids[i]);
        }
    }
}

/// Two places of the same chapter in a batch agree on whether it leads its ordinal.
pub proof fn lemma_leads_same_chapter(v: CatalogView, ids: Seq<i32>, k: int, n: int)
    requires
        0 <= k < n < ids.len(),
        ids[k] == ids[n],
    ensures
        leads_its_ordinal(v, ids, k) == leads_its_ordinal(v, ids, n),
{
    let o = chapter_ordinal(v, ids[n] as int);
    if leads_its_ordinal(v, ids, k) {
        let j = choose|j: int|
            0 <= j <= k && #[trigger] ids[j] == ids[k] && forall|i: int|
                0 <= i < j ==> chapter_ordinal(v, #[trigger] ids[i] as int) != chapter_ordinal(v, ids[k] as int);
        assert(ids[j] == ids[n]);
    }
    if leads_its_ordinal(v, ids, n) {
        let j = choose|j: int|
            0 <= j <= n && #[trigger] ids[j] == ids[n] && forall|i: int|
                0 <= i < j ==> chapter_ordinal(v, #[trigger] ids[i] as int) != chapter_ordinal(v, ids[n] as int);
        if j > k {
            assert(chapter_ordinal(v, ids[k] as int) == o);
            assert(false);
        }
        assert(ids[j] == ids[k]);
    }
}

/// Catalogs that agree on the ordinals of a batch's chapters agree on which of them lead.
pub proof fn lemma_leads_same_ordinals(v: CatalogView, w: CatalogView, ids: Seq<i32>, k: int)
    requires
        0 <= k < ids.len(),
        forall|i: int| 0 <= i < ids.len() ==> chapter_ordinal(w, #[trigger] ids[i] as int) == chapter_ordinal(
            v,
            ids[i] as int,
        ),
    ensures
        leads_its_ordinal(w, ids, k) == leads_its_ordinal(v, ids, k),
{
    assert(chapter_ordinal(w, ids[k] as int) == chapter_ordinal(v, ids[k] as int));
    if leads_its_ordinal(v, ids, k) {
        let j = choose|j: int|
            0 <= j <= k && #[trigger] ids[j] == ids[k] && forall|i: int|
                0 <= i < j ==> chapter_ordinal(v, #[trigger] ids[i] as int) != chapter_ordinal(v, ids[k] as int);
        assert forall|i: int| 0 <= i < j implies chapter_ordinal(w, #[trigger] ids[i] as int) != chapter_ordinal(
            w,
            ids[k] as int,
        ) by {
            assert(chapter_ordinal(w, ids[i] as int) == chapter_ordinal(v, ids[i] as int));
        }
    }
    if leads_its_ordinal(w, ids, k) {
        let j = choose|j: int|
            0 <= j <= k && #[trigger] ids[j] == ids[k] && forall|i: int|
                0 <= i < j ==> chapter_ordinal(w, #[trigger] ids[i] as int) != chapter_ordinal(w, ids[k] as int);
        assert forall|i: int| 0 <= i < j implies chapter_ordinal(v, #[trigger] ids[i] as int) != chapter_ordinal(
            v,
            ids[k] as int,
        ) by {
            assert(chapter_ordinal(w, ids[i] as int) == chapter_ordinal(v, ids[i] as int));
        }
    }
}

/// A catalog that keeps every chapter's id and ordinal in place keeps the ordinals of a
/// batch of existing chapters.
pub proof fn lemma_batch_ordinals(v: CatalogView, w: CatalogView, ids: Seq<i32>)
    requires
        wf_ids(v),
        all_chapters_exist(v, ids),
        w.chapters.len() == v.chapters.len(),
        forall|i: int|
            0 <= i < v.chapters.len() ==> (#[trigger] w.chapters[i]).id == v.chapters[i].id && w.chapters[i].ordinal
                == v.chapters[i].ordinal,
    ensures
        forall|i: int| 0 <= i < ids.len() ==> chapter_ordinal(w, #[trigger] ids[i] as int) == chapter_ordinal(
            v,
            ids[i] as int,
        ),
{
    assert forall|i: int| 0 <= i < ids.len() implies chapter_ordinal(w, #[trigger] ids[i] as int) == chapter_ordinal(
        v,
        ids[i] as int,
    ) by {
        assert(has_chapter(v, ids[i] as int));
        lemma_chapter_index_stable(v, w, ids[i] as int);
    }
}

/// Unlinking one chapter keeps the catalog well formed (but for links) and stays inside
/// the frame of a matching.
pub proof fn lemma_unlink_one(v: CatalogView, manga_id: int, chapter_id: int)
    requires
        wf_except_links(v),
        has_chapter(v, chapter_id),
    ensures
        ({
            let ci = chapter_index(v, chapter_id);
            let w = spec_unlink(v, ci);
            &&& wf_except_links(w)
            &&& match_frame(v, w, manga_id)
            &&& w.next_canonical_id == v.next_canonical_id
            &&& chapter_index(w, chapter_id) == ci
            &&& w.chapters[ci].canonical_chapter_id is None
            &&& forall|i: int| 0 <= i < v.chapters.len() && i != ci ==> #[trigger] w.chapters[i] == v.chapters[i]
        }),
{
    let ci = chapter_index(v, chapter_id);
    let w = spec_unlink(v, ci);
    lemma_chapter_index_stable(v, w, chapter_id);
    assert(w.sources == v.sources);
    assert(wf_chapters(w)) by {
        assert forall|i: int| 0 <= i < w.chapters.len() implies has_source(w, #[trigger] w.chapters[i].manga_source_id as int) by {
            assert(w.chapters[i].manga_source_id == v.chapters[i].manga_source_id);
            assert(has_source(v, v.chapters[i].manga_source_id as int));
        }
        assert forall|i: int, j: int|
            0 <= i < w.chapters.len() && 0 <= j < w.chapters.len() && #[trigger] w.chapters[i].url@
                == #[trigger] w.chapters[j].url@ implies i == j by {
            assert(w.chapters[i].url == v.chapters[i].url);
            assert(w.chapters[j].url == v.chapters[j].url);
        }
    }
    assert(wf_ids(w)) by {
        assert forall|i: int| 0 <= i < w.chapters.len() implies 1 <= #[trigger] w.chapters[i].id < w.next_chapter_id by {
            assert(w.chapters[i].id == v.chapters[i].id);
        }
        assert forall|i: int, j: int|
            0 <= i < w.chapters.len() && 0 <= j < w.chapters.len() && #[trigger] w.chapters[i].id
                == #[trigger] w.chapters[j].id implies i == j by {
            assert(w.chapters[i].id == v.chapters[i].id);
            assert(w.chapters[j].id == v.chapters[j].id);
        }
    }
}

/// One step of the matching keeps every chapter of the batch so far linked, or unlinked,
/// as it leads its ordinal or not.
#[verifier::spinoff_prover]
#[verifier::rlimit(60)]
pub proof fn lemma_match_step_links(
    v0: CatalogView,
    before: CatalogView,
    w: CatalogView,
    manga_id: int,
    chapter_ids: Seq<i32>,
    n: int,
)
    requires
        wf_ids(v0),
        all_chapters_exist(v0, chapter_ids),
        0 <= n < chapter_ids.len(),
        before.chapters.len() == v0.chapters.len(),
        w.chapters.len() == v0.chapters.len(),
        forall|i: int|
            0 <= i < v0.chapters.len() ==> (#[trigger] before.chapters[i]).id == v0.chapters[i].id
                && before.chapters[i].ordinal == v0.chapters[i].ordinal,
        forall|i: int|
            0 <= i < v0.chapters.len() ==> (#[trigger] w.chapters[i]).id == v0.chapters[i].id && w.chapters[i].ordinal
                == v0.chapters[i].ordinal,
        w.canonicals.len() >= before.canonicals.len(),
        forall|k: int| 0 <= k < before.canonicals.len() ==> w.canonicals[k] == before.canonicals[k],
        forall|i: int|
            0 <= i < v0.chapters.len() && i != chapter_index(before, chapter_ids[n] as int) ==> #[trigger] w.chapters[i]
                == before.chapters[i],
        ({
            let ci = chapter_index(before, chapter_ids[n] as int);
            &&& leads_its_ordinal(v0, chapter_ids, n) ==> {
                &&& w.chapters[ci].canonical_chapter_id is Some
                &&& canonical_is(w, w.chapters[ci].canonical_chapter_id->0 as int, manga_id, w.chapters[ci].ordinal as int)
            }
            &&& !leads_its_ordinal(v0, chapter_ids, n) ==> w.chapters[ci].canonical_chapter_id is None
        }),
        all_linked(before, manga_id, chapter_ids.take(n)),
    ensures
        all_linked(w, manga_id, chapter_ids.take(n + 1)),
{
    reveal(all_linked);
    let ids = chapter_ids.take(n + 1);
    let prev = chapter_ids.take(n);
    let id_n = chapter_ids[n] as int;
    lemma_batch_ordinals(v0, before, chapter_ids);
    lemma_batch_ordinals(v0, w, chapter_ids);
    assert(has_chapter(v0, id_n));
    lemma_chapter_index_stable(v0, before, id_n);
    lemma_chapter_index_stable(v0, w, id_n);
    let ci = chapter_index(before, id_n);
    lemma_leads_prefix(w, chapter_ids, n + 1, n);
    lemma_leads_same_ordinals(v0, w, chapter_ids, n);
    assert forall|k: int| 0 <= k < ids.len() implies {
        let cj = chapter_index(w, #[trigger] ids[k] as int);
        &&& leads_its_ordinal(w, ids, k) ==> {
            &&& w.chapters[cj].canonical_chapter_id is Some
            &&& canonical_is(w, w.chapters[cj].canonical_chapter_id->0 as int, manga_id, w.chapters[cj].ordinal as int)
        }
        &&& !leads_its_ordinal(w, ids, k) ==> w.chapters[cj].canonical_chapter_id is None
    } by {
        let pid = ids[k] as int;
        assert(ids[k] == chapter_ids[k]);
        assert(has_chapter(v0, pid));
        lemma_chapter_index_stable(v0, before, pid);
        lemma_chapter_index_stable(v0, w, pid);
        lemma_leads_prefix(w, chapter_ids, n + 1, k);
        if pid == id_n {
            if k < n {
                lemma_leads_same_chapter(w, chapter_ids, k, n);
            }
        } else {
            let cj = chapter_index(before, pid);
            assert(cj != ci);
            assert(k < n);
            assert(prev[k] == ids[k]);
            lemma_leads_prefix(before, chapter_ids, n, k);
            lemma_leads_same_ordinals(v0, before, chapter_ids, k);
            lemma_leads_same_ordinals(v0, w, chapter_ids, k);
            assert(w.chapters[cj] == before.chapters[cj]);
            if before.chapters[cj].canonical_chapter_id is Some && leads_its_ordinal(before, prev, k) {
                lemma_canonical_is_extend(before, w, before.chapters[cj].canonical_chapter_id->0 as int,
                    manga_id, before.chapters[cj].ordinal as int);
            }
        }
    }
}

impl Catalog {
    /// The ordinal of chapter `chapter_id`.
    pub(crate) fn ordinal_of(&self, chapter_id: i32) -> (r: i64)
        requires
            wf_ids(self@),
            has_chapter(self@, chapter_id as int),
        ensures
            r == chapter_ordinal(self@, chapter_id as int),
    {
        match self.find_chapter(chapter_id) {
            Some(ci) => {
                proof {
                    let j = chapter_index(self@, chapter_id as int);
                    assert(self@.chapters[j].id == self@.chapters[ci as int].id);
                }
                self.chapters[ci].ordinal
            },
            None => {
                assert(false);
                0
            },
        }
    }

    /// Whether the `n`-th chapter of the batch `chapter_ids` leads its ordinal in the batch:
    /// the first chapter of the batch at that ordinal is that same chapter.
    pub(crate) fn leads_in_batch(&self, chapter_ids: &Vec<i32>, n: usize) -> (r: bool)
        requires
            wf_ids(self@),
            all_chapters_exist(self@, chapter_ids@),
            n < chapter_ids@.len(),
        ensures
            r == leads_its_ordinal(self@, chapter_ids@, n as int),
    {
        let ids = chapter_ids;
        let o = self.ordinal_of(ids[n]);
        let mut i: usize = 0;
        while i < n
            invariant
                i <= n < ids@.len(),
                ids@ == chapter_ids@,
                wf_ids(self@),
                all_chapters_exist(self@, ids@),
                o == chapter_ordinal(self@, ids@[n as int] as int),
                forall|q: int| 0 <= q < i ==> chapter_ordinal(self@, #[trigger] ids@[q] as int) != o,
            decreases n - i,
        {
            let oi = self.ordinal_of(ids[i]);
            if oi == o {
                let same = ids[i] == ids[n];
                proof {
                    if same {
                        assert(ids@[i as int] == ids@[n as int]);
                        assert(forall|q: int| 0 <= q < i ==> chapter_ordinal(self@, #[trigger] ids@[q] as int)
                            != chapter_ordinal(self@, ids@[n as int] as int));
                        assert(leads_its_ordinal(self@, ids@, n as int));
                    } else if leads_its_ordinal(self@, ids@, n as int) {
                        let j = choose|j: int|
                            0 <= j <= n && #[trigger] ids@[j] == ids@[n as int] && forall|q: int|
                                0 <= q < j ==> chapter_ordinal(self@, #[trigger] ids@[q] as int) != chapter_ordinal(
                                    self@,
                                    ids@[n as int] as int,
                                );
                        if j < i {
                            assert(chapter_ordinal(self@, ids@[j] as int) == o);
                        } else {
                            assert(chapter_ordinal(self@, ids@[i as int] as int) == o);
                        }
                        assert(false);
                    }
                    assert(same == leads_its_ordinal(self@, ids@, n as int));
                }
                return same;
            }
            i = i + 1;
        }
        proof {
            assert(forall|q: int| 0 <= q < n ==> chapter_ordinal(self@, #[trigger] ids@[q] as int)
                != chapter_ordinal(self@, ids@[n as int] as int));
            assert(ids@[n as int] == ids@[n as int]);
            assert(leads_its_ordinal(self@, ids@, n as int));
        }
        true
    }

    /// Runs the chapter matching heuristic on the chapters `chapter_ids`: the first chapter
    /// of the batch at each ordinal is linked to the canonical chapter of `manga_id` at that
    /// ordinal, which is created when `manga_id` has none there yet; a later chapter of the
    /// batch at an ordinal already met is ambiguous, and is left unlinked rather than
    /// guessed (linking or unlinking it by hand is what `link_chapter` and
    /// `unlink_chapter` are for).
    #[verifier::spinoff_prover]
    #[verifier::rlimit(60)]
    pub fn match_canonical_chapters(&mut self, manga_id: i32, chapter_ids: &Vec<i32>)
        requires
            wf_except_links(old(self)@),
            has_manga(old(self)@, manga_id as int),
            all_chapters_exist(old(self)@, chapter_ids@),
            old(self)@.next_canonical_id + chapter_ids@.len() <= i32::MAX,
        ensures
            final(self)@ == spec_match(old(self)@, manga_id as int, chapter_ids@),
            wf_except_links(final(self)@),
            match_frame(old(self)@, final(self)@, manga_id as int),
            final(self)@.next_canonical_id <= old(self)@.next_canonical_id + chapter_ids@.len(),
            all_linked(final(self)@, manga_id as int, chapter_ids@),
            forall|i: int|
                0 <= i < old(self)@.chapters.len() && !chapter_ids@.contains(old(self)@.chapters[i].id)
                    ==> #[trigger] final(self)@.chapters[i] == old(self)@.chapters[i],
    {
        let ghost v0 = self@;
        let mut n: usize = 0;
        proof {
            reveal(all_linked);
        }
        while n < chapter_ids.len()
            invariant
                n <= chapter_ids@.len(),
                self@ == spec_match(v0, manga_id as int, chapter_ids@.take(n as int)),
                wf_except_links(v0),
                wf_except_links(self@),
                has_manga(v0, manga_id as int),
                all_chapters_exist(v0, chapter_ids@),
                v0.next_canonical_id + chapter_ids@.len() <= i32::MAX,
                match_frame(v0, self@, manga_id as int),
                self@.next_canonical_id <= v0.next_canonical_id + n,
                all_linked(self@, manga_id as int, chapter_ids@.take(n as int)),
                forall|i: int|
                    0 <= i < v0.chapters.len() && !chapter_ids@.take(n as int).contains(v0.chapters[i].id)
                        ==> #[trigger] self@.chapters[i] == v0.chapters[i],
            decreases chapter_ids@.len() - n,
        {
            let ghost before = self@;
            let ghost ids = chapter_ids@.take(n as int + 1);
            let chapter_id = chapter_ids[n];
            proof {
                assert(has_chapter(v0, chapter_id as int));
                lemma_chapter_index_stable(v0, before, chapter_id as int);
                lemma_batch_ordinals(v0, before, chapter_ids@);
                assert forall|k: int| 0 <= k < chapter_ids@.len() implies has_chapter(before, #[trigger] chapter_ids@[k] as int) by {
                    assert(has_chapter(v0, chapter_ids@[k] as int));
                    lemma_chapter_index_stable(v0, before, chapter_ids@[k] as int);
                }
            }
            let lead = self.leads_in_batch(chapter_ids, n);
            proof {
                lemma_leads_same_ordinals(v0, before, chapter_ids@, n as int);
                lemma_leads_prefix(v0, chapter_ids@, n as int + 1, n as int);
                assert(ids.drop_last() =~= chapter_ids@.take(n as int));
                assert(ids.last() == chapter_id);
                assert(ids.len() - 1 == n);
                assert(lead == leads_its_ordinal(v0, ids, n as int));
            }
            let ci = match self.find_chapter(chapter_id) {
                Some(ci) => ci,
                None => {
                    assert(false);
                    0
                },
            };
            proof {
                assert(ci == chapter_index(before, chapter_id as int)) by {
                    let j = chapter_index(before, chapter_id as int);
                    assert(before.chapters[j].id == chapter_id);
                }
            }
            if lead {
                proof {
                    lemma_match_one(before, manga_id as int, chapter_id as int);
                }
                let ordinal = self.chapters[ci].ordinal;
                let cid = self.find_or_create_canonical_chapter(manga_id, ordinal);
                self.chapters[ci].canonical_chapter_id = Some(cid);
                proof {
                    let w = spec_match_one(before, manga_id as int, chapter_id as int);
                    assert(self@.chapters =~= w.chapters);
                    assert(self@ == w);
                }
            } else {
                proof {
                    lemma_unlink_one(before, manga_id as int, chapter_id as int);
                }
                self.chapters[ci].canonical_chapter_id = None;
                proof {
                    assert(self@.chapters =~= spec_unlink(before, ci as int).chapters);
                    assert(self@ == spec_unlink(before, ci as int));
                }
            }
            proof {
                assert(self@ == spec_match(v0, manga_id as int, ids));
                // frame composes
                assert forall|k: int| 0 <= k < v0.canonicals.len() implies #[trigger] self@.canonicals[k] == v0.canonicals[k] by {
                    assert(before.canonicals[k] == v0.canonicals[k]);
                }
                assert forall|k: int| v0.canonicals.len() <= k < self@.canonicals.len() implies #[trigger] self@.canonicals[k].manga_id == manga_id by {
                    if k < before.canonicals.len() {
                        assert(self@.canonicals[k] == before.canonicals[k]);
                    }
                }
                assert forall|i: int| 0 <= i < v0.chapters.len() implies {
                    &&& (#[trigger] self@.chapters[i]).id == v0.chapters[i].id
                    &&& self@.chapters[i].manga_source_id == v0.chapters[i].manga_source_id
                    &&& self@.chapters[i].url == v0.chapters[i].url
                    &&& self@.chapters[i].ordinal == v0.chapters[i].ordinal
                } by {
                    assert(before.chapters[i].id == v0.chapters[i].id);
                }
                assert forall|i: int|
                    0 <= i < v0.chapters.len() && i != chapter_index(before, chapter_ids@[n as int] as int)
                        implies #[trigger] self@.chapters[i] == before.chapters[i] by {}
                lemma_match_step_links(v0, before, self@, manga_id as int, chapter_ids@, n as int);
                assert forall|i: int|
                    0 <= i < v0.chapters.len() && !ids.contains(v0.chapters[i].id)
                        implies #[trigger] self@.chapters[i] == v0.chapters[i] by {
                    if chapter_ids@.take(n as int).contains(v0.chapters[i].id) {
                        let k = choose|k: int| 0 <= k < n && chapter_ids@.take(n as int)[k] == v0.chapters[i].id;
                        assert(ids[k] == v0.chapters[i].id);
                    }
                    assert(i != ci) by {
                        if i == ci {
                            assert(v0.chapters[i].id == before.chapters[i].id);
                            assert(ids[n as int] == chapter_id);
                        }
                    }
                }
            }
            n = n + 1;
        }
        proof {
            assert(chapter_ids@.take(n as int) =~= chapter_ids@);
        }
    }
}


// ---------------------------------------------------------------------------------------
// Reading progress
// ---------------------------------------------------------------------------------------

/// Number of canonical chapters of `manga_id` at or before `ordinal`: the rank of a
/// chapter among the manga's canonical chapters.
pub open spec fn spec_rank(cs: Seq<CanonicalRow>, manga_id: int, ordinal: int) -> nat
    decreases cs.len(),
{
    if cs.len() == 0 {
        0
    } else {
        spec_rank(cs.drop_last(), manga_id, ordinal) + if cs.last().manga_id == manga_id && cs.last().ordinal
            <= ordinal {
            1nat
        } else {
            0nat
        }
    }
}

pub proof fn lemma_rank_bound(cs: Seq<CanonicalRow>, manga_id: int, ordinal: int)
    ensures
        spec_rank(cs, manga_id, ordinal) <= cs.len(),
    decreases cs.len(),
{
    if cs.len() > 0 {
        lemma_rank_bound(cs.drop_last(), manga_id, ordinal);
    }
}

/// The readings with the row of (`user_id`, `manga_id`), if any, set to `progress` and
/// `last`.
pub open spec fn spec_set_progress(
    rs: Seq<ReadingRow>,
    user_id: int,
    manga_id: int,
    progress: int,
    last: Option<i32>,
) -> Seq<ReadingRow> {
    rs.map_values(
        |r: ReadingRow|
            if r.user_id == user_id && r.manga_id == manga_id {
                ReadingRow { progress: progress as i32, last_canonical_chapter_id: last, ..r }
            } else {
                r
            },
    )
}

/// Records that `user_id` has read `manga_id` up to canonical chapter `canonical_id`:
/// the reading row's last chapter becomes `canonical_id` and its progress that chapter's
/// rank, in one write.
pub open spec fn spec_sync_progress(v: CatalogView, user_id: int, manga_id: int, canonical_id: int) -> CatalogView {
    let k = canonical_index(v, canonical_id);
    CatalogView {
        readings: spec_set_progress(
            v.readings,
            user_id,
            manga_id,
            spec_rank(v.canonicals, manga_id, v.canonicals[k].ordinal as int) as int,
            Some(canonical_id as i32),
        ),
        ..v
    }
}

/// Why a catalog operation was refused. Each refusal leaves the catalog as it was.
#[derive(Debug, Clone, Copy, PartialEq, Eq)]
pub enum CatalogError {
    /// No manga has the given id.
    MangaNotFound,
    /// No source has the given id.
    SourceNotFound,
    /// No chapter has the given id.
    ChapterNotFound,
    /// The canonical chapter does not exist, or belongs to another manga.
    CanonicalChapterNotFound,
    /// The target manga of a move or merge does not exist.
    TargetMangaNotFound,
    /// The source already belongs to the target manga.
    SourceAlreadyInTarget,
    /// The manga to merge does not exist or has no sources.
    MergeSourceNotFound,
    /// A source with this url already exists.
    SourceUrlTaken,
    /// The url a scrape reports is another source's already, so no source can be stored
    /// for it (source urls name one source each).
    ScrapedUrlTaken,
    /// No reading row exists for this user and manga.
    ReadingNotFound,
    /// The user already has a reading row for this manga.
    ReadingExists,
    /// The chapter is not linked to any canonical chapter.
    ChapterNotLinked,
    /// The canonical chapter belongs to another manga than the chapter's source.
    CanonicalOfOtherManga,
}

/// The message a refusal is answered with.
pub open spec fn catalog_error_text(e: CatalogError) -> Seq<char> {
    match e {
        CatalogError::MangaNotFound => "Manga not found"@,
        CatalogError::SourceNotFound => "Manga source not found"@,
        CatalogError::ChapterNotFound => "Chapter not found"@,
        CatalogError::CanonicalChapterNotFound => "Canonical chapter not found"@,
        CatalogError::TargetMangaNotFound => "Target manga not found"@,
        CatalogError::SourceAlreadyInTarget => "Source already belongs to the target manga"@,
        CatalogError::MergeSourceNotFound => "Source manga not found, or has no sources"@,
        CatalogError::SourceUrlTaken => "A source with this url already exists"@,
        CatalogError::ScrapedUrlTaken => "A source with the scraped url already exists"@,
        CatalogError::ReadingNotFound => "Reading not found"@,
        CatalogError::ReadingExists => "Reading already exists"@,
        CatalogError::ChapterNotLinked => "This chapter is not linked to a canonical chapter"@,
        CatalogError::CanonicalOfOtherManga => "canonical_chapter_id does not belong to the same manga as this chapter"@,
    }
}

/// The status code a refusal is answered with.
pub open spec fn catalog_error_code(e: CatalogError) -> Code {
    match e {
        CatalogError::SourceAlreadyInTarget | CatalogError::CanonicalOfOtherManga => Code::InvalidArgument,
        CatalogError::SourceUrlTaken => Code::AlreadyExists,
        CatalogError::ScrapedUrlTaken | CatalogError::ReadingExists => Code::Internal,
        CatalogError::ChapterNotLinked => Code::FailedPrecondition,
        _ => Code::NotFound,
    }
}

impl CatalogError {
    /// The message the caller is answered with.
    pub fn message(&self) -> (r: &'static str)
        ensures
            r@ == catalog_error_text(*self),
    {
        match self {
            CatalogError::MangaNotFound => "Manga not found",
            CatalogError::SourceNotFound => "Manga source not found",
            CatalogError::ChapterNotFound => "Chapter not found",
            CatalogError::CanonicalChapterNotFound => "Canonical chapter not found",
            CatalogError::TargetMangaNotFound => "Target manga not found",
            CatalogError::SourceAlreadyInTarget => "Source already belongs to the target manga",
            CatalogError::MergeSourceNotFound => "Source manga not found, or has no sources",
            CatalogError::SourceUrlTaken => "A source with this url already exists",
            CatalogError::ScrapedUrlTaken => "A source with the scraped url already exists",
            CatalogError::ReadingNotFound => "Reading not found",
            CatalogError::ReadingExists => "Reading already exists",
            CatalogError::ChapterNotLinked => "This chapter is not linked to a canonical chapter",
            CatalogError::CanonicalOfOtherManga => "canonical_chapter_id does not belong to the same manga as this chapter",
        }
    }

    /// The status code the caller is answered with: a missing row is "not found", a taken
    /// url of the request "already exists", a chapter without a link a failed
    /// precondition, a mismatched request an invalid argument, and what the database would
    /// refuse on insert an internal error.
    pub fn code(&self) -> (r: Code)
        ensures
            r == catalog_error_code(*self),
    {
        match self {
            CatalogError::SourceAlreadyInTarget | CatalogError::CanonicalOfOtherManga => Code::InvalidArgument,
            CatalogError::SourceUrlTaken => Code::AlreadyExists,
            CatalogError::ScrapedUrlTaken | CatalogError::ReadingExists => Code::Internal,
            CatalogError::ChapterNotLinked => Code::FailedPrecondition,
            _ => Code::NotFound,
        }
    }
}

impl Catalog {
    /// Number of canonical chapters of `manga_id` at or before `ordinal`.
    pub(crate) fn rank_of(&self, manga_id: i32, ordinal: i64) -> (r: usize)
        ensures
            r == spec_rank(self@.canonicals, manga_id as int, ordinal as int),
    {
        let mut count: usize = 0;
        let mut i: usize = 0;
        while i < self.canonicals.len()
            invariant
                i <= self.canonicals@.len(),
                count == spec_rank(self.canonicals@.take(i as int), manga_id as int, ordinal as int),
                count <= i,
            decreases self.canonicals@.len() - i,
        {
            proof {
                assert(self.canonicals@.take(i as int + 1).drop_last() =~= self.canonicals@.take(i as int));
            }
            if self.canonicals[i].manga_id == manga_id && self.canonicals[i].ordinal <= ordinal {
                count = count + 1;
            }
            i = i + 1;
        }
        proof {
            assert(self.canonicals@.take(i as int) =~= self.canonicals@);
        }
        count
    }

    /// Sets the progress and last chapter of the reading row of (`user_id`, `manga_id`),
    /// when there is one.
    pub(crate) fn set_progress(&mut self, user_id: i32, manga_id: i32, progress: i32, last: Option<i32>)
        requires
            wf_ids(old(self)@),
            wf_readings(old(self)@),
        ensures
            final(self)@ == (CatalogView {
                readings: spec_set_progress(old(self)@.readings, user_id as int, manga_id as int, progress as int, last),
                ..old(self)@
            }),
    {
        match self.find_reading(user_id, manga_id) {
            Some(i) => {
                self.readings.set(i, ReadingRow { progress, last_canonical_chapter_id: last, ..self.readings[i] });
                proof {
                    let want = spec_set_progress(old(self)@.readings, user_id as int, manga_id as int, progress as int, last);
                    assert forall|j: int| 0 <= j < self@.readings.len() implies self@.readings[j] == want[j] by {
                        if j != i {
                            if old(self)@.readings[j].user_id == user_id && old(self)@.readings[j].manga_id == manga_id {
                                assert(old(self)@.readings[j].user_id == old(self)@.readings[i as int].user_id);
                            }
                        }
                    }
                    assert(self@.readings =~= want);
                }
            },
            None => {
                proof {
                    let want = spec_set_progress(old(self)@.readings, user_id as int, manga_id as int, progress as int, last);
                    assert forall|j: int| 0 <= j < self@.readings.len() implies self@.readings[j] == want[j] by {
                        if old(self)@.readings[j].user_id == user_id && old(self)@.readings[j].manga_id == manga_id {
                            assert(has_reading(old(self)@, user_id as int, manga_id as int));
                        }
                    }
                    assert(self@.readings =~= want);
                }
            },
        }
    }

    /// Records that `user_id` has read `manga_id` up to `canonical_chapter_id`: progress
    /// becomes that chapter's rank among the manga's canonical chapters and the last chapter
    /// read becomes it, in the one place the two are ever written together.
    pub fn sync_reading_progress(&mut self, user_id: i32, manga_id: i32, canonical_chapter_id: i32) -> (r: Result<
        (),
        CatalogError,
    >)
        requires
            wf(old(self)@),
        ensures
            r is Err <==> !canonical_of_manga(old(self)@, canonical_chapter_id as int, manga_id as int),
            r is Err ==> r == Err::<(), CatalogError>(CatalogError::CanonicalChapterNotFound) && final(self)@
                == old(self)@,
            r is Ok ==> final(self)@ == spec_sync_progress(
                old(self)@,
                user_id as int,
                manga_id as int,
                canonical_chapter_id as int,
            ),
            wf(final(self)@),
    {
        let k = match self.find_canonical(canonical_chapter_id) {
            Some(k) => k,
            None => {
                return Err(CatalogError::CanonicalChapterNotFound);
            },
        };
        if self.canonicals[k].manga_id != manga_id {
            proof {
                if canonical_of_manga(self@, canonical_chapter_id as int, manga_id as int) {
                    let j = choose|j: int| 0 <= j < self@.canonicals.len() && #[trigger] self@.canonicals[j].id
                        == canonical_chapter_id && self@.canonicals[j].manga_id == manga_id;
                    assert(self@.canonicals[j].id == self@.canonicals[k as int].id);
                }
            }
            return Err(CatalogError::CanonicalChapterNotFound);
        }
        let ordinal = self.canonicals[k].ordinal;
        let rank = self.rank_of(manga_id, ordinal);
        proof {
            lemma_rank_bound(self@.canonicals, manga_id as int, ordinal as int);
            assert(canonical_index(self@, canonical_chapter_id as int) == k) by {
                let j = canonical_index(self@, canonical_chapter_id as int);
                assert(self@.canonicals[k as int].id == canonical_chapter_id);
            }
            assert(canonical_of_manga(self@, canonical_chapter_id as int, manga_id as int)) by {
                assert(self@.canonicals[k as int].id == canonical_chapter_id);
            }
        }
        let ghost before = self@;
        self.set_progress(user_id, manga_id, rank as i32, Some(canonical_chapter_id));
        proof {
            let w = self@;
            assert(w.readings.len() == before.readings.len());
            assert(w.chapters == before.chapters && w.canonicals == before.canonicals && w.sources == before.sources
                && w.mangas == before.mangas);
            assert(wf_ids(w));
            assert(wf_links(w));
            assert forall|i: int| 0 <= i < w.readings.len() implies has_manga(w, #[trigger] w.readings[i].manga_id as int) by {
                assert(w.readings[i].manga_id == before.readings[i].manga_id);
            }
            assert forall|i: int, j: int|
                0 <= i < w.readings.len() && 0 <= j < w.readings.len() && #[trigger] w.readings[i].user_id
                    == #[trigger] w.readings[j].user_id && w.readings[i].manga_id == w.readings[j].manga_id
                    implies i == j by {
                assert(w.readings[i].user_id == before.readings[i].user_id);
                assert(w.readings[j].user_id == before.readings[j].user_id);
            }
            assert forall|i: int|
                0 <= i < w.readings.len() && (#[trigger] w.readings[i].last_canonical_chapter_id) is Some
                    implies canonical_of_manga(w, w.readings[i].last_canonical_chapter_id->0 as int, w.readings[i].manga_id as int) by {
                if before.readings[i].user_id == user_id && before.readings[i].manga_id == manga_id {
                    assert(w.canonicals[k as int].id == canonical_chapter_id);
                } else {
                    assert(w.readings[i] == before.readings[i]);
                }
            }
        }
        Ok(())
    }
}


// ---------------------------------------------------------------------------------------
// Filtering tables
// ---------------------------------------------------------------------------------------

/// Every element that a filter keeps is an element of the sequence it filters and passes the
/// predicate.
pub proof fn lemma_filter_origin<A>(s: Seq<A>, p: spec_fn(A) -> bool, i: int)
    requires
        0 <= i < s.filter(p).len(),
    ensures
        exists|j: int| 0 <= j < s.len() && s.filter(p)[i] == #[trigger] s[j] && p(s[j]),
{
    s.lemma_filter_pred(p, i);
    assert(s.filter(p).contains(s.filter(p)[i]));
    s.lemma_filter_contains_rev(p, s.filter(p)[i]);
}

/// Filtering keeps a key injective.
pub proof fn lemma_filter_key_unique<A, K>(s: Seq<A>, p: spec_fn(A) -> bool, key: spec_fn(A) -> K)
    requires
        forall|i: int, j: int| 0 <= i < s.len() && 0 <= j < s.len() && key(s[i]) == key(s[j]) ==> i == j,
    ensures
        forall|i: int, j: int|
            0 <= i < s.filter(p).len() && 0 <= j < s.filter(p).len() && key(s.filter(p)[i]) == key(
                s.filter(p)[j],
            ) ==> i == j,
    decreases s.len(),
{
    reveal(Seq::filter);
    if s.len() > 0 {
        let t = s.drop_last();
        assert forall|i: int, j: int| 0 <= i < t.len() && 0 <= j < t.len() && key(t[i]) == key(t[j]) implies i == j by {
            assert(t[i] == s[i] && t[j] == s[j]);
        }
        lemma_filter_key_unique(t, p, key);
        let ft = t.filter(p);
        let f = s.filter(p);
        if p(s.last()) {
            assert(f == ft.push(s.last()));
            assert forall|i: int, j: int|
                0 <= i < f.len() && 0 <= j < f.len() && key(f[i]) == key(f[j]) implies i == j by {
                if i < ft.len() && j < ft.len() {
                    assert(f[i] == ft[i] && f[j] == ft[j]);
                } else if i < ft.len() {
                    assert(f[i] == ft[i]);
                    lemma_filter_origin(t, p, i);
                    let k = choose|k: int| 0 <= k < t.len() && ft[i] == #[trigger] t[k] && p(t[k]);
                    assert(t[k] == s[k]);
                    assert(f[j] == s[s.len() - 1]);
                } else if j < ft.len() {
                    assert(f[j] == ft[j]);
                    lemma_filter_origin(t, p, j);
                    let k = choose|k: int| 0 <= k < t.len() && ft[j] == #[trigger] t[k] && p(t[k]);
                    assert(t[k] == s[k]);
                    assert(f[i] == s[s.len() - 1]);
                }
            }
        } else {
            assert(f == ft);
        }
    }
}

/// The chapters of every source but `source_id`.
pub open spec fn chapters_not_of(cs: Seq<ChapterRow>, source_id: int) -> Seq<ChapterRow> {
    cs.filter(chapter_not_of(source_id))
}

pub open spec fn chapter_not_of(source_id: int) -> spec_fn(ChapterRow) -> bool {
    |c: ChapterRow| c.manga_source_id != source_id
}

pub open spec fn canonical_not_of(manga_id: int) -> spec_fn(CanonicalRow) -> bool {
    |c: CanonicalRow| c.manga_id != manga_id
}

pub open spec fn reading_not_of(manga_id: int) -> spec_fn(ReadingRow) -> bool {
    |r: ReadingRow| r.manga_id != manga_id
}

/// The canonical chapters of every manga but `manga_id`.
pub open spec fn canonicals_not_of(cs: Seq<CanonicalRow>, manga_id: int) -> Seq<CanonicalRow> {
    cs.filter(canonical_not_of(manga_id))
}

/// The reading rows of every manga but `manga_id`.
pub open spec fn readings_not_of(rs: Seq<ReadingRow>, manga_id: int) -> Seq<ReadingRow> {
    rs.filter(reading_not_of(manga_id))
}

/// Position of manga `id` (meaningful when it exists).
pub open spec fn manga_index(v: CatalogView, id: int) -> int {
    choose|i: int| 0 <= i < v.mangas.len() && #[trigger] v.mangas[i].id == id
}

/// Deleting source `source_id`, which takes its chapters with it.
pub open spec fn spec_delete_source(v: CatalogView, source_id: int) -> CatalogView {
    CatalogView {
        sources: v.sources.remove(source_index(v, source_id)),
        chapters: chapters_not_of(v.chapters, source_id),
        ..v
    }
}

/// Deleting manga `manga_id`, which takes its canonical chapters and reading rows with it.
pub open spec fn spec_delete_manga(v: CatalogView, manga_id: int) -> CatalogView {
    CatalogView {
        mangas: v.mangas.remove(manga_index(v, manga_id)),
        canonicals: canonicals_not_of(v.canonicals, manga_id),
        readings: readings_not_of(v.readings, manga_id),
        ..v
    }
}

impl Catalog {
    /// Deletes the chapters of source `source_id`.
    pub(crate) fn delete_chapters_of(&mut self, source_id: i32)
        ensures
            final(self)@ == (CatalogView { chapters: chapters_not_of(old(self)@.chapters, source_id as int), ..old(self)@ }),
    {
        let ghost orig = self.chapters@;
        let ghost pred = chapter_not_of(source_id as int);
        let mut rest: Vec<ChapterRow> = Vec::new();
        std::mem::swap(&mut rest, &mut self.chapters);
        let n = rest.len();
        let mut kept: Vec<ChapterRow> = Vec::new();
        let mut i: usize = 0;
        while i < n
            invariant
                i <= n,
                n == orig.len(),
                pred == chapter_not_of(source_id as int),
                rest@ == orig.skip(i as int),
                kept@ == orig.take(i as int).filter(pred),
            decreases n - i,
        {
            let row = rest.remove(0);
            proof {
                assert(row == orig[i as int]);
                orig.take(i as int).lemma_filter_push(row, pred);
                assert(orig.take(i as int + 1) =~= orig.take(i as int).push(row));
                assert(pred(row) == (row.manga_source_id != source_id));
            }
            if row.manga_source_id != source_id {
                kept.push(row);
            }
            i = i + 1;
            proof {
                assert(rest@ =~= orig.skip(i as int));
            }
        }
        self.chapters = kept;
        proof {
            assert(orig.take(i as int) =~= orig);
        }
    }

    /// Deletes the canonical chapters of manga `manga_id`.
    pub(crate) fn delete_canonicals_of(&mut self, manga_id: i32)
        ensures
            final(self)@ == (CatalogView { canonicals: canonicals_not_of(old(self)@.canonicals, manga_id as int), ..old(self)@ }),
    {
        let ghost orig = self.canonicals@;
        let ghost pred = canonical_not_of(manga_id as int);
        let mut rest: Vec<CanonicalRow> = Vec::new();
        std::mem::swap(&mut rest, &mut self.canonicals);
        let n = rest.len();
        let mut kept: Vec<CanonicalRow> = Vec::new();
        let mut i: usize = 0;
        while i < n
            invariant
                i <= n,
                n == orig.len(),
                pred == canonical_not_of(manga_id as int),
                rest@ == orig.skip(i as int),
                kept@ == orig.take(i as int).filter(pred),
            decreases n - i,
        {
            let row = rest.remove(0);
            proof {
                assert(row == orig[i as int]);
                orig.take(i as int).lemma_filter_push(row, pred);
                assert(orig.take(i as int + 1) =~= orig.take(i as int).push(row));
                assert(pred(row) == (row.manga_id != manga_id));
            }
            if row.manga_id != manga_id {
                kept.push(row);
            }
            i = i + 1;
            proof {
                assert(rest@ =~= orig.skip(i as int));
            }
        }
        self.canonicals = kept;
        proof {
            assert(orig.take(i as int) =~= orig);
        }
    }

    /// Deletes the reading rows of manga `manga_id`.
    pub(crate) fn delete_readings_of(&mut self, manga_id: i32)
        ensures
            final(self)@ == (CatalogView { readings: readings_not_of(old(self)@.readings, manga_id as int), ..old(self)@ }),
    {
        let ghost orig = self.readings@;
        let ghost pred = reading_not_of(manga_id as int);
        let mut rest: Vec<ReadingRow> = Vec::new();
        std::mem::swap(&mut rest, &mut self.readings);
        let n = rest.len();
        let mut kept: Vec<ReadingRow> = Vec::new();
        let mut i: usize = 0;
        while i < n
            invariant
                i <= n,
                n == orig.len(),
                pred == reading_not_of(manga_id as int),
                rest@ == orig.skip(i as int),
                kept@ == orig.take(i as int).filter(pred),
            decreases n - i,
        {
            let row = rest.remove(0);
            proof {
                assert(row == orig[i as int]);
                orig.take(i as int).lemma_filter_push(row, pred);
                assert(orig.take(i as int + 1) =~= orig.take(i as int).push(row));
                assert(pred(row) == (row.manga_id != manga_id));
            }
            if row.manga_id != manga_id {
                kept.push(row);
            }
            i = i + 1;
            proof {
                assert(rest@ =~= orig.skip(i as int));
            }
        }
        self.readings = kept;
        proof {
            assert(orig.take(i as int) =~= orig);
        }
    }

    /// Deletes source `source_id` and its chapters.
    pub(crate) fn delete_source(&mut self, source_id: i32)
        requires
            has_source(old(self)@, source_id as int),
            wf_ids(old(self)@),
        ensures
            final(self)@ == spec_delete_source(old(self)@, source_id as int),
    {
        let i = match self.find_source(source_id) {
            Some(i) => i,
            None => {
                assert(false);
                0
            },
        };
        proof {
            let j = source_index(self@, source_id as int);
            assert(self@.sources[j].id == self@.sources[i as int].id);
        }
        self.sources.remove(i);
        self.delete_chapters_of(source_id);
    }

    /// Deletes manga `manga_id` with its canonical chapters and reading rows.
    pub(crate) fn delete_manga(&mut self, manga_id: i32)
        requires
            has_manga(old(self)@, manga_id as int),
            wf_ids(old(self)@),
        ensures
            final(self)@ == spec_delete_manga(old(self)@, manga_id as int),
    {
        let i = match self.find_manga(manga_id) {
            Some(i) => i,
            None => {
                assert(false);
                0
            },
        };
        proof {
            let j = manga_index(self@, manga_id as int);
            assert(self@.mangas[j].id == self@.mangas[i as int].id);
        }
        self.mangas.remove(i);
        self.delete_canonicals_of(manga_id);
        self.delete_readings_of(manga_id);
    }
}


// ---------------------------------------------------------------------------------------
// Primary sources
// ---------------------------------------------------------------------------------------

/// Whether position `j` holds the lowest-id source of `manga_id` other than `excluding`.
pub open spec fn is_replacement(v: CatalogView, manga_id: int, excluding: int, j: int) -> bool {
    &&& 0 <= j < v.sources.len()
    &&& v.sources[j].manga_id == manga_id
    &&& v.sources[j].id != excluding
    &&& forall|k: int|
        0 <= k < v.sources.len() && #[trigger] v.sources[k].manga_id == manga_id && v.sources[k].id != excluding
            ==> v.sources[j].id <= v.sources[k].id
}

/// Promotes the lowest-id other source of `manga_id` to primary, when there is one.
pub open spec fn spec_promote(v: CatalogView, manga_id: int, excluding: int) -> CatalogView {
    if exists|j: int| is_replacement(v, manga_id, excluding, j) {
        let j = choose|j: int| is_replacement(v, manga_id, excluding, j);
        CatalogView { sources: v.sources.update(j, SourceRow { is_primary: true, ..v.sources[j] }), ..v }
    } else {
        v
    }
}

/// Makes source `source_id` the one primary source of `manga_id`.
pub open spec fn spec_set_primary(v: CatalogView, manga_id: int, source_id: int) -> CatalogView {
    CatalogView {
        sources: v.sources.map_values(
            |s: SourceRow|
                if s.manga_id == manga_id {
                    SourceRow { is_primary: s.id == source_id, ..s }
                } else {
                    s
                },
        ),
        ..v
    }
}

/// How removing a source ended.
#[derive(Debug, Clone, Copy, PartialEq, Eq)]
pub enum RemoveSourceOutcome {
    /// The manga kept at least one other source.
    Kept(i32),
    /// That was the manga's last source, so the manga was deleted with it.
    MangaDeleted(i32),
}

/// Removing source `source_id`: another source of its manga is promoted first when it was
/// the primary one, and a manga left without sources is deleted.
pub open spec fn spec_remove_source(v: CatalogView, source_id: int) -> (CatalogView, RemoveSourceOutcome) {
    let s = v.sources[source_index(v, source_id)];
    let m = s.manga_id as int;
    let v1 = if s.is_primary {
        spec_promote(v, m, source_id)
    } else {
        v
    };
    let v2 = spec_delete_source(v1, source_id);
    if has_any_source(v2, m) {
        (v2, RemoveSourceOutcome::Kept(m as i32))
    } else {
        (spec_delete_manga(v2, m), RemoveSourceOutcome::MangaDeleted(m as i32))
    }
}

/// An element that passes the filter is found in the filtered sequence.
pub proof fn lemma_filter_keeps<A>(s: Seq<A>, p: spec_fn(A) -> bool, k: int)
    requires
        0 <= k < s.len(),
        p(s[k]),
    ensures
        exists|i: int| 0 <= i < s.filter(p).len() && #[trigger] s.filter(p)[i] == s[k],
{
    s.lemma_filter_contains(p, k);
}

/// Source positions and owners are unaffected by changes that keep every row's id and
/// manga in place.
pub proof fn lemma_manga_of_source_same_rows(v: CatalogView, w: CatalogView, id: int)
    requires
        wf_ids(v),
        has_source(v, id),
        w.sources.len() == v.sources.len(),
        forall|i: int| 0 <= i < v.sources.len() ==> (#[trigger] w.sources[i]).id == v.sources[i].id
            && w.sources[i].manga_id == v.sources[i].manga_id,
    ensures
        has_source(w, id),
        source_index(w, id) == source_index(v, id),
        manga_of_source(w, id) == manga_of_source(v, id),
{
    let i = source_index(v, id);
    assert(w.sources[i].id == id);
    let j = source_index(w, id);
    assert(w.sources[j].id == v.sources[j].id);
}

/// Removing one source keeps the owner of every other source.
pub proof fn lemma_manga_of_source_remove(v: CatalogView, w: CatalogView, r: int, id: int)
    requires
        wf_ids(v),
        0 <= r < v.sources.len(),
        w.sources == v.sources.remove(r),
        has_source(v, id),
        v.sources[r].id != id,
    ensures
        has_source(w, id),
        manga_of_source(w, id) == manga_of_source(v, id),
{
    let i = source_index(v, id);
    if i < r {
        assert(w.sources[i] == v.sources[i]);
    } else {
        assert(i != r);
        assert(w.sources[i - 1] == v.sources[i]);
    }
    let j = source_index(w, id);
    if j < r {
        assert(w.sources[j] == v.sources[j]);
    } else {
        assert(w.sources[j] == v.sources[j + 1]);
    }
}

/// Removing a manga row keeps every other manga.
pub proof fn lemma_has_manga_remove(v: CatalogView, w: CatalogView, r: int, id: int)
    requires
        0 <= r < v.mangas.len(),
        w.mangas == v.mangas.remove(r),
        has_manga(v, id),
        v.mangas[r].id != id,
    ensures
        has_manga(w, id),
{
    let i = choose|i: int| 0 <= i < v.mangas.len() && #[trigger] v.mangas[i].id == id;
    if i < r {
        assert(w.mangas[i] == v.mangas[i]);
    } else {
        assert(w.mangas[i - 1] == v.mangas[i]);
    }
}

/// Deleting a source keeps the catalog well formed when its manga is left with at most
/// the sources' old primary elsewhere.
pub proof fn lemma_delete_source_wf(v: CatalogView, source_id: int)
    requires
        wf_ids(v),
        wf_source_rows(v),
        primaries_unique_except(v, source_id),
        wf_chapters(v),
        wf_canonicals(v),
        wf_readings(v),
        wf_links(v),
        has_source(v, source_id),
    ensures
        ({
            let w = spec_delete_source(v, source_id);
            &&& wf(w)
            &&& forall|m: int| #[trigger] has_primary(w, m) <==> (exists|j: int| 0 <= j < v.sources.len()
                && #[trigger] v.sources[j].manga_id == m && v.sources[j].is_primary && v.sources[j].id != source_id)
            &&& forall|m: int| #[trigger] has_any_source(w, m) <==> (exists|j: int| 0 <= j < v.sources.len()
                && #[trigger] v.sources[j].manga_id == m && v.sources[j].id != source_id)
        }),
{
    let w = spec_delete_source(v, source_id);
    let r = source_index(v, source_id);
    let pred = chapter_not_of(source_id);
    assert(w.sources == v.sources.remove(r));
    assert(w.chapters == v.chapters.filter(pred));
    // rows of the new source table come from the old one
    assert forall|i: int| 0 <= i < w.sources.len() implies (i < r ==> #[trigger] w.sources[i] == v.sources[i])
        && (i >= r ==> w.sources[i] == v.sources[i + 1]) by {}
    // ids
    assert forall|i: int| 0 <= i < w.sources.len() implies 1 <= #[trigger] w.sources[i].id < w.next_source_id by {
        if i >= r { assert(w.sources[i] == v.sources[i + 1]); }
    }
    assert forall|i: int, j: int|
        0 <= i < w.sources.len() && 0 <= j < w.sources.len() && #[trigger] w.sources[i].id
            == #[trigger] w.sources[j].id implies i == j by {
        let a = if i < r { i } else { i + 1 };
        let b = if j < r { j } else { j + 1 };
        assert(w.sources[i] == v.sources[a]);
        assert(w.sources[j] == v.sources[b]);
    }
    v.chapters.lemma_filter_len(pred);
    assert forall|i: int| 0 <= i < w.chapters.len() implies 1 <= #[trigger] w.chapters[i].id < w.next_chapter_id by {
        lemma_filter_origin(v.chapters, pred, i);
    }
    lemma_filter_key_unique(v.chapters, pred, |c: ChapterRow| c.id);
    assert forall|i: int, j: int|
        0 <= i < w.chapters.len() && 0 <= j < w.chapters.len() && #[trigger] w.chapters[i].id
            == #[trigger] w.chapters[j].id implies i == j by {
        assert((|c: ChapterRow| c.id)(w.chapters[i]) == (|c: ChapterRow| c.id)(w.chapters[j]));
    }
    assert(wf_ids(w));
    // sources
    assert forall|i: int| 0 <= i < w.sources.len() implies has_manga(w, #[trigger] w.sources[i].manga_id as int) by {
        if i >= r { assert(w.sources[i] == v.sources[i + 1]); }
    }
    assert forall|i: int, j: int|
        0 <= i < w.sources.len() && 0 <= j < w.sources.len() && #[trigger] w.sources[i].url@
            == #[trigger] w.sources[j].url@ implies i == j by {
        let a = if i < r { i } else { i + 1 };
        let b = if j < r { j } else { j + 1 };
        assert(w.sources[i] == v.sources[a]);
        assert(w.sources[j] == v.sources[b]);
        assert(v.sources[a].url@ == v.sources[b].url@);
        assert(a == b);
    }
    assert forall|i: int, j: int|
        0 <= i < w.sources.len() && 0 <= j < w.sources.len() && #[trigger] w.sources[i].is_primary
            && #[trigger] w.sources[j].is_primary && w.sources[i].manga_id == w.sources[j].manga_id
            && w.sources[i].id != 0 && w.sources[j].id != 0 implies i == j by {
        let a = if i < r { i } else { i + 1 };
        let b = if j < r { j } else { j + 1 };
        assert(w.sources[i] == v.sources[a]);
        assert(w.sources[j] == v.sources[b]);
        assert(v.sources[a].id != source_id);
        assert(v.sources[b].id != source_id);
    }
    assert(wf_sources(w));
    // chapters
    assert forall|i: int| 0 <= i < w.chapters.len() implies has_source(w, #[trigger] w.chapters[i].manga_source_id as int) by {
        lemma_filter_origin(v.chapters, pred, i);
        let k = choose|k: int| 0 <= k < v.chapters.len() && w.chapters[i] == #[trigger] v.chapters[k] && pred(v.chapters[k]);
        assert(has_source(v, v.chapters[k].manga_source_id as int));
        lemma_manga_of_source_remove(v, w, r, v.chapters[k].manga_source_id as int);
    }
    lemma_filter_key_unique(v.chapters, pred, |c: ChapterRow| c.url@);
    assert forall|i: int, j: int|
        0 <= i < w.chapters.len() && 0 <= j < w.chapters.len() && #[trigger] w.chapters[i].url@
            == #[trigger] w.chapters[j].url@ implies i == j by {
        assert((|c: ChapterRow| c.url@)(w.chapters[i]) == (|c: ChapterRow| c.url@)(w.chapters[j]));
    }
    assert(wf_chapters(w));
    // links
    assert forall|i: int|
        0 <= i < w.chapters.len() && (#[trigger] w.chapters[i].canonical_chapter_id) is Some implies canonical_of_manga(
            w,
            w.chapters[i].canonical_chapter_id->0 as int,
            manga_of_source(w, w.chapters[i].manga_source_id as int),
        ) by {
        lemma_filter_origin(v.chapters, pred, i);
        let k = choose|k: int| 0 <= k < v.chapters.len() && w.chapters[i] == #[trigger] v.chapters[k] && pred(v.chapters[k]);
        assert(has_source(v, v.chapters[k].manga_source_id as int));
        lemma_manga_of_source_remove(v, w, r, v.chapters[k].manga_source_id as int);
        assert(v.chapters[k].canonical_chapter_id is Some);
    }
    assert(wf_links(w));
    assert(wf_canonicals(w));
    assert(wf_readings(w));
    assert forall|m: int| #[trigger] has_primary(w, m) <==> (exists|j: int| 0 <= j < v.sources.len()
        && #[trigger] v.sources[j].manga_id == m && v.sources[j].is_primary && v.sources[j].id != source_id) by {
        if has_primary(w, m) {
            let j = choose|j: int| 0 <= j < w.sources.len() && #[trigger] w.sources[j].manga_id == m && w.sources[j].is_primary;
            let a = if j < r { j } else { j + 1 };
            assert(w.sources[j] == v.sources[a]);
            assert(v.sources[a].id != source_id);
        }
        if exists|j: int| 0 <= j < v.sources.len() && #[trigger] v.sources[j].manga_id == m && v.sources[j].is_primary
            && v.sources[j].id != source_id {
            let j = choose|j: int| 0 <= j < v.sources.len() && #[trigger] v.sources[j].manga_id == m
                && v.sources[j].is_primary && v.sources[j].id != source_id;
            assert(j != r);
            let a = if j < r { j } else { j - 1 };
            assert(w.sources[a] == v.sources[j]);
        }
    }
    assert forall|m: int| #[trigger] has_any_source(w, m) <==> (exists|j: int| 0 <= j < v.sources.len()
        && #[trigger] v.sources[j].manga_id == m && v.sources[j].id != source_id) by {
        if has_any_source(w, m) {
            let j = choose|j: int| 0 <= j < w.sources.len() && #[trigger] w.sources[j].manga_id == m;
            let a = if j < r { j } else { j + 1 };
            assert(w.sources[j] == v.sources[a]);
            assert(v.sources[a].id != source_id);
        }
        if exists|j: int| 0 <= j < v.sources.len() && #[trigger] v.sources[j].manga_id == m && v.sources[j].id != source_id {
            let j = choose|j: int| 0 <= j < v.sources.len() && #[trigger] v.sources[j].manga_id == m
                && v.sources[j].id != source_id;
            assert(j != r);
            let a = if j < r { j } else { j - 1 };
            assert(w.sources[a] == v.sources[j]);
        }
    }
}

/// Deleting a manga that has no sources keeps the catalog well formed.
pub proof fn lemma_delete_manga_wf(v: CatalogView, manga_id: int)
    requires
        wf(v),
        has_manga(v, manga_id),
        !has_any_source(v, manga_id),
    ensures
        wf(spec_delete_manga(v, manga_id)),
        forall|m: int| #[trigger] has_primary(spec_delete_manga(v, manga_id), m) == has_primary(v, m),
        forall|m: int| #[trigger] has_any_source(spec_delete_manga(v, manga_id), m) == has_any_source(v, m),
{
    let w = spec_delete_manga(v, manga_id);
    let r = manga_index(v, manga_id);
    let cp = canonical_not_of(manga_id);
    let rp = reading_not_of(manga_id);
    assert(w.sources == v.sources && w.chapters == v.chapters);
    assert(w.mangas == v.mangas.remove(r));
    // every source belongs to another manga
    assert forall|i: int| 0 <= i < v.sources.len() implies (#[trigger] v.sources[i]).manga_id != manga_id by {
        if v.sources[i].manga_id == manga_id {
            assert(has_any_source(v, manga_id));
        }
    }
    // ids
    assert forall|i: int| 0 <= i < w.mangas.len() implies 1 <= #[trigger] w.mangas[i].id < w.next_manga_id by {
        if i >= r { assert(w.mangas[i] == v.mangas[i + 1]); }
    }
    assert forall|i: int, j: int|
        0 <= i < w.mangas.len() && 0 <= j < w.mangas.len() && #[trigger] w.mangas[i].id
            == #[trigger] w.mangas[j].id implies i == j by {
        let a = if i < r { i } else { i + 1 };
        let b = if j < r { j } else { j + 1 };
        assert(w.mangas[i] == v.mangas[a]);
        assert(w.mangas[j] == v.mangas[b]);
    }
    v.canonicals.lemma_filter_len(cp);
    v.readings.lemma_filter_len(rp);
    assert forall|i: int| 0 <= i < w.canonicals.len() implies 1 <= #[trigger] w.canonicals[i].id < w.next_canonical_id by {
        lemma_filter_origin(v.canonicals, cp, i);
    }
    lemma_filter_key_unique(v.canonicals, cp, |c: CanonicalRow| c.id);
    assert forall|i: int, j: int|
        0 <= i < w.canonicals.len() && 0 <= j < w.canonicals.len() && #[trigger] w.canonicals[i].id
            == #[trigger] w.canonicals[j].id implies i == j by {
        assert((|c: CanonicalRow| c.id)(w.canonicals[i]) == (|c: CanonicalRow| c.id)(w.canonicals[j]));
    }
    assert(wf_ids(w));
    // sources
    assert forall|i: int| 0 <= i < w.sources.len() implies has_manga(w, #[trigger] w.sources[i].manga_id as int) by {
        lemma_has_manga_remove(v, w, r, w.sources[i].manga_id as int);
    }
    assert(wf_sources(w));
    assert(wf_chapters(w));
    // canonicals
    assert forall|i: int| 0 <= i < w.canonicals.len() implies has_manga(w, #[trigger] w.canonicals[i].manga_id as int) by {
        lemma_filter_origin(v.canonicals, cp, i);
        let k = choose|k: int| 0 <= k < v.canonicals.len() && w.canonicals[i] == #[trigger] v.canonicals[k] && cp(v.canonicals[k]);
        lemma_has_manga_remove(v, w, r, w.canonicals[i].manga_id as int);
    }
    lemma_filter_key_unique(v.canonicals, cp, |c: CanonicalRow| (c.manga_id, c.ordinal));
    assert forall|i: int, j: int|
        0 <= i < w.canonicals.len() && 0 <= j < w.canonicals.len() && #[trigger] w.canonicals[i].manga_id
            == #[trigger] w.canonicals[j].manga_id && w.canonicals[i].ordinal == w.canonicals[j].ordinal
            implies i == j by {
        assert((|c: CanonicalRow| (c.manga_id, c.ordinal))(w.canonicals[i]) == (|c: CanonicalRow| (c.manga_id, c.ordinal))(w.canonicals[j]));
    }
    assert(wf_canonicals(w));
    // links: every linked canonical belongs to a manga with a source, so it is kept
    assert forall|i: int|
        0 <= i < w.chapters.len() && (#[trigger] w.chapters[i].canonical_chapter_id) is Some implies canonical_of_manga(
            w,
            w.chapters[i].canonical_chapter_id->0 as int,
            manga_of_source(w, w.chapters[i].manga_source_id as int),
        ) by {
        let cid = v.chapters[i].canonical_chapter_id->0 as int;
        let sm = manga_of_source(v, v.chapters[i].manga_source_id as int);
        assert(has_source(v, v.chapters[i].manga_source_id as int));
        let si = source_index(v, v.chapters[i].manga_source_id as int);
        assert(v.sources[si].manga_id != manga_id);
        let k = choose|k: int| 0 <= k < v.canonicals.len() && #[trigger] v.canonicals[k].id == cid
            && v.canonicals[k].manga_id == sm;
        lemma_filter_keeps(v.canonicals, cp, k);
        let q = choose|q: int| 0 <= q < w.canonicals.len() && #[trigger] w.canonicals[q] == v.canonicals[k];
        assert(w.canonicals[q].id == cid);
    }
    assert(wf_links(w));
    // readings
    assert forall|i: int| 0 <= i < w.readings.len() implies has_manga(w, #[trigger] w.readings[i].manga_id as int) by {
        lemma_filter_origin(v.readings, rp, i);
        let k = choose|k: int| 0 <= k < v.readings.len() && w.readings[i] == #[trigger] v.readings[k] && rp(v.readings[k]);
        lemma_has_manga_remove(v, w, r, w.readings[i].manga_id as int);
    }
    lemma_filter_key_unique(v.readings, rp, |x: ReadingRow| (x.user_id, x.manga_id));
    assert forall|i: int, j: int|
        0 <= i < w.readings.len() && 0 <= j < w.readings.len() && #[trigger] w.readings[i].user_id
            == #[trigger] w.readings[j].user_id && w.readings[i].manga_id == w.readings[j].manga_id
            implies i == j by {
        assert((|x: ReadingRow| (x.user_id, x.manga_id))(w.readings[i]) == (|x: ReadingRow| (x.user_id, x.manga_id))(w.readings[j]));
    }
    assert forall|i: int|
        0 <= i < w.readings.len() && (#[trigger] w.readings[i].last_canonical_chapter_id) is Some implies canonical_of_manga(
            w,
            w.readings[i].last_canonical_chapter_id->0 as int,
            w.readings[i].manga_id as int,
        ) by {
        lemma_filter_origin(v.readings, rp, i);
        let k = choose|k: int| 0 <= k < v.readings.len() && w.readings[i] == #[trigger] v.readings[k] && rp(v.readings[k]);
        let cid = v.readings[k].last_canonical_chapter_id->0 as int;
        let q = choose|q: int| 0 <= q < v.canonicals.len() && #[trigger] v.canonicals[q].id == cid
            && v.canonicals[q].manga_id == v.readings[k].manga_id;
        lemma_filter_keeps(v.canonicals, cp, q);
        let t = choose|t: int| 0 <= t < w.canonicals.len() && #[trigger] w.canonicals[t] == v.canonicals[q];
        assert(w.canonicals[t].id == cid);
    }
    assert(wf_readings(w));
}


/// A replacement is unique: ids are.
pub proof fn lemma_replacement_unique(v: CatalogView, manga_id: int, excluding: int, a: int, b: int)
    requires
        wf_ids(v),
        is_replacement(v, manga_id, excluding, a),
        is_replacement(v, manga_id, excluding, b),
    ensures
        a == b,
{
    assert(v.sources[a].id <= v.sources[b].id);
    assert(v.sources[b].id <= v.sources[a].id);
}

/// Promoting a replacement for the primary source `excluding` keeps every constraint but
/// the one-primary rule for `excluding` itself, and keeps source positions, ids, owners
/// and urls.
pub proof fn lemma_promote(v: CatalogView, manga_id: int, excluding: int)
    requires
        wf(v),
        has_source(v, excluding),
        v.sources[source_index(v, excluding)].manga_id == manga_id,
        v.sources[source_index(v, excluding)].is_primary,
    ensures
        ({
            let w = spec_promote(v, manga_id, excluding);
            &&& wf_ids(w)
            &&& wf_source_rows(w)
            &&& primaries_unique_except(w, excluding)
            &&& wf_chapters(w)
            &&& wf_canonicals(w)
            &&& wf_readings(w)
            &&& wf_links(w)
            &&& w.sources.len() == v.sources.len()
            &&& forall|i: int| 0 <= i < v.sources.len() ==> {
                &&& (#[trigger] w.sources[i]).id == v.sources[i].id
                &&& w.sources[i].manga_id == v.sources[i].manga_id
                &&& w.sources[i].url == v.sources[i].url
                &&& (w.sources[i].is_primary <==> v.sources[i].is_primary || is_replacement(v, manga_id, excluding, i))
            }
            &&& w.mangas == v.mangas && w.chapters == v.chapters && w.canonicals == v.canonicals
            &&& w.readings == v.readings
        }),
{
    let w = spec_promote(v, manga_id, excluding);
    let e = source_index(v, excluding);
    if exists|j: int| is_replacement(v, manga_id, excluding, j) {
        let j = choose|j: int| is_replacement(v, manga_id, excluding, j);
        assert forall|i: int| 0 <= i < v.sources.len() implies {
            &&& (#[trigger] w.sources[i]).id == v.sources[i].id
            &&& w.sources[i].manga_id == v.sources[i].manga_id
            &&& w.sources[i].url == v.sources[i].url
            &&& (w.sources[i].is_primary <==> v.sources[i].is_primary || is_replacement(v, manga_id, excluding, i))
        } by {
            if is_replacement(v, manga_id, excluding, i) {
                lemma_replacement_unique(v, manga_id, excluding, i, j);
            }
        }
        assert forall|a: int, b: int|
            0 <= a < w.sources.len() && 0 <= b < w.sources.len() && #[trigger] w.sources[a].is_primary
                && #[trigger] w.sources[b].is_primary && w.sources[a].manga_id == w.sources[b].manga_id
                && w.sources[a].id != excluding && w.sources[b].id != excluding implies a == b by {
            if a != j && b != j {
                assert(w.sources[a] == v.sources[a] && w.sources[b] == v.sources[b]);
                assert(v.sources[a].id != 0 && v.sources[b].id != 0);
            } else if a == j && b != j {
                assert(w.sources[b] == v.sources[b]);
                assert(v.sources[e].is_primary && v.sources[e].manga_id == v.sources[b].manga_id);
                assert(v.sources[e].id != 0 && v.sources[b].id != 0);
            } else if b == j && a != j {
                assert(w.sources[a] == v.sources[a]);
                assert(v.sources[e].is_primary && v.sources[e].manga_id == v.sources[a].manga_id);
                assert(v.sources[e].id != 0 && v.sources[a].id != 0);
            }
        }
        assert forall|i: int| 0 <= i < w.sources.len() implies has_manga(w, #[trigger] w.sources[i].manga_id as int) by {
            assert(w.sources[i].manga_id == v.sources[i].manga_id);
        }
        assert forall|a: int, b: int|
            0 <= a < w.sources.len() && 0 <= b < w.sources.len() && #[trigger] w.sources[a].url@
                == #[trigger] w.sources[b].url@ implies a == b by {
            assert(w.sources[a].url == v.sources[a].url);
            assert(w.sources[b].url == v.sources[b].url);
        }
        assert forall|a: int| 0 <= a < w.sources.len() implies 1 <= #[trigger] w.sources[a].id < w.next_source_id by {
            assert(w.sources[a].id == v.sources[a].id);
        }
        assert forall|a: int, b: int|
            0 <= a < w.sources.len() && 0 <= b < w.sources.len() && #[trigger] w.sources[a].id
                == #[trigger] w.sources[b].id implies a == b by {
            assert(w.sources[a].id == v.sources[a].id);
            assert(w.sources[b].id == v.sources[b].id);
        }
        assert forall|i: int| 0 <= i < w.chapters.len() implies has_source(w, #[trigger] w.chapters[i].manga_source_id as int) by {
            lemma_manga_of_source_same_rows(v, w, w.chapters[i].manga_source_id as int);
        }
        assert forall|i: int|
            0 <= i < w.chapters.len() && (#[trigger] w.chapters[i].canonical_chapter_id) is Some implies canonical_of_manga(
                w,
                w.chapters[i].canonical_chapter_id->0 as int,
                manga_of_source(w, w.chapters[i].manga_source_id as int),
            ) by {
            assert(w.chapters[i] == v.chapters[i]);
            assert(has_source(v, v.chapters[i].manga_source_id as int));
            lemma_manga_of_source_same_rows(v, w, w.chapters[i].manga_source_id as int);
            assert(canonical_of_manga(v, v.chapters[i].canonical_chapter_id->0 as int,
                manga_of_source(v, v.chapters[i].manga_source_id as int)));
            lemma_canonical_of_manga_extend(v, w, v.chapters[i].canonical_chapter_id->0 as int,
                manga_of_source(v, v.chapters[i].manga_source_id as int));
        }
    } else {
        assert forall|a: int, b: int|
            0 <= a < w.sources.len() && 0 <= b < w.sources.len() && #[trigger] w.sources[a].is_primary
                && #[trigger] w.sources[b].is_primary && w.sources[a].manga_id == w.sources[b].manga_id
                && w.sources[a].id != excluding && w.sources[b].id != excluding implies a == b by {
            assert(v.sources[a].id != 0 && v.sources[b].id != 0);
        }
    }
}

impl Catalog {
    /// If `manga_id` still has a source once `excluding` is gone, promotes the lowest-id one
    /// to primary, so that the manga's metadata never lacks a primary source backing it.
    pub(crate) fn promote_replacement_primary(&mut self, manga_id: i32, excluding: i32) -> (r: Option<usize>)
        requires
            wf_ids(old(self)@),
        ensures
            final(self)@ == spec_promote(old(self)@, manga_id as int, excluding as int),
            r matches Some(j) ==> is_replacement(old(self)@, manga_id as int, excluding as int, j as int),
            r is None ==> forall|j: int|
                0 <= j < old(self)@.sources.len() ==> !(#[trigger] old(self)@.sources[j].manga_id == manga_id
                    && old(self)@.sources[j].id != excluding),
    {
        let mut best: Option<usize> = None;
        let mut i: usize = 0;
        while i < self.sources.len()
            invariant
                i <= self.sources@.len(),
                best matches Some(b) ==> b < i && self.sources@[b as int].manga_id == manga_id
                    && self.sources@[b as int].id != excluding,
                best matches Some(b) ==> forall|k: int|
                    0 <= k < i && #[trigger] self.sources@[k].manga_id == manga_id && self.sources@[k].id != excluding
                        ==> self.sources@[b as int].id <= self.sources@[k].id,
                best is None ==> forall|k: int|
                    0 <= k < i ==> !(#[trigger] self.sources@[k].manga_id == manga_id && self.sources@[k].id != excluding),
            decreases self.sources@.len() - i,
        {
            if self.sources[i].manga_id == manga_id && self.sources[i].id != excluding {
                match best {
                    Some(b) => {
                        if self.sources[i].id < self.sources[b].id {
                            best = Some(i);
                        }
                    },
                    None => {
                        best = Some(i);
                    },
                }
            }
            i = i + 1;
        }
        match best {
            Some(j) => {
                proof {
                    assert(is_replacement(self@, manga_id as int, excluding as int, j as int));
                    let c = choose|c: int| is_replacement(self@, manga_id as int, excluding as int, c);
                    lemma_replacement_unique(self@, manga_id as int, excluding as int, c, j as int);
                }
                self.sources[j].is_primary = true;
                proof {
                    let want = spec_promote(old(self)@, manga_id as int, excluding as int);
                    assert(self@.sources =~= want.sources);
                }
            },
            None => {
                proof {
                    if exists|j: int| is_replacement(self@, manga_id as int, excluding as int, j) {
                        let j = choose|j: int| is_replacement(self@, manga_id as int, excluding as int, j);
                        assert(self@.sources[j].manga_id == manga_id);
                    }
                }
            },
        }
        best
    }
}


impl Catalog {
    /// Whether manga `manga_id` has any source left.
    pub(crate) fn has_sources(&self, manga_id: i32) -> (r: bool)
        ensures
            r == has_any_source(self@, manga_id as int),
    {
        let mut i: usize = 0;
        while i < self.sources.len()
            invariant
                i <= self.sources@.len(),
                forall|k: int| 0 <= k < i ==> self.sources@[k].manga_id != manga_id,
            decreases self.sources@.len() - i,
        {
            if self.sources[i].manga_id == manga_id {
                assert(self@.sources[i as int].manga_id == manga_id);
                return true;
            }
            i = i + 1;
        }
        false
    }

    /// Removes source `manga_source_id` and its chapters. When it was its manga's primary
    /// source, the manga's lowest-id other source is promoted first; when it was the
    /// manga's last source, the manga is deleted too, with its canonical chapters and
    /// reading rows.
    pub fn remove_source(&mut self, manga_source_id: i32) -> (r: Result<RemoveSourceOutcome, CatalogError>)
        requires
            wf(old(self)@),
        ensures
            r is Err <==> !has_source(old(self)@, manga_source_id as int),
            r is Err ==> r == Err::<RemoveSourceOutcome, CatalogError>(CatalogError::SourceNotFound)
                && final(self)@ == old(self)@,
            r matches Ok(o) ==> (final(self)@, o) == spec_remove_source(old(self)@, manga_source_id as int),
            wf(final(self)@),
            primaries_backed(old(self)@) ==> primaries_backed(final(self)@),
    {
        let i = match self.find_source(manga_source_id) {
            Some(i) => i,
            None => {
                return Err(CatalogError::SourceNotFound);
            },
        };
        let ghost v = self@;
        proof {
            let e = source_index(v, manga_source_id as int);
            assert(v.sources[e].id == v.sources[i as int].id);
        }
        let manga_id = self.sources[i].manga_id;
        let was_primary = self.sources[i].is_primary;
        let mut promoted: Option<usize> = None;
        if was_primary {
            proof {
                lemma_promote(v, manga_id as int, manga_source_id as int);
            }
            promoted = self.promote_replacement_primary(manga_id, manga_source_id);
        }
        let ghost v1 = self@;
        proof {
            assert(primaries_unique_except(v1, manga_source_id as int)) by {
                if !was_primary {
                    assert forall|a: int, b: int|
                        0 <= a < v1.sources.len() && 0 <= b < v1.sources.len() && #[trigger] v1.sources[a].is_primary
                            && #[trigger] v1.sources[b].is_primary && v1.sources[a].manga_id == v1.sources[b].manga_id
                            && v1.sources[a].id != manga_source_id && v1.sources[b].id != manga_source_id implies a == b by {
                        assert(v.sources[a].id != 0 && v.sources[b].id != 0);
                    }
                }
            }
            assert(has_source(v1, manga_source_id as int)) by {
                assert(v1.sources[i as int].id == manga_source_id);
            }
            lemma_delete_source_wf(v1, manga_source_id as int);
        }
        self.delete_source(manga_source_id);
        let ghost v2 = self@;
        let remaining = self.has_sources(manga_id);
        proof {
            // which mangas have a primary after the deletion
            if primaries_backed(v) {
                assert forall|m: int| has_any_source(v2, m) implies #[trigger] has_primary(v2, m) by {
                    let j = choose|j: int| 0 <= j < v1.sources.len() && #[trigger] v1.sources[j].manga_id == m
                        && v1.sources[j].id != manga_source_id;
                    if was_primary && m == manga_id {
                        let pj = promoted->0 as int;
                        assert(v1.sources[pj].is_primary);
                        assert(v1.sources[pj].id != manga_source_id);
                    } else {
                        assert(v.sources[j].manga_id == m);
                        assert(has_any_source(v, m));
                        assert(has_primary(v, m));
                        let q = choose|q: int| 0 <= q < v.sources.len() && #[trigger] v.sources[q].manga_id == m
                            && v.sources[q].is_primary;
                        if q == i as int {
                            assert(m == manga_id);
                        }
                        assert(v.sources[q].id != manga_source_id) by {
                            if v.sources[q].id == manga_source_id {
                                assert(v.sources[q].id == v.sources[i as int].id);
                            }
                        }
                        assert(v1.sources[q].is_primary);
                        assert(v1.sources[q].manga_id == m);
                    }
                }
            }
        }
        if remaining {
            Ok(RemoveSourceOutcome::Kept(manga_id))
        } else {
            proof {
                assert(has_manga(v2, manga_id as int)) by {
                    assert(v.sources[i as int].manga_id == manga_id);
                }
                lemma_delete_manga_wf(v2, manga_id as int);
            }
            self.delete_manga(manga_id);
            Ok(RemoveSourceOutcome::MangaDeleted(manga_id))
        }
    }
}


// ---------------------------------------------------------------------------------------
// Reading rows: insertion, deletion, merging
// ---------------------------------------------------------------------------------------

/// Position of the reading row of (`user_id`, `manga_id`) (meaningful when it exists).
pub open spec fn reading_index(v: CatalogView, user_id: int, manga_id: int) -> int {
    choose|r: int| 0 <= r < v.readings.len() && #[trigger] v.readings[r].user_id == user_id
        && v.readings[r].manga_id == manga_id
}

pub open spec fn reading_not_of_user(user_id: int, manga_id: int) -> spec_fn(ReadingRow) -> bool {
    |r: ReadingRow| !(r.user_id == user_id && r.manga_id == manga_id)
}

/// Deleting the reading row of (`user_id`, `manga_id`), if there is one.
pub open spec fn spec_delete_reading(v: CatalogView, user_id: int, manga_id: int) -> CatalogView {
    CatalogView { readings: v.readings.filter(reading_not_of_user(user_id, manga_id)), ..v }
}

/// Inserting a fresh reading row.
pub open spec fn spec_insert_reading(v: CatalogView, row: ReadingRow) -> CatalogView {
    CatalogView { readings: v.readings.push(row), ..v }
}

/// The reading rows of `manga_id`, in table order.
pub open spec fn readings_of(rs: Seq<ReadingRow>, manga_id: int) -> Seq<ReadingRow> {
    rs.filter(|r: ReadingRow| r.manga_id == manga_id)
}

/// Carrying one user's reading row `from_row` (of manga `from`) over to manga `to`: the
/// row of whichever side has read further is kept, its last chapter remapped onto `to`'s
/// canonical chapter at the same ordinal (which is created if needed) and its progress
/// re-ranked there; the row of `from` is then deleted.
pub open spec fn spec_merge_one(w: CatalogView, from: int, to: int, from_row: ReadingRow) -> CatalogView {
    let u = from_row.user_id as int;
    let has_to = has_reading(w, u, to);
    let to_row = w.readings[reading_index(w, u, to)];
    let wins = !has_to || from_row.progress > to_row.progress;
    let w1 = if wins {
        let (wa, remap) = match from_row.last_canonical_chapter_id {
            Some(c) => if exists|k: int| 0 <= k < w.canonicals.len() && #[trigger] w.canonicals[k].id == c {
                let (wa, c2) = spec_find_or_create(w, to, w.canonicals[canonical_index(w, c as int)].ordinal as int);
                (wa, Some(c2 as i32))
            } else {
                (w, None)
            },
            None => (w, None),
        };
        let wb = if has_to {
            CatalogView {
                readings: spec_set_progress(wa.readings, u, to, from_row.progress as int, remap),
                ..wa
            }
        } else {
            spec_insert_reading(
                wa,
                ReadingRow {
                    user_id: u as i32,
                    manga_id: to as i32,
                    progress: from_row.progress,
                    last_canonical_chapter_id: remap,
                },
            )
        };
        match remap {
            Some(c2) => spec_sync_progress(wb, u, to, c2 as int),
            None => wb,
        }
    } else {
        w
    };
    spec_delete_reading(w1, u, from)
}

/// Carries every reading row of `rows`, in order, from manga `from` over to manga `to`.
pub open spec fn spec_merge_rows(w: CatalogView, from: int, to: int, rows: Seq<ReadingRow>) -> CatalogView
    decreases rows.len(),
{
    if rows.len() == 0 {
        w
    } else {
        spec_merge_one(spec_merge_rows(w, from, to, rows.drop_last()), from, to, rows.last())
    }
}

/// Reconciling the reading rows of manga `from`, which is about to disappear into `to`.
pub open spec fn spec_merge_reading_progress(v: CatalogView, from: int, to: int) -> CatalogView {
    spec_merge_rows(v, from, to, readings_of(v.readings, from))
}

/// Deleting one reading row keeps the catalog well formed.
pub proof fn lemma_delete_reading_wf(v: CatalogView, user_id: int, manga_id: int)
    requires
        wf(v),
    ensures
        wf(spec_delete_reading(v, user_id, manga_id)),
{
    let w = spec_delete_reading(v, user_id, manga_id);
    let p = reading_not_of_user(user_id, manga_id);
    assert forall|i: int| 0 <= i < w.readings.len() implies has_manga(w, #[trigger] w.readings[i].manga_id as int) by {
        lemma_filter_origin(v.readings, p, i);
    }
    lemma_filter_key_unique(v.readings, p, |x: ReadingRow| (x.user_id, x.manga_id));
    assert forall|i: int, j: int|
        0 <= i < w.readings.len() && 0 <= j < w.readings.len() && #[trigger] w.readings[i].user_id
            == #[trigger] w.readings[j].user_id && w.readings[i].manga_id == w.readings[j].manga_id
            implies i == j by {
        assert((|x: ReadingRow| (x.user_id, x.manga_id))(w.readings[i]) == (|x: ReadingRow| (x.user_id, x.manga_id))(w.readings[j]));
    }
    assert forall|i: int|
        0 <= i < w.readings.len() && (#[trigger] w.readings[i].last_canonical_chapter_id) is Some implies canonical_of_manga(
            w,
            w.readings[i].last_canonical_chapter_id->0 as int,
            w.readings[i].manga_id as int,
        ) by {
        lemma_filter_origin(v.readings, p, i);
        let k = choose|k: int| 0 <= k < v.readings.len() && w.readings[i] == #[trigger] v.readings[k] && p(v.readings[k]);
        assert(v.readings[k].last_canonical_chapter_id is Some);
        lemma_canonical_of_manga_extend(v, w, w.readings[i].last_canonical_chapter_id->0 as int, w.readings[i].manga_id as int);
    }
}

/// Inserting a reading row for an existing manga, user and manga not yet paired, whose
/// last chapter (if any) belongs to that manga, keeps the catalog well formed.
pub proof fn lemma_insert_reading_wf(v: CatalogView, row: ReadingRow)
    requires
        wf(v),
        has_manga(v, row.manga_id as int),
        !has_reading(v, row.user_id as int, row.manga_id as int),
        row.last_canonical_chapter_id is Some ==> canonical_of_manga(
            v,
            row.last_canonical_chapter_id->0 as int,
            row.manga_id as int,
        ),
    ensures
        wf(spec_insert_reading(v, row)),
{
    let w = spec_insert_reading(v, row);
    let n = v.readings.len();
    assert(w.mangas == v.mangas && w.sources == v.sources && w.chapters == v.chapters && w.canonicals == v.canonicals);
    assert(wf_ids(w));
    assert(wf_sources(w));
    assert(wf_chapters(w));
    assert(wf_canonicals(w));
    assert(wf_links(w));
    assert forall|i: int| 0 <= i < w.readings.len() implies has_manga(w, #[trigger] w.readings[i].manga_id as int) by {
        if i < n { assert(w.readings[i] == v.readings[i]); }
    }
    assert forall|i: int, j: int|
        0 <= i < w.readings.len() && 0 <= j < w.readings.len() && #[trigger] w.readings[i].user_id
            == #[trigger] w.readings[j].user_id && w.readings[i].manga_id == w.readings[j].manga_id
            implies i == j by {
        if i < n && j < n {
            assert(w.readings[i] == v.readings[i] && w.readings[j] == v.readings[j]);
        } else if i < n {
            assert(w.readings[i] == v.readings[i]);
        } else if j < n {
            assert(w.readings[j] == v.readings[j]);
        }
    }
    assert forall|i: int|
        0 <= i < w.readings.len() && (#[trigger] w.readings[i].last_canonical_chapter_id) is Some implies canonical_of_manga(
            w,
            w.readings[i].last_canonical_chapter_id->0 as int,
            w.readings[i].manga_id as int,
        ) by {
        if i < n { assert(w.readings[i] == v.readings[i]); }
        lemma_canonical_of_manga_extend(v, w, w.readings[i].last_canonical_chapter_id->0 as int, w.readings[i].manga_id as int);
    }
}

/// Setting the progress of a reading row to a last chapter of its own manga keeps the
/// catalog well formed.
pub proof fn lemma_set_progress_wf(v: CatalogView, user_id: int, manga_id: int, progress: int, last: Option<i32>)
    requires
        wf(v),
        i32::MIN <= progress <= i32::MAX,
        last is Some ==> canonical_of_manga(v, last->0 as int, manga_id),
    ensures
        wf(CatalogView { readings: spec_set_progress(v.readings, user_id, manga_id, progress, last), ..v }),
{
    let w = CatalogView { readings: spec_set_progress(v.readings, user_id, manga_id, progress, last), ..v };
    assert forall|i: int| 0 <= i < w.readings.len() implies has_manga(w, #[trigger] w.readings[i].manga_id as int) by {
        assert(w.readings[i].manga_id == v.readings[i].manga_id);
    }
    assert forall|i: int, j: int|
        0 <= i < w.readings.len() && 0 <= j < w.readings.len() && #[trigger] w.readings[i].user_id
            == #[trigger] w.readings[j].user_id && w.readings[i].manga_id == w.readings[j].manga_id
            implies i == j by {
        assert(w.readings[i].user_id == v.readings[i].user_id && w.readings[j].user_id == v.readings[j].user_id);
    }
    assert forall|i: int|
        0 <= i < w.readings.len() && (#[trigger] w.readings[i].last_canonical_chapter_id) is Some implies canonical_of_manga(
            w,
            w.readings[i].last_canonical_chapter_id->0 as int,
            w.readings[i].manga_id as int,
        ) by {
        if !(v.readings[i].user_id == user_id && v.readings[i].manga_id == manga_id) {
            assert(w.readings[i] == v.readings[i]);
        }
        lemma_canonical_of_manga_extend(v, w, w.readings[i].last_canonical_chapter_id->0 as int, w.readings[i].manga_id as int);
    }
    assert(w.chapters == v.chapters && w.sources == v.sources && w.mangas == v.mangas && w.canonicals == v.canonicals);
    assert(wf_ids(w));
    assert(wf_sources(w));
    assert(wf_chapters(w));
    assert(wf_canonicals(w));
    assert(wf_links(w));
}

impl Catalog {
    /// Deletes the reading row of (`user_id`, `manga_id`); whether there was one.
    pub(crate) fn drop_reading_row(&mut self, user_id: i32, manga_id: i32) -> (r: bool)
        requires
            wf_readings(old(self)@),
        ensures
            r == has_reading(old(self)@, user_id as int, manga_id as int),
            final(self)@ == spec_delete_reading(old(self)@, user_id as int, manga_id as int),
    {
        let ghost orig = self.readings@;
        let ghost pred = reading_not_of_user(user_id as int, manga_id as int);
        let found = self.find_reading(user_id, manga_id).is_some();
        let mut rest: Vec<ReadingRow> = Vec::new();
        std::mem::swap(&mut rest, &mut self.readings);
        let n = rest.len();
        let mut kept: Vec<ReadingRow> = Vec::new();
        let mut i: usize = 0;
        while i < n
            invariant
                i <= n,
                n == orig.len(),
                pred == reading_not_of_user(user_id as int, manga_id as int),
                rest@ == orig.skip(i as int),
                kept@ == orig.take(i as int).filter(pred),
            decreases n - i,
        {
            let row = rest.remove(0);
            proof {
                assert(row == orig[i as int]);
                orig.take(i as int).lemma_filter_push(row, pred);
                assert(orig.take(i as int + 1) =~= orig.take(i as int).push(row));
                assert(pred(row) == !(row.user_id == user_id && row.manga_id == manga_id));
            }
            if !(row.user_id == user_id && row.manga_id == manga_id) {
                kept.push(row);
            }
            i = i + 1;
            proof {
                assert(rest@ =~= orig.skip(i as int));
            }
        }
        self.readings = kept;
        proof {
            assert(orig.take(i as int) =~= orig);
        }
        found
    }

    /// Inserts a reading row.
    pub(crate) fn insert_reading(&mut self, row: ReadingRow)
        ensures
            final(self)@ == spec_insert_reading(old(self)@, row),
    {
        self.readings.push(row);
    }

    /// Reconciles the reading rows of manga `from`, which is about to disappear into `to`:
    /// per user, keeps whichever side has read further (by progress), remaps its last
    /// chapter onto `to`'s canonical chapter at the same ordinal, re-ranks its progress
    /// there, and drops the row of `from`. A user with a row only on `from` is carried over
    /// the same way.
    pub fn merge_reading_progress(&mut self, from: i32, to: i32)
        requires
            wf(old(self)@),
            has_manga(old(self)@, to as int),
            from != to,
            has_room(old(self)@, old(self)@.readings.len() as int),
        ensures
            final(self)@ == spec_merge_reading_progress(old(self)@, from as int, to as int),
            wf(final(self)@),
            final(self)@.mangas == old(self)@.mangas,
            final(self)@.sources == old(self)@.sources,
            final(self)@.chapters.len() == old(self)@.chapters.len(),
            forall|i: int| 0 <= i < old(self)@.chapters.len() ==> #[trigger] final(self)@.chapters[i] == old(self)@.chapters[i],
            final(self)@.canonicals.len() >= old(self)@.canonicals.len(),
            forall|k: int| 0 <= k < old(self)@.canonicals.len() ==> #[trigger] final(self)@.canonicals[k] == old(self)@.canonicals[k],
            final(self)@.next_manga_id == old(self)@.next_manga_id,
            final(self)@.next_source_id == old(self)@.next_source_id,
            final(self)@.next_chapter_id == old(self)@.next_chapter_id,
            final(self)@.next_canonical_id <= old(self)@.next_canonical_id + old(self)@.readings.len(),
    {
        let ghost v0 = self@;
        let ghost rows = readings_of(v0.readings, from as int);
        let mut from_rows: Vec<ReadingRow> = Vec::new();
        let mut i: usize = 0;
        while i < self.readings.len()
            invariant
                i <= self.readings@.len(),
                self@ == v0,
                from_rows@ == readings_of(self.readings@.take(i as int), from as int),
            decreases self.readings@.len() - i,
        {
            proof {
                self.readings@.take(i as int).lemma_filter_push(self.readings@[i as int], |r: ReadingRow| r.manga_id == from);
                assert(self.readings@.take(i as int + 1) =~= self.readings@.take(i as int).push(self.readings@[i as int]));
            }
            if self.readings[i].manga_id == from {
                from_rows.push(self.readings[i]);
            }
            i = i + 1;
        }
        proof {
            assert(self.readings@.take(i as int) =~= self.readings@);
            v0.readings.lemma_filter_len(|r: ReadingRow| r.manga_id == from);
        }
        let mut n: usize = 0;
        while n < from_rows.len()
            invariant
                n <= from_rows@.len(),
                from_rows@ == rows,
                rows.len() <= v0.readings.len(),
                self@ == spec_merge_rows(v0, from as int, to as int, rows.take(n as int)),
                wf(self@),
                has_manga(self@, to as int),
                self@.next_canonical_id <= v0.next_canonical_id + n,
                has_room(v0, v0.readings.len() as int),
                self@.next_manga_id == v0.next_manga_id,
                self@.next_source_id == v0.next_source_id,
                self@.next_chapter_id == v0.next_chapter_id,
                self@.mangas == v0.mangas,
                self@.sources == v0.sources,
                self@.chapters == v0.chapters,
                self@.canonicals.len() >= v0.canonicals.len(),
                forall|k: int| 0 <= k < v0.canonicals.len() ==> #[trigger] self@.canonicals[k] == v0.canonicals[k],
            decreases from_rows@.len() - n,
        {
            let ghost w = self@;
            let fr = from_rows[n];
            let u = fr.user_id;
            let to_pos = self.find_reading(u, to);
            let wins = match to_pos {
                None => true,
                Some(t) => fr.progress > self.readings[t].progress,
            };
            proof {
                match to_pos {
                    Some(t) => {
                        let q = reading_index(w, u as int, to as int);
                        assert(w.readings[q].user_id == w.readings[t as int].user_id);
                    },
                    None => {},
                }
            }
            if wins {
                let remap: Option<i32> = match fr.last_canonical_chapter_id {
                    Some(c) => match self.find_canonical(c) {
                        Some(k) => {
                            let ordinal = self.canonicals[k].ordinal;
                            proof {
                                assert(self@.canonicals[k as int].id == c);
                                let q = canonical_index(w, c as int);
                                assert(w.canonicals[q].id == w.canonicals[k as int].id);
                            }
                            let c2 = self.find_or_create_canonical_chapter(to, ordinal);
                            Some(c2)
                        },
                        None => None,
                    },
                    None => None,
                };
                let ghost wa = self@;
                proof {
                    match remap {
                        Some(c2) => {
                            let ord = wa.canonicals[canonical_at_index(wa, to as int, w.canonicals[canonical_index(w,
                                fr.last_canonical_chapter_id->0 as int)].ordinal as int)];
                            if has_canonical_at(w, to as int, w.canonicals[canonical_index(w, fr.last_canonical_chapter_id->0 as int)].ordinal as int) {
                                let k = canonical_at_index(w, to as int, w.canonicals[canonical_index(w, fr.last_canonical_chapter_id->0 as int)].ordinal as int);
                                assert(wa.canonicals[k].id == c2);
                            } else {
                                assert(wa.canonicals[w.canonicals.len() as int].id == c2);
                            }
                            assert(canonical_of_manga(wa, c2 as int, to as int));
                        },
                        None => {},
                    }
                }
                match to_pos {
                    Some(_) => {
                        proof {
                            lemma_set_progress_wf(wa, u as int, to as int, fr.progress as int, remap);
                        }
                        self.set_progress(u, to, fr.progress, remap);
                    },
                    None => {
                        proof {
                            assert(!has_reading(wa, u as int, to as int));
                            lemma_insert_reading_wf(wa, ReadingRow {
                                user_id: u,
                                manga_id: to,
                                progress: fr.progress,
                                last_canonical_chapter_id: remap,
                            });
                        }
                        self.insert_reading(ReadingRow {
                            user_id: u,
                            manga_id: to,
                            progress: fr.progress,
                            last_canonical_chapter_id: remap,
                        });
                    },
                }
                match remap {
                    Some(c2) => {
                        let res = self.sync_reading_progress(u, to, c2);
                        proof {
                            assert(res is Ok);
                        }
                    },
                    None => {},
                }
            }
            let ghost w1 = self@;
            proof {
                lemma_delete_reading_wf(w1, u as int, from as int);
                assert forall|k: int| 0 <= k < v0.canonicals.len() implies #[trigger] w1.canonicals[k] == v0.canonicals[k] by {
                    assert(w.canonicals[k] == v0.canonicals[k]);
                }
            }
            self.drop_reading_row(u, from);
            proof {
                let ids = rows.take(n as int + 1);
                assert(ids.drop_last() =~= rows.take(n as int));
                assert(ids.last() == fr);
                assert(self@ == spec_merge_one(w, from as int, to as int, fr));
            }
            n = n + 1;
        }
        proof {
            assert(rows.take(n as int) =~= rows);
        }
    }
}


// ---------------------------------------------------------------------------------------
// Moving and merging sources
// ---------------------------------------------------------------------------------------

pub open spec fn chapter_of(source_id: int) -> spec_fn(ChapterRow) -> bool {
    |c: ChapterRow| c.manga_source_id == source_id
}

/// Ids of the chapters of source `source_id`, in table order.
pub open spec fn chapter_ids_of_source(cs: Seq<ChapterRow>, source_id: int) -> Seq<i32> {
    cs.filter(chapter_of(source_id)).map_values(|c: ChapterRow| c.id)
}

/// Source `source_id` re-parented onto `target`, as a secondary source.
pub open spec fn spec_reparent(v: CatalogView, source_id: int, target: int) -> CatalogView {
    let e = source_index(v, source_id);
    CatalogView {
        sources: v.sources.update(e, SourceRow { manga_id: target as i32, is_primary: false, ..v.sources[e] }),
        ..v
    }
}

/// Moving source `source_id` (and its chapters) onto manga `target`: a replacement primary
/// is promoted on its old manga if it was the primary, it joins `target` as a secondary
/// source, its chapters are re-matched onto `target`'s canonical chapters, and an old manga
/// left without sources has its reading progress folded into `target` and is deleted.
pub open spec fn spec_move_source(v: CatalogView, source_id: int, target: int) -> CatalogView {
    let s = v.sources[source_index(v, source_id)];
    let old_manga = s.manga_id as int;
    let ids = chapter_ids_of_source(v.chapters, source_id);
    let v1 = if s.is_primary {
        spec_promote(v, old_manga, source_id)
    } else {
        v
    };
    let v2 = spec_reparent(v1, source_id, target);
    let v3 = spec_match(v2, target, ids);
    if has_any_source(v3, old_manga) {
        v3
    } else {
        spec_delete_manga(spec_merge_reading_progress(v3, old_manga, target), old_manga)
    }
}

/// The refusal, if any, of moving source `source_id` onto manga `target`.
pub open spec fn move_error(v: CatalogView, source_id: int, target: int) -> Option<CatalogError> {
    if !has_source(v, source_id) {
        Some(CatalogError::SourceNotFound)
    } else if manga_of_source(v, source_id) == target {
        Some(CatalogError::SourceAlreadyInTarget)
    } else if !has_manga(v, target) {
        Some(CatalogError::TargetMangaNotFound)
    } else {
        None
    }
}

/// The chapter ids of a source are exactly the ids of its chapters.
pub proof fn lemma_chapter_ids_of_source(v: CatalogView, source_id: int)
    requires
        wf_ids(v),
    ensures
        ({
            let ids = chapter_ids_of_source(v.chapters, source_id);
            &&& ids.len() <= v.chapters.len()
            &&& forall|i: int| 0 <= i < v.chapters.len() && (#[trigger] v.chapters[i]).manga_source_id == source_id
                ==> ids.contains(v.chapters[i].id)
            &&& forall|i: int| 0 <= i < v.chapters.len() && ids.contains((#[trigger] v.chapters[i]).id)
                ==> v.chapters[i].manga_source_id == source_id
            &&& all_chapters_exist(v, ids)
        }),
{
    let p = chapter_of(source_id);
    let f = v.chapters.filter(p);
    let ids = chapter_ids_of_source(v.chapters, source_id);
    v.chapters.lemma_filter_len(p);
    assert(ids.len() == f.len());
    assert forall|i: int| 0 <= i < v.chapters.len() && (#[trigger] v.chapters[i]).manga_source_id == source_id
        implies ids.contains(v.chapters[i].id) by {
        lemma_filter_keeps(v.chapters, p, i);
        let q = choose|q: int| 0 <= q < f.len() && #[trigger] f[q] == v.chapters[i];
        assert(ids[q] == v.chapters[i].id);
    }
    assert forall|i: int| 0 <= i < v.chapters.len() && ids.contains((#[trigger] v.chapters[i]).id)
        implies v.chapters[i].manga_source_id == source_id by {
        let k = choose|k: int| 0 <= k < ids.len() && ids[k] == v.chapters[i].id;
        lemma_filter_origin(v.chapters, p, k);
        let j = choose|j: int| 0 <= j < v.chapters.len() && f[k] == #[trigger] v.chapters[j] && p(v.chapters[j]);
        assert(v.chapters[j].id == v.chapters[i].id);
    }
    assert forall|k: int| 0 <= k < ids.len() implies has_chapter(v, #[trigger] ids[k] as int) by {
        lemma_filter_origin(v.chapters, p, k);
        let i = choose|i: int| 0 <= i < v.chapters.len() && f[k] == #[trigger] v.chapters[i] && p(v.chapters[i]);
        assert(v.chapters[i].id == ids[k]);
    }
}

/// Re-parenting a source that is not (any more) the only primary of its manga keeps every
/// constraint but the chapter links of that source.
pub proof fn lemma_reparent(v: CatalogView, source_id: int, target: int)
    requires
        wf_ids(v),
        wf_source_rows(v),
        primaries_unique_except(v, source_id),
        wf_chapters(v),
        wf_canonicals(v),
        wf_readings(v),
        has_source(v, source_id),
        has_manga(v, target),
        i32::MIN <= target <= i32::MAX,
    ensures
        ({
            let w = spec_reparent(v, source_id, target);
            &&& wf_except_links(w)
            &&& w.sources.len() == v.sources.len()
            &&& forall|i: int| 0 <= i < v.sources.len() ==> (#[trigger] w.sources[i]).id == v.sources[i].id
            &&& forall|i: int| 0 <= i < v.sources.len() && v.sources[i].id != source_id ==> #[trigger] w.sources[i]
                == v.sources[i]
            &&& has_source(w, source_id)
            &&& manga_of_source(w, source_id) == target
            &&& w.mangas == v.mangas && w.chapters == v.chapters && w.canonicals == v.canonicals
            &&& w.readings == v.readings
        }),
{
    let w = spec_reparent(v, source_id, target);
    let e = source_index(v, source_id);
    assert forall|i: int| 0 <= i < v.sources.len() && v.sources[i].id != source_id implies #[trigger] w.sources[i]
        == v.sources[i] by {
        assert(i != e);
    }
    assert forall|i: int| 0 <= i < w.sources.len() implies 1 <= #[trigger] w.sources[i].id < w.next_source_id by {
        assert(w.sources[i].id == v.sources[i].id);
    }
    assert forall|i: int, j: int|
        0 <= i < w.sources.len() && 0 <= j < w.sources.len() && #[trigger] w.sources[i].id
            == #[trigger] w.sources[j].id implies i == j by {
        assert(w.sources[i].id == v.sources[i].id && w.sources[j].id == v.sources[j].id);
    }
    assert(wf_ids(w));
    assert forall|i: int| 0 <= i < w.sources.len() implies has_manga(w, #[trigger] w.sources[i].manga_id as int) by {
        if i != e { assert(w.sources[i] == v.sources[i]); }
    }
    assert forall|i: int, j: int|
        0 <= i < w.sources.len() && 0 <= j < w.sources.len() && #[trigger] w.sources[i].url@
            == #[trigger] w.sources[j].url@ implies i == j by {
        assert(w.sources[i].url == v.sources[i].url && w.sources[j].url == v.sources[j].url);
    }
    assert forall|i: int, j: int|
        0 <= i < w.sources.len() && 0 <= j < w.sources.len() && #[trigger] w.sources[i].is_primary
            && #[trigger] w.sources[j].is_primary && w.sources[i].manga_id == w.sources[j].manga_id
            && w.sources[i].id != 0 && w.sources[j].id != 0 implies i == j by {
        assert(i != e && j != e);
        assert(w.sources[i] == v.sources[i] && w.sources[j] == v.sources[j]);
        assert(v.sources[i].id != source_id) by {
            if v.sources[i].id == source_id { assert(v.sources[i].id == v.sources[e].id); }
        }
        assert(v.sources[j].id != source_id) by {
            if v.sources[j].id == source_id { assert(v.sources[j].id == v.sources[e].id); }
        }
    }
    assert(wf_sources(w));
    assert forall|i: int| 0 <= i < w.chapters.len() implies has_source(w, #[trigger] w.chapters[i].manga_source_id as int) by {
        let x = w.chapters[i].manga_source_id as int;
        assert(has_source(v, x));
        let k = source_index(v, x);
        assert(w.sources[k].id == x);
    }
    assert(wf_chapters(w));
    assert(w.sources[e].id == source_id);
    let f = source_index(w, source_id);
    assert(w.sources[f].id == v.sources[f].id);
}

impl Catalog {
    /// Ids of the chapters of source `source_id`, in table order.
    pub fn chapter_ids_of(&self, source_id: i32) -> (r: Vec<i32>)
        ensures
            r@ == chapter_ids_of_source(self@.chapters, source_id as int),
    {
        let ghost p = chapter_of(source_id as int);
        let mut ids: Vec<i32> = Vec::new();
        let mut i: usize = 0;
        while i < self.chapters.len()
            invariant
                i <= self.chapters@.len(),
                p == chapter_of(source_id as int),
                ids@ == self.chapters@.take(i as int).filter(p).map_values(|c: ChapterRow| c.id),
            decreases self.chapters@.len() - i,
        {
            proof {
                let row = self.chapters@[i as int];
                self.chapters@.take(i as int).lemma_filter_push(row, p);
                assert(self.chapters@.take(i as int + 1) =~= self.chapters@.take(i as int).push(row));
                assert(p(row) == (row.manga_source_id == source_id));
                let f = self.chapters@.take(i as int).filter(p);
                assert(f.push(row).map_values(|c: ChapterRow| c.id) =~= f.map_values(|c: ChapterRow| c.id).push(row.id));
            }
            if self.chapters[i].manga_source_id == source_id {
                ids.push(self.chapters[i].id);
            }
            i = i + 1;
        }
        proof {
            assert(self.chapters@.take(i as int) =~= self.chapters@);
        }
        ids
    }

    /// Re-parents source `source_id` onto `target` as a secondary source.
    pub(crate) fn reparent_source(&mut self, source_id: i32, target: i32)
        requires
            wf_ids(old(self)@),
            has_source(old(self)@, source_id as int),
        ensures
            final(self)@ == spec_reparent(old(self)@, source_id as int, target as int),
    {
        let i = match self.find_source(source_id) {
            Some(i) => i,
            None => {
                assert(false);
                0
            },
        };
        proof {
            let e = source_index(self@, source_id as int);
            assert(self@.sources[e].id == self@.sources[i as int].id);
        }
        self.sources[i].manga_id = target;
        self.sources[i].is_primary = false;
        proof {
            let want = spec_reparent(old(self)@, source_id as int, target as int);
            assert(self@.sources =~= want.sources);
        }
    }

    /// Moves source `manga_source_id` (and its chapters) onto manga `target_manga_id`:
    /// re-parents it as a secondary source (promoting a replacement primary on its old manga
    /// if it was the primary), re-links its chapters onto the target's canonical chapters
    /// exactly as if it had just been added there, and, when that emptied its old manga of
    /// sources, folds the old manga's reading progress into the target and deletes it.
    #[verifier::rlimit(30)]
    pub fn move_source_to_manga(&mut self, manga_source_id: i32, target_manga_id: i32) -> (r: Result<
        (),
        CatalogError,
    >)
        requires
            wf(old(self)@),
            has_room(old(self)@, (old(self)@.chapters.len() + old(self)@.readings.len()) as int),
        ensures
            r is Err <==> move_error(old(self)@, manga_source_id as int, target_manga_id as int) is Some,
            r matches Err(e) ==> Some(e) == move_error(old(self)@, manga_source_id as int, target_manga_id as int)
                && final(self)@ == old(self)@,
            r is Ok ==> final(self)@ == spec_move_source(old(self)@, manga_source_id as int, target_manga_id as int),
            wf(final(self)@),
            primaries_backed(old(self)@) && has_any_source(old(self)@, target_manga_id as int)
                ==> primaries_backed(final(self)@),
            r is Ok ==> move_frame(old(self)@, final(self)@, manga_source_id as int, target_manga_id as int),
            r is Ok && has_sibling_source(old(self)@, manga_source_id as int) ==> final(self)@.readings
                == old(self)@.readings && final(self)@.next_canonical_id <= old(self)@.next_canonical_id
                + old(self)@.chapters.len(),
            r is Ok && !has_any_source(final(self)@, manga_of_source(old(self)@, manga_source_id as int))
                ==> !has_manga(final(self)@, manga_of_source(old(self)@, manga_source_id as int)),
    {
        let e = match self.find_source(manga_source_id) {
            Some(e) => e,
            None => {
                return Err(CatalogError::SourceNotFound);
            },
        };
        let ghost v = self@;
        proof {
            let q = source_index(v, manga_source_id as int);
            assert(v.sources[q].id == v.sources[e as int].id);
        }
        let old_manga = self.sources[e].manga_id;
        if old_manga == target_manga_id {
            return Err(CatalogError::SourceAlreadyInTarget);
        }
        if self.find_manga(target_manga_id).is_none() {
            return Err(CatalogError::TargetMangaNotFound);
        }
        let was_primary = self.sources[e].is_primary;
        let mut promoted: Option<usize> = None;
        if was_primary {
            proof {
                lemma_promote(v, old_manga as int, manga_source_id as int);
            }
            promoted = self.promote_replacement_primary(old_manga, manga_source_id);
        }
        let ghost v1 = self@;
        proof {
            assert(primaries_unique_except(v1, manga_source_id as int)) by {
                if !was_primary {
                    assert forall|a: int, b: int|
                        0 <= a < v1.sources.len() && 0 <= b < v1.sources.len() && #[trigger] v1.sources[a].is_primary
                            && #[trigger] v1.sources[b].is_primary && v1.sources[a].manga_id == v1.sources[b].manga_id
                            && v1.sources[a].id != manga_source_id && v1.sources[b].id != manga_source_id implies a == b by {
                        assert(v.sources[a].id != 0 && v.sources[b].id != 0);
                    }
                }
            }
            assert(has_source(v1, manga_source_id as int)) by {
                assert(v1.sources[e as int].id == manga_source_id);
            }
            lemma_reparent(v1, manga_source_id as int, target_manga_id as int);
            lemma_chapter_ids_of_source(v, manga_source_id as int);
        }
        let ids = self.chapter_ids_of(manga_source_id);
        self.reparent_source(manga_source_id, target_manga_id);
        let ghost v2 = self@;
        proof {
            assert(v1.chapters == v.chapters);
            assert(all_chapters_exist(v2, ids@));
            assert(has_manga(v2, target_manga_id as int));
        }
        self.match_canonical_chapters(target_manga_id, &ids);
        let ghost v3 = self@;
        proof {
            lemma_move_links(v, v2, v3, manga_source_id as int, target_manga_id as int, ids@);
            assert(wf(v3));
            lemma_move_frame(v, v1, v2, v3, e as int, manga_source_id as int, target_manga_id as int, ids@);
        }
        let remaining = self.has_sources(old_manga);
        let ghost backed = primaries_backed(v) && has_any_source(v, target_manga_id as int);
        proof {
            if backed {
                lemma_move_backed(v, v1, v2, e as int, manga_source_id as int, old_manga as int,
                    target_manga_id as int, promoted);
                lemma_backed_same_sources(v2, v3);
            }
        }
        if !remaining {
            proof {
                assert(has_room(v3, v3.readings.len() as int));
            }
            self.merge_reading_progress(old_manga, target_manga_id);
            let ghost v4 = self@;
            proof {
                assert(has_manga(v4, old_manga as int)) by {
                    assert(has_source(v, manga_source_id as int));
                    assert(v.sources[e as int].manga_id == old_manga);
                }
                assert(!has_any_source(v4, old_manga as int));
                lemma_delete_manga_wf(v4, old_manga as int);
            }
            self.delete_manga(old_manga);
            proof {
                if backed {
                    lemma_backed_same_sources(v3, self@);
                }
                lemma_delete_manga_gone(v4, old_manga as int);
                if has_sibling_source(v, manga_source_id as int) {
                    let j = choose|j: int| 0 <= j < v.sources.len() && #[trigger] v.sources[j].manga_id
                        == manga_of_source(v, manga_source_id as int) && v.sources[j].id != manga_source_id;
                    assert(v3.sources[j].manga_id == old_manga);
                }
            }
        }
        Ok(())
    }
}


/// After re-parenting a source and re-matching its chapters onto the target, every chapter
/// link points into the manga of the chapter's source again.
pub proof fn lemma_move_links(v: CatalogView, v2: CatalogView, v3: CatalogView, source_id: int, target: int, ids: Seq<i32>)
    requires
        wf(v),
        v2.chapters == v.chapters,
        v2.canonicals == v.canonicals,
        v2.sources.len() == v.sources.len(),
        forall|i: int| 0 <= i < v.sources.len() ==> (#[trigger] v2.sources[i]).id == v.sources[i].id,
        forall|i: int| 0 <= i < v.sources.len() && v.sources[i].id != source_id ==> (#[trigger] v2.sources[i]).manga_id
            == v.sources[i].manga_id,
        has_source(v2, source_id),
        manga_of_source(v2, source_id) == target,
        ids == chapter_ids_of_source(v.chapters, source_id),
        wf_except_links(v2),
        match_frame(v2, v3, target),
        all_linked(v3, target, ids),
        forall|i: int| 0 <= i < v2.chapters.len() && !ids.contains(v2.chapters[i].id) ==> #[trigger] v3.chapters[i]
            == v2.chapters[i],
    ensures
        wf_links(v3),
{
    reveal(all_linked);
    lemma_chapter_ids_of_source(v, source_id);
    assert forall|i: int|
        0 <= i < v3.chapters.len() && (#[trigger] v3.chapters[i].canonical_chapter_id) is Some implies canonical_of_manga(
            v3,
            v3.chapters[i].canonical_chapter_id->0 as int,
            manga_of_source(v3, v3.chapters[i].manga_source_id as int),
        ) by {
        let x = v3.chapters[i].manga_source_id as int;
        assert(v3.chapters[i].manga_source_id == v.chapters[i].manga_source_id);
        assert(v3.sources == v2.sources);
        if x == source_id {
            assert(ids.contains(v.chapters[i].id));
            let k = choose|k: int| 0 <= k < ids.len() && ids[k] == v.chapters[i].id;
            assert(has_chapter(v2, ids[k] as int));
            lemma_chapter_index_stable(v2, v3, ids[k] as int);
            assert(v3.chapters[i].id == v2.chapters[i].id);
            assert(chapter_index(v3, ids[k] as int) == i) by {
                let c = chapter_index(v3, ids[k] as int);
                assert(v3.chapters[c].id == v3.chapters[i].id);
            }
            let cid = v3.chapters[i].canonical_chapter_id->0 as int;
            let q = choose|q: int| 0 <= q < v3.canonicals.len() && #[trigger] v3.canonicals[q].id == cid
                && v3.canonicals[q].manga_id == target && v3.canonicals[q].ordinal == v3.chapters[i].ordinal;
            assert(v3.canonicals[q].id == cid);
        } else {
            assert(!ids.contains(v.chapters[i].id));
            assert(v3.chapters[i] == v2.chapters[i]);
            assert(has_source(v, x));
            let k = source_index(v, x);
            assert(v2.sources[k].id == x);
            assert(v2.sources[k].manga_id == v.sources[k].manga_id);
            let k2 = source_index(v2, x);
            assert(v2.sources[k2].id == v.sources[k2].id);
            assert(manga_of_source(v2, x) == manga_of_source(v, x));
            assert(v.chapters[i].canonical_chapter_id is Some);
            lemma_canonical_of_manga_extend(v, v3, v.chapters[i].canonical_chapter_id->0 as int, manga_of_source(v, x));
        }
    }
}

/// Moving a source onto a manga that has a primary keeps every manga with sources backed
/// by a primary.
pub proof fn lemma_move_backed(
    v: CatalogView,
    v1: CatalogView,
    v2: CatalogView,
    e: int,
    source_id: int,
    old_manga: int,
    target: int,
    promoted: Option<usize>,
)
    requires
        wf(v),
        primaries_backed(v),
        has_any_source(v, target),
        0 <= e < v.sources.len(),
        v.sources[e].id == source_id,
        v.sources[e].manga_id == old_manga,
        old_manga != target,
        v1 == (if v.sources[e].is_primary { spec_promote(v, old_manga, source_id) } else { v }),
        v.sources[e].is_primary ==> (promoted matches Some(pj) ==> is_replacement(v, old_manga, source_id, pj as int)),
        v.sources[e].is_primary ==> (promoted is None ==> forall|j: int|
            0 <= j < v.sources.len() ==> !(#[trigger] v.sources[j].manga_id == old_manga && v.sources[j].id != source_id)),
        v2 == spec_reparent(v1, source_id, target),
    ensures
        primaries_backed(v2),
{
    assert(has_source(v, source_id));
    assert(source_index(v, source_id) == e) by {
        let q = source_index(v, source_id);
        assert(v.sources[q].id == v.sources[e].id);
    }
    if v.sources[e].is_primary {
        lemma_promote(v, old_manga, source_id);
    }
    assert(v1.sources.len() == v.sources.len());
    assert(forall|i: int| 0 <= i < v.sources.len() ==> (#[trigger] v1.sources[i]).id == v.sources[i].id
        && v1.sources[i].manga_id == v.sources[i].manga_id && (v.sources[i].is_primary ==> v1.sources[i].is_primary));
    assert(source_index(v1, source_id) == e) by {
        assert(v1.sources[e].id == source_id);
        let q = source_index(v1, source_id);
        assert(v1.sources[q].id == v.sources[q].id);
        assert(v.sources[q].id == v.sources[e].id);
    }
    assert(forall|i: int| 0 <= i < v.sources.len() && i != e ==> #[trigger] v2.sources[i] == v1.sources[i]);
    assert forall|m: int| has_any_source(v2, m) implies #[trigger] has_primary(v2, m) by {
        let j = choose|j: int| 0 <= j < v2.sources.len() && #[trigger] v2.sources[j].manga_id == m;
        if m == target {
            let t = choose|t: int| 0 <= t < v.sources.len() && #[trigger] v.sources[t].manga_id == target;
            assert(has_primary(v, target));
            let q = choose|q: int| 0 <= q < v.sources.len() && #[trigger] v.sources[q].manga_id == target
                && v.sources[q].is_primary;
            assert(q != e);
            assert(v1.sources[q].is_primary && v1.sources[q].manga_id == target);
            assert(v2.sources[q] == v1.sources[q]);
        } else {
            assert(j != e);
            assert(v2.sources[j] == v1.sources[j]);
            assert(v.sources[j].manga_id == m);
            if v.sources[e].is_primary && m == old_manga {
                assert(v.sources[j].id != source_id) by {
                    if v.sources[j].id == source_id { assert(v.sources[j].id == v.sources[e].id); }
                }
                assert(promoted is Some);
                let pj = promoted->0 as int;
                assert(is_replacement(v, old_manga, source_id, pj));
                assert(v1.sources[pj].is_primary);
                assert(pj != e);
                assert(v2.sources[pj] == v1.sources[pj]);
                assert(v2.sources[pj].manga_id == m);
            } else {
                assert(has_any_source(v, m));
                assert(has_primary(v, m));
                let q = choose|q: int| 0 <= q < v.sources.len() && #[trigger] v.sources[q].manga_id == m
                    && v.sources[q].is_primary;
                assert(q != e);
                assert(v1.sources[q].is_primary && v1.sources[q].manga_id == m);
                assert(v2.sources[q] == v1.sources[q]);
            }
        }
    }
}

/// What moving source `source_id` onto `target` keeps of the catalog: every source keeps
/// its position and id, every other source its manga, the moved one belongs to `target`,
/// no chapter is added or removed, no id but canonical chapter ids is used up, and at most
/// one canonical chapter id is used up per chapter and per reading row.
pub open spec fn move_frame(v: CatalogView, w: CatalogView, source_id: int, target: int) -> bool {
    &&& w.sources.len() == v.sources.len()
    &&& forall|i: int| 0 <= i < v.sources.len() ==> {
        &&& (#[trigger] w.sources[i]).id == v.sources[i].id
        &&& v.sources[i].id != source_id ==> w.sources[i].manga_id == v.sources[i].manga_id
        &&& v.sources[i].id == source_id ==> w.sources[i].manga_id == target
    }
    &&& w.chapters.len() == v.chapters.len()
    &&& w.next_manga_id == v.next_manga_id
    &&& w.next_source_id == v.next_source_id
    &&& w.next_chapter_id == v.next_chapter_id
    &&& w.next_canonical_id <= v.next_canonical_id + v.chapters.len() + v.readings.len()
    &&& has_manga(w, target)
}

/// Whether source `source_id`'s manga has another source besides it.
pub open spec fn has_sibling_source(v: CatalogView, source_id: int) -> bool {
    exists|j: int| 0 <= j < v.sources.len() && #[trigger] v.sources[j].manga_id == manga_of_source(v, source_id)
        && v.sources[j].id != source_id
}

/// The promote, re-parent and re-match steps of a move keep the frame of the move, the
/// mangas and the reading rows, and use up at most one canonical id per chapter.
pub proof fn lemma_move_frame(
    v: CatalogView,
    v1: CatalogView,
    v2: CatalogView,
    v3: CatalogView,
    e: int,
    source_id: int,
    target: int,
    ids: Seq<i32>,
)
    requires
        wf(v),
        0 <= e < v.sources.len(),
        v.sources[e].id == source_id,
        has_manga(v, target),
        v1 == (if v.sources[e].is_primary { spec_promote(v, v.sources[e].manga_id as int, source_id) } else { v }),
        v2 == spec_reparent(v1, source_id, target),
        match_frame(v2, v3, target),
        v3.next_canonical_id <= v2.next_canonical_id + ids.len(),
        ids == chapter_ids_of_source(v.chapters, source_id),
    ensures
        move_frame(v, v3, source_id, target),
        v3.readings == v.readings,
        v3.mangas == v.mangas,
        v3.next_canonical_id <= v.next_canonical_id + v.chapters.len(),
{
    assert(has_source(v, source_id));
    assert(source_index(v, source_id) == e) by {
        let q = source_index(v, source_id);
        assert(v.sources[q].id == v.sources[e].id);
    }
    if v.sources[e].is_primary {
        lemma_promote(v, v.sources[e].manga_id as int, source_id);
    }
    assert(v1.sources.len() == v.sources.len());
    assert(forall|i: int| 0 <= i < v.sources.len() ==> (#[trigger] v1.sources[i]).id == v.sources[i].id
        && v1.sources[i].manga_id == v.sources[i].manga_id);
    assert(source_index(v1, source_id) == e) by {
        assert(v1.sources[e].id == source_id);
        let q = source_index(v1, source_id);
        assert(v1.sources[q].id == v.sources[q].id);
        assert(v.sources[q].id == v.sources[e].id);
    }
    assert forall|i: int| 0 <= i < v.sources.len() implies {
        &&& (#[trigger] v3.sources[i]).id == v.sources[i].id
        &&& v.sources[i].id != source_id ==> v3.sources[i].manga_id == v.sources[i].manga_id
        &&& v.sources[i].id == source_id ==> v3.sources[i].manga_id == target
    } by {
        assert(v3.sources[i] == v2.sources[i]);
        if i != e {
            assert(v2.sources[i] == v1.sources[i]);
        }
        if v.sources[i].id == source_id {
            assert(v.sources[i].id == v.sources[e].id);
        }
    }
    lemma_chapter_ids_of_source(v, source_id);
    assert(v3.mangas == v2.mangas);
    assert(has_manga(v3, target));
}

/// Deleting manga `manga_id` removes it and keeps every other manga.
pub proof fn lemma_delete_manga_gone(v: CatalogView, manga_id: int)
    requires
        wf_ids(v),
        has_manga(v, manga_id),
    ensures
        !has_manga(spec_delete_manga(v, manga_id), manga_id),
        forall|m: int| m != manga_id && has_manga(v, m) ==> #[trigger] has_manga(spec_delete_manga(v, manga_id), m),
{
    let w = spec_delete_manga(v, manga_id);
    let r = manga_index(v, manga_id);
    assert(v.mangas[r].id == manga_id);
    if has_manga(w, manga_id) {
        let i = choose|i: int| 0 <= i < w.mangas.len() && #[trigger] w.mangas[i].id == manga_id;
        if i < r {
            assert(w.mangas[i] == v.mangas[i]);
            assert(v.mangas[i].id == v.mangas[r].id);
        } else {
            assert(w.mangas[i] == v.mangas[i + 1]);
            assert(v.mangas[i + 1].id == v.mangas[r].id);
        }
    }
    assert forall|m: int| m != manga_id && has_manga(v, m) implies #[trigger] has_manga(w, m) by {
        lemma_has_manga_remove(v, w, r, m);
    }
}

/// Two catalogs with the same sources agree on which mangas are backed by a primary.
pub proof fn lemma_backed_same_sources(a: CatalogView, b: CatalogView)
    requires
        primaries_backed(a),
        a.sources == b.sources,
    ensures
        primaries_backed(b),
{
    assert forall|m: int| has_any_source(b, m) implies #[trigger] has_primary(b, m) by {
        let j = choose|j: int| 0 <= j < b.sources.len() && #[trigger] b.sources[j].manga_id == m;
        assert(a.sources[j].manga_id == m);
        assert(has_primary(a, m));
        let q = choose|q: int| 0 <= q < a.sources.len() && #[trigger] a.sources[q].manga_id == m
            && a.sources[q].is_primary;
        assert(b.sources[q].manga_id == m);
    }
}


// ---------------------------------------------------------------------------------------
// Merging a manga into another
// ---------------------------------------------------------------------------------------

pub open spec fn source_of(manga_id: int) -> spec_fn(SourceRow) -> bool {
    |r: SourceRow| r.manga_id == manga_id
}

/// Ids of the sources of `manga_id`, in table order.
pub open spec fn source_ids_of_manga(ss: Seq<SourceRow>, manga_id: int) -> Seq<i32> {
    ss.filter(source_of(manga_id)).map_values(|r: SourceRow| r.id)
}

/// Moving the sources `ids`, in order, onto manga `target`.
pub open spec fn spec_move_all(v: CatalogView, ids: Seq<i32>, target: int) -> CatalogView
    decreases ids.len(),
{
    if ids.len() == 0 {
        v
    } else {
        spec_move_source(spec_move_all(v, ids.drop_last(), target), ids.last() as int, target)
    }
}

/// The refusal, if any, of merging manga `source_manga` into manga `target`.
pub open spec fn merge_error(v: CatalogView, source_manga: int, target: int) -> Option<CatalogError> {
    if !has_manga(v, target) {
        Some(CatalogError::TargetMangaNotFound)
    } else if !has_any_source(v, source_manga) {
        Some(CatalogError::MergeSourceNotFound)
    } else if source_manga == target {
        Some(CatalogError::SourceAlreadyInTarget)
    } else {
        None
    }
}

/// The source ids of a manga are distinct, and are exactly the ids of its sources.
pub proof fn lemma_source_ids_of_manga(v: CatalogView, manga_id: int)
    requires
        wf_ids(v),
    ensures
        ({
            let ids = source_ids_of_manga(v.sources, manga_id);
            &&& ids.len() <= v.sources.len()
            &&& forall|k: int| 0 <= k < ids.len() ==> has_source(v, #[trigger] ids[k] as int)
                && manga_of_source(v, ids[k] as int) == manga_id
            &&& forall|i: int| 0 <= i < v.sources.len() && (#[trigger] v.sources[i]).manga_id == manga_id
                ==> ids.contains(v.sources[i].id)
            &&& forall|a: int, b: int| 0 <= a < ids.len() && 0 <= b < ids.len() && #[trigger] ids[a]
                == #[trigger] ids[b] ==> a == b
            &&& has_any_source(v, manga_id) <==> ids.len() > 0
        }),
{
    let p = source_of(manga_id);
    let f = v.sources.filter(p);
    let ids = source_ids_of_manga(v.sources, manga_id);
    let key = |r: SourceRow| r.id;
    v.sources.lemma_filter_len(p);
    assert forall|k: int| 0 <= k < ids.len() implies has_source(v, #[trigger] ids[k] as int)
        && manga_of_source(v, ids[k] as int) == manga_id by {
        lemma_filter_origin(v.sources, p, k);
        let i = choose|i: int| 0 <= i < v.sources.len() && f[k] == #[trigger] v.sources[i] && p(v.sources[i]);
        assert(v.sources[i].id == ids[k]);
        let q = source_index(v, ids[k] as int);
        assert(v.sources[q].id == v.sources[i].id);
    }
    assert forall|i: int| 0 <= i < v.sources.len() && (#[trigger] v.sources[i]).manga_id == manga_id
        implies ids.contains(v.sources[i].id) by {
        lemma_filter_keeps(v.sources, p, i);
        let q = choose|q: int| 0 <= q < f.len() && #[trigger] f[q] == v.sources[i];
        assert(ids[q] == v.sources[i].id);
    }
    assert forall|i: int, j: int| 0 <= i < v.sources.len() && 0 <= j < v.sources.len() && key(v.sources[i])
        == key(v.sources[j]) implies i == j by {
        assert(v.sources[i].id == v.sources[j].id);
    }
    lemma_filter_key_unique(v.sources, p, key);
    assert forall|a: int, b: int| 0 <= a < ids.len() && 0 <= b < ids.len() && #[trigger] ids[a]
        == #[trigger] ids[b] implies a == b by {
        assert(key(f[a]) == key(f[b]));
    }
    if has_any_source(v, manga_id) {
        let j = choose|j: int| 0 <= j < v.sources.len() && #[trigger] v.sources[j].manga_id == manga_id;
        assert(v.sources[j].manga_id == manga_id);
        assert(ids.contains(v.sources[j].id));
    }
    if ids.len() > 0 {
        lemma_filter_origin(v.sources, p, 0);
        let i = choose|i: int| 0 <= i < v.sources.len() && f[0] == #[trigger] v.sources[i] && p(v.sources[i]);
        assert(v.sources[i].manga_id == manga_id);
    }
}

/// What merging keeps between two moves: the sources still to move belong to `source_manga`,
/// and no other source does.
pub open spec fn merge_progress(
    v: CatalogView,
    w: CatalogView,
    ids: Seq<i32>,
    k: int,
    source_manga: int,
    target: int,
) -> bool {
    &&& wf(w)
    &&& has_manga(w, target)
    &&& w.sources.len() == v.sources.len()
    &&& forall|i: int| 0 <= i < v.sources.len() ==> (#[trigger] w.sources[i]).id == v.sources[i].id
    &&& forall|j: int| k <= j < ids.len() ==> has_source(w, #[trigger] ids[j] as int) && manga_of_source(w, ids[j] as int)
        == source_manga
    &&& forall|i: int| 0 <= i < w.sources.len() && (#[trigger] w.sources[i]).manga_id == source_manga
        ==> ids.subrange(k, ids.len() as int).contains(w.sources[i].id)
    &&& w.chapters.len() == v.chapters.len()
    &&& w.next_manga_id == v.next_manga_id
    &&& w.next_source_id == v.next_source_id
    &&& w.next_chapter_id == v.next_chapter_id
}

/// One move of the merge keeps the merge's progress.
pub proof fn lemma_merge_step(
    v: CatalogView,
    w: CatalogView,
    x: CatalogView,
    ids: Seq<i32>,
    k: int,
    source_manga: int,
    target: int,
)
    requires
        wf_ids(v),
        0 <= k < ids.len(),
        source_manga != target,
        forall|a: int, b: int| 0 <= a < ids.len() && 0 <= b < ids.len() && #[trigger] ids[a] == #[trigger] ids[b]
            ==> a == b,
        merge_progress(v, w, ids, k, source_manga, target),
        move_frame(w, x, ids[k] as int, target),
        wf(x),
    ensures
        merge_progress(v, x, ids, k + 1, source_manga, target),
        k + 1 < ids.len() ==> has_sibling_source(w, ids[k] as int),
        k + 1 == ids.len() ==> !has_any_source(x, source_manga),
{
    let id = ids[k] as int;
    assert forall|j: int| k + 1 <= j < ids.len() implies has_source(x, #[trigger] ids[j] as int) && manga_of_source(x, ids[j] as int)
        == source_manga by {
        let i0 = source_index(w, ids[j] as int);
        assert(w.sources[i0].id == ids[j]);
        assert(ids[j] != ids[k]);
        assert(x.sources[i0].id == ids[j]);
        assert(x.sources[i0].manga_id == w.sources[i0].manga_id);
        let i1 = source_index(x, ids[j] as int);
        assert(x.sources[i1].id == w.sources[i1].id);
        assert(w.sources[i1].id == w.sources[i0].id);
    }
    assert forall|i: int| 0 <= i < x.sources.len() && (#[trigger] x.sources[i]).manga_id == source_manga
        implies ids.subrange(k + 1, ids.len() as int).contains(x.sources[i].id) by {
        assert(x.sources[i].id == w.sources[i].id);
        assert(w.sources[i].id != id);
        assert(w.sources[i].manga_id == source_manga);
        let s = ids.subrange(k, ids.len() as int);
        assert(s.contains(w.sources[i].id));
        let q = choose|q: int| 0 <= q < s.len() && s[q] == w.sources[i].id;
        assert(q != 0);
        assert(ids.subrange(k + 1, ids.len() as int)[q - 1] == s[q]);
    }
    assert forall|i: int| 0 <= i < v.sources.len() implies (#[trigger] x.sources[i]).id == v.sources[i].id by {
        assert(x.sources[i].id == w.sources[i].id);
    }
    if k + 1 < ids.len() {
        let i0 = source_index(w, ids[k + 1] as int);
        assert(w.sources[i0].id == ids[k + 1]);
        assert(ids[k + 1] != ids[k]);
        assert(w.sources[i0].manga_id == manga_of_source(w, id));
    }
    if k + 1 == ids.len() {
        if has_any_source(x, source_manga) {
            let i = choose|i: int| 0 <= i < x.sources.len() && #[trigger] x.sources[i].manga_id == source_manga;
            assert(ids.subrange(k + 1, ids.len() as int).contains(x.sources[i].id));
        }
    }
}

impl Catalog {
    /// Ids of the sources of manga `manga_id`, in table order.
    pub fn source_ids_of(&self, manga_id: i32) -> (r: Vec<i32>)
        ensures
            r@ == source_ids_of_manga(self@.sources, manga_id as int),
    {
        let ghost p = source_of(manga_id as int);
        let mut ids: Vec<i32> = Vec::new();
        let mut i: usize = 0;
        while i < self.sources.len()
            invariant
                i <= self.sources@.len(),
                p == source_of(manga_id as int),
                ids@ == self.sources@.take(i as int).filter(p).map_values(|r: SourceRow| r.id),
            decreases self.sources@.len() - i,
        {
            proof {
                let row = self.sources@[i as int];
                self.sources@.take(i as int).lemma_filter_push(row, p);
                assert(self.sources@.take(i as int + 1) =~= self.sources@.take(i as int).push(row));
                let f = self.sources@.take(i as int).filter(p);
                assert(f.push(row).map_values(|r: SourceRow| r.id) =~= f.map_values(|r: SourceRow| r.id).push(row.id));
            }
            if self.sources[i].manga_id == manga_id {
                ids.push(self.sources[i].id);
            }
            i = i + 1;
        }
        proof {
            assert(self.sources@.take(i as int) =~= self.sources@);
        }
        ids
    }

    /// Merges every source of manga `source_manga_id` into manga `target_manga_id`, one move
    /// at a time; the last move leaves `source_manga_id` without sources, which folds its
    /// reading progress into the target and deletes it.
    pub fn merge_manga_sources(&mut self, source_manga_id: i32, target_manga_id: i32) -> (r: Result<(), CatalogError>)
        requires
            wf(old(self)@),
            has_room(
                old(self)@,
                (old(self)@.sources.len() * old(self)@.chapters.len() + old(self)@.readings.len()) as int,
            ),
        ensures
            r is Err <==> merge_error(old(self)@, source_manga_id as int, target_manga_id as int) is Some,
            r matches Err(e) ==> Some(e) == merge_error(old(self)@, source_manga_id as int, target_manga_id as int)
                && final(self)@ == old(self)@,
            r is Ok ==> final(self)@ == spec_move_all(
                old(self)@,
                source_ids_of_manga(old(self)@.sources, source_manga_id as int),
                target_manga_id as int,
            ),
            r is Ok ==> !has_manga(final(self)@, source_manga_id as int)
                && !has_any_source(final(self)@, source_manga_id as int) && has_manga(final(self)@, target_manga_id as int),
            wf(final(self)@),
            primaries_backed(old(self)@) && has_any_source(old(self)@, target_manga_id as int)
                ==> primaries_backed(final(self)@),
    {
        if self.find_manga(target_manga_id).is_none() {
            return Err(CatalogError::TargetMangaNotFound);
        }
        let ghost v = self@;
        let ids = self.source_ids_of(source_manga_id);
        proof {
            lemma_source_ids_of_manga(v, source_manga_id as int);
        }
        if ids.len() == 0 {
            return Err(CatalogError::MergeSourceNotFound);
        }
        if source_manga_id == target_manga_id {
            return Err(CatalogError::SourceAlreadyInTarget);
        }
        let ghost c = v.chapters.len();
        let ghost backed = primaries_backed(v) && has_any_source(v, target_manga_id as int);
        let mut k: usize = 0;
        proof {
            assert(ids@.subrange(0, ids@.len() as int) =~= ids@);
            assert(ids@.take(0) =~= Seq::<i32>::empty());
        }
        while k < ids.len()
            invariant
                0 <= k <= ids@.len(),
                ids@ == source_ids_of_manga(v.sources, source_manga_id as int),
                ids@.len() <= v.sources.len(),
                ids@.len() > 0,
                c == v.chapters.len(),
                source_manga_id != target_manga_id,
                wf(v),
                has_room(v, (v.sources.len() * c + v.readings.len()) as int),
                forall|a: int, b: int| 0 <= a < ids@.len() && 0 <= b < ids@.len() && #[trigger] ids@[a]
                    == #[trigger] ids@[b] ==> a == b,
                self@ == spec_move_all(v, ids@.take(k as int), target_manga_id as int),
                merge_progress(v, self@, ids@, k as int, source_manga_id as int, target_manga_id as int),
                k < ids@.len() ==> self@.readings == v.readings,
                k < ids@.len() ==> self@.next_canonical_id <= v.next_canonical_id + k * c,
                k == ids@.len() ==> !has_manga(self@, source_manga_id as int)
                    && !has_any_source(self@, source_manga_id as int),
                backed == (primaries_backed(v) && has_any_source(v, target_manga_id as int)),
                backed ==> primaries_backed(self@) && has_any_source(self@, target_manga_id as int),
            decreases ids@.len() - k,
        {
            let ghost w = self@;
            let id = ids[k];
            proof {
                assert((k + 1) * c <= v.sources.len() * c) by (nonlinear_arith)
                    requires
                        k + 1 <= v.sources.len(),
                        c >= 0,
                ;
                assert(k * c + c == (k + 1) * c) by (nonlinear_arith);
                assert(has_room(w, (w.chapters.len() + w.readings.len()) as int));
                assert(has_source(w, id as int) && manga_of_source(w, id as int) == source_manga_id);
            }
            let res = self.move_source_to_manga(id, target_manga_id);
            proof {
                assert(res is Ok);
                let x = self@;
                lemma_merge_step(v, w, x, ids@, k as int, source_manga_id as int, target_manga_id as int);
                assert(ids@.take(k as int + 1).drop_last() =~= ids@.take(k as int));
                assert(ids@.take(k as int + 1).last() == id);
                if backed {
                    let t = choose|t: int| 0 <= t < w.sources.len() && #[trigger] w.sources[t].manga_id == target_manga_id;
                    assert(w.sources[t].id != id) by {
                        if w.sources[t].id == id {
                            let q = source_index(w, id as int);
                            assert(w.sources[q].id == w.sources[t].id);
                        }
                    }
                    assert(x.sources[t].manga_id == target_manga_id);
                }
            }
            k = k + 1;
        }
        Ok(())
    }
}


// ---------------------------------------------------------------------------------------
// Primary sources, manual chapter links and reading rows, one row at a time
// ---------------------------------------------------------------------------------------

/// Making source `source_id` the primary one of its manga keeps the catalog well formed,
/// leaves that source the manga's only primary, and keeps every manga backed by a primary.
pub proof fn lemma_set_primary(v: CatalogView, manga_id: int, source_id: int)
    requires
        wf(v),
        has_source(v, source_id),
        manga_of_source(v, source_id) == manga_id,
    ensures
        ({
            let w = spec_set_primary(v, manga_id, source_id);
            &&& wf(w)
            &&& primaries_backed(v) ==> primaries_backed(w)
            &&& has_primary(w, manga_id)
            &&& forall|j: int| 0 <= j < w.sources.len() && #[trigger] w.sources[j].manga_id == manga_id
                ==> (w.sources[j].is_primary <==> w.sources[j].id == source_id)
            &&& w.sources.len() == v.sources.len()
            &&& forall|j: int| 0 <= j < v.sources.len() ==> (#[trigger] w.sources[j]).id == v.sources[j].id
                && w.sources[j].manga_id == v.sources[j].manga_id && w.sources[j].url == v.sources[j].url
                && w.sources[j].hostname == v.sources[j].hostname
        }),
{
    let w = spec_set_primary(v, manga_id, source_id);
    let e = source_index(v, source_id);
    assert forall|j: int| 0 <= j < v.sources.len() implies (#[trigger] w.sources[j]).id == v.sources[j].id
        && w.sources[j].manga_id == v.sources[j].manga_id && w.sources[j].url == v.sources[j].url
        && w.sources[j].hostname == v.sources[j].hostname by {}
    assert forall|i: int| 0 <= i < w.sources.len() implies 1 <= #[trigger] w.sources[i].id < w.next_source_id by {
        assert(w.sources[i].id == v.sources[i].id);
    }
    assert forall|i: int, j: int|
        0 <= i < w.sources.len() && 0 <= j < w.sources.len() && #[trigger] w.sources[i].id
            == #[trigger] w.sources[j].id implies i == j by {
        assert(w.sources[i].id == v.sources[i].id && w.sources[j].id == v.sources[j].id);
    }
    assert(wf_ids(w));
    assert forall|i: int| 0 <= i < w.sources.len() implies has_manga(w, #[trigger] w.sources[i].manga_id as int) by {
        assert(w.sources[i].manga_id == v.sources[i].manga_id);
    }
    assert forall|i: int, j: int|
        0 <= i < w.sources.len() && 0 <= j < w.sources.len() && #[trigger] w.sources[i].url@
            == #[trigger] w.sources[j].url@ implies i == j by {
        assert(w.sources[i].url == v.sources[i].url && w.sources[j].url == v.sources[j].url);
    }
    assert forall|i: int, j: int|
        0 <= i < w.sources.len() && 0 <= j < w.sources.len() && #[trigger] w.sources[i].is_primary
            && #[trigger] w.sources[j].is_primary && w.sources[i].manga_id == w.sources[j].manga_id
            && w.sources[i].id != 0 && w.sources[j].id != 0 implies i == j by {
        if v.sources[i].manga_id == manga_id {
            assert(w.sources[i].id == source_id && w.sources[j].id == source_id);
        } else {
            assert(w.sources[i] == v.sources[i] && w.sources[j] == v.sources[j]);
        }
    }
    assert(wf_sources(w));
    assert forall|i: int| 0 <= i < w.chapters.len() implies has_source(w, #[trigger] w.chapters[i].manga_source_id as int) by {
        lemma_manga_of_source_same_rows(v, w, w.chapters[i].manga_source_id as int);
    }
    assert forall|i: int|
        0 <= i < w.chapters.len() && (#[trigger] w.chapters[i].canonical_chapter_id) is Some implies canonical_of_manga(
            w,
            w.chapters[i].canonical_chapter_id->0 as int,
            manga_of_source(w, w.chapters[i].manga_source_id as int),
        ) by {
        lemma_manga_of_source_same_rows(v, w, w.chapters[i].manga_source_id as int);
    }
    assert(w.sources[e].id == source_id && w.sources[e].manga_id == manga_id && w.sources[e].is_primary);
    if primaries_backed(v) {
        assert forall|m: int| has_any_source(w, m) implies #[trigger] has_primary(w, m) by {
            let j = choose|j: int| 0 <= j < w.sources.len() && #[trigger] w.sources[j].manga_id == m;
            if m != manga_id {
                assert(v.sources[j].manga_id == m);
                assert(has_primary(v, m));
                let q = choose|q: int| 0 <= q < v.sources.len() && #[trigger] v.sources[q].manga_id == m
                    && v.sources[q].is_primary;
                assert(w.sources[q] == v.sources[q]);
            }
        }
    }
}

/// Chapter `chapter_id` detached from its canonical chapter.
pub open spec fn spec_unlink(v: CatalogView, i: int) -> CatalogView {
    CatalogView {
        chapters: v.chapters.update(i, ChapterRow { canonical_chapter_id: None, ..v.chapters[i] }),
        ..v
    }
}

/// The refusal, if any, of linking chapter `chapter_id` to canonical chapter `canonical_id`.
pub open spec fn link_error(v: CatalogView, chapter_id: int, canonical_id: int) -> Option<CatalogError> {
    if !has_chapter(v, chapter_id) {
        Some(CatalogError::ChapterNotFound)
    } else if !(exists|k: int| 0 <= k < v.canonicals.len() && #[trigger] v.canonicals[k].id == canonical_id) {
        Some(CatalogError::CanonicalChapterNotFound)
    } else if !canonical_of_manga(
        v,
        canonical_id,
        manga_of_source(v, v.chapters[chapter_index(v, chapter_id)].manga_source_id as int),
    ) {
        Some(CatalogError::CanonicalOfOtherManga)
    } else {
        None
    }
}

/// Changing one chapter's link, to a canonical chapter of its own manga or to none, keeps
/// the catalog well formed.
#[verifier::spinoff_prover]
#[verifier::rlimit(40)]
pub proof fn lemma_relink_wf(v: CatalogView, i: int, link: Option<i32>)
    requires
        wf(v),
        0 <= i < v.chapters.len(),
        link is Some ==> canonical_of_manga(v, link->0 as int, manga_of_source(v, v.chapters[i].manga_source_id as int)),
    ensures
        wf(CatalogView {
            chapters: v.chapters.update(i, ChapterRow { canonical_chapter_id: link, ..v.chapters[i] }),
            ..v
        }),
{
    let w = CatalogView {
        chapters: v.chapters.update(i, ChapterRow { canonical_chapter_id: link, ..v.chapters[i] }),
        ..v
    };
    assert forall|a: int| 0 <= a < w.chapters.len() implies 1 <= #[trigger] w.chapters[a].id < w.next_chapter_id by {
        assert(w.chapters[a].id == v.chapters[a].id);
    }
    assert forall|a: int, b: int|
        0 <= a < w.chapters.len() && 0 <= b < w.chapters.len() && #[trigger] w.chapters[a].id
            == #[trigger] w.chapters[b].id implies a == b by {
        assert(w.chapters[a].id == v.chapters[a].id && w.chapters[b].id == v.chapters[b].id);
    }
    assert forall|a: int| 0 <= a < w.chapters.len() implies has_source(w, #[trigger] w.chapters[a].manga_source_id as int) by {
        assert(w.chapters[a].manga_source_id == v.chapters[a].manga_source_id);
        assert(has_source(v, v.chapters[a].manga_source_id as int));
        assert(w.sources == v.sources);
    }
    assert forall|a: int, b: int|
        0 <= a < w.chapters.len() && 0 <= b < w.chapters.len() && #[trigger] w.chapters[a].url@
            == #[trigger] w.chapters[b].url@ implies a == b by {
        assert(w.chapters[a].url == v.chapters[a].url && w.chapters[b].url == v.chapters[b].url);
    }
    assert forall|a: int|
        0 <= a < w.chapters.len() && (#[trigger] w.chapters[a].canonical_chapter_id) is Some implies canonical_of_manga(
            w,
            w.chapters[a].canonical_chapter_id->0 as int,
            manga_of_source(w, w.chapters[a].manga_source_id as int),
        ) by {
        assert(w.sources == v.sources && w.canonicals == v.canonicals);
        if a != i {
            assert(w.chapters[a] == v.chapters[a]);
            assert(v.chapters[a].canonical_chapter_id is Some);
            assert(canonical_of_manga(v, v.chapters[a].canonical_chapter_id->0 as int,
                manga_of_source(v, v.chapters[a].manga_source_id as int)));
        } else {
            assert(w.chapters[a].manga_source_id == v.chapters[i].manga_source_id);
            assert(w.chapters[a].canonical_chapter_id == link);
        }
    }
    assert(w.mangas == v.mangas && w.sources == v.sources && w.canonicals == v.canonicals && w.readings == v.readings);
    assert(wf_ids(w));
    assert(wf_sources(w));
    assert(wf_chapters(w));
    assert(wf_canonicals(w));
    assert(wf_readings(w));
    assert(wf_links(w));
}

impl Catalog {
    /// Makes source `manga_source_id` the one primary source of its manga, whose id is
    /// returned: every other source of that manga stops being primary.
    pub fn set_primary_source(&mut self, manga_source_id: i32) -> (r: Result<i32, CatalogError>)
        requires
            wf(old(self)@),
        ensures
            r is Err <==> !has_source(old(self)@, manga_source_id as int),
            r is Err ==> r == Err::<i32, CatalogError>(CatalogError::SourceNotFound) && final(self)@ == old(self)@,
            r matches Ok(m) ==> m == manga_of_source(old(self)@, manga_source_id as int)
                && final(self)@ == spec_set_primary(old(self)@, m as int, manga_source_id as int),
            r matches Ok(m) ==> forall|j: int| 0 <= j < final(self)@.sources.len()
                && #[trigger] final(self)@.sources[j].manga_id == m
                ==> (final(self)@.sources[j].is_primary <==> final(self)@.sources[j].id == manga_source_id),
            wf(final(self)@),
            primaries_backed(old(self)@) ==> primaries_backed(final(self)@),
    {
        let e = match self.find_source(manga_source_id) {
            Some(e) => e,
            None => {
                return Err(CatalogError::SourceNotFound);
            },
        };
        let ghost v = self@;
        proof {
            let q = source_index(v, manga_source_id as int);
            assert(v.sources[q].id == v.sources[e as int].id);
            lemma_set_primary(v, v.sources[e as int].manga_id as int, manga_source_id as int);
        }
        let m = self.sources[e].manga_id;
        let ghost want = spec_set_primary(v, m as int, manga_source_id as int);
        let mut i: usize = 0;
        while i < self.sources.len()
            invariant
                i <= self.sources@.len(),
                self.sources@.len() == v.sources.len(),
                want == spec_set_primary(v, m as int, manga_source_id as int),
                forall|j: int| 0 <= j < i ==> #[trigger] self.sources@[j] == want.sources[j],
                forall|j: int| i <= j < self.sources@.len() ==> #[trigger] self.sources@[j] == v.sources[j],
                self@ == (CatalogView { sources: self@.sources, ..v }),
            decreases self.sources@.len() - i,
        {
            if self.sources[i].manga_id == m {
                let is_it = self.sources[i].id == manga_source_id;
                self.sources[i].is_primary = is_it;
            }
            i = i + 1;
        }
        proof {
            assert(self@.sources =~= want.sources);
        }
        Ok(m)
    }

    /// The id of the primary source of manga `manga_id`, if it has one.
    pub fn find_primary_source_id(&self, manga_id: i32) -> (r: Option<i32>)
        requires
            wf(self@),
        ensures
            r is Some <==> has_primary(self@, manga_id as int),
            r matches Some(id) ==> has_source(self@, id as int) && manga_of_source(self@, id as int) == manga_id
                && self@.sources[source_index(self@, id as int)].is_primary,
    {
        let mut i: usize = 0;
        while i < self.sources.len()
            invariant
                i <= self.sources@.len(),
                wf(self@),
                forall|j: int| 0 <= j < i ==> !(#[trigger] self@.sources[j].manga_id == manga_id && self@.sources[j].is_primary),
            decreases self.sources@.len() - i,
        {
            if self.sources[i].manga_id == manga_id && self.sources[i].is_primary {
                proof {
                    assert(has_source(self@, self@.sources[i as int].id as int));
                    let q = source_index(self@, self@.sources[i as int].id as int);
                    assert(self@.sources[q].id == self@.sources[i as int].id);
                    assert(q == i as int);
                    assert(self@.sources[i as int].manga_id == manga_id);
                }
                return Some(self.sources[i].id);
            }
            i = i + 1;
        }
        proof {
            if has_primary(self@, manga_id as int) {
                let j = choose|j: int| 0 <= j < self@.sources.len() && #[trigger] self@.sources[j].manga_id == manga_id
                    && self@.sources[j].is_primary;
                assert(!(self@.sources[j].manga_id == manga_id && self@.sources[j].is_primary));
            }
        }
        None
    }

    /// Manually links chapter `chapter_id` to canonical chapter `canonical_chapter_id`,
    /// which must belong to the manga of the chapter's source.
    pub fn link_chapter(&mut self, chapter_id: i32, canonical_chapter_id: i32) -> (r: Result<(), CatalogError>)
        requires
            wf(old(self)@),
        ensures
            r is Err <==> link_error(old(self)@, chapter_id as int, canonical_chapter_id as int) is Some,
            r matches Err(e) ==> Some(e) == link_error(old(self)@, chapter_id as int, canonical_chapter_id as int)
                && final(self)@ == old(self)@,
            r is Ok ==> final(self)@ == spec_link(
                old(self)@,
                chapter_index(old(self)@, chapter_id as int),
                canonical_chapter_id as int,
            ),
            wf(final(self)@),
            primaries_backed(old(self)@) ==> primaries_backed(final(self)@),
    {
        let ghost v = self@;
        let ci = match self.find_chapter(chapter_id) {
            Some(ci) => ci,
            None => {
                return Err(CatalogError::ChapterNotFound);
            },
        };
        proof {
            let q = chapter_index(v, chapter_id as int);
            assert(v.chapters[q].id == v.chapters[ci as int].id);
        }
        let source_id = self.chapters[ci].manga_source_id;
        let si = match self.find_source(source_id) {
            Some(si) => si,
            None => {
                proof {
                    assert(has_source(v, source_id as int));
                }
                return Err(CatalogError::SourceNotFound);
            },
        };
        let k = match self.find_canonical(canonical_chapter_id) {
            Some(k) => k,
            None => {
                return Err(CatalogError::CanonicalChapterNotFound);
            },
        };
        proof {
            let q = source_index(v, source_id as int);
            assert(v.sources[q].id == v.sources[si as int].id);
            assert(v.canonicals[k as int].id == canonical_chapter_id);
        }
        if self.canonicals[k].manga_id != self.sources[si].manga_id {
            proof {
                if canonical_of_manga(v, canonical_chapter_id as int, v.sources[si as int].manga_id as int) {
                    let j = choose|j: int| 0 <= j < v.canonicals.len() && #[trigger] v.canonicals[j].id
                        == canonical_chapter_id && v.canonicals[j].manga_id == v.sources[si as int].manga_id;
                    assert(v.canonicals[j].id == v.canonicals[k as int].id);
                }
            }
            return Err(CatalogError::CanonicalOfOtherManga);
        }
        proof {
            lemma_relink_wf(v, ci as int, Some(canonical_chapter_id));
        }
        self.chapters[ci].canonical_chapter_id = Some(canonical_chapter_id);
        proof {
            assert(self@.chapters =~= spec_link(v, ci as int, canonical_chapter_id as int).chapters);
            lemma_backed_same_sources_if(v, self@);
        }
        Ok(())
    }

    /// Manually detaches chapter `chapter_id` from its canonical chapter.
    pub fn unlink_chapter(&mut self, chapter_id: i32) -> (r: Result<(), CatalogError>)
        requires
            wf(old(self)@),
        ensures
            r is Err <==> !has_chapter(old(self)@, chapter_id as int),
            r is Err ==> r == Err::<(), CatalogError>(CatalogError::ChapterNotFound) && final(self)@ == old(self)@,
            r is Ok ==> final(self)@ == spec_unlink(old(self)@, chapter_index(old(self)@, chapter_id as int)),
            wf(final(self)@),
            primaries_backed(old(self)@) ==> primaries_backed(final(self)@),
    {
        let ghost v = self@;
        let ci = match self.find_chapter(chapter_id) {
            Some(ci) => ci,
            None => {
                return Err(CatalogError::ChapterNotFound);
            },
        };
        proof {
            let q = chapter_index(v, chapter_id as int);
            assert(v.chapters[q].id == v.chapters[ci as int].id);
            lemma_relink_wf(v, ci as int, None);
        }
        self.chapters[ci].canonical_chapter_id = None;
        proof {
            assert(self@.chapters =~= spec_unlink(v, ci as int).chapters);
            lemma_backed_same_sources_if(v, self@);
        }
        Ok(())
    }

    /// The first chapter (in table order) of source `manga_source_id` that is linked to
    /// canonical chapter `canonical_chapter_id`: that source's version of the chapter.
    pub fn find_equivalent(&self, canonical_chapter_id: i32, manga_source_id: i32) -> (r: Option<i32>)
        ensures
            r is None <==> forall|i: int| 0 <= i < self@.chapters.len() ==> !is_equivalent(
                #[trigger] self@.chapters[i],
                canonical_chapter_id as int,
                manga_source_id as int,
            ),
            r matches Some(id) ==> exists|i: int| 0 <= i < self@.chapters.len() && #[trigger] self@.chapters[i].id == id
                && is_equivalent(self@.chapters[i], canonical_chapter_id as int, manga_source_id as int)
                && forall|j: int| 0 <= j < i ==> !is_equivalent(
                    #[trigger] self@.chapters[j],
                    canonical_chapter_id as int,
                    manga_source_id as int,
                ),
    {
        let mut i: usize = 0;
        while i < self.chapters.len()
            invariant
                i <= self.chapters@.len(),
                forall|j: int| 0 <= j < i ==> !is_equivalent(
                    #[trigger] self@.chapters[j],
                    canonical_chapter_id as int,
                    manga_source_id as int,
                ),
            decreases self.chapters@.len() - i,
        {
            if self.chapters[i].manga_source_id == manga_source_id
                && self.chapters[i].canonical_chapter_id == Some(canonical_chapter_id) {
                proof {
                    assert(is_equivalent(self@.chapters[i as int], canonical_chapter_id as int, manga_source_id as int));
                }
                return Some(self.chapters[i].id);
            }
            i = i + 1;
        }
        None
    }
}

/// Whether `c` is the version, on source `source_id`, of canonical chapter `canonical_id`.
pub open spec fn is_equivalent(c: ChapterRow, canonical_id: int, source_id: int) -> bool {
    c.manga_source_id == source_id && c.canonical_chapter_id == Some(canonical_id as i32)
}

/// Catalogs that differ only outside the sources table agree on which mangas are backed.
pub proof fn lemma_backed_same_sources_if(a: CatalogView, b: CatalogView)
    requires
        a.sources == b.sources,
    ensures
        primaries_backed(a) ==> primaries_backed(b),
{
    if primaries_backed(a) {
        lemma_backed_same_sources(a, b);
    }
}


/// A fresh reading row: nothing read yet.
pub open spec fn spec_new_reading(user_id: int, manga_id: int) -> ReadingRow {
    ReadingRow { user_id: user_id as i32, manga_id: manga_id as i32, progress: 0, last_canonical_chapter_id: None }
}

/// The refusal, if any, of updating the reading row of (`user_id`, `manga_id`), by chapter
/// `chapter_id` when one is given.
pub open spec fn reading_update_error(v: CatalogView, user_id: int, manga_id: int, chapter_id: Option<i32>) -> Option<
    CatalogError,
> {
    if !has_reading(v, user_id, manga_id) {
        Some(CatalogError::ReadingNotFound)
    } else {
        match chapter_id {
            None => None,
            Some(c) => if !has_chapter(v, c as int) {
                Some(CatalogError::ChapterNotFound)
            } else if v.chapters[chapter_index(v, c as int)].canonical_chapter_id is None {
                Some(CatalogError::ChapterNotLinked)
            } else if !canonical_of_manga(
                v,
                v.chapters[chapter_index(v, c as int)].canonical_chapter_id->0 as int,
                manga_id,
            ) {
                Some(CatalogError::CanonicalChapterNotFound)
            } else {
                None
            },
        }
    }
}

/// The reading row update: by chapter, progress and last chapter follow the chapter's
/// canonical chapter; without one, only the raw progress is written.
pub open spec fn spec_update_reading(v: CatalogView, user_id: int, manga_id: int, chapter_id: Option<i32>, progress: int) -> CatalogView {
    match chapter_id {
        Some(c) => spec_sync_progress(
            v,
            user_id,
            manga_id,
            v.chapters[chapter_index(v, c as int)].canonical_chapter_id->0 as int,
        ),
        None => CatalogView {
            readings: spec_set_progress(
                v.readings,
                user_id,
                manga_id,
                progress,
                v.readings[reading_index(v, user_id, manga_id)].last_canonical_chapter_id,
            ),
            ..v
        },
    }
}

impl Catalog {
    /// Starts a reading row of `user_id` for manga `manga_id`, with nothing read yet.
    pub fn create_reading(&mut self, user_id: i32, manga_id: i32) -> (r: Result<(), CatalogError>)
        requires
            wf(old(self)@),
        ensures
            r is Err <==> !has_manga(old(self)@, manga_id as int) || has_reading(old(self)@, user_id as int, manga_id as int),
            r is Err ==> final(self)@ == old(self)@,
            !has_manga(old(self)@, manga_id as int) ==> r == Err::<(), CatalogError>(CatalogError::MangaNotFound),
            has_manga(old(self)@, manga_id as int) && has_reading(old(self)@, user_id as int, manga_id as int)
                ==> r == Err::<(), CatalogError>(CatalogError::ReadingExists),
            r is Ok ==> final(self)@ == spec_insert_reading(old(self)@, spec_new_reading(user_id as int, manga_id as int)),
            wf(final(self)@),
            primaries_backed(old(self)@) ==> primaries_backed(final(self)@),
    {
        if self.find_manga(manga_id).is_none() {
            return Err(CatalogError::MangaNotFound);
        }
        if self.find_reading(user_id, manga_id).is_some() {
            return Err(CatalogError::ReadingExists);
        }
        let ghost v = self@;
        let row = ReadingRow { user_id, manga_id, progress: 0, last_canonical_chapter_id: None };
        proof {
            lemma_insert_reading_wf(v, row);
        }
        self.insert_reading(row);
        proof {
            lemma_backed_same_sources_if(v, self@);
        }
        Ok(())
    }

    /// Deletes the reading row of `user_id` for manga `manga_id`.
    pub fn delete_reading(&mut self, user_id: i32, manga_id: i32) -> (r: Result<(), CatalogError>)
        requires
            wf(old(self)@),
        ensures
            r is Err <==> !has_reading(old(self)@, user_id as int, manga_id as int),
            r is Err ==> r == Err::<(), CatalogError>(CatalogError::ReadingNotFound) && final(self)@ == old(self)@,
            r is Ok ==> final(self)@ == spec_delete_reading(old(self)@, user_id as int, manga_id as int),
            !has_reading(final(self)@, user_id as int, manga_id as int),
            wf(final(self)@),
            primaries_backed(old(self)@) ==> primaries_backed(final(self)@),
    {
        let ghost v = self@;
        if self.find_reading(user_id, manga_id).is_none() {
            return Err(CatalogError::ReadingNotFound);
        }
        proof {
            lemma_delete_reading_wf(v, user_id as int, manga_id as int);
        }
        self.drop_reading_row(user_id, manga_id);
        proof {
            lemma_backed_same_sources_if(v, self@);
            let p = reading_not_of_user(user_id as int, manga_id as int);
            if has_reading(self@, user_id as int, manga_id as int) {
                let r = choose|r: int| 0 <= r < self@.readings.len() && #[trigger] self@.readings[r].user_id == user_id
                    && self@.readings[r].manga_id == manga_id;
                v.readings.lemma_filter_pred(p, r);
            }
        }
        Ok(())
    }

    /// Updates the reading row of `user_id` for manga `manga_id`. Given a chapter, the row
    /// follows that chapter's canonical chapter (its progress becomes the canonical
    /// chapter's rank); without one, only `progress` is written and the last chapter read
    /// is kept.
    pub fn update_reading(&mut self, user_id: i32, manga_id: i32, chapter_id: Option<i32>, progress: i32) -> (r:
        Result<(), CatalogError>)
        requires
            wf(old(self)@),
        ensures
            r is Err <==> reading_update_error(old(self)@, user_id as int, manga_id as int, chapter_id) is Some,
            r matches Err(e) ==> Some(e) == reading_update_error(old(self)@, user_id as int, manga_id as int, chapter_id)
                && final(self)@ == old(self)@,
            r is Ok ==> final(self)@ == spec_update_reading(
                old(self)@,
                user_id as int,
                manga_id as int,
                chapter_id,
                progress as int,
            ),
            wf(final(self)@),
            primaries_backed(old(self)@) ==> primaries_backed(final(self)@),
    {
        let ghost v = self@;
        let ri = match self.find_reading(user_id, manga_id) {
            Some(ri) => ri,
            None => {
                return Err(CatalogError::ReadingNotFound);
            },
        };
        match chapter_id {
            Some(c) => {
                let ci = match self.find_chapter(c) {
                    Some(ci) => ci,
                    None => {
                        return Err(CatalogError::ChapterNotFound);
                    },
                };
                proof {
                    let q = chapter_index(v, c as int);
                    assert(v.chapters[q].id == v.chapters[ci as int].id);
                }
                let cid = match self.chapters[ci].canonical_chapter_id {
                    Some(cid) => cid,
                    None => {
                        return Err(CatalogError::ChapterNotLinked);
                    },
                };
                let res = self.sync_reading_progress(user_id, manga_id, cid);
                proof {
                    lemma_backed_same_sources_if(v, self@);
                }
                res
            },
            None => {
                let last = self.readings[ri].last_canonical_chapter_id;
                proof {
                    let q = reading_index(v, user_id as int, manga_id as int);
                    assert(v.readings[q].user_id == v.readings[ri as int].user_id);
                    lemma_set_progress_wf(v, user_id as int, manga_id as int, progress as int, last);
                }
                self.set_progress(user_id, manga_id, progress, last);
                proof {
                    lemma_backed_same_sources_if(v, self@);
                }
                Ok(())
            },
        }
    }
}


// ---------------------------------------------------------------------------------------
// Syncing the chapters of a source with a fresh scrape
// ---------------------------------------------------------------------------------------

/// Number of chapters of source `source_id`.
pub open spec fn count_chapters_of(cs: Seq<ChapterRow>, source_id: int) -> nat {
    cs.filter(chapter_of(source_id)).len()
}

/// Whether dropping from `existing` chapters to `scraped` ones loses more than half of
/// them: too big a drop to trust without a human looking at the source.
pub open spec fn is_suspicious_drop(scraped: int, existing: int) -> bool {
    scraped < existing && 2 * (existing - scraped) > existing
}

/// Whether some chapter already has url `url`.
pub open spec fn has_chapter_url(v: CatalogView, url: Seq<char>) -> bool {
    exists|i: int| 0 <= i < v.chapters.len() && #[trigger] v.chapters[i].url@ == url
}

/// The catalog with scraped chapter `c` added to source `source_id`, unlinked.
pub open spec fn spec_push_chapter(v: CatalogView, source_id: int, c: ScrapedChapter) -> CatalogView {
    CatalogView {
        chapters: v.chapters.push(
            ChapterRow {
                id: v.next_chapter_id as i32,
                manga_source_id: source_id as i32,
                url: c.url,
                ordinal: c.ordinal,
                title: c.title,
                posted: c.posted,
                canonical_chapter_id: None,
            },
        ),
        next_chapter_id: v.next_chapter_id + 1,
        ..v
    }
}

/// Inserting the scraped chapters `cs` in order, each one skipped when its url is already
/// taken; also gives the ids of the chapters that were inserted.
pub open spec fn spec_insert_chapters(v: CatalogView, source_id: int, cs: Seq<ScrapedChapter>) -> (CatalogView, Seq<i32>)
    decreases cs.len(),
{
    if cs.len() == 0 {
        (v, Seq::empty())
    } else {
        let (w, ids) = spec_insert_chapters(v, source_id, cs.drop_last());
        if has_chapter_url(w, cs.last().url@) {
            (w, ids)
        } else {
            (spec_push_chapter(w, source_id, cs.last()), ids.push(w.next_chapter_id as i32))
        }
    }
}

/// `s` back to front.
pub open spec fn reversed<A>(s: Seq<A>) -> Seq<A> {
    Seq::new(s.len(), |k: int| s[s.len() - 1 - k])
}

/// How a chapter sync ended.
#[derive(Debug)]
pub enum SyncOutcome {
    /// The scrape found no chapter at all; nothing was touched.
    NoChapters,
    /// The scrape lost more than half of the source's chapters and the sync was not
    /// forced; nothing was touched, the drop is for a human to check.
    SuspiciousDrop { scraped: u64, existing: u64 },
    /// The source's chapters were cleared first when the scrape had fewer of them
    /// (`cleared` is how many), then the scraped chapters with new urls were inserted
    /// (`inserted`, in insertion order) and matched onto canonical chapters.
    Synced { cleared: u64, inserted: Vec<i32> },
}

/// Every chapter in `ids` exists and its source belongs to manga `manga_id`.
pub open spec fn all_of_manga(v: CatalogView, manga_id: int, ids: Seq<i32>) -> bool {
    forall|k: int| 0 <= k < ids.len() ==> has_chapter(v, #[trigger] ids[k] as int) && manga_of_source(
        v,
        v.chapters[chapter_index(v, ids[k] as int)].manga_source_id as int,
    ) == manga_id
}

/// Syncing source `source_id` of manga `manga_id` with the scraped chapters `scraped`
/// (newest first, as sources list them): the resulting catalog, and the ids of the
/// chapters inserted when the sync went through.
pub open spec fn spec_sync_chapters(
    v: CatalogView,
    manga_id: int,
    source_id: int,
    force: bool,
    scraped: Seq<ScrapedChapter>,
) -> (CatalogView, Option<Seq<i32>>) {
    let n = count_chapters_of(v.chapters, source_id) as int;
    if scraped.len() == 0 {
        (v, None)
    } else if is_suspicious_drop(scraped.len() as int, n) && !force {
        (v, None)
    } else {
        let v1 = if scraped.len() < n {
            CatalogView { chapters: chapters_not_of(v.chapters, source_id), ..v }
        } else {
            v
        };
        let (v2, ids) = spec_insert_chapters(v1, source_id, reversed(scraped));
        (spec_match(v2, manga_id, ids), Some(ids))
    }
}

/// A chapter sync goes through exactly when the scrape has chapters and either it is
/// forced or the scrape keeps at least half of the source's chapters; when it does not go
/// through, the catalog is left as it was.
pub proof fn lemma_sync_drop_guard(
    v: CatalogView,
    manga_id: int,
    source_id: int,
    force: bool,
    scraped: Seq<ScrapedChapter>,
)
    ensures
        ({
            let n = count_chapters_of(v.chapters, source_id) as int;
            let k = scraped.len() as int;
            let (w, inserted) = spec_sync_chapters(v, manga_id, source_id, force, scraped);
            &&& inserted is None <==> k == 0 || (!force && k < n && 2 * (n - k) > n)
            &&& inserted is None ==> w == v
        }),
{
}

/// Deleting every chapter of one source keeps the catalog well formed.
pub proof fn lemma_delete_chapters_wf(v: CatalogView, source_id: int)
    requires
        wf(v),
    ensures
        wf(CatalogView { chapters: chapters_not_of(v.chapters, source_id), ..v }),
        count_chapters_of(v.chapters, source_id) + chapters_not_of(v.chapters, source_id).len() == v.chapters.len(),
{
    let w = CatalogView { chapters: chapters_not_of(v.chapters, source_id), ..v };
    let pred = chapter_not_of(source_id);
    v.chapters.lemma_filter_len(pred);
    assert forall|i: int| 0 <= i < w.chapters.len() implies 1 <= #[trigger] w.chapters[i].id < w.next_chapter_id by {
        lemma_filter_origin(v.chapters, pred, i);
    }
    lemma_filter_key_unique(v.chapters, pred, |c: ChapterRow| c.id);
    assert forall|i: int, j: int|
        0 <= i < w.chapters.len() && 0 <= j < w.chapters.len() && #[trigger] w.chapters[i].id
            == #[trigger] w.chapters[j].id implies i == j by {
        assert((|c: ChapterRow| c.id)(w.chapters[i]) == (|c: ChapterRow| c.id)(w.chapters[j]));
    }
    lemma_filter_key_unique(v.chapters, pred, |c: ChapterRow| c.url@);
    assert forall|i: int, j: int|
        0 <= i < w.chapters.len() && 0 <= j < w.chapters.len() && #[trigger] w.chapters[i].url@
            == #[trigger] w.chapters[j].url@ implies i == j by {
        assert((|c: ChapterRow| c.url@)(w.chapters[i]) == (|c: ChapterRow| c.url@)(w.chapters[j]));
    }
    assert(w.sources == v.sources && w.canonicals == v.canonicals);
    assert forall|i: int| 0 <= i < w.chapters.len() implies has_source(w, #[trigger] w.chapters[i].manga_source_id as int) by {
        lemma_filter_origin(v.chapters, pred, i);
        let j = choose|j: int| 0 <= j < v.chapters.len() && w.chapters[i] == #[trigger] v.chapters[j] && pred(v.chapters[j]);
        assert(has_source(v, v.chapters[j].manga_source_id as int));
    }
    assert forall|i: int|
        0 <= i < w.chapters.len() && (#[trigger] w.chapters[i].canonical_chapter_id) is Some implies canonical_of_manga(
            w,
            w.chapters[i].canonical_chapter_id->0 as int,
            manga_of_source(w, w.chapters[i].manga_source_id as int),
        ) by {
        lemma_filter_origin(v.chapters, pred, i);
        let j = choose|j: int| 0 <= j < v.chapters.len() && w.chapters[i] == #[trigger] v.chapters[j] && pred(v.chapters[j]);
        assert(v.chapters[j].canonical_chapter_id is Some);
        assert(canonical_of_manga(v, v.chapters[j].canonical_chapter_id->0 as int,
            manga_of_source(v, v.chapters[j].manga_source_id as int)));
    }
    // the chapters of the source and the others split the table
    let p = chapter_of(source_id);
    assert(count_chapters_of(v.chapters, source_id) + chapters_not_of(v.chapters, source_id).len() == v.chapters.len()) by {
        lemma_filter_split(v.chapters, source_id);
    }
}

/// A table's chapters are those of one source plus all the others.
pub proof fn lemma_filter_split(cs: Seq<ChapterRow>, source_id: int)
    ensures
        cs.filter(chapter_of(source_id)).len() + cs.filter(chapter_not_of(source_id)).len() == cs.len(),
    decreases cs.len(),
{
    reveal(Seq::filter);
    if cs.len() > 0 {
        lemma_filter_split(cs.drop_last(), source_id);
    }
}

/// Adding one unlinked chapter with a fresh id and a free url keeps the catalog well formed.
pub proof fn lemma_push_chapter_wf(v: CatalogView, source_id: int, c: ScrapedChapter)
    requires
        wf(v),
        has_source(v, source_id),
        !has_chapter_url(v, c.url@),
        v.next_chapter_id < i32::MAX,
        i32::MIN <= source_id <= i32::MAX,
    ensures
        ({
            let w = spec_push_chapter(v, source_id, c);
            &&& wf(w)
            &&& has_chapter(w, v.next_chapter_id)
            &&& chapter_index(w, v.next_chapter_id) == v.chapters.len()
            &&& w.chapters[v.chapters.len() as int].manga_source_id == source_id
            &&& forall|i: int| 0 <= i < v.chapters.len() ==> #[trigger] w.chapters[i] == v.chapters[i]
        }),
{
    let w = spec_push_chapter(v, source_id, c);
    let n = v.chapters.len() as int;
    assert(w.chapters[n].id == v.next_chapter_id);
    assert forall|i: int, j: int|
        0 <= i < w.chapters.len() && 0 <= j < w.chapters.len() && #[trigger] w.chapters[i].id
            == #[trigger] w.chapters[j].id implies i == j by {
        if i < n && j < n {
            assert(w.chapters[i] == v.chapters[i] && w.chapters[j] == v.chapters[j]);
        } else if i < n {
            assert(w.chapters[i] == v.chapters[i]);
        } else if j < n {
            assert(w.chapters[j] == v.chapters[j]);
        }
    }
    assert forall|i: int, j: int|
        0 <= i < w.chapters.len() && 0 <= j < w.chapters.len() && #[trigger] w.chapters[i].url@
            == #[trigger] w.chapters[j].url@ implies i == j by {
        if i < n && j < n {
            assert(w.chapters[i] == v.chapters[i] && w.chapters[j] == v.chapters[j]);
        } else if i < n {
            assert(w.chapters[i] == v.chapters[i]);
            assert(v.chapters[i].url@ == c.url@);
        } else if j < n {
            assert(w.chapters[j] == v.chapters[j]);
            assert(v.chapters[j].url@ == c.url@);
        }
    }
    assert forall|i: int| 0 <= i < w.chapters.len() implies 1 <= #[trigger] w.chapters[i].id < w.next_chapter_id by {
        if i < n {
            assert(w.chapters[i] == v.chapters[i]);
        }
    }
    assert(w.sources == v.sources && w.canonicals == v.canonicals);
    assert forall|i: int| 0 <= i < w.chapters.len() implies has_source(w, #[trigger] w.chapters[i].manga_source_id as int) by {
        if i < n {
            assert(w.chapters[i] == v.chapters[i]);
            assert(has_source(v, v.chapters[i].manga_source_id as int));
        }
    }
    assert forall|i: int|
        0 <= i < w.chapters.len() && (#[trigger] w.chapters[i].canonical_chapter_id) is Some implies canonical_of_manga(
            w,
            w.chapters[i].canonical_chapter_id->0 as int,
            manga_of_source(w, w.chapters[i].manga_source_id as int),
        ) by {
        assert(i < n);
        assert(w.chapters[i] == v.chapters[i]);
        assert(v.chapters[i].canonical_chapter_id is Some);
        assert(canonical_of_manga(v, v.chapters[i].canonical_chapter_id->0 as int,
            manga_of_source(v, v.chapters[i].manga_source_id as int)));
    }
    assert(has_chapter(w, v.next_chapter_id));
    let q = chapter_index(w, v.next_chapter_id);
    assert(w.chapters[q].id == w.chapters[n].id);
}

/// After re-matching chapters `ids` of manga `manga_id`, every chapter link points into
/// the manga of the chapter's source again.
pub proof fn lemma_match_links(v: CatalogView, w: CatalogView, manga_id: int, ids: Seq<i32>)
    requires
        wf(v),
        all_of_manga(v, manga_id, ids),
        match_frame(v, w, manga_id),
        all_linked(w, manga_id, ids),
        forall|i: int| 0 <= i < v.chapters.len() && !ids.contains(v.chapters[i].id) ==> #[trigger] w.chapters[i]
            == v.chapters[i],
    ensures
        wf_links(w),
{
    reveal(all_linked);
    assert forall|i: int|
        0 <= i < w.chapters.len() && (#[trigger] w.chapters[i].canonical_chapter_id) is Some implies canonical_of_manga(
            w,
            w.chapters[i].canonical_chapter_id->0 as int,
            manga_of_source(w, w.chapters[i].manga_source_id as int),
        ) by {
        assert(w.sources == v.sources);
        if ids.contains(v.chapters[i].id) {
            let k = choose|k: int| 0 <= k < ids.len() && ids[k] == v.chapters[i].id;
            assert(has_chapter(v, ids[k] as int));
            lemma_chapter_index_stable(v, w, ids[k] as int);
            assert(w.chapters[i].id == v.chapters[i].id);
            assert(chapter_index(w, ids[k] as int) == i) by {
                let c = chapter_index(w, ids[k] as int);
                assert(w.chapters[c].id == w.chapters[i].id);
            }
            assert(chapter_index(v, ids[k] as int) == i) by {
                let c = chapter_index(v, ids[k] as int);
                assert(v.chapters[c].id == v.chapters[i].id);
            }
            let cid = w.chapters[i].canonical_chapter_id->0 as int;
            let q = choose|q: int| 0 <= q < w.canonicals.len() && #[trigger] w.canonicals[q].id == cid
                && w.canonicals[q].manga_id == manga_id && w.canonicals[q].ordinal == w.chapters[i].ordinal;
            assert(w.canonicals[q].id == cid);
        } else {
            assert(w.chapters[i] == v.chapters[i]);
            assert(v.chapters[i].canonical_chapter_id is Some);
            lemma_canonical_of_manga_extend(v, w, v.chapters[i].canonical_chapter_id->0 as int,
                manga_of_source(v, v.chapters[i].manga_source_id as int));
        }
    }
}

impl Catalog {
    /// Number of chapters of source `source_id`.
    pub(crate) fn count_chapters(&self, source_id: i32) -> (r: u64)
        requires
            wf_ids(self@),
        ensures
            r == count_chapters_of(self@.chapters, source_id as int),
    {
        let ghost p = chapter_of(source_id as int);
        let mut count: u64 = 0;
        let mut i: usize = 0;
        while i < self.chapters.len()
            invariant
                i <= self.chapters@.len(),
                self.chapters@.len() < i32::MAX,
                p == chapter_of(source_id as int),
                count == self.chapters@.take(i as int).filter(p).len(),
            decreases self.chapters@.len() - i,
        {
            proof {
                let row = self.chapters@[i as int];
                self.chapters@.take(i as int).lemma_filter_push(row, p);
                assert(self.chapters@.take(i as int + 1) =~= self.chapters@.take(i as int).push(row));
                self.chapters@.take(i as int).lemma_filter_len(p);
            }
            if self.chapters[i].manga_source_id == source_id {
                count = count + 1;
            }
            i = i + 1;
        }
        proof {
            assert(self.chapters@.take(i as int) =~= self.chapters@);
        }
        count
    }

    /// Whether some chapter already has url `url`.
    pub(crate) fn chapter_url_taken(&self, url: &String) -> (r: bool)
        ensures
            r == has_chapter_url(self@, url@),
    {
        let mut i: usize = 0;
        while i < self.chapters.len()
            invariant
                i <= self.chapters@.len(),
                forall|j: int| 0 <= j < i ==> #[trigger] self@.chapters[j].url@ != url@,
            decreases self.chapters@.len() - i,
        {
            if self.chapters[i].url == *url {
                proof {
                    assert(self@.chapters[i as int].url@ == url@);
                }
                return true;
            }
            i = i + 1;
        }
        false
    }

    /// Inserts the scraped chapters `scraped` into source `source_id` back to front (oldest
    /// first), skipping each one whose url is already taken; gives the ids inserted.
    pub(crate) fn insert_chapters(&mut self, manga_id: i32, source_id: i32, scraped: &Vec<ScrapedChapter>) -> (r: Vec<i32>)
        requires
            wf(old(self)@),
            has_source(old(self)@, source_id as int),
            manga_of_source(old(self)@, source_id as int) == manga_id,
            old(self)@.next_chapter_id + scraped@.len() <= i32::MAX,
        ensures
            (final(self)@, r@) == spec_insert_chapters(old(self)@, source_id as int, reversed(scraped@)),
            wf(final(self)@),
            all_of_manga(final(self)@, manga_id as int, r@),
            r@.len() <= scraped@.len(),
            final(self)@.next_chapter_id <= old(self)@.next_chapter_id + scraped@.len(),
            final(self)@.next_canonical_id == old(self)@.next_canonical_id,
            final(self)@.next_manga_id == old(self)@.next_manga_id,
            final(self)@.next_source_id == old(self)@.next_source_id,
            final(self)@.sources == old(self)@.sources,
            final(self)@.mangas == old(self)@.mangas,
            final(self)@.canonicals == old(self)@.canonicals,
            final(self)@.readings == old(self)@.readings,
            final(self)@.chapters.len() >= old(self)@.chapters.len(),
            forall|i: int| 0 <= i < old(self)@.chapters.len() ==> #[trigger] final(self)@.chapters[i] == old(self)@.chapters[i],
            forall|k: int| 0 <= k < r@.len() ==> #[trigger] r@[k] >= old(self)@.next_chapter_id,
    {
        let ghost v = self@;
        let ghost rev = reversed(scraped@);
        let n = scraped.len();
        let mut ids: Vec<i32> = Vec::new();
        let mut k: usize = 0;
        while k < n
            invariant
                k <= n,
                n == scraped@.len(),
                rev == reversed(scraped@),
                (self@, ids@) == spec_insert_chapters(v, source_id as int, rev.take(k as int)),
                wf(self@),
                has_source(self@, source_id as int),
                manga_of_source(self@, source_id as int) == manga_id,
                all_of_manga(self@, manga_id as int, ids@),
                ids@.len() <= k,
                self@.next_chapter_id <= v.next_chapter_id + k,
                v.next_chapter_id + n <= i32::MAX,
                self@.next_canonical_id == v.next_canonical_id,
                self@.next_manga_id == v.next_manga_id,
                self@.next_source_id == v.next_source_id,
                self@.sources == v.sources,
                self@.mangas == v.mangas,
                self@.canonicals == v.canonicals,
                self@.readings == v.readings,
                self@.chapters.len() >= v.chapters.len(),
                forall|i: int| 0 <= i < v.chapters.len() ==> #[trigger] self@.chapters[i] == v.chapters[i],
                forall|j: int| 0 <= j < ids@.len() ==> #[trigger] ids@[j] >= v.next_chapter_id,
                self@.next_chapter_id >= v.next_chapter_id,
            decreases n - k,
        {
            let ghost w = self@;
            let c = &scraped[n - 1 - k];
            proof {
                assert(rev[k as int] == *c);
                assert(rev.take(k as int + 1).drop_last() =~= rev.take(k as int));
                assert(rev.take(k as int + 1).last() == *c);
            }
            if !self.chapter_url_taken(&c.url) {
                proof {
                    lemma_push_chapter_wf(w, source_id as int, *c);
                }
                let id = self.next_chapter_id;
                self.chapters.push(ChapterRow {
                    id,
                    manga_source_id: source_id,
                    url: c.url.clone(),
                    ordinal: c.ordinal,
                    title: c.title.clone(),
                    posted: c.posted,
                    canonical_chapter_id: None,
                });
                self.next_chapter_id = id + 1;
                ids.push(id);
                proof {
                    let x = spec_push_chapter(w, source_id as int, *c);
                    assert(self@.chapters =~= x.chapters);
                    assert(self@ == x);
                    assert(self@.sources == w.sources);
                    assert forall|j: int| 0 <= j < ids@.len() implies has_chapter(self@, #[trigger] ids@[j] as int)
                        && manga_of_source(
                        self@,
                        self@.chapters[chapter_index(self@, ids@[j] as int)].manga_source_id as int,
                    ) == manga_id by {
                        if j < ids@.len() - 1 {
                            assert(has_chapter(w, ids@[j] as int));
                            let c = chapter_index(w, ids@[j] as int);
                            assert(self@.chapters[c] == w.chapters[c]);
                            let c2 = chapter_index(self@, ids@[j] as int);
                            assert(self@.chapters[c2].id == self@.chapters[c].id);
                        }
                    }
                }
            }
            k = k + 1;
        }
        proof {
            assert(rev.take(n as int) =~= rev);
        }
        ids
    }

    /// Syncs source `manga_source_id` of manga `manga_id` with a fresh scrape of it
    /// (`scraped`, newest first). An empty scrape changes nothing. A scrape with fewer
    /// chapters than the source has clears the source's chapters first, unless it lost
    /// more than half of them and `force` is off: that drop is reported and nothing is
    /// touched. The scraped chapters are then inserted oldest first, those whose url is
    /// taken skipped, and exactly the inserted ones are matched onto canonical chapters
    /// (see `match_canonical_chapters`: of two inserted chapters at one ordinal, the second
    /// is left unlinked).
    pub fn sync_chapters_for_source(
        &mut self,
        manga_id: i32,
        manga_source_id: i32,
        force: bool,
        scraped: &Vec<ScrapedChapter>,
    ) -> (r: SyncOutcome)
        requires
            wf(old(self)@),
            has_source(old(self)@, manga_source_id as int),
            manga_of_source(old(self)@, manga_source_id as int) == manga_id,
            has_room(old(self)@, scraped@.len() as int),
        ensures
            ({
                let (w, inserted) = spec_sync_chapters(
                    old(self)@,
                    manga_id as int,
                    manga_source_id as int,
                    force,
                    scraped@,
                );
                &&& final(self)@ == w
                &&& match r {
                    SyncOutcome::NoChapters => scraped@.len() == 0 && inserted is None,
                    SyncOutcome::SuspiciousDrop { scraped: s, existing: e } => scraped@.len() > 0 && inserted is None
                        && s == scraped@.len() && e == count_chapters_of(old(self)@.chapters, manga_source_id as int),
                    SyncOutcome::Synced { cleared, inserted: ids } => inserted == Some(ids@) && cleared == (if scraped@.len()
                        < count_chapters_of(old(self)@.chapters, manga_source_id as int) {
                        count_chapters_of(old(self)@.chapters, manga_source_id as int)
                    } else {
                        0
                    }) && all_linked(final(self)@, manga_id as int, ids@),
                }
            }),
            ({
                let n = count_chapters_of(old(self)@.chapters, manga_source_id as int) as int;
                let k = scraped@.len() as int;
                &&& k > 0 && !force && k < n && 2 * (n - k) > n ==> final(self)@ == old(self)@ && (r matches SyncOutcome::SuspiciousDrop {
                    scraped: s,
                    existing: e,
                } && s == k && e == n)
                &&& k > 0 && (force || k >= n || 2 * (n - k) <= n) ==> r is Synced
                &&& k == 0 ==> r is NoChapters && final(self)@ == old(self)@
            }),
            wf(final(self)@),
            final(self)@.sources == old(self)@.sources,
            final(self)@.mangas == old(self)@.mangas,
            final(self)@.readings == old(self)@.readings,
            final(self)@.next_manga_id == old(self)@.next_manga_id,
            final(self)@.next_source_id == old(self)@.next_source_id,
            primaries_backed(old(self)@) ==> primaries_backed(final(self)@),
            scraped@.len() >= count_chapters_of(old(self)@.chapters, manga_source_id as int) ==> forall|i: int|
                0 <= i < old(self)@.chapters.len() ==> #[trigger] final(self)@.chapters[i] == old(self)@.chapters[i],
    {
        let ghost v = self@;
        if scraped.len() == 0 {
            return SyncOutcome::NoChapters;
        }
        let count = self.count_chapters(manga_source_id);
        let len = scraped.len() as u64;
        proof {
            lemma_delete_chapters_wf(v, manga_source_id as int);
        }
        let mut cleared: u64 = 0;
        if len < count {
            let dropped = count - len;
            if 2 * dropped > count && !force {
                return SyncOutcome::SuspiciousDrop { scraped: len, existing: count };
            }
            self.delete_chapters_of(manga_source_id);
            cleared = count;
        }
        let ghost v1 = self@;
        proof {
            assert(v1.sources == v.sources);
            assert(has_source(v1, manga_source_id as int));
        }
        let ids = self.insert_chapters(manga_id, manga_source_id, scraped);
        let ghost v2 = self@;
        proof {
            assert forall|k: int| 0 <= k < ids@.len() implies has_chapter(v2, #[trigger] ids@[k] as int) by {}
            assert(has_manga(v2, manga_id as int)) by {
                let e = source_index(v, manga_source_id as int);
                assert(has_manga(v, v.sources[e].manga_id as int));
            }
        }
        self.match_canonical_chapters(manga_id, &ids);
        proof {
            lemma_match_links(v2, self@, manga_id as int, ids@);
            lemma_backed_same_sources_if(v, self@);
            if scraped@.len() >= count_chapters_of(v.chapters, manga_source_id as int) {
                assert forall|i: int| 0 <= i < v.chapters.len() implies #[trigger] self@.chapters[i] == v.chapters[i] by {
                    assert(v2.chapters[i] == v.chapters[i]);
                    if ids@.contains(v2.chapters[i].id) {
                        let k = choose|k: int| 0 <= k < ids@.len() && ids@[k] == v2.chapters[i].id;
                        assert(ids@[k] >= v.next_chapter_id);
                    }
                }
            }
        }
        SyncOutcome::Synced { cleared, inserted: ids }
    }
}


// ---------------------------------------------------------------------------------------
// Creating mangas and sources, refreshing a source
// ---------------------------------------------------------------------------------------

/// A manga as a scrape of one of its sources reports it.
#[derive(Debug)]
pub struct ScrapedManga {
    /// The url the source settled on for the manga.
    pub url: String,
    /// Host part of `url`.
    pub hostname: String,
    pub meta: MangaMeta,
    pub cover_url: Option<String>,
    /// Newest first, as sources list them.
    pub chapters: Vec<ScrapedChapter>,
}

/// How refreshing a source ended.
#[derive(Debug)]
pub struct RefreshOutcome {
    /// The manga of the refreshed source.
    pub manga_id: i32,
    /// Storage key of a cached cover that no longer matches the manga's cover url: the
    /// caller deletes it from the image store.
    pub stale_cover_key: Option<String>,
    pub sync: SyncOutcome,
}

/// Whether some source already has url `url`.
pub open spec fn has_source_url(v: CatalogView, url: Seq<char>) -> bool {
    exists|i: int| 0 <= i < v.sources.len() && #[trigger] v.sources[i].url@ == url
}

/// A cover whose download is still to happen, from `url`.
pub open spec fn fresh_cover(c: CoverState, url: Option<String>) -> bool {
    &&& c.source_url == url
    &&& c.status@ == "pending"@
    &&& c.storage_key is None
    &&& c.content_type is None
    &&& c.checksum is None
    &&& c.attempts == 0
}

/// The catalog with manga row `row` appended and its id used up.
pub open spec fn spec_add_manga(v: CatalogView, row: MangaRow) -> CatalogView {
    CatalogView { mangas: v.mangas.push(row), next_manga_id: v.next_manga_id + 1, ..v }
}

/// The catalog with a source of `manga_id` at `url` appended, with the next source id.
pub open spec fn spec_add_source(v: CatalogView, manga_id: int, url: String, hostname: String, is_primary: bool) -> CatalogView {
    CatalogView {
        sources: v.sources.push(
            SourceRow { id: v.next_source_id as i32, manga_id: manga_id as i32, url, hostname, is_primary },
        ),
        next_source_id: v.next_source_id + 1,
        ..v
    }
}

/// Manga metadata after its primary source's scrape: everything as scraped, except a status
/// that the scrape did not report, which stays.
pub open spec fn refreshed_meta(old: MangaMeta, new: MangaMeta) -> MangaMeta {
    MangaMeta { status: if new.status is Some { new.status } else { old.status }, ..new }
}

/// A primary source's scrape overwrites the manga's descriptive fields one by one: title,
/// description, ongoing flag, authors, alternative titles and genres are the scraped ones,
/// and the status is the scraped one when the scrape has one, the old one otherwise.
pub proof fn lemma_refreshed_meta_fields(old: MangaMeta, new: MangaMeta)
    ensures
        refreshed_meta(old, new).title == new.title,
        refreshed_meta(old, new).description == new.description,
        refreshed_meta(old, new).is_ongoing == new.is_ongoing,
        refreshed_meta(old, new).authors == new.authors,
        refreshed_meta(old, new).alt_titles == new.alt_titles,
        refreshed_meta(old, new).genres == new.genres,
        new.status is Some ==> refreshed_meta(old, new).status == new.status,
        new.status is None ==> refreshed_meta(old, new).status == old.status,
{
}

/// Whether the cover url on record is `url`.
pub open spec fn same_cover_url(current: Option<String>, url: String) -> bool {
    current matches Some(c) && c@ == url@
}

/// The cover state after a scrape that found cover url `new_url`, if any: no url keeps
/// the cover as it was; the url on record keeps the download state; a new url restarts
/// the download.
pub open spec fn refreshed_cover(old: CoverState, new_url: Option<String>, got: CoverState) -> bool {
    match new_url {
        None => got == old,
        Some(u) => if same_cover_url(old.source_url, u) {
            got == CoverState { source_url: Some(u), ..old }
        } else {
            fresh_cover(got, Some(u))
        },
    }
}

/// Adding a manga row with a fresh id keeps the catalog well formed.
pub proof fn lemma_add_manga_wf(v: CatalogView, row: MangaRow)
    requires
        wf(v),
        row.id == v.next_manga_id,
        v.next_manga_id < i32::MAX,
    ensures
        wf(spec_add_manga(v, row)),
        has_manga(spec_add_manga(v, row), row.id as int),
        forall|m: int| has_manga(v, m) ==> #[trigger] has_manga(spec_add_manga(v, row), m),
{
    let w = spec_add_manga(v, row);
    let n = v.mangas.len() as int;
    assert(w.mangas[n] == row);
    assert forall|m: int| has_manga(v, m) implies #[trigger] has_manga(w, m) by {
        let i = choose|i: int| 0 <= i < v.mangas.len() && #[trigger] v.mangas[i].id == m;
        assert(w.mangas[i] == v.mangas[i]);
    }
    assert forall|i: int| 0 <= i < w.mangas.len() implies 1 <= #[trigger] w.mangas[i].id < w.next_manga_id by {
        if i < n {
            assert(w.mangas[i] == v.mangas[i]);
        }
    }
    assert forall|i: int, j: int|
        0 <= i < w.mangas.len() && 0 <= j < w.mangas.len() && #[trigger] w.mangas[i].id
            == #[trigger] w.mangas[j].id implies i == j by {
        if i < n {
            assert(w.mangas[i] == v.mangas[i]);
        }
        if j < n {
            assert(w.mangas[j] == v.mangas[j]);
        }
    }
    assert(w.sources == v.sources && w.chapters == v.chapters && w.canonicals == v.canonicals && w.readings == v.readings);
    assert forall|i: int| 0 <= i < w.sources.len() implies has_manga(w, #[trigger] w.sources[i].manga_id as int) by {
        assert(has_manga(v, v.sources[i].manga_id as int));
    }
    assert forall|i: int| 0 <= i < w.canonicals.len() implies has_manga(w, #[trigger] w.canonicals[i].manga_id as int) by {
        assert(has_manga(v, v.canonicals[i].manga_id as int));
    }
    assert forall|i: int| 0 <= i < w.readings.len() implies has_manga(w, #[trigger] w.readings[i].manga_id as int) by {
        assert(has_manga(v, v.readings[i].manga_id as int));
    }
    assert(wf_ids(w));
    assert(wf_sources(w));
    assert(wf_chapters(w));
    assert(wf_canonicals(w));
    assert(wf_readings(w));
    assert(wf_links(w));
}

/// Adding a source with a fresh id and a free url keeps the catalog well formed, when it is
/// not primary or its manga has no primary yet.
pub proof fn lemma_add_source_wf(v: CatalogView, manga_id: int, url: String, hostname: String, is_primary: bool)
    requires
        wf(v),
        has_manga(v, manga_id),
        !has_source_url(v, url@),
        v.next_source_id < i32::MAX,
        i32::MIN <= manga_id <= i32::MAX,
        is_primary ==> !has_primary(v, manga_id),
    ensures
        ({
            let w = spec_add_source(v, manga_id, url, hostname, is_primary);
            &&& wf(w)
            &&& has_source(w, v.next_source_id)
            &&& manga_of_source(w, v.next_source_id) == manga_id
            &&& primaries_backed(v) && (is_primary || has_primary(v, manga_id)) ==> primaries_backed(w)
            &&& forall|i: int| 0 <= i < v.sources.len() ==> #[trigger] w.sources[i] == v.sources[i]
        }),
{
    let w = spec_add_source(v, manga_id, url, hostname, is_primary);
    let n = v.sources.len() as int;
    assert(w.sources[n].id == v.next_source_id);
    assert forall|i: int| 0 <= i < w.sources.len() implies 1 <= #[trigger] w.sources[i].id < w.next_source_id by {
        if i < n {
            assert(w.sources[i] == v.sources[i]);
        }
    }
    assert forall|i: int, j: int|
        0 <= i < w.sources.len() && 0 <= j < w.sources.len() && #[trigger] w.sources[i].id
            == #[trigger] w.sources[j].id implies i == j by {
        if i < n {
            assert(w.sources[i] == v.sources[i]);
        }
        if j < n {
            assert(w.sources[j] == v.sources[j]);
        }
    }
    assert forall|i: int, j: int|
        0 <= i < w.sources.len() && 0 <= j < w.sources.len() && #[trigger] w.sources[i].url@
            == #[trigger] w.sources[j].url@ implies i == j by {
        if i < n {
            assert(w.sources[i] == v.sources[i]);
        }
        if j < n {
            assert(w.sources[j] == v.sources[j]);
        }
    }
    assert forall|i: int| 0 <= i < w.sources.len() implies has_manga(w, #[trigger] w.sources[i].manga_id as int) by {
        if i < n {
            assert(w.sources[i] == v.sources[i]);
            assert(has_manga(v, v.sources[i].manga_id as int));
        }
    }
    assert forall|i: int, j: int|
        0 <= i < w.sources.len() && 0 <= j < w.sources.len() && #[trigger] w.sources[i].is_primary
            && #[trigger] w.sources[j].is_primary && w.sources[i].manga_id == w.sources[j].manga_id
            && w.sources[i].id != 0 && w.sources[j].id != 0 implies i == j by {
        if i < n {
            assert(w.sources[i] == v.sources[i]);
        }
        if j < n {
            assert(w.sources[j] == v.sources[j]);
        }
        if i < n && j == n {
            assert(v.sources[i].manga_id == manga_id && v.sources[i].is_primary);
        }
        if j < n && i == n {
            assert(v.sources[j].manga_id == manga_id && v.sources[j].is_primary);
        }
    }
    assert forall|i: int| 0 <= i < w.chapters.len() implies has_source(w, #[trigger] w.chapters[i].manga_source_id as int) by {
        let x = w.chapters[i].manga_source_id as int;
        assert(has_source(v, x));
        let k = source_index(v, x);
        assert(w.sources[k] == v.sources[k]);
    }
    assert forall|i: int|
        0 <= i < w.chapters.len() && (#[trigger] w.chapters[i].canonical_chapter_id) is Some implies canonical_of_manga(
            w,
            w.chapters[i].canonical_chapter_id->0 as int,
            manga_of_source(w, w.chapters[i].manga_source_id as int),
        ) by {
        let x = w.chapters[i].manga_source_id as int;
        assert(has_source(v, x));
        let k = source_index(v, x);
        assert(w.sources[k] == v.sources[k]);
        let k2 = source_index(w, x);
        if k2 < n {
            assert(w.sources[k2] == v.sources[k2]);
        }
        assert(k2 == k);
        assert(v.chapters[i].canonical_chapter_id is Some);
        assert(w.canonicals == v.canonicals && w.chapters == v.chapters);
        assert(manga_of_source(w, x) == manga_of_source(v, x));
        assert(canonical_of_manga(v, v.chapters[i].canonical_chapter_id->0 as int, manga_of_source(v, x)));
    }
    assert(wf_ids(w));
    assert(wf_sources(w));
    assert(wf_chapters(w));
    assert(wf_links(w));
    assert(has_source(w, v.next_source_id));
    let q = source_index(w, v.next_source_id);
    assert(w.sources[q].id == w.sources[n].id);
    if primaries_backed(v) && (is_primary || has_primary(v, manga_id)) {
        assert forall|m: int| has_any_source(w, m) implies #[trigger] has_primary(w, m) by {
            let j = choose|j: int| 0 <= j < w.sources.len() && #[trigger] w.sources[j].manga_id == m;
            if m == manga_id {
                if is_primary {
                    assert(w.sources[n].is_primary);
                } else {
                    let p = choose|p: int| 0 <= p < v.sources.len() && #[trigger] v.sources[p].manga_id == manga_id
                        && v.sources[p].is_primary;
                    assert(w.sources[p] == v.sources[p]);
                }
            } else {
                assert(j < n);
                assert(w.sources[j] == v.sources[j]);
                assert(has_any_source(v, m));
                assert(has_primary(v, m));
                let p = choose|p: int| 0 <= p < v.sources.len() && #[trigger] v.sources[p].manga_id == m
                    && v.sources[p].is_primary;
                assert(w.sources[p] == v.sources[p]);
            }
        }
    }
}

impl Catalog {
    /// Whether some source already has url `url`.
    pub fn source_url_taken(&self, url: &String) -> (r: bool)
        ensures
            r == has_source_url(self@, url@),
    {
        let mut i: usize = 0;
        while i < self.sources.len()
            invariant
                i <= self.sources@.len(),
                forall|j: int| 0 <= j < i ==> #[trigger] self@.sources[j].url@ != url@,
            decreases self.sources@.len() - i,
        {
            if self.sources[i].url == *url {
                proof {
                    assert(self@.sources[i as int].url@ == url@);
                }
                return true;
            }
            i = i + 1;
        }
        false
    }

    /// Creates a manga from a fresh scrape (of the url the caller asked for), with the
    /// scraped source as its first, and therefore primary, source; gives the new manga's id.
    /// Source urls name one source each, so the manga is refused, and nothing is stored,
    /// when a source already has the url the scrape reports.
    pub fn create_manga(&mut self, scraped: ScrapedManga) -> (r: Result<i32, CatalogError>)
        requires
            wf(old(self)@),
            has_room(old(self)@, scraped.chapters@.len() as int + 1),
        ensures
            r is Err <==> has_source_url(old(self)@, scraped.url@),
            r is Err ==> r == Err::<i32, CatalogError>(CatalogError::ScrapedUrlTaken) && final(self)@ == old(self)@,
            r matches Ok(id) ==> ({
                let row = final(self)@.mangas[old(self)@.mangas.len() as int];
                &&& id == old(self)@.next_manga_id
                &&& final(self)@.mangas.len() == old(self)@.mangas.len() + 1
                &&& row.id == id && row.meta == scraped.meta && fresh_cover(row.cover, scraped.cover_url)
                &&& final(self)@ == spec_sync_chapters(
                    spec_add_source(spec_add_manga(old(self)@, row), id as int, scraped.url, scraped.hostname, true),
                    id as int,
                    old(self)@.next_source_id,
                    false,
                    scraped.chapters@,
                ).0
            }),
            wf(final(self)@),
            primaries_backed(old(self)@) ==> primaries_backed(final(self)@),
    {
        if self.source_url_taken(&scraped.url) {
            return Err(CatalogError::ScrapedUrlTaken);
        }
        let ghost v = self@;
        let ScrapedManga { url, hostname, meta, cover_url, chapters } = scraped;
        let manga_id = self.next_manga_id;
        let row = MangaRow {
            id: manga_id,
            meta,
            cover: CoverState {
                source_url: cover_url,
                status: "pending".to_owned(),
                storage_key: None,
                content_type: None,
                checksum: None,
                attempts: 0,
            },
        };
        proof {
            lemma_add_manga_wf(v, row);
        }
        self.mangas.push(row);
        self.next_manga_id = manga_id + 1;
        let ghost v1 = self@;
        proof {
            assert(self@.mangas =~= spec_add_manga(v, row).mangas);
            assert(v1 == spec_add_manga(v, row));
            assert(!has_primary(v1, manga_id as int)) by {
                if has_primary(v1, manga_id as int) {
                    let j = choose|j: int| 0 <= j < v1.sources.len() && #[trigger] v1.sources[j].manga_id == manga_id
                        && v1.sources[j].is_primary;
                    assert(has_manga(v, v.sources[j].manga_id as int));
                    let i = choose|i: int| 0 <= i < v.mangas.len() && #[trigger] v.mangas[i].id == manga_id;
                }
            }
            lemma_add_source_wf(v1, manga_id as int, url, hostname, true);
            lemma_backed_same_sources_if(v, v1);
        }
        let source_id = self.next_source_id;
        self.sources.push(SourceRow { id: source_id, manga_id, url, hostname, is_primary: true });
        self.next_source_id = source_id + 1;
        proof {
            assert(self@.sources =~= spec_add_source(v1, manga_id as int, url, hostname, true).sources);
            assert(self@ == spec_add_source(v1, manga_id as int, url, hostname, true));
        }
        let _ = self.sync_chapters_for_source(manga_id, source_id, false, &chapters);
        Ok(manga_id)
    }

    /// Adds a (secondary) source to manga `manga_id` from a fresh scrape of `requested_url`,
    /// inserting and matching its chapters; gives the new source's id. Only a primary
    /// source's scrape touches the manga's metadata, so this one leaves it alone. Refused,
    /// with nothing stored, when the manga does not exist, when a source already has the
    /// requested url, and when one already has the url the scrape reports.
    pub fn add_manga_source(&mut self, manga_id: i32, requested_url: &String, scraped: ScrapedManga) -> (r: Result<
        i32,
        CatalogError,
    >)
        requires
            wf(old(self)@),
            has_room(old(self)@, scraped.chapters@.len() as int + 1),
        ensures
            r is Err <==> !has_manga(old(self)@, manga_id as int) || has_source_url(old(self)@, requested_url@)
                || has_source_url(old(self)@, scraped.url@),
            r is Err ==> final(self)@ == old(self)@,
            !has_manga(old(self)@, manga_id as int) ==> r == Err::<i32, CatalogError>(CatalogError::MangaNotFound),
            has_manga(old(self)@, manga_id as int) && has_source_url(old(self)@, requested_url@) ==> r == Err::<
                i32,
                CatalogError,
            >(CatalogError::SourceUrlTaken),
            has_manga(old(self)@, manga_id as int) && !has_source_url(old(self)@, requested_url@) && has_source_url(
                old(self)@,
                scraped.url@,
            ) ==> r == Err::<i32, CatalogError>(CatalogError::ScrapedUrlTaken),
            r matches Ok(id) ==> id == old(self)@.next_source_id && final(self)@ == spec_sync_chapters(
                spec_add_source(old(self)@, manga_id as int, scraped.url, scraped.hostname, false),
                manga_id as int,
                id as int,
                false,
                scraped.chapters@,
            ).0,
            wf(final(self)@),
            primaries_backed(old(self)@) && has_any_source(old(self)@, manga_id as int) ==> primaries_backed(
                final(self)@,
            ),
    {
        if self.find_manga(manga_id).is_none() {
            return Err(CatalogError::MangaNotFound);
        }
        if self.source_url_taken(requested_url) {
            return Err(CatalogError::SourceUrlTaken);
        }
        if self.source_url_taken(&scraped.url) {
            return Err(CatalogError::ScrapedUrlTaken);
        }
        let ghost v = self@;
        let ScrapedManga { url, hostname, meta, cover_url, chapters } = scraped;
        proof {
            lemma_add_source_wf(v, manga_id as int, url, hostname, false);
        }
        let source_id = self.next_source_id;
        self.sources.push(SourceRow { id: source_id, manga_id, url, hostname, is_primary: false });
        self.next_source_id = source_id + 1;
        proof {
            assert(self@.sources =~= spec_add_source(v, manga_id as int, url, hostname, false).sources);
            assert(self@ == spec_add_source(v, manga_id as int, url, hostname, false));
        }
        let _ = self.sync_chapters_for_source(manga_id, source_id, false, &chapters);
        Ok(source_id)
    }
}


/// Replacing a manga row by one with the same id keeps the catalog well formed and every
/// manga in place.
pub proof fn lemma_replace_manga_wf(v: CatalogView, i: int, row: MangaRow)
    requires
        wf(v),
        0 <= i < v.mangas.len(),
        row.id == v.mangas[i].id,
    ensures
        ({
            let w = CatalogView { mangas: v.mangas.update(i, row), ..v };
            &&& wf(w)
            &&& forall|m: int| #[trigger] has_manga(w, m) == has_manga(v, m)
        }),
{
    let w = CatalogView { mangas: v.mangas.update(i, row), ..v };
    assert forall|j: int| 0 <= j < v.mangas.len() implies (#[trigger] w.mangas[j]).id == v.mangas[j].id by {}
    assert forall|m: int| #[trigger] has_manga(w, m) == has_manga(v, m) by {
        if has_manga(v, m) {
            let j = choose|j: int| 0 <= j < v.mangas.len() && #[trigger] v.mangas[j].id == m;
            assert(w.mangas[j].id == m);
        }
        if has_manga(w, m) {
            let j = choose|j: int| 0 <= j < w.mangas.len() && #[trigger] w.mangas[j].id == m;
            assert(v.mangas[j].id == m);
        }
    }
    assert forall|a: int, b: int|
        0 <= a < w.mangas.len() && 0 <= b < w.mangas.len() && #[trigger] w.mangas[a].id
            == #[trigger] w.mangas[b].id implies a == b by {
        assert(v.mangas[a].id == v.mangas[b].id);
    }
    assert forall|a: int| 0 <= a < w.mangas.len() implies 1 <= #[trigger] w.mangas[a].id < w.next_manga_id by {
        assert(w.mangas[a].id == v.mangas[a].id);
    }
    assert(w.sources == v.sources && w.chapters == v.chapters && w.canonicals == v.canonicals && w.readings == v.readings);
    assert forall|a: int| 0 <= a < w.sources.len() implies has_manga(w, #[trigger] w.sources[a].manga_id as int) by {
        assert(has_manga(v, v.sources[a].manga_id as int));
    }
    assert forall|a: int| 0 <= a < w.canonicals.len() implies has_manga(w, #[trigger] w.canonicals[a].manga_id as int) by {
        assert(has_manga(v, v.canonicals[a].manga_id as int));
    }
    assert forall|a: int| 0 <= a < w.readings.len() implies has_manga(w, #[trigger] w.readings[a].manga_id as int) by {
        assert(has_manga(v, v.readings[a].manga_id as int));
    }
    assert(wf_ids(w));
    assert(wf_sources(w));
    assert(wf_chapters(w));
    assert(wf_canonicals(w));
    assert(wf_readings(w));
    assert(wf_links(w));
}

/// The manga row `row` after its primary source's scrape reported `meta` and cover url
/// `cover_url`; also gives the storage key of a cached cover that the new url made stale.
pub(crate) fn refreshed_row(row: MangaRow, meta: MangaMeta, cover_url: Option<String>) -> (r: (MangaRow, Option<String>))
    ensures
        r.0.id == row.id,
        r.0.meta == refreshed_meta(row.meta, meta),
        r.0.meta.title == meta.title,
        r.0.meta.description == meta.description,
        r.0.meta.is_ongoing == meta.is_ongoing,
        r.0.meta.authors == meta.authors,
        r.0.meta.alt_titles == meta.alt_titles,
        r.0.meta.genres == meta.genres,
        r.0.meta.status == (if meta.status is Some { meta.status } else { row.meta.status }),
        refreshed_cover(row.cover, cover_url, r.0.cover),
        r.1 == (if cover_url matches Some(u) && !same_cover_url(row.cover.source_url, u) {
            row.cover.storage_key
        } else {
            None
        }),
{
    let MangaRow { id, meta: old_meta, cover } = row;
    let status = match meta.status {
        Some(st) => Some(st),
        None => old_meta.status,
    };
    let new_meta = MangaMeta {
        title: meta.title,
        description: meta.description,
        is_ongoing: meta.is_ongoing,
        authors: meta.authors,
        alt_titles: meta.alt_titles,
        genres: meta.genres,
        status,
    };
    match cover_url {
        None => (MangaRow { id, meta: new_meta, cover }, None),
        Some(u) => {
            let same = match &cover.source_url {
                Some(c) => *c == u,
                None => false,
            };
            if same {
                (MangaRow { id, meta: new_meta, cover: CoverState { source_url: Some(u), ..cover } }, None)
            } else {
                let stale = cover.storage_key;
                (
                    MangaRow {
                        id,
                        meta: new_meta,
                        cover: CoverState {
                            source_url: Some(u),
                            status: "pending".to_owned(),
                            storage_key: None,
                            content_type: None,
                            checksum: None,
                            attempts: 0,
                        },
                    },
                    stale,
                )
            }
        },
    }
}

impl Catalog {
    /// Refreshes source `manga_source_id` from a fresh scrape of its url. When it is its
    /// manga's primary source, the manga's metadata follows the scrape (a status the scrape
    /// lacks stays) and so does its cover url, a new one restarting the cover download;
    /// a secondary source never touches the manga. The source's chapters are then synced
    /// with the scrape (see `sync_chapters_for_source`; `force` pushes a suspicious drop
    /// through).
    pub fn refresh_manga_source(&mut self, manga_source_id: i32, force: bool, scraped: ScrapedManga) -> (r: Result<
        RefreshOutcome,
        CatalogError,
    >)
        requires
            wf(old(self)@),
            has_room(old(self)@, scraped.chapters@.len() as int),
        ensures
            r is Err <==> !has_source(old(self)@, manga_source_id as int),
            r is Err ==> final(self)@ == old(self)@ && r matches Err(CatalogError::SourceNotFound),
            r matches Ok(out) ==> ({
                let m = manga_of_source(old(self)@, manga_source_id as int);
                let mi = manga_index(old(self)@, m);
                let primary = old(self)@.sources[source_index(old(self)@, manga_source_id as int)].is_primary;
                let before = old(self)@.mangas[mi];
                let after = final(self)@.mangas[mi];
                &&& out.manga_id == m
                &&& final(self)@.mangas == old(self)@.mangas.update(mi, after)
                &&& primary ==> after.id == before.id && after.meta == refreshed_meta(before.meta, scraped.meta)
                    && refreshed_cover(before.cover, scraped.cover_url, after.cover)
                    && out.stale_cover_key == (if scraped.cover_url matches Some(u) && !same_cover_url(
                    before.cover.source_url,
                    u,
                ) {
                    before.cover.storage_key
                } else {
                    None
                })
                &&& primary ==> after.meta.title == scraped.meta.title && after.meta.description
                    == scraped.meta.description && after.meta.is_ongoing == scraped.meta.is_ongoing
                    && after.meta.authors == scraped.meta.authors && after.meta.alt_titles == scraped.meta.alt_titles
                    && after.meta.genres == scraped.meta.genres && after.meta.status == (if scraped.meta.status is Some {
                    scraped.meta.status
                } else {
                    before.meta.status
                })
                &&& !primary ==> after == before && out.stale_cover_key is None
                &&& final(self)@ == spec_sync_chapters(
                    CatalogView { mangas: final(self)@.mangas, ..old(self)@ },
                    m,
                    manga_source_id as int,
                    force,
                    scraped.chapters@,
                ).0
            }),
            wf(final(self)@),
            primaries_backed(old(self)@) ==> primaries_backed(final(self)@),
    {
        let ghost v = self@;
        let e = match self.find_source(manga_source_id) {
            Some(e) => e,
            None => {
                return Err(CatalogError::SourceNotFound);
            },
        };
        proof {
            let q = source_index(v, manga_source_id as int);
            assert(v.sources[q].id == v.sources[e as int].id);
            assert(has_manga(v, v.sources[e as int].manga_id as int));
        }
        let manga_id = self.sources[e].manga_id;
        let mi = match self.find_manga(manga_id) {
            Some(mi) => mi,
            None => {
                assert(false);
                0
            },
        };
        proof {
            let q = manga_index(v, manga_id as int);
            assert(v.mangas[q].id == v.mangas[mi as int].id);
        }
        let ScrapedManga { url, hostname, meta, cover_url, chapters } = scraped;
        let mut stale: Option<String> = None;
        if self.sources[e].is_primary {
            let row = self.mangas.remove(mi);
            let ghost old_meta = row.meta;
            let ghost scraped_meta = meta;
            let (new_row, st) = refreshed_row(row, meta, cover_url);
            proof {
                lemma_refreshed_meta_fields(old_meta, scraped_meta);
                lemma_replace_manga_wf(v, mi as int, new_row);
            }
            self.mangas.insert(mi, new_row);
            stale = st;
            proof {
                assert(self@.mangas =~= v.mangas.update(mi as int, new_row));
            }
        }
        let ghost v1 = self@;
        proof {
            assert(v1 == CatalogView { mangas: v1.mangas, ..v });
            assert(v1.mangas =~= v.mangas.update(mi as int, v1.mangas[mi as int]));
            lemma_replace_manga_wf(v, mi as int, v1.mangas[mi as int]);
            assert(manga_of_source(v1, manga_source_id as int) == manga_id);
            lemma_backed_same_sources_if(v, v1);
        }
        let sync = self.sync_chapters_for_source(manga_id, manga_source_id, force, &chapters);
        Ok(RefreshOutcome { manga_id, stale_cover_key: stale, sync })
    }
}


// ---------------------------------------------------------------------------------------
// Reading the catalog
// ---------------------------------------------------------------------------------------

/// Number of canonical chapters of `manga_id`, at `ordinal` only when one is given.
pub open spec fn count_canonicals(cs: Seq<CanonicalRow>, manga_id: int, ordinal: Option<i64>) -> nat
    decreases cs.len(),
{
    if cs.len() == 0 {
        0
    } else {
        count_canonicals(cs.drop_last(), manga_id, ordinal) + if cs.last().manga_id == manga_id && (ordinal matches Some(
            o,
        ) ==> cs.last().ordinal == o) {
            1nat
        } else {
            0nat
        }
    }
}

impl Catalog {
    /// Whether manga `id` exists.
    pub fn contains_manga(&self, id: i32) -> (r: bool)
        ensures
            r == has_manga(self@, id as int),
    {
        self.find_manga(id).is_some()
    }

    /// The row of manga `id`.
    pub fn manga(&self, id: i32) -> (r: Option<&MangaRow>)
        requires
            wf(self@),
        ensures
            r is Some <==> has_manga(self@, id as int),
            r matches Some(row) ==> *row == self@.mangas[manga_index(self@, id as int)] && row.id == id,
    {
        match self.find_manga(id) {
            Some(i) => {
                proof {
                    let q = manga_index(self@, id as int);
                    assert(self@.mangas[q].id == self@.mangas[i as int].id);
                }
                Some(&self.mangas[i])
            },
            None => None,
        }
    }

    /// The row of source `id`.
    pub fn source(&self, id: i32) -> (r: Option<&SourceRow>)
        requires
            wf(self@),
        ensures
            r is Some <==> has_source(self@, id as int),
            r matches Some(row) ==> *row == self@.sources[source_index(self@, id as int)] && row.id == id,
    {
        match self.find_source(id) {
            Some(i) => {
                proof {
                    let q = source_index(self@, id as int);
                    assert(self@.sources[q].id == self@.sources[i as int].id);
                }
                Some(&self.sources[i])
            },
            None => None,
        }
    }

    /// The row of chapter `id`.
    pub fn chapter(&self, id: i32) -> (r: Option<&ChapterRow>)
        requires
            wf(self@),
        ensures
            r is Some <==> has_chapter(self@, id as int),
            r matches Some(row) ==> *row == self@.chapters[chapter_index(self@, id as int)] && row.id == id,
    {
        match self.find_chapter(id) {
            Some(i) => {
                proof {
                    let q = chapter_index(self@, id as int);
                    assert(self@.chapters[q].id == self@.chapters[i as int].id);
                }
                Some(&self.chapters[i])
            },
            None => None,
        }
    }

    /// Canonical chapter `id`.
    pub fn canonical_chapter(&self, id: i32) -> (r: Option<CanonicalRow>)
        requires
            wf(self@),
        ensures
            r is Some <==> exists|k: int| 0 <= k < self@.canonicals.len() && #[trigger] self@.canonicals[k].id == id,
            r matches Some(row) ==> row == self@.canonicals[canonical_index(self@, id as int)] && row.id == id,
    {
        match self.find_canonical(id) {
            Some(k) => {
                proof {
                    let q = canonical_index(self@, id as int);
                    assert(self@.canonicals[k as int].id == id);
                    assert(self@.canonicals[q].id == self@.canonicals[k as int].id);
                }
                Some(self.canonicals[k])
            },
            None => None,
        }
    }

    /// The reading row of `user_id` for manga `manga_id`.
    pub fn reading(&self, user_id: i32, manga_id: i32) -> (r: Option<ReadingRow>)
        requires
            wf(self@),
        ensures
            r is Some <==> has_reading(self@, user_id as int, manga_id as int),
            r matches Some(row) ==> row == self@.readings[reading_index(self@, user_id as int, manga_id as int)]
                && row.user_id == user_id && row.manga_id == manga_id,
    {
        match self.find_reading(user_id, manga_id) {
            Some(i) => {
                proof {
                    let q = reading_index(self@, user_id as int, manga_id as int);
                    assert(self@.readings[q].user_id == self@.readings[i as int].user_id);
                }
                Some(self.readings[i])
            },
            None => None,
        }
    }

    /// Number of canonical chapters of manga `manga_id`, at `ordinal` only when one is given.
    pub fn count_canonical_chapters(&self, manga_id: i32, ordinal: Option<i64>) -> (r: usize)
        ensures
            r == count_canonicals(self@.canonicals, manga_id as int, ordinal),
    {
        let mut n: usize = 0;
        let mut k: usize = 0;
        while k < self.canonicals.len()
            invariant
                k <= self.canonicals@.len(),
                n == count_canonicals(self.canonicals@.take(k as int), manga_id as int, ordinal),
                n <= k,
            decreases self.canonicals@.len() - k,
        {
            proof {
                assert(self.canonicals@.take(k as int + 1).drop_last() =~= self.canonicals@.take(k as int));
            }
            let c = self.canonicals[k];
            let at = match ordinal {
                Some(o) => c.ordinal == o,
                None => true,
            };
            if c.manga_id == manga_id && at {
                n = n + 1;
            }
            k = k + 1;
        }
        proof {
            assert(self.canonicals@.take(k as int) =~= self.canonicals@);
        }
        n
    }
}


// ---------------------------------------------------------------------------------------
// Reading rows, user by user
// ---------------------------------------------------------------------------------------

/// The reading row of (`user_id`, `manga_id`), if there is one.
pub open spec fn reading_of(v: CatalogView, user_id: int, manga_id: int) -> Option<ReadingRow> {
    if has_reading(v, user_id, manga_id) {
        Some(v.readings[reading_index(v, user_id, manga_id)])
    } else {
        None
    }
}

/// One reading row per user and manga.
pub open spec fn unique_readings(rs: Seq<ReadingRow>) -> bool {
    forall|i: int, j: int|
        0 <= i < rs.len() && 0 <= j < rs.len() && #[trigger] rs[i].user_id == #[trigger] rs[j].user_id
            && rs[i].manga_id == rs[j].manga_id ==> i == j
}

/// The row at a position is the row of its user and manga.
pub proof fn lemma_reading_of_at(v: CatalogView, p: int)
    requires
        unique_readings(v.readings),
        0 <= p < v.readings.len(),
    ensures
        reading_of(v, v.readings[p].user_id as int, v.readings[p].manga_id as int) == Some(v.readings[p]),
{
    let u = v.readings[p].user_id as int;
    let m = v.readings[p].manga_id as int;
    assert(has_reading(v, u, m));
    let q = reading_index(v, u, m);
    assert(v.readings[q].user_id == v.readings[p].user_id);
}

/// Setting the progress of one row changes that row only.
pub proof fn lemma_reading_of_set(v: CatalogView, user_id: int, manga_id: int, progress: int, last: Option<i32>, u: int, m: int)
    requires
        unique_readings(v.readings),
    ensures
        ({
            let w = CatalogView { readings: spec_set_progress(v.readings, user_id, manga_id, progress, last), ..v };
            &&& unique_readings(w.readings)
            &&& reading_of(w, u, m) == match reading_of(v, u, m) {
                Some(r) => Some(
                    if u == user_id && m == manga_id {
                        ReadingRow { progress: progress as i32, last_canonical_chapter_id: last, ..r }
                    } else {
                        r
                    },
                ),
                None => None,
            }
        }),
{
    let w = CatalogView { readings: spec_set_progress(v.readings, user_id, manga_id, progress, last), ..v };
    assert forall|i: int| 0 <= i < w.readings.len() implies #[trigger] w.readings[i].user_id == v.readings[i].user_id
        && w.readings[i].manga_id == v.readings[i].manga_id by {}
    assert forall|i: int, j: int|
        0 <= i < w.readings.len() && 0 <= j < w.readings.len() && #[trigger] w.readings[i].user_id
            == #[trigger] w.readings[j].user_id && w.readings[i].manga_id == w.readings[j].manga_id implies i == j by {
        assert(v.readings[i].user_id == v.readings[j].user_id);
    }
    if has_reading(v, u, m) {
        let p = reading_index(v, u, m);
        lemma_reading_of_at(v, p);
        lemma_reading_of_at(w, p);
    } else {
        if has_reading(w, u, m) {
            let p = reading_index(w, u, m);
            assert(v.readings[p].user_id == u);
        }
    }
}

/// Appending a row of a fresh user and manga adds that row only.
pub proof fn lemma_reading_of_insert(v: CatalogView, row: ReadingRow, u: int, m: int)
    requires
        unique_readings(v.readings),
        !has_reading(v, row.user_id as int, row.manga_id as int),
    ensures
        ({
            let w = spec_insert_reading(v, row);
            &&& unique_readings(w.readings)
            &&& reading_of(w, u, m) == if u == row.user_id && m == row.manga_id {
                Some(row)
            } else {
                reading_of(v, u, m)
            }
        }),
{
    let w = spec_insert_reading(v, row);
    let n = v.readings.len() as int;
    assert forall|i: int, j: int|
        0 <= i < w.readings.len() && 0 <= j < w.readings.len() && #[trigger] w.readings[i].user_id
            == #[trigger] w.readings[j].user_id && w.readings[i].manga_id == w.readings[j].manga_id implies i == j by {
        if i < n && j < n {
            assert(w.readings[i] == v.readings[i] && w.readings[j] == v.readings[j]);
        } else if i < n {
            assert(w.readings[i] == v.readings[i]);
        } else if j < n {
            assert(w.readings[j] == v.readings[j]);
        }
    }
    if u == row.user_id && m == row.manga_id {
        lemma_reading_of_at(w, n);
    } else if has_reading(v, u, m) {
        let p = reading_index(v, u, m);
        lemma_reading_of_at(v, p);
        assert(w.readings[p] == v.readings[p]);
        lemma_reading_of_at(w, p);
    } else if has_reading(w, u, m) {
        let p = reading_index(w, u, m);
        if p < n {
            assert(w.readings[p] == v.readings[p]);
        }
    }
}

/// Deleting the row of one user and manga removes that row only.
pub proof fn lemma_reading_of_delete(v: CatalogView, user_id: int, manga_id: int, u: int, m: int)
    requires
        unique_readings(v.readings),
    ensures
        ({
            let w = spec_delete_reading(v, user_id, manga_id);
            &&& unique_readings(w.readings)
            &&& reading_of(w, u, m) == if u == user_id && m == manga_id {
                None
            } else {
                reading_of(v, u, m)
            }
        }),
{
    let w = spec_delete_reading(v, user_id, manga_id);
    let p = reading_not_of_user(user_id, manga_id);
    lemma_filter_key_unique(v.readings, p, |x: ReadingRow| (x.user_id, x.manga_id));
    assert forall|i: int, j: int|
        0 <= i < w.readings.len() && 0 <= j < w.readings.len() && #[trigger] w.readings[i].user_id
            == #[trigger] w.readings[j].user_id && w.readings[i].manga_id == w.readings[j].manga_id implies i == j by {
        assert((|x: ReadingRow| (x.user_id, x.manga_id))(w.readings[i]) == (|x: ReadingRow| (x.user_id, x.manga_id))(
            w.readings[j],
        ));
    }
    if has_reading(w, u, m) {
        let q = reading_index(w, u, m);
        lemma_filter_origin(v.readings, p, q);
        let j = choose|j: int| 0 <= j < v.readings.len() && v.readings.filter(p)[q] == #[trigger] v.readings[j] && p(v.readings[j]);
        lemma_reading_of_at(v, j);
        lemma_reading_of_at(w, q);
    } else if !(u == user_id && m == manga_id) && has_reading(v, u, m) {
        let j = reading_index(v, u, m);
        assert(p(v.readings[j]));
        lemma_filter_keeps(v.readings, p, j);
        let q = choose|q: int| 0 <= q < v.readings.filter(p).len() && #[trigger] v.readings.filter(p)[q] == v.readings[j];
        assert(has_reading(w, u, m)) by {
            assert(w.readings[q].user_id == u && w.readings[q].manga_id == m);
        }
    }
}

/// The ordinal of canonical chapter `id`.
pub open spec fn canonical_ordinal(v: CatalogView, id: int) -> int {
    v.canonicals[canonical_index(v, id)].ordinal as int
}

/// What user `user_id`'s row on `to` is after their row `f` of manga `from` was carried
/// over onto `to`, whose row of theirs was `t`, in catalog `v` (with canonical chapters
/// looked up in `before`): unchanged when `t` has read at least as far; otherwise a row of
/// theirs on `to` with `f`'s progress and no last chapter when `f` has none, and, when
/// `f` has one, `to`'s canonical chapter at the same ordinal as its last chapter.
pub open spec fn carried_over(
    v: CatalogView,
    before: CatalogView,
    to: int,
    f: ReadingRow,
    t: Option<ReadingRow>,
    x: Option<ReadingRow>,
) -> bool {
    let wins = match t {
        None => true,
        Some(t) => f.progress > t.progress,
    };
    if !wins {
        x == t
    } else {
        &&& x is Some
        &&& x->0.user_id == f.user_id && x->0.manga_id == to
        &&& f.last_canonical_chapter_id is None ==> x->0.progress == f.progress && x->0.last_canonical_chapter_id is None
        &&& f.last_canonical_chapter_id matches Some(c) ==> (x->0.last_canonical_chapter_id matches Some(c2)
            && canonical_is(v, c2 as int, to, canonical_ordinal(before, c as int)))
    }
}

/// Carrying one user's row of `from` over onto `to` touches only that user's rows of the
/// two mangas: their row of `from` is gone and their row of `to` is carried over; the
/// canonical chapters only grow.
pub proof fn lemma_merge_one_rows(w: CatalogView, from: int, to: int, f: ReadingRow)
    requires
        unique_readings(w.readings),
        from != to,
        f.manga_id == from,
        reading_of(w, f.user_id as int, from) == Some(f),
        f.last_canonical_chapter_id matches Some(c) ==> exists|k: int|
            0 <= k < w.canonicals.len() && #[trigger] w.canonicals[k].id == c,
        i32::MIN <= to <= i32::MAX,
        1 <= w.next_canonical_id <= i32::MAX,
    ensures
        ({
            let w2 = spec_merge_one(w, from, to, f);
            let u = f.user_id as int;
            &&& unique_readings(w2.readings)
            &&& w2.canonicals.len() >= w.canonicals.len()
            &&& forall|k: int| 0 <= k < w.canonicals.len() ==> #[trigger] w2.canonicals[k] == w.canonicals[k]
            &&& w.next_canonical_id <= w2.next_canonical_id <= w.next_canonical_id + 1
            &&& forall|k: int| w.canonicals.len() <= k < w2.canonicals.len() ==> #[trigger] w2.canonicals[k].id
                == w.next_canonical_id
            &&& reading_of(w2, u, from) is None
            &&& carried_over(w2, w, to, f, reading_of(w, u, to), reading_of(w2, u, to))
            &&& forall|u2: int, m2: int|
                (u2 != u || (m2 != from && m2 != to)) ==> #[trigger] reading_of(w2, u2, m2) == reading_of(w, u2, m2)
        }),
{
    let u = f.user_id as int;
    let has_to = has_reading(w, u, to);
    let to_row = w.readings[reading_index(w, u, to)];
    let wins = !has_to || f.progress > to_row.progress;
    let (wa, remap) = match f.last_canonical_chapter_id {
        Some(c) => if exists|k: int| 0 <= k < w.canonicals.len() && #[trigger] w.canonicals[k].id == c {
            let (wa, c2) = spec_find_or_create(w, to, w.canonicals[canonical_index(w, c as int)].ordinal as int);
            (wa, Some(c2 as i32))
        } else {
            (w, None)
        },
        None => (w, None),
    };
    let wb = if has_to {
        CatalogView { readings: spec_set_progress(wa.readings, u, to, f.progress as int, remap), ..wa }
    } else {
        spec_insert_reading(
            wa,
            ReadingRow { user_id: u as i32, manga_id: to as i32, progress: f.progress, last_canonical_chapter_id: remap },
        )
    };
    let wc = match remap {
        Some(c2) => spec_sync_progress(wb, u, to, c2 as int),
        None => wb,
    };
    let w1 = if wins { wc } else { w };
    let w2 = spec_delete_reading(w1, u, from);
    assert(w2 == spec_merge_one(w, from, to, f));
    assert(wa.readings == w.readings);
    // the canonical chapter the last chapter is remapped onto
    match f.last_canonical_chapter_id {
        Some(c) => {
            let o = w.canonicals[canonical_index(w, c as int)].ordinal as int;
            let (wa2, c2) = spec_find_or_create(w, to, o);
            assert(exists|k: int| 0 <= k < w.canonicals.len() && #[trigger] w.canonicals[k].id == c);
            assert(wa == wa2 && remap == Some(c2 as i32));
            if has_canonical_at(w, to, o) {
                let k = canonical_at_index(w, to, o);
                assert(w.canonicals[k].manga_id == to && w.canonicals[k].ordinal == o);
                assert(canonical_is(wa, c2, to, o));
            } else {
                assert(wa.canonicals[w.canonicals.len() as int].id == c2);
                assert(canonical_is(wa, c2, to, o));
            }
        },
        None => {},
    }
    assert(reading_of(wa, u, to) == reading_of(w, u, to));
    // every stage, at every user and manga
    assert forall|u2: int, m2: int| true implies {
        &&& reading_of(wa, u2, m2) == reading_of(w, u2, m2)
        &&& (u2 != u || m2 != to) ==> reading_of(wb, u2, m2) == reading_of(w, u2, m2)
        &&& (u2 != u || m2 != to) ==> reading_of(wc, u2, m2) == reading_of(w, u2, m2)
        &&& (u2 != u || m2 != from) ==> #[trigger] reading_of(w2, u2, m2) == reading_of(w1, u2, m2)
    } by {
        assert(reading_of(wa, u2, m2) == reading_of(w, u2, m2));
        if has_to {
            lemma_reading_of_set(wa, u, to, f.progress as int, remap, u2, m2);
        } else {
            lemma_reading_of_insert(wa, ReadingRow { user_id: u as i32, manga_id: to as i32, progress: f.progress, last_canonical_chapter_id: remap }, u2, m2);
        }
        match remap {
            Some(c2) => {
                lemma_reading_of_set(wb, u, to, spec_rank(wb.canonicals, to, wb.canonicals[canonical_index(wb, c2 as int)].ordinal as int) as int, Some(c2), u2, m2);
            },
            None => {},
        }
        lemma_reading_of_delete(w1, u, from, u2, m2);
    }
    if has_to {
        lemma_reading_of_set(wa, u, to, f.progress as int, remap, u, to);
    } else {
        lemma_reading_of_insert(wa, ReadingRow { user_id: u as i32, manga_id: to as i32, progress: f.progress, last_canonical_chapter_id: remap }, u, to);
    }
    match remap {
        Some(c2) => {
            lemma_reading_of_set(wb, u, to, spec_rank(wb.canonicals, to, wb.canonicals[canonical_index(wb, c2 as int)].ordinal as int) as int, Some(c2), u, to);
        },
        None => {},
    }
    lemma_reading_of_delete(w1, u, from, u, from);
    lemma_reading_of_delete(w1, u, from, u, to);
    lemma_reading_of_delete(w1, u, from, 0, 0);
}

/// Where a merge of the reading rows `rows` of manga `from` into `to` stands after its
/// first `k` rows, catalog `v` having become `w`.
pub open spec fn merged_upto(v: CatalogView, w: CatalogView, from: int, to: int, rows: Seq<ReadingRow>, k: int) -> bool {
    &&& unique_readings(w.readings)
    &&& w.canonicals.len() >= v.canonicals.len()
    &&& forall|i: int| 0 <= i < v.canonicals.len() ==> #[trigger] w.canonicals[i] == v.canonicals[i]
    &&& forall|i: int| v.canonicals.len() <= i < w.canonicals.len() ==> #[trigger] w.canonicals[i].id >= v.next_canonical_id
    &&& v.next_canonical_id <= w.next_canonical_id <= v.next_canonical_id + k
    &&& forall|u: int, m: int| m != from && m != to ==> #[trigger] reading_of(w, u, m) == reading_of(v, u, m)
    &&& forall|u: int|
        (forall|j: int| 0 <= j < k ==> (#[trigger] rows[j]).user_id != u) ==> reading_of(w, u, from) == reading_of(
            v,
            u,
            from,
        ) && reading_of(w, u, to) == reading_of(v, u, to)
    &&& forall|j: int|
        0 <= j < k ==> reading_of(w, (#[trigger] rows[j]).user_id as int, from) is None && carried_over(
            w,
            v,
            to,
            rows[j],
            reading_of(v, rows[j].user_id as int, to),
            reading_of(w, rows[j].user_id as int, to),
        )
}

/// In a catalog whose old canonical chapters keep their places and whose new ones have
/// fresh ids, an old canonical chapter has its old ordinal.
pub proof fn lemma_canonical_ordinal_kept(v: CatalogView, w: CatalogView, c: int)
    requires
        wf_ids(v),
        exists|k: int| 0 <= k < v.canonicals.len() && #[trigger] v.canonicals[k].id == c,
        w.canonicals.len() >= v.canonicals.len(),
        forall|i: int| 0 <= i < v.canonicals.len() ==> #[trigger] w.canonicals[i] == v.canonicals[i],
        forall|i: int| v.canonicals.len() <= i < w.canonicals.len() ==> #[trigger] w.canonicals[i].id >= v.next_canonical_id,
    ensures
        canonical_ordinal(w, c) == canonical_ordinal(v, c),
        exists|k: int| 0 <= k < w.canonicals.len() && #[trigger] w.canonicals[k].id == c,
{
    let kv = canonical_index(v, c);
    assert(v.canonicals[kv].id == c);
    assert(w.canonicals[kv].id == c);
    let kw = canonical_index(w, c);
    if kw >= v.canonicals.len() {
        assert(w.canonicals[kw].id >= v.next_canonical_id);
    } else {
        assert(w.canonicals[kw] == v.canonicals[kw]);
    }
}

/// The merge after `k + 1` rows stands as it should, given where it stood after `k`.
#[verifier::spinoff_prover]
#[verifier::rlimit(60)]
pub proof fn lemma_merged_step(v: CatalogView, from: int, to: int, rows: Seq<ReadingRow>, k: int)
    requires
        wf(v),
        has_manga(v, to),
        from != to,
        i32::MIN <= to <= i32::MAX,
        has_room(v, v.readings.len() as int),
        rows == readings_of(v.readings, from),
        0 <= k < rows.len(),
        merged_upto(v, spec_merge_rows(v, from, to, rows.take(k)), from, to, rows, k),
    ensures
        merged_upto(v, spec_merge_rows(v, from, to, rows.take(k + 1)), from, to, rows, k + 1),
{
    let w = spec_merge_rows(v, from, to, rows.take(k));
    let f = rows[k];
    let u = f.user_id as int;
    assert(rows.take(k + 1).drop_last() =~= rows.take(k));
    assert(rows.take(k + 1).last() == f);
    let w2 = spec_merge_one(w, from, to, f);
    assert(spec_merge_rows(v, from, to, rows.take(k + 1)) == w2);
    let pr = |r: ReadingRow| r.manga_id == from;
    v.readings.lemma_filter_len(pr);
    // rows of `from` are rows of `v`, one per user
    lemma_filter_origin(v.readings, pr, k);
    let q = choose|q: int| 0 <= q < v.readings.len() && v.readings.filter(pr)[k] == #[trigger] v.readings[q] && pr(v.readings[q]);
    lemma_reading_of_at(v, q);
    assert(f.manga_id == from);
    lemma_filter_key_unique(v.readings, pr, |x: ReadingRow| (x.user_id, x.manga_id));
    assert forall|j: int| 0 <= j < k implies (#[trigger] rows[j]).user_id != u by {
        v.readings.lemma_filter_pred(pr, j);
        v.readings.lemma_filter_pred(pr, k);
        if rows[j].user_id == u {
            assert((|x: ReadingRow| (x.user_id, x.manga_id))(rows[j]) == (|x: ReadingRow| (x.user_id, x.manga_id))(rows[k]));
        }
    }
    assert(reading_of(w, u, from) == Some(f));
    assert(reading_of(w, u, to) == reading_of(v, u, to));
    match f.last_canonical_chapter_id {
        Some(c) => {
            assert(canonical_of_manga(v, c as int, from));
            lemma_canonical_ordinal_kept(v, w, c as int);
        },
        None => {},
    }
    lemma_merge_one_rows(w, from, to, f);
    // canonical chapters
    assert forall|i: int| 0 <= i < v.canonicals.len() implies #[trigger] w2.canonicals[i] == v.canonicals[i] by {
        assert(w.canonicals[i] == v.canonicals[i]);
    }
    assert forall|i: int| v.canonicals.len() <= i < w2.canonicals.len() implies #[trigger] w2.canonicals[i].id
        >= v.next_canonical_id by {
        if i < w.canonicals.len() {
            assert(w2.canonicals[i] == w.canonicals[i]);
        }
    }
    // rows of other mangas, of users still to come, and of users already merged
    assert forall|u2: int, m: int| m != from && m != to implies #[trigger] reading_of(w2, u2, m) == reading_of(v, u2, m) by {
        assert(reading_of(w2, u2, m) == reading_of(w, u2, m));
        assert(reading_of(w, u2, m) == reading_of(v, u2, m));
    }
    assert forall|u2: int|
        (forall|j: int| 0 <= j < k + 1 ==> (#[trigger] rows[j]).user_id != u2) implies reading_of(w2, u2, from)
        == reading_of(v, u2, from) && reading_of(w2, u2, to) == reading_of(v, u2, to) by {
        assert(rows[k].user_id != u2);
        assert(reading_of(w2, u2, from) == reading_of(w, u2, from));
        assert(reading_of(w2, u2, to) == reading_of(w, u2, to));
    }
    assert forall|j: int| 0 <= j < k + 1 implies reading_of(w2, (#[trigger] rows[j]).user_id as int, from) is None
        && carried_over(w2, v, to, rows[j], reading_of(v, rows[j].user_id as int, to), reading_of(
        w2,
        rows[j].user_id as int,
        to,
    )) by {
        if j < k {
            let uj = rows[j].user_id as int;
            assert(uj != u);
            assert(reading_of(w2, uj, from) == reading_of(w, uj, from));
            assert(reading_of(w2, uj, to) == reading_of(w, uj, to));
            assert(carried_over(w, v, to, rows[j], reading_of(v, uj, to), reading_of(w, uj, to)));
            match rows[j].last_canonical_chapter_id {
                Some(c) => {
                    match reading_of(w, uj, to) {
                        Some(x) => {
                            match x.last_canonical_chapter_id {
                                Some(c2) => {
                                    if canonical_is(w, c2 as int, to, canonical_ordinal(v, c as int)) {
                                        lemma_canonical_is_extend(w, w2, c2 as int, to, canonical_ordinal(v, c as int));
                                    }
                                },
                                None => {},
                            }
                        },
                        None => {},
                    }
                },
                None => {},
            }
        }
    }
}

/// Merging the reading rows of `rows` keeps the merge on course, row after row.
pub proof fn lemma_merged(v: CatalogView, from: int, to: int, rows: Seq<ReadingRow>, k: int)
    requires
        wf(v),
        has_manga(v, to),
        from != to,
        i32::MIN <= to <= i32::MAX,
        has_room(v, v.readings.len() as int),
        rows == readings_of(v.readings, from),
        0 <= k <= rows.len(),
    ensures
        merged_upto(v, spec_merge_rows(v, from, to, rows.take(k)), from, to, rows, k),
    decreases k,
{
    if k == 0 {
        assert(rows.take(0) =~= Seq::<ReadingRow>::empty());
        let w = spec_merge_rows(v, from, to, rows.take(0));
        assert(w == v);
        assert(unique_readings(v.readings));
    } else {
        lemma_merged(v, from, to, rows, k - 1);
        lemma_merged_step(v, from, to, rows, k - 1);
    }
}

// ---------------------------------------------------------------------------------------
// Laws
// ---------------------------------------------------------------------------------------

/// In a table holding one row per manga and ordinal, a (manga, ordinal) pair is counted
/// once when it has a row and not at all otherwise.
pub proof fn lemma_count_canonical_at(cs: Seq<CanonicalRow>, manga_id: int, ordinal: i64)
    requires
        forall|i: int, j: int|
            0 <= i < cs.len() && 0 <= j < cs.len() && #[trigger] cs[i].manga_id == #[trigger] cs[j].manga_id
                && cs[i].ordinal == cs[j].ordinal ==> i == j,
    ensures
        count_canonicals(cs, manga_id, Some(ordinal)) == if exists|k: int|
            0 <= k < cs.len() && #[trigger] cs[k].manga_id == manga_id && cs[k].ordinal == ordinal {
            1nat
        } else {
            0nat
        },
    decreases cs.len(),
{
    if cs.len() > 0 {
        let t = cs.drop_last();
        assert forall|i: int, j: int|
            0 <= i < t.len() && 0 <= j < t.len() && #[trigger] t[i].manga_id == #[trigger] t[j].manga_id
                && t[i].ordinal == t[j].ordinal implies i == j by {
            assert(t[i] == cs[i] && t[j] == cs[j]);
        }
        lemma_count_canonical_at(t, manga_id, ordinal);
        let n = cs.len() - 1;
        if cs[n].manga_id == manga_id && cs[n].ordinal == ordinal {
            if exists|k: int| 0 <= k < t.len() && #[trigger] t[k].manga_id == manga_id && t[k].ordinal == ordinal {
                let k = choose|k: int| 0 <= k < t.len() && #[trigger] t[k].manga_id == manga_id && t[k].ordinal == ordinal;
                assert(cs[k] == t[k]);
                assert(cs[k].manga_id == cs[n].manga_id);
            }
        } else {
            if exists|k: int| 0 <= k < cs.len() && #[trigger] cs[k].manga_id == manga_id && cs[k].ordinal == ordinal {
                let k = choose|k: int| 0 <= k < cs.len() && #[trigger] cs[k].manga_id == manga_id && cs[k].ordinal == ordinal;
                assert(t[k] == cs[k]);
            }
            if exists|k: int| 0 <= k < t.len() && #[trigger] t[k].manga_id == manga_id && t[k].ordinal == ordinal {
                let k = choose|k: int| 0 <= k < t.len() && #[trigger] t[k].manga_id == manga_id && t[k].ordinal == ordinal;
                assert(cs[k] == t[k]);
            }
        }
    }
}

/// Finding or creating the canonical chapter of (`manga_id`, `ordinal`) a second time finds
/// the one the first time gave, and changes nothing; afterwards the manga has exactly one
/// canonical chapter at that ordinal, the one given, found when it existed and created only
/// otherwise.
pub proof fn lemma_find_or_create_idempotent(v: CatalogView, manga_id: int, ordinal: int)
    requires
        wf_except_links(v),
        has_manga(v, manga_id),
        v.next_canonical_id < i32::MAX,
        i32::MIN <= manga_id <= i32::MAX,
        i64::MIN <= ordinal <= i64::MAX,
    ensures
        ({
            let (w, id) = spec_find_or_create(v, manga_id, ordinal);
            &&& spec_find_or_create(w, manga_id, ordinal) == (w, id)
            &&& canonical_is(w, id, manga_id, ordinal)
            &&& count_canonicals(w.canonicals, manga_id, Some(ordinal as i64)) == 1
            &&& has_canonical_at(v, manga_id, ordinal) ==> w == v
            &&& !has_canonical_at(v, manga_id, ordinal) ==> w.canonicals == v.canonicals.push(
                CanonicalRow { id: id as i32, manga_id: manga_id as i32, ordinal: ordinal as i64 },
            )
        }),
{
    let (w, id) = spec_find_or_create(v, manga_id, ordinal);
    if has_canonical_at(v, manga_id, ordinal) {
        let k = canonical_at_index(v, manga_id, ordinal);
        assert(v.canonicals[k].manga_id == manga_id && v.canonicals[k].ordinal == ordinal);
        assert(w.canonicals[k].id == id);
        assert(wf_canonicals(w));
    } else {
        lemma_push_canonical_wf(v, manga_id, ordinal);
        let n = v.canonicals.len() as int;
        assert(w.canonicals[n].manga_id == manga_id && w.canonicals[n].ordinal == ordinal);
        assert(w.canonicals[n].id == id);
        assert(has_canonical_at(w, manga_id, ordinal));
        let k = canonical_at_index(w, manga_id, ordinal);
        assert(w.canonicals[k].manga_id == w.canonicals[n].manga_id);
        assert(k == n);
    }
    lemma_count_canonical_at(w.canonicals, manga_id, ordinal as i64);
}

/// Chapters of one manga that the matching linked at the same ordinal share one canonical
/// chapter: equivalent chapters of all sources converge.
pub proof fn lemma_linked_chapters_converge(v: CatalogView, i: int, j: int, manga_id: int)
    requires
        wf(v),
        0 <= i < v.chapters.len(),
        0 <= j < v.chapters.len(),
        v.chapters[i].ordinal == v.chapters[j].ordinal,
        v.chapters[i].canonical_chapter_id is Some,
        v.chapters[j].canonical_chapter_id is Some,
        canonical_is(v, v.chapters[i].canonical_chapter_id->0 as int, manga_id, v.chapters[i].ordinal as int),
        canonical_is(v, v.chapters[j].canonical_chapter_id->0 as int, manga_id, v.chapters[j].ordinal as int),
    ensures
        v.chapters[i].canonical_chapter_id == v.chapters[j].canonical_chapter_id,
{
    lemma_canonical_is_unique(
        v,
        v.chapters[i].canonical_chapter_id->0 as int,
        v.chapters[j].canonical_chapter_id->0 as int,
        manga_id,
        v.chapters[i].ordinal as int,
    );
}

/// Merging the reading rows of manga `from` into `to`, user by user: nobody keeps a row of
/// `from`; every row of another manga stays as it was; a user without a row of `from`
/// keeps their row of `to` (or lack of one) as it was; and a user with a row of `from`
/// has it carried over onto `to`: the row of whichever side has read further is kept,
/// with the last chapter remapped onto `to`'s canonical chapter at the same ordinal.
pub proof fn lemma_merge_reading_progress_per_user(v: CatalogView, from: int, to: int, user_id: int, manga_id: int)
    requires
        wf(v),
        has_manga(v, to),
        from != to,
        i32::MIN <= to <= i32::MAX,
        has_room(v, v.readings.len() as int),
    ensures
        ({
            let w = spec_merge_reading_progress(v, from, to);
            &&& reading_of(w, user_id, from) is None
            &&& manga_id != from && manga_id != to ==> reading_of(w, user_id, manga_id) == reading_of(v, user_id, manga_id)
            &&& reading_of(v, user_id, from) is None ==> reading_of(w, user_id, to) == reading_of(v, user_id, to)
            &&& reading_of(v, user_id, from) matches Some(f) ==> carried_over(
                w,
                v,
                to,
                f,
                reading_of(v, user_id, to),
                reading_of(w, user_id, to),
            )
        }),
{
    let rows = readings_of(v.readings, from);
    let n = rows.len() as int;
    lemma_merged(v, from, to, rows, n);
    assert(rows.take(n) =~= rows);
    let w = spec_merge_reading_progress(v, from, to);
    assert(reading_of(w, user_id, manga_id) == reading_of(v, user_id, manga_id) || manga_id == from || manga_id == to);
    let pr = |r: ReadingRow| r.manga_id == from;
    if has_reading(v, user_id, from) {
        let q = reading_index(v, user_id, from);
        lemma_reading_of_at(v, q);
        assert(pr(v.readings[q]));
        lemma_filter_keeps(v.readings, pr, q);
        let j = choose|j: int| 0 <= j < v.readings.filter(pr).len() && #[trigger] v.readings.filter(pr)[j] == v.readings[q];
        assert(rows[j] == v.readings[q]);
        assert(reading_of(w, rows[j].user_id as int, from) is None);
    } else {
        assert forall|j: int| 0 <= j < n implies (#[trigger] rows[j]).user_id != user_id by {
            v.readings.lemma_filter_pred(pr, j);
            lemma_filter_origin(v.readings, pr, j);
            let q = choose|q: int| 0 <= q < v.readings.len() && v.readings.filter(pr)[j] == #[trigger] v.readings[q] && pr(v.readings[q]);
            if rows[j].user_id == user_id {
                assert(has_reading(v, user_id, from)) by {
                    assert(v.readings[q].user_id == user_id && v.readings[q].manga_id == from);
                }
            }
        }
    }
}

/// A manga that does not exist has no reading rows: deleting a manga, or merging it away,
/// leaves nobody reading it.
pub proof fn lemma_no_readings_without_manga(v: CatalogView, user_id: int, manga_id: int)
    requires
        wf(v),
        !has_manga(v, manga_id),
    ensures
        !has_reading(v, user_id, manga_id),
{
    if has_reading(v, user_id, manga_id) {
        let r = choose|r: int| 0 <= r < v.readings.len() && #[trigger] v.readings[r].user_id == user_id
            && v.readings[r].manga_id == manga_id;
        assert(has_manga(v, v.readings[r].manga_id as int));
    }
}

/// Recording progress by a canonical chapter writes that chapter as the last one read and
/// its rank among the manga's canonical chapters as the progress, together.
pub proof fn lemma_sync_progress_is_rank(v: CatalogView, user_id: int, manga_id: int, canonical_id: int)
    requires
        wf(v),
        has_reading(v, user_id, manga_id),
        canonical_of_manga(v, canonical_id, manga_id),
    ensures
        ({
            let w = spec_sync_progress(v, user_id, manga_id, canonical_id);
            let r = reading_index(v, user_id, manga_id);
            let k = canonical_index(v, canonical_id);
            &&& w.readings[r].progress == spec_rank(v.canonicals, manga_id, v.canonicals[k].ordinal as int)
            &&& w.readings[r].last_canonical_chapter_id == Some(canonical_id as i32)
            &&& w.readings[r].user_id == user_id && w.readings[r].manga_id == manga_id
        }),
{
    let k = canonical_index(v, canonical_id);
    let r = reading_index(v, user_id, manga_id);
    let j = choose|j: int| 0 <= j < v.canonicals.len() && #[trigger] v.canonicals[j].id == canonical_id
        && v.canonicals[j].manga_id == manga_id;
    assert(0 <= k < v.canonicals.len());
    lemma_rank_bound(v.canonicals, manga_id, v.canonicals[k].ordinal as int);
    assert(1 <= v.canonicals[j].id < v.next_canonical_id);
}

} // verus!
