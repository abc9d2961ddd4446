//! The search service: matching online search results with the sources already tracked.

use vstd::prelude::*;

verus! {

/// Handler of the search service.
#[derive(Debug, Default, Clone, Copy)]
pub struct SearchController;

/// A tracked source whose url came up in a search, with the caller's reading progress on
/// its manga when there is one.
#[derive(Debug, Clone)]
pub struct KnownSource {
    pub manga_id: i32,
    pub url: String,
    pub progress: Option<i32>,
}

/// What a search result is known as: the manga of the tracked source with its url, and
/// whether the caller reads that manga.
#[derive(Debug, Clone, Copy, PartialEq, Eq)]
pub struct SearchMatch {
    pub manga_id: Option<i32>,
    pub is_reading: bool,
}

/// Position of the first known source with url `url`, or the number of known sources.
pub open spec fn first_known(known: Seq<KnownSource>, url: Seq<char>) -> int
    decreases known.len(),
{
    if known.len() == 0 {
        0
    } else if known[0].url@ == url {
        0
    } else {
        1 + first_known(known.drop_first(), url)
    }
}

/// What the search result at `url` is known as.
pub open spec fn spec_match(known: Seq<KnownSource>, url: Seq<char>) -> SearchMatch {
    let k = first_known(known, url);
    if k < known.len() {
        SearchMatch { manga_id: Some(known[k].manga_id), is_reading: known[k].progress is Some }
    } else {
        SearchMatch { manga_id: None, is_reading: false }
    }
}

proof fn lemma_first_known(known: Seq<KnownSource>, url: Seq<char>, i: int)
    requires
        0 <= i <= known.len(),
        forall|k: int| 0 <= k < i ==> (#[trigger] known[k]).url@ != url,
        i == known.len() || known[i].url@ == url,
    ensures
        first_known(known, url) == i,
    decreases known.len(),
{
    if known.len() > 0 && known[0].url@ != url {
        let t = known.drop_first();
        assert forall|k: int| 0 <= k < i - 1 implies (#[trigger] t[k]).url@ != url by {
            assert(t[k] == known[k + 1]);
        }
        if i - 1 < t.len() {
            assert(t[i - 1] == known[i]);
        }
        lemma_first_known(t, url, i - 1);
    }
}

impl SearchController {
    /// For each search result url, in order, the first tracked source with that url: its
    /// manga, and whether the caller has reading progress on it. A result no source
    /// tracks is known as nothing (and gets a title-based suggestion instead).
    pub fn match_results(result_urls: &Vec<String>, known: &Vec<KnownSource>) -> (r: Vec<SearchMatch>)
        ensures
            r@.len() == result_urls@.len(),
            forall|i: int| 0 <= i < r@.len() ==> #[trigger] r@[i] == spec_match(known@, result_urls@[i]@),
    {
        let mut out: Vec<SearchMatch> = Vec::new();
        let mut i: usize = 0;
        while i < result_urls.len()
            invariant
                i <= result_urls@.len(),
                out@.len() == i,
                forall|j: int| 0 <= j < i ==> #[trigger] out@[j] == spec_match(known@, result_urls@[j]@),
            decreases result_urls@.len() - i,
        {
            let url = &result_urls[i];
            let mut k: usize = 0;
            loop
                invariant
                    k <= known@.len(),
                    forall|j: int| 0 <= j < k ==> (#[trigger] known@[j]).url@ != url@,
                ensures
                    k <= known@.len(),
                    forall|j: int| 0 <= j < k ==> (#[trigger] known@[j]).url@ != url@,
                    k == known@.len() || known@[k as int].url@ == url@,
                decreases known@.len() - k,
            {
                if k == known.len() {
                    break;
                }
                if known[k].url == *url {
                    break;
                }
                k = k + 1;
            }
            proof {
                lemma_first_known(known@, url@, k as int);
            }
            let m = if k < known.len() {
                SearchMatch { manga_id: Some(known[k].manga_id), is_reading: known[k].progress.is_some() }
            } else {
                SearchMatch { manga_id: None, is_reading: false }
            };
            out.push(m);
            i = i + 1;
        }
        out
    }
}

/// A search result as the reply lists it: its url and title as the search found them,
/// what it is known as, and, for a result no source tracks, the tracked manga its title
/// suggests.
#[derive(Debug, Clone, PartialEq, Eq)]
pub struct SearchItem {
    pub url: String,
    pub title: String,
    pub manga_id: Option<i32>,
    pub is_reading: bool,
    pub suggested_manga_id: Option<i32>,
}

impl SearchController {
    /// Whether the manga a result's title suggests is looked up: only for a result that no
    /// tracked source matches.
    pub fn needs_suggestion(m: SearchMatch) -> (r: bool)
        ensures
            r == m.manga_id is None,
    {
        m.manga_id.is_none()
    }

    /// The reply's entry for the result at `url` titled `title`, known as `m`; `suggested`
    /// is the lookup of its title, which counts only for an unmatched result.
    pub fn search_item(url: String, title: String, m: SearchMatch, suggested: Option<i32>) -> (r: SearchItem)
        ensures
            r.url == url,
            r.title == title,
            r.manga_id == m.manga_id,
            r.is_reading == m.is_reading,
            r.suggested_manga_id == (if m.manga_id is None { suggested } else { None }),
    {
        let suggested_manga_id = if Self::needs_suggestion(m) {
            suggested
        } else {
            None
        };
        SearchItem { url, title, manga_id: m.manga_id, is_reading: m.is_reading, suggested_manga_id }
    }
}

} // verus!
