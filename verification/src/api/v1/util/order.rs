//! The fields a reading-list listing can be ordered by.

use vstd::prelude::*;

use crate::text::same_text;

verus! {

/// The SQL expression a reading-list order field names: `progress`, `title`, `chapters`,
/// `updated` and `created`, and nothing else.
pub open spec fn spec_reading_order_field(name: Seq<char>) -> Option<Seq<char>> {
    if name == "progress"@ {
        Some("reading.title"@)
    } else if name == "title"@ {
        Some("manga.title"@)
    } else if name == "chapters"@ {
        Some("COUNT(chapter.id)"@)
    } else if name == "updated"@ {
        Some("reading.updated_at"@)
    } else if name == "created"@ {
        Some("reading.created_at"@)
    } else {
        None
    }
}

/// The SQL expression the reading-list order field `name` names, if any.
pub fn reading_order_field(name: &str) -> (r: Option<&'static str>)
    ensures
        match r {
            Some(e) => spec_reading_order_field(name@) == Some(e@),
            None => spec_reading_order_field(name@) is None,
        },
{
    if same_text(name, "progress") {
        Some("reading.title")
    } else if same_text(name, "title") {
        Some("manga.title")
    } else if same_text(name, "chapters") {
        Some("COUNT(chapter.id)")
    } else if same_text(name, "updated") {
        Some("reading.updated_at")
    } else if same_text(name, "created") {
        Some("reading.created_at")
    } else {
        None
    }
}

} // verus!
