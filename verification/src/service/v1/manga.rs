//! The manga service: what its handlers decide before and around the catalog operations.

use vstd::prelude::*;

use crate::status::Code;

verus! {

/// Handler of the manga service.
#[derive(Debug, Default, Clone, Copy)]
pub struct MangaController;

/// Why a manga request was refused before touching the catalog.
#[derive(Debug, Clone, Copy, PartialEq, Eq)]
pub enum MangaRefusal {
    /// Merging and moving are for administrators.
    AdminRequired,
    /// A manga cannot be merged into itself.
    MergeIntoItself,
}

impl MangaRefusal {
    /// The message the caller is answered with.
    pub fn message(&self) -> (r: &'static str)
        ensures
            *self == MangaRefusal::AdminRequired ==> r@ == "Admin permission required"@,
            *self == MangaRefusal::MergeIntoItself ==> r@ == "Cannot merge a manga into itself"@,
    {
        match self {
            MangaRefusal::AdminRequired => "Admin permission required",
            MangaRefusal::MergeIntoItself => "Cannot merge a manga into itself",
        }
    }

    /// The status code the caller is answered with.
    pub fn code(&self) -> (r: Code)
        ensures
            *self == MangaRefusal::AdminRequired ==> r == Code::PermissionDenied,
            *self == MangaRefusal::MergeIntoItself ==> r == Code::InvalidArgument,
    {
        match self {
            MangaRefusal::AdminRequired => Code::PermissionDenied,
            MangaRefusal::MergeIntoItself => Code::InvalidArgument,
        }
    }
}

impl MangaController {
    /// Whether a manga last updated at `updated_ms` is due for a refresh of its primary
    /// source at `now_ms`, refreshes being `interval_ms` apart (times in milliseconds).
    pub fn needs_refresh(now_ms: i64, interval_ms: i64, updated_ms: i64) -> (r: bool)
        ensures
            r == (now_ms - interval_ms > updated_ms),
    {
        (now_ms as i128) - (interval_ms as i128) > (updated_ms as i128)
    }

    /// Whether a merge of manga `source_manga_id` into `target_manga_id` may go ahead.
    pub fn check_merge(is_admin: bool, source_manga_id: i32, target_manga_id: i32) -> (r: Result<(), MangaRefusal>)
        ensures
            !is_admin ==> r == Err::<(), MangaRefusal>(MangaRefusal::AdminRequired),
            is_admin && source_manga_id == target_manga_id ==> r == Err::<(), MangaRefusal>(
                MangaRefusal::MergeIntoItself,
            ),
            r is Ok <==> is_admin && source_manga_id != target_manga_id,
    {
        if !is_admin {
            Err(MangaRefusal::AdminRequired)
        } else if source_manga_id == target_manga_id {
            Err(MangaRefusal::MergeIntoItself)
        } else {
            Ok(())
        }
    }

    /// Whether a move of a source onto another manga may go ahead.
    pub fn check_move(is_admin: bool) -> (r: Result<(), MangaRefusal>)
        ensures
            r is Ok <==> is_admin,
            !is_admin ==> r == Err::<(), MangaRefusal>(MangaRefusal::AdminRequired),
    {
        if is_admin {
            Ok(())
        } else {
            Err(MangaRefusal::AdminRequired)
        }
    }
}

} // verus!
