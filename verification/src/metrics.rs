//! The names of what is measured. The only label anywhere is [`ErrorKind`], a
//! closed set: titles, slugs, ids and paths are never shown.

use vstd::prelude::*;

verus! {

/// Books in the index.
pub const BOOKS_INDEXED: &'static str = "podspine_books_indexed";

/// Feeds that were served.
pub const FEEDS_SERVED: &'static str = "podspine_feeds_served_total";

/// Seconds spent on splitting one chapter.
pub const SPLIT_DURATION: &'static str = "podspine_split_duration_seconds";

/// Requests that failed, by [`ErrorKind`].
pub const ERRORS: &'static str = "podspine_errors_total";

/// Bounds of the buckets of [`SPLIT_DURATION`], in milliseconds: tens of milliseconds to a few
/// seconds is what a stream copy takes; the long tail makes a bad source visible.
pub open spec fn split_bounds() -> Seq<u64> {
    seq![50u64, 100, 250, 500, 1_000, 2_500, 5_000, 10_000, 30_000, 60_000, 120_000]
}

/// Bounds of the buckets of [`SPLIT_DURATION`], in milliseconds.
pub fn split_buckets() -> (r: Vec<u64>)
    ensures
        r@ == split_bounds(),
        r@ == seq![50u64, 100, 250, 500, 1_000, 2_500, 5_000, 10_000, 30_000, 60_000, 120_000],
{
    let r: Vec<u64> = vec![50, 100, 250, 500, 1_000, 2_500, 5_000, 10_000, 30_000, 60_000, 120_000];
    assert(r@ =~= split_bounds());
    r
}

/// The bounds are positive and ascend.
pub proof fn law_split_bounds_ascend(i: int, j: int)
    requires
        0 <= i < j < split_bounds().len(),
    ensures
        0 < split_bounds()[i] < split_bounds()[j],
{
}

/// What failed.
#[derive(Debug, Clone, Copy, PartialEq, Eq, Structural)]
pub enum ErrorKind {
    /// A book, episode or id that is not known.
    NotFound,
    /// A check of the origin failed.
    Forbidden,
    /// A fault of the server.
    Internal,
}

impl ErrorKind {
    /// The label of a kind. Dashboards go by these words.
    pub open spec fn word(self) -> Seq<char> {
        match self {
            ErrorKind::NotFound => "not_found"@,
            ErrorKind::Forbidden => "forbidden"@,
            ErrorKind::Internal => "internal"@,
        }
    }

    /// The label of this kind.
    pub fn as_label(self) -> (r: &'static str)
        ensures
            r@ == self.word(),
            self == ErrorKind::NotFound ==> r@ == "not_found"@,
            self == ErrorKind::Forbidden ==> r@ == "forbidden"@,
            self == ErrorKind::Internal ==> r@ == "internal"@,
    {
        match self {
            ErrorKind::NotFound => "not_found",
            ErrorKind::Forbidden => "forbidden",
            ErrorKind::Internal => "internal",
        }
    }
}

} // verus!
