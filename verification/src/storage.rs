//! The stored directory rows as the engine reads them, and where the data
//! directory is; the database itself lives with the application.
use vstd::prelude::*;

use crate::clock::Timestamp;

verus! {

/// One `dirs` row flattened for ranking.
#[derive(Debug, Clone, PartialEq, Eq)]
pub struct DirEntry {
    /// The `dirs.id` of this row.
    pub id: i64,
    /// Canonical displayable path.
    pub path: String,
    /// Most recent visit, or `first_seen` when no visit exists yet.
    pub last_visit: Timestamp,
    /// Whether `missing_since` is set (soft delete).
    pub missing: bool,
}

/// The data directory a `FURET_DATA_DIR` value names: the value when the
/// variable is set to something non-empty; `None`, for the platform
/// default, when it is unset or empty.
pub fn data_dir_override<'a>(value: Option<&'a str>) -> (r: Option<&'a str>)
    ensures
        r == (match value {
            Some(v) => if v@.len() > 0 {
                Some(v)
            } else {
                None
            },
            None => None,
        }),
{
    match value {
        Some(v) => if v.is_empty() {
            None
        } else {
            Some(v)
        },
        None => None,
    }
}

} // verus!
