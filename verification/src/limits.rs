//! Token budgets: payload size limits are a first-class feature.

use vstd::prelude::*;
use crate::text::{truncate_string, truncated};

verus! {

/// Maximum characters for a result title (plus `...` when cut).
pub const TITLE_MAX_CHARS: usize = 200;

/// Maximum characters for a result snippet content (plus `...` when cut).
///
/// The ellipsis appended on cut is extra, so the true cap is
/// `SNIPPET_MAX_CHARS + 3`.
pub const SNIPPET_MAX_CHARS: usize = 300;

/// Maximum characters for the compact source (hostname) of a result.
pub const SOURCE_MAX_CHARS: usize = 32;

/// Default number of results per call.
pub const DEFAULT_LIMIT: usize = 10;

/// Hard cap for results per call.
pub const MAX_LIMIT: usize = 50;

/// The limit a request asks for, clamped into `[1, MAX_LIMIT]`.
pub open spec fn clamped_limit(limit: Option<usize>) -> usize {
    let l = match limit {
        Some(l) => l,
        None => DEFAULT_LIMIT,
    };
    if l < 1 {
        1
    } else if l > MAX_LIMIT {
        MAX_LIMIT
    } else {
        l
    }
}

/// Clamp a requested limit into `[1, MAX_LIMIT]` (default [`DEFAULT_LIMIT`]).
pub fn clamp_limit(limit: Option<usize>) -> (r: usize)
    ensures
        r == clamped_limit(limit),
        1 <= r <= MAX_LIMIT,
{
    let l = match limit {
        Some(l) => l,
        None => DEFAULT_LIMIT,
    };
    if l < 1 {
        1
    } else if l > MAX_LIMIT {
        MAX_LIMIT
    } else {
        l
    }
}

/// Clamp a requested page number into `>= 1`.
pub fn clamp_page(page: Option<usize>) -> (r: usize)
    ensures
        r >= 1,
        r == match page {
            Some(p) => if p < 1 {
                1
            } else {
                p
            },
            None => 1,
        },
{
    match page {
        Some(p) => if p < 1 {
            1
        } else {
            p
        },
        None => 1,
    }
}

/// Truncate a compact source (hostname) to the [`SOURCE_MAX_CHARS`] budget.
pub fn truncate_source(s: &str) -> (r: String)
    ensures
        r@ == truncated(s@, SOURCE_MAX_CHARS as nat),
{
    truncate_string(s, SOURCE_MAX_CHARS)
}

} // verus!
