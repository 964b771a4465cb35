//! Triage of open change requests for the overview: which list each request
//! lands on, from plain facts about it.

use vstd::prelude::*;

verus! {

/// Seconds in a week.
pub const WEEK: i64 = 604800;

/// Where a change request lands on the overview.
#[derive(Clone, Copy, Debug, PartialEq, Eq, Structural)]
pub enum MrBucket {
    /// The user's own, touched recently.
    OwnRecent,
    /// The user's own, stale or beyond the shortlist.
    OwnOld,
    /// Someone else's with unreviewed commits and a reason to care: assigned,
    /// on the watchlist, or already partly reviewed.
    Interesting,
    /// Someone else's with unreviewed commits, fresh enough to show.
    Recent,
    /// Fresh but marked as a draft, hidden by default.
    Draft,
    /// Stale, or beyond the shortlist.
    Old,
    /// Nothing left to review: not shown at all.
    Quiet,
}

/// The triage decision. The user's own requests go by age alone and a
/// shortlist cap of ten; anyone else's shows up only with unreviewed commits,
/// prominently when assigned, watched or partly reviewed, and otherwise by
/// age, draft mark and the same cap.
pub open spec fn spec_mr_bucket(
    author_is_me: bool,
    now: int,
    updated_at: int,
    own_recent_count: int,
    recent_count: int,
    n_unreviewed: int,
    assigned: bool,
    watchlist_hit: bool,
    partially_reviewed: bool,
    draft: bool,
) -> MrBucket {
    if author_is_me {
        if now - updated_at > 13 * WEEK || own_recent_count >= 10 {
            MrBucket::OwnOld
        } else {
            MrBucket::OwnRecent
        }
    } else if n_unreviewed == 0 {
        MrBucket::Quiet
    } else if assigned || watchlist_hit || partially_reviewed {
        MrBucket::Interesting
    } else if now - updated_at > 5 * WEEK || recent_count >= 10 {
        MrBucket::Old
    } else if draft {
        MrBucket::Draft
    } else {
        MrBucket::Recent
    }
}

/// Sort one change request onto its overview list.
pub fn mr_bucket(
    author_is_me: bool,
    now: i64,
    updated_at: i64,
    own_recent_count: usize,
    recent_count: usize,
    n_unreviewed: usize,
    assigned: bool,
    watchlist_hit: bool,
    partially_reviewed: bool,
    draft: bool,
) -> (r: MrBucket)
    ensures
        r == spec_mr_bucket(
            author_is_me,
            now as int,
            updated_at as int,
            own_recent_count as int,
            recent_count as int,
            n_unreviewed as int,
            assigned,
            watchlist_hit,
            partially_reviewed,
            draft,
        ),
{
    let age: i128 = now as i128 - updated_at as i128;
    if author_is_me {
        if age > 13 * WEEK as i128 || own_recent_count >= 10 {
            MrBucket::OwnOld
        } else {
            MrBucket::OwnRecent
        }
    } else if n_unreviewed == 0 {
        MrBucket::Quiet
    } else if assigned || watchlist_hit || partially_reviewed {
        MrBucket::Interesting
    } else if age > 5 * WEEK as i128 || recent_count >= 10 {
        MrBucket::Old
    } else if draft {
        MrBucket::Draft
    } else {
        MrBucket::Recent
    }
}

} // verus!
