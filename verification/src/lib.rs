//! A ledger for tracking private code review.
//!
//! The crate keeps three pieces of state about a repository's history and its
//! open change requests: review annotations attached to commits and the
//! classification derived from them, a line-level similarity index that
//! recognises rebased or cherry-picked duplicates of reviewed commits, and a
//! per-request ledger of (base, head) version windows reconciled against a
//! remote that only remembers its recent history.

pub mod approval;
pub mod cnf;
pub mod ids;
pub mod notes;
pub mod reqs;
pub mod review;
pub mod similarity;
pub mod triage;
pub mod versions;
