use orpa::ids::{fmt_state, notes_ref, MergeRequestState, ObjectId};
use orpa::notes::{append_note, has_line};
use orpa::review::{classify, count_reviewed, version_stats, walk_new, CommitInfo, ReviewLedger, Status};
use orpa::similarity::{commit_diff_digest, line_digest, line_digests, Comparison, LineIdx};

fn commit(id: &str, author: &str, parents: usize, lines: &[&str]) -> CommitInfo {
    CommitInfo {
        id: ObjectId(String::from(id)),
        author_email: String::from(author),
        parent_count: parents,
        diff_lines: lines.iter().map(|l| String::from(*l)).collect(),
    }
}

#[test]
fn append_note_sorts_and_deduplicates() {
    let first = append_note(None, "Reviewed-by: Jo <jo@x>");
    assert_eq!(first, "Reviewed-by: Jo <jo@x>");
    let second = append_note(Some(&first), "Acked-by: Al <al@x>");
    assert_eq!(second, "Acked-by: Al <al@x>\nReviewed-by: Jo <jo@x>");
}

#[test]
fn append_note_is_idempotent() {
    let once = append_note(Some(&String::from("alpha\nbeta")), "checkpoint");
    let twice = append_note(Some(&once), "checkpoint");
    assert_eq!(once, twice);
    assert_eq!(once, "alpha\nbeta\ncheckpoint");
}

#[test]
fn ledger_append_is_idempotent() {
    let oid = ObjectId(String::from("c1c1c1"));
    let mut a = ReviewLedger::new(String::from("me@x"), false);
    a.append_note(&oid, "Tested-by: Jo <jo@x>");
    a.append_note(&oid, "Tested-by: Jo <jo@x>");
    let mut b = ReviewLedger::new(String::from("me@x"), false);
    b.append_note(&oid, "Tested-by: Jo <jo@x>");
    assert_eq!(a.get_note(&oid).unwrap(), b.get_note(&oid).unwrap());
}

#[test]
fn has_line_finds_whole_lines_only() {
    assert!(has_line("alpha\ncheckpoint\nbeta", "checkpoint"));
    assert!(!has_line("alpha\ncheckpoint-ish\nbeta", "checkpoint"));
    assert!(!has_line("", "checkpoint"));
}

#[test]
fn classify_new_commit() {
    // a single-parent commit by someone else, with no annotation, is new
    let ledger = ReviewLedger::new(String::from("me@x"), false);
    let idx = LineIdx::new();
    let c = commit("aaaa", "other@x", 1, &["+fn main() {}"]);
    assert_eq!(classify(&ledger, &idx, &c), Status::New);
}

#[test]
fn classify_ours_merge_reviewed_checkpoint() {
    let mut ledger = ReviewLedger::new(String::from("me@x"), false);
    let idx = LineIdx::new();

    let ours = commit("aaaa", "me@x", 1, &[]);
    assert_eq!(classify(&ledger, &idx, &ours), Status::Ours);

    let merge = commit("bbbb", "other@x", 2, &[]);
    assert_eq!(classify(&ledger, &idx, &merge), Status::Merge);

    let noted = commit("cccc", "other@x", 1, &[]);
    ledger.append_note(&noted.id, "Reviewed-by: Me <me@x>");
    assert_eq!(classify(&ledger, &idx, &noted), Status::Reviewed);

    let cp = commit("dddd", "other@x", 1, &[]);
    ledger.append_note(&cp.id, "checkpoint");
    assert_eq!(classify(&ledger, &idx, &cp), Status::Checkpoint);
}

#[test]
fn classify_is_repeatable() {
    let ledger = ReviewLedger::new(String::from("me@x"), false);
    let idx = LineIdx::new();
    let c = commit("aaaa", "other@x", 1, &["+line"]);
    let first = classify(&ledger, &idx, &c);
    let second = classify(&ledger, &idx, &c);
    assert_eq!(first, second);
}

#[test]
fn checkpoint_bounds_the_walk() {
    // newest first: C (new), B (checkpoint), A (would be new)
    let mut ledger = ReviewLedger::new(String::from("me@x"), false);
    let idx = LineIdx::new();
    let c = commit("cccc", "other@x", 1, &["+c"]);
    let b = commit("bbbb", "other@x", 1, &["+b"]);
    let a = commit("aaaa", "other@x", 1, &["+a"]);
    ledger.append_note(&b.id, "checkpoint");
    let walked = walk_new(&ledger, &idx, &vec![c, b, a]);
    let ids: Vec<String> = walked.into_iter().map(|o| o.0).collect();
    assert_eq!(ids, vec![String::from("cccc")]);
}

#[test]
fn checkpoint_itself_is_not_yielded() {
    let mut ledger = ReviewLedger::new(String::from("me@x"), false);
    let idx = LineIdx::new();
    let c = commit("cccc", "other@x", 1, &["+c"]);
    ledger.append_note(&c.id, "checkpoint");
    let a = commit("aaaa", "other@x", 1, &["+a"]);
    let walked = walk_new(&ledger, &idx, &vec![c, a]);
    assert!(walked.is_empty());
}

#[test]
fn walk_version_pairs_commits_with_statuses() {
    let mut ledger = ReviewLedger::new(String::from("me@x"), false);
    let idx = LineIdx::new();
    let c = commit("cccc", "me@x", 1, &["+c"]);
    let b = commit("bbbb", "other@x", 1, &["+b"]);
    let a = commit("aaaa", "other@x", 1, &["+a"]);
    ledger.append_note(&b.id, "checkpoint");
    let walked = orpa::review::walk_version(&ledger, &idx, &vec![c, b, a]);
    assert_eq!(walked.len(), 1);
    assert_eq!(walked[0].0 .0, "cccc");
    assert_eq!(walked[0].1, Status::Ours);
}

#[test]
fn version_stats_counts_until_checkpoint() {
    let mut ledger = ReviewLedger::new(String::from("me@x"), false);
    let idx = LineIdx::new();
    let d = commit("dddd", "other@x", 1, &["+d"]);
    let c = commit("cccc", "me@x", 1, &["+c"]);
    let b = commit("bbbb", "other@x", 1, &["+b"]);
    let a = commit("aaaa", "other@x", 1, &["+a"]);
    ledger.append_note(&b.id, "checkpoint");
    let commits = vec![d, c, b, a];
    let stats = version_stats(&ledger, &idx, &commits);
    assert_eq!(stats.new, 1);
    assert_eq!(stats.ours, 1);
    assert_eq!(stats.checkpoint, 0);
    assert_eq!(stats.reviewed, 0);
    assert_eq!(stats.merge, 0);
    let (unreviewed, total) = count_reviewed(&ledger, &idx, &commits);
    assert_eq!(unreviewed, 1);
    assert_eq!(total, 4);
}

#[test]
fn dedup_recognizes_rebased_duplicate() {
    // C' carries the same diff as the reviewed commit C under another address
    let lines = ["+fn f() {}", "+f();"];
    let reviewed = commit("aaaa", "other@x", 1, &lines);
    let rebased = commit("ffff", "other@x", 1, &lines);

    let mut ledger = ReviewLedger::new(String::from("me@x"), true);
    ledger.append_note(&reviewed.id, "Reviewed-by: Me <me@x>");
    let mut idx = LineIdx::new();
    idx.index(&reviewed.id, &reviewed.diff_lines);

    assert_eq!(classify(&ledger, &idx, &rebased), Status::Reviewed);

    // with duplicate detection off the same commit is new
    let ledger_off = {
        let mut l = ReviewLedger::new(String::from("me@x"), false);
        l.append_note(&reviewed.id, "Reviewed-by: Me <me@x>");
        l
    };
    assert_eq!(classify(&ledger_off, &idx, &rebased), Status::New);
}

#[test]
fn dedup_requires_identical_whole_diff() {
    // same line set, but the whole diff differs (a line repeats)
    let reviewed = commit("aaaa", "other@x", 1, &["+x", "+x", "+y"]);
    let candidate = commit("ffff", "other@x", 1, &["+x", "+y"]);

    let mut ledger = ReviewLedger::new(String::from("me@x"), true);
    ledger.append_note(&reviewed.id, "Reviewed-by: Me <me@x>");
    let mut idx = LineIdx::new();
    idx.index(&reviewed.id, &reviewed.diff_lines);

    assert_eq!(classify(&ledger, &idx, &candidate), Status::New);
}

fn score(c: &Comparison) -> f64 {
    2. * c.lines_in_both as f64 / (c.lines_in_left as f64 + c.lines_in_right as f64)
}

#[test]
fn similarity_ranks_self_with_perfect_score() {
    let x = commit("aaaa", "other@x", 1, &["+a", "+b", "+c"]);
    let y = commit("bbbb", "other@x", 1, &["+a", "+d"]);
    let mut idx = LineIdx::new();
    idx.index(&x.id, &x.diff_lines);
    idx.index(&y.id, &y.diff_lines);

    let ranked = idx.similiar_commits(&x.diff_lines);
    assert_eq!(ranked[0].0 .0, "aaaa");
    assert_eq!(score(&ranked[0].1), 1.0);
    for (_, cmp) in &ranked {
        let s = score(cmp);
        assert!(0.0 <= s && s <= 1.0);
    }
}

#[test]
fn similarity_is_symmetric() {
    let x = commit("aaaa", "other@x", 1, &["+a", "+b", "+c"]);
    let y = commit("bbbb", "other@x", 1, &["+a", "+d"]);
    let mut idx = LineIdx::new();
    idx.index(&x.id, &x.diff_lines);
    idx.index(&y.id, &y.diff_lines);

    let from_x = idx.similiar_commits(&x.diff_lines);
    let toward_y = from_x.iter().find(|(o, _)| o.0 == "bbbb").unwrap();
    let from_y = idx.similiar_commits(&y.diff_lines);
    let toward_x = from_y.iter().find(|(o, _)| o.0 == "aaaa").unwrap();
    assert_eq!(score(&toward_y.1), score(&toward_x.1));
    assert_eq!(toward_y.1.lines_in_both, toward_x.1.lines_in_both);
}

#[test]
fn similarity_orders_by_descending_score() {
    let q = commit("aaaa", "other@x", 1, &["+a", "+b", "+c", "+d"]);
    let near = commit("bbbb", "other@x", 1, &["+a", "+b", "+c"]);
    let far = commit("cccc", "other@x", 1, &["+a", "+x", "+y", "+z"]);
    let mut idx = LineIdx::new();
    idx.index(&near.id, &near.diff_lines);
    idx.index(&far.id, &far.diff_lines);

    let ranked = idx.similiar_commits(&q.diff_lines);
    assert_eq!(ranked.len(), 2);
    assert_eq!(ranked[0].0 .0, "bbbb");
    assert_eq!(ranked[1].0 .0, "cccc");
    assert!(score(&ranked[0].1) >= score(&ranked[1].1));
}

#[test]
fn index_is_idempotent_and_refresh_is_safe() {
    let x = commit("aaaa", "other@x", 1, &["+a", "+b"]);
    let mut idx = LineIdx::new();
    idx.index(&x.id, &x.diff_lines);
    let before = idx.lines_in(&x.id);
    // indexing again with different lines must not change the record
    idx.index(&x.id, &vec![String::from("+z")]);
    let after = idx.lines_in(&x.id);
    assert_eq!(before.len(), after.len());

    let mut idx2 = LineIdx::new();
    let universe = vec![
        (x.id.clone(), x.diff_lines.clone()),
        (ObjectId(String::from("bbbb")), vec![String::from("+c")]),
    ];
    idx2.refresh(&universe);
    idx2.refresh(&universe);
    assert_eq!(idx2.lines_in(&x.id).len(), 2);
}

#[test]
fn line_digest_depends_on_the_line() {
    let a = line_digest("+alpha");
    let b = line_digest("+beta");
    let a2 = line_digest("+alpha");
    assert_ne!(a.0, b.0);
    assert_eq!(a.0, a2.0);
}

#[test]
fn line_digests_collapse_duplicates() {
    let lines = vec![String::from("+a"), String::from("+a"), String::from("+b")];
    let ds = line_digests(&lines);
    assert_eq!(ds.len(), 2);
}

#[test]
fn whole_diff_digest_sees_repetition() {
    let once = vec![String::from("+a")];
    let twice = vec![String::from("+a"), String::from("+a")];
    assert_ne!(commit_diff_digest(&once).0, commit_diff_digest(&twice).0);
}

#[test]
fn commits_containing_reflects_the_index() {
    let x = commit("aaaa", "other@x", 1, &["+shared", "+only-x"]);
    let y = commit("bbbb", "other@x", 1, &["+shared", "+only-y"]);
    let mut idx = LineIdx::new();
    idx.index(&x.id, &x.diff_lines);
    idx.index(&y.id, &y.diff_lines);
    let shared = line_digest("+shared");
    let mut holders: Vec<String> =
        idx.commits_containing(&shared).into_iter().map(|o| o.0).collect();
    holders.sort();
    assert_eq!(holders, vec![String::from("aaaa"), String::from("bbbb")]);
}

#[test]
fn fmt_state_words() {
    assert_eq!(fmt_state(MergeRequestState::Opened), "open");
    assert_eq!(fmt_state(MergeRequestState::Reopened), "open");
    assert_eq!(fmt_state(MergeRequestState::Closed), "closed");
    assert_eq!(fmt_state(MergeRequestState::Merged), "merged");
    assert_eq!(fmt_state(MergeRequestState::Locked), "locked");
}

#[test]
fn format_trailer_builds_the_note_line() {
    assert_eq!(
        orpa::ids::format_trailer("Tested", "Joe Smith", "joe@smith.net"),
        "Tested-by: Joe Smith <joe@smith.net>"
    );
}

#[test]
fn diff_body_strips_the_header_lines() {
    let rendered = vec![
        String::from("From aaaa"),
        String::from("From: someone"),
        String::from("Date: someday"),
        String::from("Subject: msg"),
        String::from("+code"),
    ];
    let body = orpa::review::diff_body(rendered);
    assert_eq!(body, vec![String::from("Subject: msg"), String::from("+code")]);
    assert!(orpa::review::diff_body(vec![String::from("x")]).is_empty());
}

#[test]
fn notes_ref_prefixes_the_configured_name() {
    assert_eq!(notes_ref(&Some(String::from("review"))), Some(String::from("refs/notes/review")));
    assert_eq!(notes_ref(&None), None);
}
