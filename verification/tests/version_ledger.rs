use orpa::ids::{DiffRefs, explicit_base, MergeRequest, MergeRequestId, MergeRequestInternalId,
    MergeRequestState, ObjectId, ProjectId, UserBasic};
use orpa::versions::{apply_remote, insert_if_newer, latest, needs_update, reconcile, Version,
    VersionInfo};

fn oid(s: &str) -> ObjectId {
    ObjectId(String::from(s))
}

fn mr(base: Option<&str>) -> MergeRequest {
    MergeRequest {
        id: MergeRequestId(7),
        iid: MergeRequestInternalId(7),
        project_id: ProjectId(1),
        title: String::from("t"),
        description: None,
        draft: false,
        state: MergeRequestState::Opened,
        updated_at: 1_700_000_000,
        target_branch: String::from("main"),
        source_branch: String::from("topic"),
        author: UserBasic { username: String::from("al"), name: String::from("Al") },
        assignee: None,
        assignees: None,
        reviewers: None,
        sha: Some(oid("abc123")),
        diff_refs: base.map(|b| DiffRefs { base_sha: Some(oid(b)) }),
    }
}

#[test]
fn version_numbers_grow_one_by_one() {
    let mut versions: Vec<VersionInfo> = Vec::new();
    let v0 = insert_if_newer(&mut versions, &oid("h0"), oid("b0")).unwrap();
    assert_eq!(v0.version, Version(0));
    let v1 = insert_if_newer(&mut versions, &oid("h1"), oid("b1")).unwrap();
    assert_eq!(v1.version, Version(1));
    let v2 = insert_if_newer(&mut versions, &oid("h2"), oid("b2")).unwrap();
    assert_eq!(v2.version, Version(2));
    // an unchanged head records nothing
    assert!(insert_if_newer(&mut versions, &oid("h2"), oid("b3")).is_none());
    assert_eq!(versions.len(), 3);
    assert_eq!(latest(&versions).unwrap().version, Version(2));
}

#[test]
fn first_version_takes_the_supplied_base() {
    // the remote supplied an explicit base for the observed head
    let request = mr(Some("def456"));
    let base = explicit_base(&request).unwrap().clone();
    let head = request.sha.clone().unwrap();
    let mut versions: Vec<VersionInfo> = Vec::new();
    assert!(needs_update(&versions, &head));
    let v = insert_if_newer(&mut versions, &head, base).unwrap();
    assert_eq!(v.version, Version(0));
    assert_eq!(v.base.0, "def456");
    assert_eq!(v.head.0, "abc123");
}

#[test]
fn head_advance_records_version_one() {
    // version 0 exists; the head advances and the base was computed as the
    // merge-base of the new head and the target branch tip
    let request = mr(None);
    assert!(explicit_base(&request).is_none());
    let mut versions = vec![VersionInfo { version: Version(0), base: oid("b0"), head: oid("h0") }];
    let computed_merge_base = oid("mb1");
    assert!(needs_update(&versions, &oid("h1")));
    let v = insert_if_newer(&mut versions, &oid("h1"), computed_merge_base).unwrap();
    assert_eq!(v.version, Version(1));
    assert_eq!(v.base.0, "mb1");
    assert_eq!(v.head.0, "h1");
}

#[test]
fn reconcile_starts_at_zero_for_a_bare_ledger() {
    let versions: Vec<VersionInfo> = Vec::new();
    // newest first, as the remote reports them
    let remote = vec![(oid("b1"), oid("h1")), (oid("b0"), oid("h0"))];
    let recent = reconcile(&versions, &remote);
    assert_eq!(recent.len(), 2);
    assert_eq!(recent[0].version, Version(0));
    assert_eq!(recent[0].head.0, "h0");
    assert_eq!(recent[1].version, Version(1));
    assert_eq!(recent[1].head.0, "h1");
}

#[test]
fn reconcile_realigns_to_a_matching_version() {
    let versions = vec![
        VersionInfo { version: Version(0), base: oid("b0"), head: oid("h0") },
        VersionInfo { version: Version(1), base: oid("b1"), head: oid("h1") },
    ];
    // the most recent remote pair is already stored as version 1
    let remote = vec![(oid("b1"), oid("h1")), (oid("b0"), oid("h0"))];
    let recent = reconcile(&versions, &remote);
    assert_eq!(recent.len(), 2);
    assert_eq!(recent[0].version, Version(1));
    assert_eq!(recent[1].version, Version(2));
}

#[test]
fn reconcile_continues_past_the_ledger_without_a_match() {
    let versions = vec![VersionInfo { version: Version(0), base: oid("b0"), head: oid("h0") }];
    let remote = vec![(oid("b9"), oid("h9"))];
    let recent = reconcile(&versions, &remote);
    assert_eq!(recent.len(), 1);
    assert_eq!(recent[0].version, Version(1));
    assert_eq!(recent[0].base.0, "b9");
}

#[test]
fn reconcile_of_nothing_is_nothing() {
    let versions: Vec<VersionInfo> = Vec::new();
    let recent = reconcile(&versions, &Vec::new());
    assert!(recent.is_empty());
}

#[test]
fn apply_remote_warns_and_keeps_the_stored_record() {
    let mut versions = vec![VersionInfo { version: Version(0), base: oid("b0"), head: oid("h0") }];
    let recent = vec![
        VersionInfo { version: Version(0), base: oid("bX"), head: oid("hX") },
        VersionInfo { version: Version(1), base: oid("b1"), head: oid("h1") },
    ];
    let (inserted, warnings) = apply_remote(&mut versions, &recent);
    // the rewritten version 0 is surfaced, not overwritten
    assert_eq!(warnings.len(), 1);
    assert_eq!(warnings[0].stored.base.0, "b0");
    assert_eq!(warnings[0].reported.base.0, "bX");
    assert_eq!(versions[0].base.0, "b0");
    // the new version 1 is appended and reported back
    assert_eq!(inserted.len(), 1);
    assert_eq!(inserted[0].version, Version(1));
    assert_eq!(versions.len(), 2);
    assert_eq!(versions[1].head.0, "h1");
}

#[test]
fn apply_remote_matching_records_are_quiet() {
    let mut versions = vec![VersionInfo { version: Version(0), base: oid("b0"), head: oid("h0") }];
    let recent = vec![VersionInfo { version: Version(0), base: oid("b0"), head: oid("h0") }];
    let (inserted, warnings) = apply_remote(&mut versions, &recent);
    assert!(inserted.is_empty());
    assert!(warnings.is_empty());
    assert_eq!(versions.len(), 1);
}
