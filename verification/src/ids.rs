//! Identifiers shared by the review ledger, the similarity index and the
//! version ledger: content addresses, change-request ids and the plain
//! metadata of a change request.

use vstd::prelude::*;

verus! {

/// A commit reference: the hexadecimal content address of a commit.
/// Identity is purely by value; the text is never interpreted here.
#[derive(Debug)]
pub struct ObjectId(pub String);

impl Clone for ObjectId {
    fn clone(&self) -> (r: Self)
        ensures
            r == *self,
    {
        ObjectId(self.0.clone())
    }
}

impl View for ObjectId {
    type V = Seq<char>;

    open spec fn view(&self) -> Seq<char> {
        self.0@
    }
}

impl PartialEq for ObjectId {
    fn eq(&self, other: &ObjectId) -> (r: bool)
        ensures
            r == (self@ == other@),
    {
        self.0 == other.0
    }
}

impl Eq for ObjectId {}

impl vstd::std_specs::cmp::PartialEqSpecImpl for ObjectId {
    open spec fn obeys_eq_spec() -> bool {
        true
    }

    open spec fn eq_spec(&self, other: &ObjectId) -> bool {
        self@ == other@
    }
}

/// The server-wide numeric id of a change request.
#[derive(Clone, Copy, Debug, PartialEq, Eq, Structural)]
pub struct MergeRequestId(pub u64);

/// The per-project numeric id of a change request.
#[derive(Clone, Copy, Debug, PartialEq, Eq, Structural)]
pub struct MergeRequestInternalId(pub u64);

/// The numeric id of a project on the remote host.
#[derive(Clone, Copy, Debug, PartialEq, Eq, Structural)]
pub struct ProjectId(pub u64);

/// The lifecycle state of a change request as the remote reports it.
#[derive(Clone, Copy, Debug, PartialEq, Eq, Structural)]
pub enum MergeRequestState {
    Opened,
    Closed,
    Reopened,
    Merged,
    Locked,
}

/// A user on the remote host, as much of it as this tool reads.
#[derive(Clone, Debug)]
pub struct UserBasic {
    pub username: String,
    pub name: String,
}

/// The diff anchors the remote reports for a change request; only the base is
/// consumed here.
#[derive(Clone, Debug)]
pub struct DiffRefs {
    pub base_sha: Option<ObjectId>,
}

/// A change request as the remote reports it, reduced to plain values: the
/// update time is a Unix timestamp in seconds.
#[derive(Clone, Debug)]
pub struct MergeRequest {
    pub id: MergeRequestId,
    pub iid: MergeRequestInternalId,
    pub project_id: ProjectId,
    pub title: String,
    pub description: Option<String>,
    pub draft: bool,
    pub state: MergeRequestState,
    pub updated_at: i64,
    pub target_branch: String,
    pub source_branch: String,
    pub author: UserBasic,
    pub assignee: Option<UserBasic>,
    pub assignees: Option<Vec<UserBasic>>,
    pub reviewers: Option<Vec<UserBasic>>,
    pub sha: Option<ObjectId>,
    pub diff_refs: Option<DiffRefs>,
}

/// The base the remote supplied explicitly for a change request, if any.
pub fn explicit_base(mr: &MergeRequest) -> (r: Option<&ObjectId>)
    ensures
        match r {
            Some(b) => mr.diff_refs is Some && mr.diff_refs->0.base_sha is Some
                && *b == mr.diff_refs->0.base_sha->0,
            None => mr.diff_refs is None || mr.diff_refs->0.base_sha is None,
        },
{
    match &mr.diff_refs {
        Some(d) => match &d.base_sha {
            Some(b) => Some(b),
            None => None,
        },
        None => None,
    }
}

/// How to reach the remote host: its name, the project, and the token that
/// authenticates the local user.
pub struct GitlabConfig {
    pub host: String,
    pub project_id: ProjectId,
    pub token: String,
}

/// What the user asked for on the command line.
pub struct Opts {
    pub cmd: Option<Cmd>,
    pub db: Option<String>,
    pub dedup: bool,
    pub notes_ref: Option<String>,
}

/// The subcommands the tool answers to.
#[derive(Clone, Debug)]
pub enum Cmd {
    /// Summarize the review status of a branch.
    Branch { range: Option<String> },
    /// Inspect the oldest unreviewed commit.
    Next { range: Option<String> },
    /// List all unreviewed commits.
    List { range: Option<String> },
    /// Show the status of a commit.
    Show { revspec: String },
    /// Attach a note to a commit.
    Mark { revspec: String, note: Option<String> },
    /// Approve a commit and all its ancestors.
    Checkpoint { revspec: String },
    /// Speed up future operations.
    GC,
    /// Sync change requests from the remote.
    Fetch,
    /// Show a specific change request.
    Mr { id: String },
    /// Show change requests.
    Mrs { all: bool },
    /// Show recent reviews.
    Recent,
    /// Rank indexed commits by similarity to the given one.
    Similar { revspec: String },
}

/// The fully qualified name of the notes reference the annotations live
/// under, from the configured short name: `refs/notes/` followed by it.
pub fn notes_ref(configured: &Option<String>) -> (r: Option<String>)
    ensures
        match r {
            Some(full) => configured is Some && full@ == "refs/notes/"@ + configured->0@,
            None => configured is None,
        },
{
    match configured {
        Some(name) => {
            let mut full = String::new();
            full.append("refs/notes/");
            full.append(name.as_str());
            Some(full)
        },
        None => None,
    }
}

/// The annotation line recorded for a verb: the so-called trailer
/// `Verb-by: Name <email>`.
pub fn format_trailer(verb: &str, name: &str, email: &str) -> (r: String)
    ensures
        r@ == verb@ + "-by: "@ + name@ + " <"@ + email@ + ">"@,
{
    let mut r = String::new();
    r.append(verb);
    r.append("-by: ");
    r.append(name);
    r.append(" <");
    r.append(email);
    r.append(">");
    r
}

/// The word shown for a change-request state.
pub fn fmt_state(x: MergeRequestState) -> (r: &'static str)
    ensures
        x == MergeRequestState::Opened ==> r@ == "open"@,
        x == MergeRequestState::Closed ==> r@ == "closed"@,
        x == MergeRequestState::Reopened ==> r@ == "open"@,
        x == MergeRequestState::Merged ==> r@ == "merged"@,
        x == MergeRequestState::Locked ==> r@ == "locked"@,
{
    match x {
        MergeRequestState::Opened => "open",
        MergeRequestState::Closed => "closed",
        MergeRequestState::Reopened => "open",
        MergeRequestState::Merged => "merged",
        MergeRequestState::Locked => "locked",
    }
}

} // verus!
