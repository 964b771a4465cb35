//! The review ledger: annotations attached to commits, the classification of
//! each commit into a review status, and the checkpoint-bounded history walk.

use crate::ids::ObjectId;
use crate::notes::{
    has_line, is_line, line_views, note_has_line, opt_note_view, spec_append_note, str_eq,
};
use crate::similarity::{
    commit_diff_digest, digests_of, line_digest_of, LineIdx,
};
use crate::notes::join_lines;
use vstd::prelude::*;

verus! {

/// The review status of a commit, derived on demand, never stored.
#[derive(Copy, Clone, PartialEq, Eq, Structural, Debug)]
pub enum Status {
    Reviewed,
    Checkpoint,
    Ours,
    Merge,
    New,
}

/// The plain facts about one commit that classification reads: its content
/// address, its author, how many parents it has, and the lines of its
/// rendered diff body.
pub struct CommitInfo {
    pub id: ObjectId,
    pub author_email: String,
    pub parent_count: usize,
    pub diff_lines: Vec<String>,
}

/// The rendered commit text with its leading metadata lines (id, author,
/// date) stripped, leaving only the message and diff body.
pub fn diff_body(lines: Vec<String>) -> (r: Vec<String>)
    ensures
        lines@.len() >= 3 ==> r@ == lines@.skip(3),
        lines@.len() < 3 ==> r@.len() == 0,
{
    let mut lines = lines;
    if lines.len() < 3 {
        Vec::new()
    } else {
        lines.split_off(3)
    }
}

/// The sentinel line that marks a commit as a checkpoint.
pub open spec fn checkpoint_line() -> Seq<char> {
    "checkpoint"@
}

/// A note blob marks a checkpoint when one of its lines is the sentinel.
pub open spec fn is_checkpoint_note(note: Seq<char>) -> bool {
    note_has_line(note, checkpoint_line())
}

/// The review ledger: the annotations of every annotated commit, the local
/// identity of the local user, and whether duplicate detection is switched on.
pub struct ReviewLedger {
    /// The annotation blob of each annotated commit.
    pub notes: Vec<(ObjectId, String)>,
    /// The local user's email, for the `Ours` classification.
    pub our_email: String,
    /// Whether classification consults the similarity index for duplicates.
    pub dedup: bool,
}

impl ReviewLedger {
    /// The annotation store is keyed by commit.
    pub open spec fn wf(self) -> bool {
        forall|i: int, j: int|
            0 <= i < j < self.notes@.len() ==> (#[trigger] self.notes@[i]).0@ != (
            #[trigger] self.notes@[j]).0@
    }

    /// Whether the commit carries an annotation.
    pub open spec fn has_note(self, id: Seq<char>) -> bool {
        exists|i: int| 0 <= i < self.notes@.len() && self.notes@[i].0@ == id
    }

    /// The annotation blob of an annotated commit.
    pub open spec fn note_of(self, id: Seq<char>) -> Seq<char> {
        self.notes@[choose|i: int| 0 <= i < self.notes@.len() && self.notes@[i].0@ == id].1@
    }

    /// A note found at a given slot is the note the lookup specs speak of.
    pub proof fn lemma_note_at(self, i: int)
        requires
            self.wf(),
            0 <= i < self.notes@.len(),
        ensures
            self.has_note(self.notes@[i].0@),
            self.note_of(self.notes@[i].0@) == self.notes@[i].1@,
    {
        let id = self.notes@[i].0@;
        assert(self.has_note(id));
        let j = choose|j: int| 0 <= j < self.notes@.len() && self.notes@[j].0@ == id;
        if i != j {
            assert(self.notes@[i].0@ != self.notes@[j].0@);
        }
    }

    /// An empty ledger for the given local identity.
    pub fn new(our_email: String, dedup: bool) -> (r: ReviewLedger)
        ensures
            r.wf(),
            r.notes@.len() == 0,
            r.our_email == our_email,
            r.dedup == dedup,
    {
        ReviewLedger { notes: Vec::new(), our_email, dedup }
    }

    fn find_note(&self, id: &ObjectId) -> (r: Option<usize>)
        ensures
            match r {
                Some(i) => 0 <= i < self.notes@.len() && self.notes@[i as int].0@ == id@,
                None => !self.has_note(id@),
            },
    {
        let mut i: usize = 0;
        while i < self.notes.len()
            invariant
                0 <= i <= self.notes@.len(),
                forall|j: int| 0 <= j < i ==> (#[trigger] self.notes@[j]).0@ != id@,
            decreases self.notes@.len() - i,
        {
            if (&self.notes[i].0) == id {
                return Some(i);
            }
            i += 1;
        }
        None
    }

    /// The stored annotation of a commit, if it has one.
    pub fn get_note(&self, id: &ObjectId) -> (r: Option<&String>)
        requires
            self.wf(),
        ensures
            match r {
                Some(s) => self.has_note(id@) && s@ == self.note_of(id@),
                None => !self.has_note(id@),
            },
    {
        match self.find_note(id) {
            Some(i) => {
                proof {
                    self.lemma_note_at(i as int);
                }
                Some(&self.notes[i].1)
            },
            None => None,
        }
    }

    /// Attach a line to a commit's annotation: the stored blob becomes the
    /// sorted, deduplicated union of its old lines and the new one, and is
    /// returned. No other commit's annotation moves.
    pub fn append_note(&mut self, oid: &ObjectId, new_note: &str) -> (r: String)
        requires
            old(self).wf(),
            is_line(new_note@),
        ensures
            final(self).wf(),
            final(self).our_email == old(self).our_email,
            final(self).dedup == old(self).dedup,
            final(self).has_note(oid@),
            final(self).note_of(oid@) == spec_append_note(
                if old(self).has_note(oid@) {
                    Some(old(self).note_of(oid@))
                } else {
                    None
                },
                new_note@,
            ),
            r@ == final(self).note_of(oid@),
            forall|id: Seq<char>|
                id != oid@ ==> (#[trigger] final(self).has_note(id) == old(self).has_note(id)
                    && (old(self).has_note(id) ==> final(self).note_of(id) == old(self).note_of(
                    id,
                ))),
    {
        match self.find_note(oid) {
            Some(i) => {
                proof {
                    self.lemma_note_at(i as int);
                }
                let merged = crate::notes::append_note(Some(&self.notes[i].1), new_note);
                let r = merged.clone();
                let ghost pre = *self;
                let slot = &mut self.notes[i];
                slot.1 = merged;
                proof {
                    assert(self.notes@[i as int].0@ == oid@);
                    assert(forall|j: int|
                        0 <= j < self.notes@.len() && j != i ==> self.notes@[j] == pre.notes@[j]);
                    assert forall|a: int, b: int|
                        0 <= a < b < self.notes@.len() implies (#[trigger] self.notes@[a]).0@ != (
                    #[trigger] self.notes@[b]).0@ by {
                        assert(pre.notes@[a].0@ != pre.notes@[b].0@);
                        assert(self.notes@[a].0 == pre.notes@[a].0);
                        assert(self.notes@[b].0 == pre.notes@[b].0);
                    }
                    self.lemma_note_at(i as int);
                    assert forall|id: Seq<char>| id != oid@ implies (#[trigger] self.has_note(id)
                        == pre.has_note(id) && (pre.has_note(id) ==> self.note_of(id)
                        == pre.note_of(id))) by {
                        if pre.has_note(id) {
                            let j = choose|j: int|
                                0 <= j < pre.notes@.len() && pre.notes@[j].0@ == id;
                            assert(self.notes@[j].0@ == id);
                            pre.lemma_note_at(j);
                            self.lemma_note_at(j);
                        }
                        if self.has_note(id) {
                            let j = choose|j: int|
                                0 <= j < self.notes@.len() && self.notes@[j].0@ == id;
                            assert(pre.notes@[j].0@ == id);
                        }
                    }
                }
                r
            },
            None => {
                let merged = crate::notes::append_note(None, new_note);
                let r = merged.clone();
                let ghost pre = *self;
                self.notes.push((oid.clone(), merged));
                proof {
                    let n = self.notes@.len() - 1;
                    assert(self.notes@[n].0@ == oid@);
                    assert forall|a: int, b: int|
                        0 <= a < b < self.notes@.len() implies (#[trigger] self.notes@[a]).0@ != (
                    #[trigger] self.notes@[b]).0@ by {
                        if b == n {
                            if self.notes@[a].0@ == oid@ {
                                assert(pre.notes@[a].0@ == oid@);
                                assert(pre.has_note(oid@));
                            }
                        } else {
                            assert(pre.notes@[a].0@ != pre.notes@[b].0@);
                        }
                    }
                    self.lemma_note_at(n);
                    assert forall|id: Seq<char>| id != oid@ implies (#[trigger] self.has_note(id)
                        == pre.has_note(id) && (pre.has_note(id) ==> self.note_of(id)
                        == pre.note_of(id))) by {
                        if pre.has_note(id) {
                            let j = choose|j: int|
                                0 <= j < pre.notes@.len() && pre.notes@[j].0@ == id;
                            assert(self.notes@[j].0@ == id);
                            pre.lemma_note_at(j);
                            self.lemma_note_at(j);
                        }
                        if self.has_note(id) {
                            let j = choose|j: int|
                                0 <= j < self.notes@.len() && self.notes@[j].0@ == id;
                            assert(j != n);
                            assert(pre.notes@[j].0@ == id);
                        }
                    }
                }
                r
            },
        }
    }
}

/// One identified commit witnessing an exact duplicate of `c`: its digest set
/// and whole-diff digest coincide with `c`'s, at least one line is shared,
/// and it is annotated as reviewed rather than as a checkpoint.
pub open spec fn spec_dup_witness(
    ledger: ReviewLedger,
    idx: LineIdx,
    c: CommitInfo,
    id: Seq<char>,
) -> bool {
    &&& idx.has_commit(id)
    &&& idx.commit_digests(id) == digests_of(line_views(c.diff_lines@))
    &&& idx.commit_whole(id) == line_digest_of(join_lines(line_views(c.diff_lines@)))
    &&& digests_of(line_views(c.diff_lines@)).len() > 0
    &&& ledger.has_note(id)
    &&& !is_checkpoint_note(ledger.note_of(id))
}

/// Whether the index knows a commit whose diff is textually identical to this
/// one.
pub open spec fn spec_dup_exists(ledger: ReviewLedger, idx: LineIdx, c: CommitInfo) -> bool {
    exists|id: Seq<char>| #[trigger] spec_dup_witness(ledger, idx, c, id)
}

/// The review status of a commit: a checkpoint or reviewed when annotated;
/// ours when we authored it; a merge when it has several parents; reviewed
/// when duplicate detection finds a reviewed twin; new otherwise.
pub open spec fn spec_status(ledger: ReviewLedger, idx: LineIdx, c: CommitInfo) -> Status {
    if ledger.has_note(c.id@) {
        if is_checkpoint_note(ledger.note_of(c.id@)) {
            Status::Checkpoint
        } else {
            Status::Reviewed
        }
    } else if c.author_email@ == ledger.our_email@ {
        Status::Ours
    } else if c.parent_count > 1 {
        Status::Merge
    } else if ledger.dedup && spec_dup_exists(ledger, idx, c) {
        Status::Reviewed
    } else {
        Status::New
    }
}

/// Two finite digest sets that overlap in as many digests as each of them has
/// are the same set.
proof fn lemma_full_overlap_is_equality(q: Set<Seq<u8>>, c: Set<Seq<u8>>)
    requires
        q.finite(),
        c.finite(),
        q.intersect(c).len() == q.len(),
        q.intersect(c).len() == c.len(),
    ensures
        q == c,
{
    broadcast use vstd::set::group_set_axioms;

    vstd::set_lib::lemma_len_intersect(q, c);
    assert(q.intersect(c) <= q);
    assert(q.intersect(c) <= c);
    vstd::set_lib::lemma_subset_equality(q.intersect(c), q);
    vstd::set_lib::lemma_subset_equality(q.intersect(c), c);
}

/// Whether the index knows a reviewed commit whose diff is textually
/// identical to this one, decided through the similarity ranking: a candidate
/// with a perfect Dice score whose whole-diff digest also matches.
fn exact_dup(ledger: &ReviewLedger, idx: &LineIdx, c: &CommitInfo) -> (r: bool)
    requires
        ledger.wf(),
        idx.wf(),
    ensures
        r == spec_dup_exists(*ledger, *idx, *c),
{
    broadcast use vstd::seq_lib::seq_to_set_is_finite;
    broadcast use vstd::set::group_set_axioms;

    let ghost qset = digests_of(line_views(c.diff_lines@));
    let whole = commit_diff_digest(&c.diff_lines);
    let cands = idx.similiar_commits(&c.diff_lines);
    proof {
        crate::similarity::lemma_digests_of_bounds(line_views(c.diff_lines@));
        assert(vstd::std_specs::vec::spec_vec_len(&c.diff_lines) == c.diff_lines@.len());
        assert(line_views(c.diff_lines@).len() == c.diff_lines@.len());
        assert(qset.len() <= usize::MAX);
    }
    let mut k: usize = 0;
    while k < cands.len()
        invariant
            0 <= k <= cands@.len(),
            ledger.wf(),
            idx.wf(),
            qset == digests_of(line_views(c.diff_lines@)),
            qset.finite(),
            qset.len() <= usize::MAX,
            whole@ == line_digest_of(join_lines(line_views(c.diff_lines@))),
            forall|j: int|
                0 <= j < cands@.len() ==> {
                    &&& idx.has_commit((#[trigger] cands@[j]).0@)
                    &&& cands@[j].1 == crate::similarity::spec_comparison(
                        qset,
                        idx.commit_digests(cands@[j].0@),
                    )
                    &&& qset.intersect(idx.commit_digests(cands@[j].0@)).len() > 0
                },
            forall|id: Seq<char>|
                idx.has_commit(id) && qset.intersect(#[trigger] idx.commit_digests(id)).len() > 0
                    ==> exists|j: int| 0 <= j < cands@.len() && cands@[j].0@ == id,
            forall|j: int|
                0 <= j < k ==> !spec_dup_witness(*ledger, *idx, *c, (#[trigger] cands@[j]).0@),
        decreases cands@.len() - k,
    {
        let cand = &cands[k];
        let ghost id = cand.0@;
        let ghost dset = idx.commit_digests(id);
        proof {
            idx.lemma_commit_digests_size(id);
            vstd::set_lib::lemma_len_intersect(qset, dset);
        }
        if cand.1.lines_in_both == cand.1.lines_in_left && cand.1.lines_in_both
            == cand.1.lines_in_right {
            proof {
                assert(qset.intersect(dset).len() == qset.len());
                assert(qset.intersect(dset).len() == dset.len());
                lemma_full_overlap_is_equality(qset, dset);
            }
            match idx.whole_of(&cand.0) {
                Some(w) => {
                    if crate::similarity::digest_same(&w, &whole) {
                        match ledger.get_note(&cand.0) {
                            Some(note) => {
                                if !has_line(note.as_str(), "checkpoint") {
                                    proof {
                                        assert(qset.intersect(dset).len() > 0);
                                        assert(qset.len() > 0);
                                        assert(spec_dup_witness(*ledger, *idx, *c, id));
                                    }
                                    return true;
                                }
                            },
                            None => {},
                        }
                    }
                },
                None => {
                    proof {
                        assert(false);
                    }
                },
            }
        }
        proof {
            assert(!spec_dup_witness(*ledger, *idx, *c, id)) by {
                if spec_dup_witness(*ledger, *idx, *c, id) {
                    assert(idx.commit_digests(id) == qset);
                    assert(qset.intersect(dset) =~= qset);
                    assert(qset.intersect(dset).len() == qset.len());
                }
            }
        }
        k += 1;
    }
    proof {
        if spec_dup_exists(*ledger, *idx, *c) {
            let id = choose|id: Seq<char>|
                {
                    &&& #[trigger] idx.has_commit(id)
                    &&& idx.commit_digests(id) == digests_of(line_views(c.diff_lines@))
                    &&& idx.commit_whole(id) == line_digest_of(
                        join_lines(line_views(c.diff_lines@)),
                    )
                    &&& digests_of(line_views(c.diff_lines@)).len() > 0
                    &&& ledger.has_note(id)
                    &&& !is_checkpoint_note(ledger.note_of(id))
                };
            assert(qset.intersect(idx.commit_digests(id)) =~= qset);
            assert(qset.intersect(idx.commit_digests(id)).len() > 0);
            let j = choose|j: int| 0 <= j < cands@.len() && cands@[j].0@ == id;
            assert(spec_dup_witness(*ledger, *idx, *c, cands@[j].0@));
            assert(false);
        }
    }
    false
}

/// The review status of a commit, computed from the ledger and, when
/// duplicate detection is on, the similarity index.
pub fn classify(ledger: &ReviewLedger, idx: &LineIdx, c: &CommitInfo) -> (r: Status)
    requires
        ledger.wf(),
        idx.wf(),
    ensures
        r == spec_status(*ledger, *idx, *c),
{
    match ledger.get_note(&c.id) {
        Some(note) => {
            if has_line(note.as_str(), "checkpoint") {
                Status::Checkpoint
            } else {
                Status::Reviewed
            }
        },
        None => {
            if str_eq(c.author_email.as_str(), ledger.our_email.as_str()) {
                Status::Ours
            } else if c.parent_count > 1 {
                Status::Merge
            } else if ledger.dedup && exact_dup(ledger, idx, c) {
                Status::Reviewed
            } else {
                Status::New
            }
        },
    }
}

/// Classification is complete and repeatable: every commit falls into exactly
/// one of the five statuses, and the status is a function of the ledger, the
/// index and the commit alone, so asking again without intervening writes
/// gives the same answer.
pub proof fn lemma_classify_total(ledger: ReviewLedger, idx: LineIdx, c: CommitInfo)
    ensures
        spec_status(ledger, idx, c) == Status::Reviewed || spec_status(ledger, idx, c)
            == Status::Checkpoint || spec_status(ledger, idx, c) == Status::Ours || spec_status(
            ledger,
            idx,
            c,
        ) == Status::Merge || spec_status(ledger, idx, c) == Status::New,
{
}

/// The ids a bounded walk yields, scanning from newest to oldest: a new
/// commit is collected, a checkpoint ends the walk at once, and every other
/// status is skipped without affecting the traversal.
pub open spec fn spec_walk_new(
    ledger: ReviewLedger,
    idx: LineIdx,
    commits: Seq<CommitInfo>,
) -> Seq<Seq<char>>
    decreases commits.len(),
{
    if commits.len() == 0 {
        seq![]
    } else {
        let s = spec_status(ledger, idx, commits[0]);
        if s == Status::Checkpoint {
            seq![]
        } else if s == Status::New {
            seq![commits[0].id@] + spec_walk_new(ledger, idx, commits.skip(1))
        } else {
            spec_walk_new(ledger, idx, commits.skip(1))
        }
    }
}

/// Walk the given commits, newest first, and collect the unreviewed ones,
/// stopping at the first checkpoint.
pub fn walk_new(ledger: &ReviewLedger, idx: &LineIdx, commits: &Vec<CommitInfo>) -> (r: Vec<
    ObjectId,
>)
    requires
        ledger.wf(),
        idx.wf(),
    ensures
        crate::similarity::id_views(r@) == spec_walk_new(*ledger, *idx, commits@),
{
    let mut r: Vec<ObjectId> = Vec::new();
    let mut i: usize = 0;
    proof {
        assert(commits@.skip(0) =~= commits@);
        assert(crate::similarity::id_views(r@) =~= Seq::<Seq<char>>::empty());
    }
    loop
        invariant_except_break
            0 <= i <= commits@.len(),
        invariant
            ledger.wf(),
            idx.wf(),
            spec_walk_new(*ledger, *idx, commits@) == crate::similarity::id_views(r@)
                + spec_walk_new(*ledger, *idx, commits@.skip(i as int)),
        ensures
            spec_walk_new(*ledger, *idx, commits@.skip(i as int)) == Seq::<Seq<char>>::empty(),
        decreases commits@.len() - i,
    {
        if i == commits.len() {
            proof {
                assert(commits@.skip(i as int).len() == 0);
            }
            break ;
        }
        let ghost pre = r@;
        let status = classify(ledger, idx, &commits[i]);
        proof {
            assert(commits@.skip(i as int)[0] == commits@[i as int]);
            assert(commits@.skip(i as int).skip(1) =~= commits@.skip(i + 1));
        }
        match status {
            Status::Checkpoint => {
                break ;
            },
            Status::New => {
                r.push(commits[i].id.clone());
                proof {
                    assert(crate::similarity::id_views(r@) =~= crate::similarity::id_views(
                        pre,
                    ).push(commits@[i as int].id@));
                    assert(crate::similarity::id_views(pre) + (seq![commits@[i as int].id@]
                        + spec_walk_new(*ledger, *idx, commits@.skip(i + 1)))
                        =~= crate::similarity::id_views(r@) + spec_walk_new(
                        *ledger,
                        *idx,
                        commits@.skip(i + 1),
                    ));
                }
            },
            _ => {},
        }
        i += 1;
    }
    proof {
        assert(crate::similarity::id_views(r@) + Seq::<Seq<char>>::empty()
            =~= crate::similarity::id_views(r@));
    }
    r
}

/// A checkpoint bounds the walk: with a checkpoint at position `k`, the walk
/// sees only the commits strictly before `k`, and everything it yields is the
/// id of such a commit classified as new.
pub proof fn lemma_checkpoint_bounds_walk(
    ledger: ReviewLedger,
    idx: LineIdx,
    commits: Seq<CommitInfo>,
    k: int,
)
    requires
        0 <= k < commits.len(),
        spec_status(ledger, idx, commits[k]) == Status::Checkpoint,
    ensures
        spec_walk_new(ledger, idx, commits) == spec_walk_new(ledger, idx, commits.take(k)),
        forall|id: Seq<char>|
            spec_walk_new(ledger, idx, commits).contains(id) ==> exists|j: int|
                0 <= j < k && commits[j].id@ == id && spec_status(ledger, idx, commits[j])
                    == Status::New,
    decreases k,
{
    let s = spec_status(ledger, idx, commits[0]);
    if k == 0 {
        assert(spec_walk_new(ledger, idx, commits.take(0)) =~= Seq::<Seq<char>>::empty());
    } else if s == Status::Checkpoint {
        assert(commits.take(k)[0] == commits[0]);
        assert(spec_walk_new(ledger, idx, commits.take(k)) =~= Seq::<Seq<char>>::empty());
    } else {
        let rest = commits.skip(1);
        assert(rest[k - 1] == commits[k]);
        lemma_checkpoint_bounds_walk(ledger, idx, rest, k - 1);
        assert(commits.take(k)[0] == commits[0]);
        assert(commits.take(k).skip(1) =~= rest.take(k - 1));
        if s == Status::New {
            assert(spec_walk_new(ledger, idx, commits) == seq![commits[0].id@] + spec_walk_new(
                ledger,
                idx,
                rest,
            ));
            assert(spec_walk_new(ledger, idx, commits.take(k)) == seq![commits[0].id@]
                + spec_walk_new(ledger, idx, rest.take(k - 1)));
        }
        assert forall|id: Seq<char>|
            spec_walk_new(ledger, idx, commits).contains(id) implies exists|j: int|
            0 <= j < k && commits[j].id@ == id && spec_status(ledger, idx, commits[j])
                == Status::New by {
            let w = spec_walk_new(ledger, idx, commits);
            let p = choose|p: int| 0 <= p < w.len() && w[p] == id;
            if s == Status::New && p == 0 {
                assert(commits[0].id@ == id);
            } else {
                let wr = spec_walk_new(ledger, idx, rest);
                if s == Status::New {
                    assert(wr[p - 1] == id);
                    assert(wr.contains(id));
                } else {
                    assert(wr.contains(id));
                }
                let j = choose|j: int|
                    0 <= j < k - 1 && rest[j].id@ == id && spec_status(ledger, idx, rest[j])
                        == Status::New;
                assert(commits[j + 1].id@ == id);
            }
        }
    }
}

/// The commits of a version window with their statuses, newest first, up to
/// and not including the first checkpoint.
pub open spec fn spec_walk_version(
    ledger: ReviewLedger,
    idx: LineIdx,
    commits: Seq<CommitInfo>,
) -> Seq<(Seq<char>, Status)>
    decreases commits.len(),
{
    if commits.len() == 0 {
        seq![]
    } else {
        let s = spec_status(ledger, idx, commits[0]);
        if s == Status::Checkpoint {
            seq![]
        } else {
            seq![(commits[0].id@, s)] + spec_walk_version(ledger, idx, commits.skip(1))
        }
    }
}

/// Walk the commits of a version window, newest first, yielding each with its
/// status, and stop at the first checkpoint.
pub fn walk_version(ledger: &ReviewLedger, idx: &LineIdx, commits: &Vec<CommitInfo>) -> (r: Vec<
    (ObjectId, Status),
>)
    requires
        ledger.wf(),
        idx.wf(),
    ensures
        r@.map_values(|p: (ObjectId, Status)| (p.0@, p.1)) == spec_walk_version(
            *ledger,
            *idx,
            commits@,
        ),
{
    let mut r: Vec<(ObjectId, Status)> = Vec::new();
    let mut i: usize = 0;
    proof {
        assert(commits@.skip(0) =~= commits@);
        assert(r@.map_values(|p: (ObjectId, Status)| (p.0@, p.1)) =~= Seq::<
            (Seq<char>, Status),
        >::empty());
    }
    loop
        invariant_except_break
            0 <= i <= commits@.len(),
        invariant
            ledger.wf(),
            idx.wf(),
            spec_walk_version(*ledger, *idx, commits@) == r@.map_values(
                |p: (ObjectId, Status)| (p.0@, p.1),
            ) + spec_walk_version(*ledger, *idx, commits@.skip(i as int)),
        ensures
            spec_walk_version(*ledger, *idx, commits@.skip(i as int)) == Seq::<
                (Seq<char>, Status),
            >::empty(),
        decreases commits@.len() - i,
    {
        if i == commits.len() {
            proof {
                assert(commits@.skip(i as int).len() == 0);
            }
            break ;
        }
        let ghost pre = r@;
        let status = classify(ledger, idx, &commits[i]);
        proof {
            assert(commits@.skip(i as int)[0] == commits@[i as int]);
            assert(commits@.skip(i as int).skip(1) =~= commits@.skip(i + 1));
        }
        match status {
            Status::Checkpoint => {
                break ;
            },
            _ => {
                r.push((commits[i].id.clone(), status));
                proof {
                    let f = |p: (ObjectId, Status)| (p.0@, p.1);
                    assert(r@.map_values(f) =~= pre.map_values(f).push(
                        (commits@[i as int].id@, status),
                    ));
                    assert(pre.map_values(f) + (seq![(commits@[i as int].id@, status)]
                        + spec_walk_version(*ledger, *idx, commits@.skip(i + 1))) =~= r@.map_values(
                        f,
                    ) + spec_walk_version(*ledger, *idx, commits@.skip(i + 1)));
                }
            },
        }
        i += 1;
    }
    proof {
        assert(r@.map_values(|p: (ObjectId, Status)| (p.0@, p.1)) + Seq::<
            (Seq<char>, Status),
        >::empty() =~= r@.map_values(|p: (ObjectId, Status)| (p.0@, p.1)));
    }
    r
}

/// How many commits of each status a version window holds, counted newest to
/// oldest up to (and not including) the first checkpoint.
#[derive(Clone, Copy, PartialEq, Eq, Structural, Debug)]
pub struct StatusCounts {
    pub reviewed: usize,
    pub checkpoint: usize,
    pub ours: usize,
    pub merge: usize,
    pub new: usize,
}

/// How many commits before the first checkpoint carry the given status.
pub open spec fn count_status(
    ledger: ReviewLedger,
    idx: LineIdx,
    commits: Seq<CommitInfo>,
    s: Status,
) -> nat
    decreases commits.len(),
{
    if commits.len() == 0 {
        0
    } else if spec_status(ledger, idx, commits[0]) == Status::Checkpoint {
        0
    } else {
        (if spec_status(ledger, idx, commits[0]) == s {
            1nat
        } else {
            0nat
        }) + count_status(ledger, idx, commits.skip(1), s)
    }
}

/// Classify the commits of a version window, newest first, and count each
/// status, stopping before the first checkpoint.
pub fn version_stats(ledger: &ReviewLedger, idx: &LineIdx, commits: &Vec<CommitInfo>) -> (r:
    StatusCounts)
    requires
        ledger.wf(),
        idx.wf(),
    ensures
        r.reviewed == count_status(*ledger, *idx, commits@, Status::Reviewed),
        r.checkpoint == count_status(*ledger, *idx, commits@, Status::Checkpoint),
        r.ours == count_status(*ledger, *idx, commits@, Status::Ours),
        r.merge == count_status(*ledger, *idx, commits@, Status::Merge),
        r.new == count_status(*ledger, *idx, commits@, Status::New),
{
    let mut r = StatusCounts { reviewed: 0, checkpoint: 0, ours: 0, merge: 0, new: 0 };
    let mut i: usize = 0;
    proof {
        assert(commits@.skip(0) =~= commits@);
    }
    loop
        invariant_except_break
            0 <= i <= commits@.len(),
        invariant
            ledger.wf(),
            idx.wf(),
            r.reviewed <= i && r.checkpoint <= i && r.ours <= i && r.merge <= i && r.new <= i,
            count_status(*ledger, *idx, commits@, Status::Reviewed) == r.reviewed + count_status(
                *ledger,
                *idx,
                commits@.skip(i as int),
                Status::Reviewed,
            ),
            count_status(*ledger, *idx, commits@, Status::Checkpoint) == r.checkpoint
                + count_status(*ledger, *idx, commits@.skip(i as int), Status::Checkpoint),
            count_status(*ledger, *idx, commits@, Status::Ours) == r.ours + count_status(
                *ledger,
                *idx,
                commits@.skip(i as int),
                Status::Ours,
            ),
            count_status(*ledger, *idx, commits@, Status::Merge) == r.merge + count_status(
                *ledger,
                *idx,
                commits@.skip(i as int),
                Status::Merge,
            ),
            count_status(*ledger, *idx, commits@, Status::New) == r.new + count_status(
                *ledger,
                *idx,
                commits@.skip(i as int),
                Status::New,
            ),
        ensures
            forall|s: Status|
                count_status(*ledger, *idx, commits@.skip(i as int), s) == 0,
        decreases commits@.len() - i,
    {
        if i == commits.len() {
            proof {
                assert(commits@.skip(i as int).len() == 0);
            }
            break ;
        }
        let status = classify(ledger, idx, &commits[i]);
        proof {
            assert(commits@.skip(i as int)[0] == commits@[i as int]);
            assert(commits@.skip(i as int).skip(1) =~= commits@.skip(i + 1));
        }
        match status {
            Status::Checkpoint => {
                break ;
            },
            Status::Reviewed => {
                r.reviewed += 1;
            },
            Status::Ours => {
                r.ours += 1;
            },
            Status::Merge => {
                r.merge += 1;
            },
            Status::New => {
                r.new += 1;
            },
        }
        i += 1;
    }
    r
}

/// How many commits of a version window are unreviewed, next to how many it
/// holds in total.
pub fn count_reviewed(ledger: &ReviewLedger, idx: &LineIdx, commits: &Vec<CommitInfo>) -> (r: (
    usize,
    usize,
))
    requires
        ledger.wf(),
        idx.wf(),
    ensures
        r.0 == count_status(*ledger, *idx, commits@, Status::New),
        r.1 == commits@.len(),
{
    let stats = version_stats(ledger, idx, commits);
    (stats.new, commits.len())
}

} // verus!
