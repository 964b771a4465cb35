//! The line similarity index: a forward map from commit to the digests of its
//! diff lines and a reverse map from digest to the commits carrying it, with
//! pairwise similarity scored by the Dice coefficient over digest sets.

use crate::ids::ObjectId;
use crate::notes::{join_lines, line_views};
use sha1::Digest;
use vstd::prelude::*;
use vstd::multiset::Multiset;
use vstd::seq_lib::group_seq_properties;

verus! {

/// The SHA-1 of a line in a commit's textual representation.
#[derive(Clone, Copy, PartialEq, Eq, Hash, Debug)]
pub struct Line(pub [u8; 20]);

impl View for Line {
    type V = Seq<u8>;

    open spec fn view(&self) -> Seq<u8> {
        self.0@
    }
}

/// The digest of one line of text. Named, not spelled out: the library trusts
/// the hash function and only ever compares digests for equality.
pub uninterp spec fn line_digest_of(line: Seq<char>) -> Seq<u8>;

/// Relies on sha1::Sha1::digest over the line's UTF-8 bytes: a 20-byte value
/// that depends on the line's characters alone.
#[verifier::external_body]
pub fn line_digest(line: &str) -> (r: Line)
    ensures
        r@ == line_digest_of(line@),
{
    Line(sha1::Sha1::digest(line.as_bytes()).into())
}

/// Byte-for-byte equality of two digests.
pub fn digest_same(a: &Line, b: &Line) -> (r: bool)
    ensures
        r == (a@ == b@),
{
    let mut i: usize = 0;
    while i < 20
        invariant
            0 <= i <= 20,
            forall|j: int| 0 <= j < i ==> a.0@[j] == b.0@[j],
        decreases 20 - i,
    {
        if a.0[i] != b.0[i] {
            return false;
        }
        i += 1;
    }
    proof {
        assert(a.0@ =~= b.0@);
    }
    true
}

/// The digest views of a list of digests.
pub open spec fn digest_views(ds: Seq<Line>) -> Seq<Seq<u8>> {
    ds.map_values(|l: Line| l@)
}

/// The set of line digests of a rendered diff.
pub open spec fn digests_of(lines: Seq<Seq<char>>) -> Set<Seq<u8>> {
    lines.map_values(|l: Seq<char>| line_digest_of(l)).to_set()
}

/// Whether the digest list carries `d`.
pub fn contains_digest(ds: &Vec<Line>, d: &Line) -> (r: bool)
    ensures
        r == digest_views(ds@).contains(d@),
{
    let mut i: usize = 0;
    while i < ds.len()
        invariant
            0 <= i <= ds@.len(),
            forall|j: int| 0 <= j < i ==> digest_views(ds@)[j] != d@,
        decreases ds@.len() - i,
    {
        if digest_same(&ds[i], d) {
            assert(digest_views(ds@)[i as int] == d@);
            return true;
        }
        i += 1;
    }
    proof {
        if digest_views(ds@).contains(d@) {
            let j = choose|j: int|
                0 <= j < digest_views(ds@).len() && digest_views(ds@)[j] == d@;
            assert(false);
        }
    }
    false
}

/// The deduplicated digests of the given lines: one entry per distinct digest,
/// together exactly the digest set of the lines.
pub fn line_digests(lines: &Vec<String>) -> (r: Vec<Line>)
    ensures
        digest_views(r@).no_duplicates(),
        digest_views(r@).to_set() == digests_of(line_views(lines@)),
{
    let mut r: Vec<Line> = Vec::new();
    let mut k: usize = 0;
    proof {
        assert(digest_views(r@).to_set() =~= line_views(lines@).take(0).map_values(
            |l: Seq<char>| line_digest_of(l),
        ).to_set());
    }
    while k < lines.len()
        invariant
            0 <= k <= lines@.len(),
            digest_views(r@).no_duplicates(),
            digest_views(r@).to_set() == line_views(lines@).take(k as int).map_values(
                |l: Seq<char>| line_digest_of(l),
            ).to_set(),
        decreases lines@.len() - k,
    {
        let ghost pre = r@;
        let ghost prefix = line_views(lines@).take(k as int).map_values(
            |l: Seq<char>| line_digest_of(l),
        );
        let d = line_digest((&lines[k]).as_str());
        if !contains_digest(&r, &d) {
            r.push(d);
            proof {
                assert(digest_views(r@) =~= digest_views(pre).push(d@));
                assert(digest_views(pre).push(d@).no_duplicates()) by {
                    broadcast use group_seq_properties;

                    assert(!digest_views(pre).contains(d@));
                }
                digest_views(pre).lemma_push_to_set_commute(d@);
            }
        }
        proof {
            let dk = line_digest_of(lines@[k as int]@);
            let next = line_views(lines@).take(k + 1).map_values(
                |l: Seq<char>| line_digest_of(l),
            );
            assert(next =~= prefix.push(dk));
            prefix.lemma_push_to_set_commute(dk);
            assert(digest_views(r@).to_set() =~= prefix.to_set().insert(dk));
            assert(digest_views(r@).to_set() =~= next.to_set());
        }
        k += 1;
    }
    proof {
        assert(line_views(lines@).take(lines@.len() as int) =~= line_views(lines@));
    }
    r
}

/// The SHA-1 of the whole textual diff of a commit: its lines joined with
/// single newlines, hashed as one text.
pub fn commit_diff_digest(diff_lines: &Vec<String>) -> (r: Line)
    ensures
        r@ == line_digest_of(join_lines(line_views(diff_lines@))),
{
    let text = crate::notes::join_note(diff_lines);
    line_digest(text.as_str())
}

/// How two commits' digest sets overlap.
#[derive(Clone, Copy, PartialEq, Eq, Structural, Debug)]
pub struct Comparison {
    /// Number of distinct line digests of the queried commit.
    pub lines_in_left: usize,
    /// Number of distinct line digests the two commits share.
    pub lines_in_both: usize,
    /// Number of distinct line digests of the candidate commit.
    pub lines_in_right: usize,
}

/// The overlap of a query digest set and a candidate digest set.
pub open spec fn spec_comparison(q: Set<Seq<u8>>, c: Set<Seq<u8>>) -> Comparison {
    Comparison {
        lines_in_left: q.len() as usize,
        lines_in_both: q.intersect(c).len() as usize,
        lines_in_right: c.len() as usize,
    }
}

/// Whether `a` scores at least as high as `b` under the Dice coefficient
/// `2·both/(left+right)`, compared exactly by cross-multiplication.
pub open spec fn dice_ge(a: Comparison, b: Comparison) -> bool {
    a.lines_in_both * (b.lines_in_left + b.lines_in_right) >= b.lines_in_both * (a.lines_in_left
        + a.lines_in_right)
}

/// A comparison is meaningful when the overlap is no larger than either side.
pub open spec fn comparison_wf(c: Comparison) -> bool {
    c.lines_in_both <= c.lines_in_left && c.lines_in_both <= c.lines_in_right
}

/// The Dice score of a meaningful comparison lies in [0, 1]: twice the
/// overlap never exceeds the sum of the two sides.
pub proof fn lemma_dice_score_bounds(c: Comparison)
    requires
        comparison_wf(c),
    ensures
        2 * c.lines_in_both <= c.lines_in_left + c.lines_in_right,
{
}

/// A commit compared against itself overlaps fully, and such a full overlap
/// is a perfect score: the Dice comparison ranks it at least as high as any
/// meaningful candidate.
pub proof fn lemma_dice_reflexive(c: Comparison, other: Comparison)
    requires
        c.lines_in_left == c.lines_in_both,
        c.lines_in_right == c.lines_in_both,
        comparison_wf(other),
    ensures
        dice_ge(c, other),
{
    assert(c.lines_in_both * (other.lines_in_left + other.lines_in_right) >= other.lines_in_both
        * (c.lines_in_left + c.lines_in_right)) by (nonlinear_arith)
        requires
            c.lines_in_left == c.lines_in_both,
            c.lines_in_right == c.lines_in_both,
            other.lines_in_both <= other.lines_in_left,
            other.lines_in_both <= other.lines_in_right,
    ;
}

/// The Dice score is symmetric: swapping the two sides of a comparison, with
/// the same overlap, relates either ranking direction.
pub proof fn lemma_dice_symmetric(a: Comparison)
    ensures
        dice_ge(a, a),
        dice_ge(
            a,
            Comparison {
                lines_in_left: a.lines_in_right,
                lines_in_both: a.lines_in_both,
                lines_in_right: a.lines_in_left,
            },
        ),
{
}

/// The Dice ranking is total.
pub proof fn lemma_dice_ge_total(a: Comparison, b: Comparison)
    ensures
        dice_ge(a, b) || dice_ge(b, a),
{
}

/// The Dice ranking is transitive over comparisons with nonempty sides.
pub proof fn lemma_dice_ge_trans(a: Comparison, b: Comparison, c: Comparison)
    requires
        dice_ge(a, b),
        dice_ge(b, c),
        a.lines_in_left + a.lines_in_right > 0,
        b.lines_in_left + b.lines_in_right > 0,
        c.lines_in_left + c.lines_in_right > 0,
    ensures
        dice_ge(a, c),
{
    let av = a.lines_in_both as int;
    let bv = b.lines_in_both as int;
    let cv = c.lines_in_both as int;
    let ad = (a.lines_in_left + a.lines_in_right) as int;
    let bd = (b.lines_in_left + b.lines_in_right) as int;
    let cd = (c.lines_in_left + c.lines_in_right) as int;
    assert(av * cd >= cv * ad) by (nonlinear_arith)
        requires
            av * bd >= bv * ad,
            bv * cd >= cv * bd,
            ad > 0,
            bd > 0,
            cd > 0,
            av >= 0,
            bv >= 0,
            cv >= 0,
    ;
}

/// The product of two machine words fits in a double word.
proof fn lemma_mul_le_u128(x: usize, y: usize)
    ensures
        (x as u128) * (y as u128) <= u128::MAX,
{
    assert(usize::MAX as int <= u64::MAX as int);
    assert((x as int) * (y as int) <= (u64::MAX as int) * (u64::MAX as int)) by (nonlinear_arith)
        requires
            0 <= x as int <= u64::MAX as int,
            0 <= y as int <= u64::MAX as int,
    ;
}

/// Exact Dice ranking of two comparisons, computed without overflow: the two
/// cross-products are summed in 128-bit halves with an explicit carry.
pub fn dice_ge_exec(a: &Comparison, b: &Comparison) -> (r: bool)
    ensures
        r == dice_ge(*a, *b),
{
    proof {
        lemma_mul_le_u128(a.lines_in_both, b.lines_in_left);
        lemma_mul_le_u128(a.lines_in_both, b.lines_in_right);
        lemma_mul_le_u128(b.lines_in_both, a.lines_in_left);
        lemma_mul_le_u128(b.lines_in_both, a.lines_in_right);
    }
    let x1: u128 = (a.lines_in_both as u128) * (b.lines_in_left as u128);
    let x2: u128 = (a.lines_in_both as u128) * (b.lines_in_right as u128);
    let y1: u128 = (b.lines_in_both as u128) * (a.lines_in_left as u128);
    let y2: u128 = (b.lines_in_both as u128) * (a.lines_in_right as u128);
    proof {
        assert(a.lines_in_both * (b.lines_in_left + b.lines_in_right) == a.lines_in_both
            * b.lines_in_left + a.lines_in_both * b.lines_in_right) by (nonlinear_arith);
        assert(b.lines_in_both * (a.lines_in_left + a.lines_in_right) == b.lines_in_both
            * a.lines_in_left + b.lines_in_both * a.lines_in_right) by (nonlinear_arith);
    }
    let xs = x1.checked_add(x2);
    let ys = y1.checked_add(y2);
    match (xs, ys) {
        (Some(xv), Some(yv)) => xv >= yv,
        (Some(_), None) => false,
        (None, Some(_)) => true,
        (None, None) => x1.wrapping_add(x2) >= y1.wrapping_add(y2),
    }
}

/// The id views of a list of commit references.
pub open spec fn id_views(cs: Seq<ObjectId>) -> Seq<Seq<char>> {
    cs.map_values(|c: ObjectId| c@)
}

/// One commit's record in the forward map: the digests of its distinct diff
/// lines, and the digest of its whole diff text.
pub struct IdxEntry {
    pub commit: ObjectId,
    pub digests: Vec<Line>,
    pub whole: Line,
}

/// One digest's record in the reverse map: the commits whose diffs carry it.
pub struct RevEntry {
    pub digest: Line,
    pub commits: Vec<ObjectId>,
}

/// The line similarity index. Entries are only ever added, never removed.
pub struct LineIdx {
    /// What lines does this commit contain?
    pub forward: Vec<IdxEntry>,
    /// In what commits does this line appear?
    pub reverse: Vec<RevEntry>,
}

impl LineIdx {
    /// Whether the commit is indexed.
    pub open spec fn has_commit(self, id: Seq<char>) -> bool {
        exists|i: int| 0 <= i < self.forward@.len() && self.forward@[i].commit@ == id
    }

    /// The forward entry of an indexed commit.
    pub open spec fn entry_of(self, id: Seq<char>) -> IdxEntry {
        self.forward@[choose|i: int|
            0 <= i < self.forward@.len() && self.forward@[i].commit@ == id]
    }

    /// The digest set of an indexed commit.
    pub open spec fn commit_digests(self, id: Seq<char>) -> Set<Seq<u8>> {
        digest_views(self.entry_of(id).digests@).to_set()
    }

    /// The whole-diff digest of an indexed commit.
    pub open spec fn commit_whole(self, id: Seq<char>) -> Seq<u8> {
        self.entry_of(id).whole@
    }

    /// The forward map ties digest `d` to commit `id`.
    pub open spec fn fwd_links(self, d: Seq<u8>, id: Seq<char>) -> bool {
        exists|i: int|
            0 <= i < self.forward@.len() && self.forward@[i].commit@ == id && digest_views(
                self.forward@[i].digests@,
            ).contains(d)
    }

    /// The reverse map ties digest `d` to commit `id`.
    pub open spec fn rev_links(self, d: Seq<u8>, id: Seq<char>) -> bool {
        exists|j: int|
            0 <= j < self.reverse@.len() && self.reverse@[j].digest@ == d && id_views(
                self.reverse@[j].commits@,
            ).contains(id)
    }

    /// The forward map is keyed by commit, each entry's digests are distinct.
    pub open spec fn fwd_wf(self) -> bool {
        &&& forall|i: int, j: int|
            0 <= i < j < self.forward@.len() ==> (#[trigger] self.forward@[i]).commit@ != (
            #[trigger] self.forward@[j]).commit@
        &&& forall|i: int|
            0 <= i < self.forward@.len() ==> digest_views(
                (#[trigger] self.forward@[i]).digests@,
            ).no_duplicates()
    }

    /// The reverse map is keyed by digest, each entry's commits are distinct.
    pub open spec fn rev_wf(self) -> bool {
        &&& forall|i: int, j: int|
            0 <= i < j < self.reverse@.len() ==> (#[trigger] self.reverse@[i]).digest@ != (
            #[trigger] self.reverse@[j]).digest@
        &&& forall|j: int|
            0 <= j < self.reverse@.len() ==> id_views(
                (#[trigger] self.reverse@[j]).commits@,
            ).no_duplicates()
    }

    /// Well-formed: both maps are keyed, and a (digest, commit) pair is in the
    /// forward map exactly when it is in the reverse map.
    pub open spec fn wf(self) -> bool {
        &&& self.fwd_wf()
        &&& self.rev_wf()
        &&& forall|d: Seq<u8>, id: Seq<char>| #[trigger] self.fwd_links(d, id) ==> self.rev_links(d, id)
        &&& forall|d: Seq<u8>, id: Seq<char>| #[trigger] self.rev_links(d, id) ==> self.fwd_links(d, id)
    }

    /// A commit found in the forward map at a given slot is the commit that
    /// the lookup specs speak of.
    pub proof fn lemma_entry_at(self, i: int)
        requires
            self.fwd_wf(),
            0 <= i < self.forward@.len(),
        ensures
            self.has_commit(self.forward@[i].commit@),
            self.entry_of(self.forward@[i].commit@) == self.forward@[i],
    {
        let id = self.forward@[i].commit@;
        assert(self.has_commit(id));
        let j = choose|j: int| 0 <= j < self.forward@.len() && self.forward@[j].commit@ == id;
        if i != j {
            assert(self.forward@[i].commit@ != self.forward@[j].commit@);
        }
    }

    /// An empty index.
    pub fn new() -> (r: LineIdx)
        ensures
            r.wf(),
            r.forward@.len() == 0,
            r.reverse@.len() == 0,
    {
        LineIdx { forward: Vec::new(), reverse: Vec::new() }
    }

    fn find_forward(&self, id: &ObjectId) -> (r: Option<usize>)
        ensures
            match r {
                Some(i) => 0 <= i < self.forward@.len() && self.forward@[i as int].commit@ == id@,
                None => !self.has_commit(id@),
            },
    {
        let mut i: usize = 0;
        while i < self.forward.len()
            invariant
                0 <= i <= self.forward@.len(),
                forall|j: int| 0 <= j < i ==> (#[trigger] self.forward@[j]).commit@ != id@,
            decreases self.forward@.len() - i,
        {
            if (&self.forward[i].commit) == id {
                return Some(i);
            }
            i += 1;
        }
        None
    }

    fn find_reverse(&self, d: &Line) -> (r: Option<usize>)
        ensures
            match r {
                Some(j) => 0 <= j < self.reverse@.len() && self.reverse@[j as int].digest@ == d@,
                None => forall|j: int|
                    0 <= j < self.reverse@.len() ==> (#[trigger] self.reverse@[j]).digest@ != d@,
            },
    {
        let mut j: usize = 0;
        while j < self.reverse.len()
            invariant
                0 <= j <= self.reverse@.len(),
                forall|k: int| 0 <= k < j ==> (#[trigger] self.reverse@[k]).digest@ != d@,
            decreases self.reverse@.len() - j,
        {
            if digest_same(&self.reverse[j].digest, d) {
                return Some(j);
            }
            j += 1;
        }
        None
    }

    /// The distinct line digests recorded for a commit, or nothing if the
    /// commit is not indexed.
    pub fn lines_in(&self, oid: &ObjectId) -> (r: Vec<Line>)
        requires
            self.wf(),
        ensures
            self.has_commit(oid@) ==> digest_views(r@).no_duplicates() && digest_views(r@).to_set()
                == self.commit_digests(oid@) && r@.len() == self.entry_of(oid@).digests@.len(),
            !self.has_commit(oid@) ==> r@.len() == 0,
    {
        match self.find_forward(oid) {
            Some(i) => {
                proof {
                    self.lemma_entry_at(i as int);
                }
                let r = self.forward[i].digests.clone();
                assert(digest_views(r@) =~= digest_views(self.forward@[i as int].digests@));
                r
            },
            None => Vec::new(),
        }
    }

    /// Record in the reverse map that commit `c` carries digest `d`.
    fn rev_merge(&mut self, d: &Line, c: &ObjectId)
        requires
            old(self).rev_wf(),
            !old(self).rev_links(d@, c@),
        ensures
            final(self).rev_wf(),
            final(self).forward == old(self).forward,
            forall|d2: Seq<u8>, id2: Seq<char>| #[trigger]
                final(self).rev_links(d2, id2) <==> old(self).rev_links(d2, id2) || (d2 == d@
                    && id2 == c@),
    {
        let ghost oldrev = self.reverse@;
        match self.find_reverse(d) {
            Some(j) => {
                self.reverse[j].commits.push(c.clone());
                proof {
                    let newrev = self.reverse@;
                    assert(newrev.len() == oldrev.len());
                    assert(forall|i: int|
                        0 <= i < newrev.len() && i != j ==> newrev[i] == oldrev[i]);
                    assert(newrev[j as int].digest == oldrev[j as int].digest);
                    assert(id_views(newrev[j as int].commits@) =~= id_views(
                        oldrev[j as int].commits@,
                    ).push(c@));
                    // c was not yet tied to d, so the entry stays duplicate-free.
                    assert(!id_views(oldrev[j as int].commits@).contains(c@)) by {
                        if id_views(oldrev[j as int].commits@).contains(c@) {
                            assert(old(self).rev_links(d@, c@));
                        }
                    }
                    assert forall|i: int|
                        0 <= i < newrev.len() implies id_views(
                        (#[trigger] newrev[i]).commits@,
                    ).no_duplicates() by {
                        if i == j {
                            broadcast use group_seq_properties;

                            assert(id_views(oldrev[i].commits@).no_duplicates());
                        }
                    }
                    assert forall|d2: Seq<u8>, id2: Seq<char>| #[trigger]
                        self.rev_links(d2, id2) implies old(self).rev_links(d2, id2) || (d2 == d@
                        && id2 == c@) by {
                        let jj = choose|jj: int|
                            0 <= jj < newrev.len() && newrev[jj].digest@ == d2 && id_views(
                                newrev[jj].commits@,
                            ).contains(id2);
                        if jj == j {
                            broadcast use group_seq_properties;

                            if id_views(oldrev[j as int].commits@).contains(id2) {
                                assert(old(self).rev_links(d2, id2));
                            } else {
                                assert(id2 == c@ && d2 == d@);
                            }
                        } else {
                            assert(old(self).rev_links(d2, id2));
                        }
                    }
                    assert forall|d2: Seq<u8>, id2: Seq<char>|
                        old(self).rev_links(d2, id2) || (d2 == d@ && id2 == c@) implies #[trigger]
                        self.rev_links(d2, id2) by {
                        broadcast use group_seq_properties;

                        if old(self).rev_links(d2, id2) {
                            let jj = choose|jj: int|
                                0 <= jj < oldrev.len() && oldrev[jj].digest@ == d2 && id_views(
                                    oldrev[jj].commits@,
                                ).contains(id2);
                            assert(id_views(newrev[jj].commits@).contains(id2));
                        } else {
                            assert(id_views(newrev[j as int].commits@).last() == c@);
                            assert(id_views(newrev[j as int].commits@).contains(c@));
                        }
                    }
                }
            },
            None => {
                let mut commits: Vec<ObjectId> = Vec::new();
                commits.push(c.clone());
                let entry = RevEntry { digest: *d, commits };
                self.reverse.push(entry);
                proof {
                    let newrev = self.reverse@;
                    assert(forall|i: int| 0 <= i < oldrev.len() ==> newrev[i] == oldrev[i]);
                    assert(id_views(newrev.last().commits@) =~= seq![c@]);
                    assert forall|i: int|
                        0 <= i < newrev.len() implies id_views(
                        (#[trigger] newrev[i]).commits@,
                    ).no_duplicates() by {
                        if i == newrev.len() - 1 {
                            assert(id_views(newrev[i].commits@) =~= seq![c@]);
                        }
                    }
                    assert forall|d2: Seq<u8>, id2: Seq<char>| #[trigger]
                        self.rev_links(d2, id2) implies old(self).rev_links(d2, id2) || (d2 == d@
                        && id2 == c@) by {
                        let jj = choose|jj: int|
                            0 <= jj < newrev.len() && newrev[jj].digest@ == d2 && id_views(
                                newrev[jj].commits@,
                            ).contains(id2);
                        if jj == newrev.len() - 1 {
                            assert(id_views(newrev[jj].commits@)[0] == c@);
                            assert(id2 == c@);
                        } else {
                            assert(old(self).rev_links(d2, id2));
                        }
                    }
                    assert forall|d2: Seq<u8>, id2: Seq<char>|
                        old(self).rev_links(d2, id2) || (d2 == d@ && id2 == c@) implies #[trigger]
                        self.rev_links(d2, id2) by {
                        if old(self).rev_links(d2, id2) {
                            let jj = choose|jj: int|
                                0 <= jj < oldrev.len() && oldrev[jj].digest@ == d2 && id_views(
                                    oldrev[jj].commits@,
                                ).contains(id2);
                            assert(newrev[jj].digest@ == d2 && id_views(
                                newrev[jj].commits@,
                            ).contains(id2));
                        } else {
                            assert(id_views(newrev.last().commits@)[0] == c@);
                            assert(id_views(newrev.last().commits@).contains(c@));
                        }
                    }
                }
            },
        }
    }

    /// Record a commit's line digests, both ways round. A commit that is
    /// already indexed is left untouched, so indexing is idempotent.
    pub fn index(&mut self, commit: &ObjectId, diff_lines: &Vec<String>)
        requires
            old(self).wf(),
        ensures
            final(self).wf(),
            old(self).has_commit(commit@) ==> *final(self) == *old(self),
            !old(self).has_commit(commit@) ==> {
                &&& final(self).has_commit(commit@)
                &&& final(self).commit_digests(commit@) == digests_of(line_views(diff_lines@))
                &&& final(self).entry_of(commit@).digests@.len() == digests_of(
                    line_views(diff_lines@),
                ).len()
                &&& final(self).commit_whole(commit@) == line_digest_of(
                    join_lines(line_views(diff_lines@)),
                )
                &&& forall|id: Seq<char>| #[trigger]
                    final(self).has_commit(id) <==> old(self).has_commit(id) || id == commit@
                &&& forall|id: Seq<char>| #[trigger]
                    old(self).has_commit(id) ==> final(self).entry_of(id) == old(self).entry_of(
                        id,
                    )
            },
    {
        if self.find_forward(commit).is_some() {
            return ;
        }
        let ds = line_digests(diff_lines);
        let whole = commit_diff_digest(diff_lines);
        let ghost dviews = digest_views(ds@);
        let mut k: usize = 0;
        proof {
            assert(dviews.take(0) =~= Seq::<Seq<u8>>::empty());
        }
        while k < ds.len()
            invariant
                0 <= k <= ds@.len(),
                dviews == digest_views(ds@),
                dviews.no_duplicates(),
                self.forward == old(self).forward,
                old(self).wf(),
                !old(self).has_commit(commit@),
                self.rev_wf(),
                forall|d2: Seq<u8>, id2: Seq<char>| #[trigger]
                    self.rev_links(d2, id2) <==> old(self).rev_links(d2, id2) || (id2 == commit@
                        && dviews.take(k as int).contains(d2)),
            decreases ds@.len() - k,
        {
            let ghost mid = *self;
            proof {
                // The pair being merged is new: the old index has no record of
                // this commit at all, and this digest was not merged yet.
                assert(!self.rev_links(dviews[k as int], commit@)) by {
                    if old(self).rev_links(dviews[k as int], commit@) {
                        assert(old(self).fwd_links(dviews[k as int], commit@));
                        assert(old(self).has_commit(commit@));
                    }
                    if dviews.take(k as int).contains(dviews[k as int]) {
                        let t = choose|t: int|
                            0 <= t < k && dviews.take(k as int)[t] == dviews[k as int];
                        assert(dviews[t] == dviews[k as int]);
                    }
                }
            }
            self.rev_merge(&ds[k], commit);
            proof {
                assert(dviews.take(k + 1) =~= dviews.take(k as int).push(dviews[k as int]));
                assert forall|d2: Seq<u8>, id2: Seq<char>| #[trigger]
                    self.rev_links(d2, id2) <==> old(self).rev_links(d2, id2) || (id2 == commit@
                        && dviews.take(k + 1).contains(d2)) by {
                    broadcast use group_seq_properties;

                    assert(self.rev_links(d2, id2) <==> mid.rev_links(d2, id2) || (d2
                        == dviews[k as int] && id2 == commit@));
                }
            }
            k += 1;
        }
        proof {
            assert(dviews.take(ds@.len() as int) =~= dviews);
        }
        let ghost prefwd = self.forward@;
        let entry = IdxEntry { commit: commit.clone(), digests: ds, whole };
        let ghost prepush = *self;
        self.forward.push(entry);
        proof {
            let newfwd = self.forward@;
            assert(forall|i: int| 0 <= i < prefwd.len() ==> newfwd[i] == prefwd[i]);
            assert(newfwd.last().commit@ == commit@);
            assert(newfwd.last().digests@ == ds@);
            // pushing a forward entry does not move the reverse map
            assert(self.reverse@ == prepush.reverse@);
            assert forall|d2: Seq<u8>, id2: Seq<char>| #[trigger]
                self.rev_links(d2, id2) == prepush.rev_links(d2, id2) by {
                if prepush.rev_links(d2, id2) {
                    let jw = choose|jw: int|
                        0 <= jw < prepush.reverse@.len() && prepush.reverse@[jw].digest@ == d2
                            && id_views(prepush.reverse@[jw].commits@).contains(id2);
                    assert(self.reverse@[jw].digest@ == d2 && id_views(
                        self.reverse@[jw].commits@,
                    ).contains(id2));
                }
                if self.rev_links(d2, id2) {
                    let jw = choose|jw: int|
                        0 <= jw < self.reverse@.len() && self.reverse@[jw].digest@ == d2
                            && id_views(self.reverse@[jw].commits@).contains(id2);
                    assert(prepush.reverse@[jw].digest@ == d2 && id_views(
                        prepush.reverse@[jw].commits@,
                    ).contains(id2));
                }
            }
            // keyed: the new commit was absent from every old slot
            assert forall|i: int, j: int|
                0 <= i < j < newfwd.len() implies (#[trigger] newfwd[i]).commit@ != (
            #[trigger] newfwd[j]).commit@ by {
                if j == newfwd.len() - 1 {
                    if newfwd[i].commit@ == commit@ {
                        assert(old(self).has_commit(commit@));
                    }
                }
            }
            assert(self.fwd_wf());
            // the two maps still agree
            assert forall|d2: Seq<u8>, id2: Seq<char>| #[trigger]
                self.fwd_links(d2, id2) implies self.rev_links(d2, id2) by {
                let i = choose|i: int|
                    0 <= i < newfwd.len() && newfwd[i].commit@ == id2 && digest_views(
                        newfwd[i].digests@,
                    ).contains(d2);
                if i < newfwd.len() - 1 {
                    assert(old(self).fwd_links(d2, id2));
                }
            }
            assert forall|d2: Seq<u8>, id2: Seq<char>| #[trigger]
                self.rev_links(d2, id2) implies self.fwd_links(d2, id2) by {
                if old(self).rev_links(d2, id2) {
                    assert(old(self).fwd_links(d2, id2));
                    let i = choose|i: int|
                        0 <= i < prefwd.len() && prefwd[i].commit@ == id2 && digest_views(
                            prefwd[i].digests@,
                        ).contains(d2);
                    assert(newfwd[i].commit@ == id2 && digest_views(newfwd[i].digests@).contains(
                        d2,
                    ));
                } else {
                    assert(newfwd.last().commit@ == id2 && digest_views(
                        newfwd.last().digests@,
                    ).contains(d2));
                }
            }
            // the new entry is what the lookup specs return for this commit
            self.lemma_entry_at(newfwd.len() - 1);
            assert(self.commit_digests(commit@) == digests_of(line_views(diff_lines@)));
            dviews.unique_seq_to_set();
            // old commits keep their entries
            assert forall|id: Seq<char>| #[trigger]
                old(self).has_commit(id) implies self.entry_of(id) == old(self).entry_of(id) by {
                let i = choose|i: int| 0 <= i < prefwd.len() && prefwd[i].commit@ == id;
                old(self).lemma_entry_at(i);
                self.lemma_entry_at(i);
            }
            assert forall|id: Seq<char>| #[trigger]
                self.has_commit(id) implies old(self).has_commit(id) || id == commit@ by {
                let i = choose|i: int| 0 <= i < newfwd.len() && newfwd[i].commit@ == id;
                if i < newfwd.len() - 1 {
                    assert(prefwd[i].commit@ == id);
                }
            }
        }
    }

    /// The digest set of an indexed commit is finite and of machine size.
    pub proof fn lemma_commit_digests_size(self, id: Seq<char>)
        requires
            self.wf(),
            self.has_commit(id),
        ensures
            self.commit_digests(id).finite(),
            self.commit_digests(id).len() == self.entry_of(id).digests@.len(),
            self.commit_digests(id).len() <= usize::MAX,
    {
        broadcast use vstd::seq_lib::seq_to_set_is_finite;
        broadcast use vstd::set::group_set_axioms;

        let i = choose|i: int| 0 <= i < self.forward@.len() && self.forward@[i].commit@ == id;
        self.lemma_entry_at(i);
        assert(digest_views(self.forward@[i].digests@).no_duplicates());
        digest_views(self.forward@[i].digests@).unique_seq_to_set();
        assert(vstd::std_specs::vec::spec_vec_len(&self.forward@[i].digests)
            == self.forward@[i].digests@.len());
    }

    /// The whole-diff digest recorded for a commit, if it is indexed.
    pub fn whole_of(&self, oid: &ObjectId) -> (r: Option<Line>)
        requires
            self.wf(),
        ensures
            match r {
                Some(w) => self.has_commit(oid@) && w@ == self.commit_whole(oid@),
                None => !self.has_commit(oid@),
            },
    {
        match self.find_forward(oid) {
            Some(i) => {
                proof {
                    self.lemma_entry_at(i as int);
                }
                Some(self.forward[i].whole)
            },
            None => None,
        }
    }

    /// The commits whose diffs carry the given line digest. The reverse map
    /// is consulted; by well-formedness that is exactly what the forward map
    /// would say.
    pub fn commits_containing(&self, line: &Line) -> (r: Vec<ObjectId>)
        requires
            self.wf(),
        ensures
            id_views(r@).no_duplicates(),
            forall|id: Seq<char>| #[trigger]
                id_views(r@).contains(id) <==> self.rev_links(line@, id),
    {
        match self.find_reverse(line) {
            Some(j) => {
                let r = self.reverse[j].commits.clone();
                assert(id_views(r@) =~= id_views(self.reverse@[j as int].commits@));
                assert forall|id: Seq<char>| #[trigger]
                    id_views(r@).contains(id) implies self.rev_links(line@, id) by {}
                assert forall|id: Seq<char>| self.rev_links(line@, id) implies #[trigger]
                    id_views(r@).contains(id) by {
                    let j2 = choose|j2: int|
                        0 <= j2 < self.reverse@.len() && self.reverse@[j2].digest@ == line@
                            && id_views(self.reverse@[j2].commits@).contains(id);
                    if j2 != j as int {
                        assert(self.reverse@[j2].digest@ != self.reverse@[j as int].digest@);
                    }
                }
                r
            },
            None => {
                let r: Vec<ObjectId> = Vec::new();
                proof {
                    assert(id_views(r@) =~= Seq::<Seq<char>>::empty());
                    assert forall|id: Seq<char>| !self.rev_links(line@, id) by {}
                }
                r
            },
        }
    }
}

/// How many of the digests in `q` the set `r` carries.
pub open spec fn count_shared(q: Seq<Seq<u8>>, r: Set<Seq<u8>>) -> nat
    decreases q.len(),
{
    if q.len() == 0 {
        0
    } else {
        count_shared(q.drop_last(), r) + if r.contains(q.last()) {
            1nat
        } else {
            0nat
        }
    }
}

/// Counting shared digests over a duplicate-free list is the cardinality of
/// the set intersection.
pub proof fn lemma_count_shared_is_intersection(q: Seq<Seq<u8>>, r: Set<Seq<u8>>)
    requires
        q.no_duplicates(),
        r.finite(),
    ensures
        count_shared(q, r) == q.to_set().intersect(r).len(),
    decreases q.len(),
{
    broadcast use vstd::seq_lib::seq_to_set_is_finite;
    broadcast use vstd::set::group_set_axioms;

    if q.len() == 0 {
        assert(q.to_set().intersect(r) =~= Set::<Seq<u8>>::empty());
    } else {
        let front = q.drop_last();
        let x = q.last();
        assert(front.no_duplicates());
        lemma_count_shared_is_intersection(front, r);
        assert(q =~= front.push(x));
        front.lemma_push_to_set_commute(x);
        assert(!front.to_set().contains(x)) by {
            if front.to_set().contains(x) {
                let j = choose|j: int| 0 <= j < front.len() && front[j] == x;
                assert(q[j] == q[q.len() - 1]);
            }
        }
        if r.contains(x) {
            assert(q.to_set().intersect(r) =~= front.to_set().intersect(r).insert(x));
            assert(!front.to_set().intersect(r).contains(x));
        } else {
            assert(q.to_set().intersect(r) =~= front.to_set().intersect(r));
        }
    }
}

/// The overlap of two digest sets is meaningful and in range: it is no larger
/// than either side.
pub proof fn lemma_spec_comparison_wf(q: Set<Seq<u8>>, c: Set<Seq<u8>>)
    requires
        q.finite(),
        c.finite(),
        q.len() <= usize::MAX,
        c.len() <= usize::MAX,
    ensures
        comparison_wf(spec_comparison(q, c)),
        spec_comparison(q, c).lines_in_left == q.len(),
        spec_comparison(q, c).lines_in_both == q.intersect(c).len(),
        spec_comparison(q, c).lines_in_right == c.len(),
{
    broadcast use vstd::set::group_set_axioms;

    vstd::set_lib::lemma_len_intersect(q, c);
    assert(q.intersect(c) <= c);
    vstd::set_lib::lemma_len_subset(q.intersect(c), c);
}

/// The digest set of a diff is finite and no larger than its line count.
pub proof fn lemma_digests_of_bounds(lines: Seq<Seq<char>>)
    ensures
        digests_of(lines).finite(),
        digests_of(lines).len() <= lines.len(),
{
    broadcast use vstd::seq_lib::seq_to_set_is_finite;
    broadcast use vstd::set::group_set_axioms;

    lines.map_values(|l: Seq<char>| line_digest_of(l)).lemma_cardinality_of_set();
}

/// A commit always matches itself perfectly: the overlap of a digest set with
/// itself is the whole set, so both sides of the comparison equal the overlap
/// and the Dice score is exactly one.
pub proof fn lemma_similarity_reflexive(q: Set<Seq<u8>>)
    requires
        q.finite(),
        q.len() <= usize::MAX,
    ensures
        spec_comparison(q, q).lines_in_both == spec_comparison(q, q).lines_in_left,
        spec_comparison(q, q).lines_in_both == spec_comparison(q, q).lines_in_right,
        2 * spec_comparison(q, q).lines_in_both == spec_comparison(q, q).lines_in_left
            + spec_comparison(q, q).lines_in_right,
{
    assert(q.intersect(q) =~= q);
}

/// Similarity is symmetric: the comparison of `a` against `b` is the mirror
/// image of the comparison of `b` against `a` — the overlap is the same and
/// the two sides swap — so the two directions rank each other equally.
pub proof fn lemma_similarity_symmetric(a: Set<Seq<u8>>, b: Set<Seq<u8>>)
    ensures
        spec_comparison(a, b).lines_in_both == spec_comparison(b, a).lines_in_both,
        spec_comparison(a, b).lines_in_left == spec_comparison(b, a).lines_in_right,
        spec_comparison(a, b).lines_in_right == spec_comparison(b, a).lines_in_left,
        dice_ge(spec_comparison(a, b), spec_comparison(b, a)),
        dice_ge(spec_comparison(b, a), spec_comparison(a, b)),
{
    assert(a.intersect(b) =~= b.intersect(a));
}

impl LineIdx {
    /// Index every annotated commit that is not indexed yet. Safe to call
    /// again at any time: indexed commits are left as they are.
    pub fn refresh(&mut self, annotated: &Vec<(ObjectId, Vec<String>)>)
        requires
            old(self).wf(),
        ensures
            final(self).wf(),
            forall|k: int|
                0 <= k < annotated@.len() ==> final(self).has_commit(
                    (#[trigger] annotated@[k]).0@,
                ),
            forall|id: Seq<char>| #[trigger]
                old(self).has_commit(id) ==> final(self).has_commit(id) && final(self).entry_of(id)
                    == old(self).entry_of(id),
            forall|id: Seq<char>| #[trigger]
                final(self).has_commit(id) ==> old(self).has_commit(id) || exists|k: int|
                    0 <= k < annotated@.len() && annotated@[k].0@ == id,
    {
        let mut k: usize = 0;
        while k < annotated.len()
            invariant
                0 <= k <= annotated@.len(),
                self.wf(),
                forall|j: int|
                    0 <= j < k ==> self.has_commit((#[trigger] annotated@[j]).0@),
                forall|id: Seq<char>| #[trigger]
                    old(self).has_commit(id) ==> self.has_commit(id) && self.entry_of(id) == old(
                        self,
                    ).entry_of(id),
                forall|id: Seq<char>| #[trigger]
                    self.has_commit(id) ==> old(self).has_commit(id) || exists|j: int|
                        0 <= j < k && annotated@[j].0@ == id,
            decreases annotated@.len() - k,
        {
            let ghost mid = *self;
            self.index(&annotated[k].0, &annotated[k].1);
            proof {
                if mid.has_commit(annotated@[k as int].0@) {
                } else {
                    assert(self.has_commit(annotated@[k as int].0@));
                }
                assert forall|id: Seq<char>| #[trigger]
                    self.has_commit(id) implies mid.has_commit(id) || id
                    == annotated@[k as int].0@ by {}
            }
            k += 1;
        }
    }

    /// For each indexed commit sharing at least one line digest with the
    /// given diff, how much the two overlap, ranked by descending Dice score.
    pub fn similiar_commits(&self, diff_lines: &Vec<String>) -> (r: Vec<(ObjectId, Comparison)>)
        requires
            self.wf(),
        ensures
            forall|k: int|
                0 <= k < r@.len() ==> {
                    &&& self.has_commit((#[trigger] r@[k]).0@)
                    &&& r@[k].1 == spec_comparison(
                        digests_of(line_views(diff_lines@)),
                        self.commit_digests(r@[k].0@),
                    )
                    &&& digests_of(line_views(diff_lines@)).intersect(
                        self.commit_digests(r@[k].0@),
                    ).len() > 0
                },
            forall|id: Seq<char>|
                self.has_commit(id) && digests_of(line_views(diff_lines@)).intersect(
                    #[trigger] self.commit_digests(id),
                ).len() > 0 ==> exists|k: int| 0 <= k < r@.len() && r@[k].0@ == id,
            forall|k1: int, k2: int| 0 <= k1 < k2 < r@.len() ==> r@[k1].0@ != r@[k2].0@,
            forall|k1: int, k2: int| 0 <= k1 < k2 < r@.len() ==> dice_ge(r@[k1].1, r@[k2].1),
    {
        broadcast use vstd::seq_lib::seq_to_set_is_finite;
        broadcast use vstd::set::group_set_axioms;

        let q = line_digests(diff_lines);
        let ghost qset = digests_of(line_views(diff_lines@));
        proof {
            digest_views(q@).unique_seq_to_set();
        }
        let mut out: Vec<(ObjectId, Comparison)> = Vec::new();
        let mut fi: usize = 0;
        while fi < self.forward.len()
            invariant
                0 <= fi <= self.forward@.len(),
                self.wf(),
                digest_views(q@).no_duplicates(),
                digest_views(q@).to_set() == qset,
                q@.len() == qset.len(),
                qset == digests_of(line_views(diff_lines@)),
                forall|k: int|
                    0 <= k < out@.len() ==> {
                        &&& self.has_commit((#[trigger] out@[k]).0@)
                        &&& out@[k].1 == spec_comparison(qset, self.commit_digests(out@[k].0@))
                        &&& qset.intersect(self.commit_digests(out@[k].0@)).len() > 0
                        &&& out@[k].1.lines_in_left + out@[k].1.lines_in_right > 0
                        &&& exists|j: int| 0 <= j < fi && self.forward@[j].commit@ == out@[k].0@
                    },
                forall|k1: int, k2: int| 0 <= k1 < k2 < out@.len() ==> out@[k1].0@ != out@[k2].0@,
                forall|j: int|
                    0 <= j < fi && qset.intersect(
                        #[trigger] self.commit_digests(self.forward@[j].commit@),
                    ).len() > 0 ==> exists|k: int|
                        0 <= k < out@.len() && out@[k].0@ == self.forward@[j].commit@,
            decreases self.forward@.len() - fi,
        {
            let e = &self.forward[fi];
            let left = q.len();
            let right = e.digests.len();
            let ghost eset = self.commit_digests(e.commit@);
            proof {
                self.lemma_entry_at(fi as int);
                assert(digest_views(self.forward@[fi as int].digests@).no_duplicates());
                assert(eset == digest_views(e.digests@).to_set());
                digest_views(e.digests@).unique_seq_to_set();
                assert(eset.len() == right);
                assert(qset.len() == left);
            }
            let mut both: usize = 0;
            let mut t: usize = 0;
            proof {
                assert(digest_views(q@).take(0) =~= Seq::<Seq<u8>>::empty());
            }
            while t < q.len()
                invariant
                    0 <= t <= q@.len(),
                    both <= t,
                    eset == digest_views(e.digests@).to_set(),
                    both == count_shared(digest_views(q@).take(t as int), eset),
                decreases q@.len() - t,
            {
                let ghost qv = digest_views(q@);
                let shared = contains_digest(&e.digests, &q[t]);
                proof {
                    assert(qv.take(t + 1).drop_last() =~= qv.take(t as int));
                    assert(qv.take(t + 1).last() == qv[t as int]);
                    assert(eset.contains(qv[t as int]) == digest_views(e.digests@).contains(
                        qv[t as int],
                    ));
                }
                if shared {
                    both += 1;
                }
                t += 1;
            }
            proof {
                assert(digest_views(q@).take(q@.len() as int) =~= digest_views(q@));
                lemma_count_shared_is_intersection(digest_views(q@), eset);
                lemma_spec_comparison_wf(qset, eset);
            }
            let ghost preout = out@;
            if both > 0 {
                let cmp = Comparison {
                    lines_in_left: left,
                    lines_in_both: both,
                    lines_in_right: right,
                };
                out.push((e.commit.clone(), cmp));
                proof {
                    assert(out@[out@.len() - 1].0@ == e.commit@);
                    assert(out@[out@.len() - 1].0@ == self.forward@[fi as int].commit@);
                    assert(cmp == spec_comparison(qset, eset));
                    assert forall|k1: int, k2: int|
                        0 <= k1 < k2 < out@.len() implies out@[k1].0@ != out@[k2].0@ by {
                        if k2 == out@.len() - 1 {
                            let j = choose|j: int|
                                0 <= j < fi && self.forward@[j].commit@ == out@[k1].0@;
                            assert(self.forward@[j].commit@ != self.forward@[fi as int].commit@);
                        }
                    }
                }
            }
            proof {
                assert forall|j: int|
                    0 <= j < fi + 1 && qset.intersect(
                        #[trigger] self.commit_digests(self.forward@[j].commit@),
                    ).len() > 0 implies exists|k: int|
                    0 <= k < out@.len() && out@[k].0@ == self.forward@[j].commit@ by {
                    if j == fi {
                        assert(self.forward@[j].commit@ == e.commit@);
                        assert(self.commit_digests(e.commit@) == eset);
                        assert(both == qset.intersect(eset).len());
                        assert(both > 0);
                        assert(out@[out@.len() - 1].0@ == self.forward@[j].commit@);
                    } else {
                        let k = choose|k: int|
                            0 <= k < preout.len() && preout[k].0@ == self.forward@[j].commit@;
                        assert(out@[k].0@ == self.forward@[j].commit@);
                    }
                }
            }
            fi += 1;
        }
        let r = sort_by_dice(out);
        proof {
            broadcast use group_seq_properties;

            let ghost outv = out@;
            assert forall|k: int|
                0 <= k < r@.len() implies {
                &&& self.has_commit((#[trigger] r@[k]).0@)
                &&& r@[k].1 == spec_comparison(qset, self.commit_digests(r@[k].0@))
                &&& qset.intersect(self.commit_digests(r@[k].0@)).len() > 0
            } by {
                assert(r@.contains(r@[k]));
                assert(r@.to_multiset().count(r@[k]) > 0);
                assert(outv.contains(r@[k]));
                let j = choose|j: int| 0 <= j < outv.len() && outv[j] == r@[k];
            }
            assert forall|id: Seq<char>|
                self.has_commit(id) && qset.intersect(
                    #[trigger] self.commit_digests(id),
                ).len() > 0 implies exists|k: int| 0 <= k < r@.len() && r@[k].0@ == id by {
                let i = choose|i: int|
                    0 <= i < self.forward@.len() && self.forward@[i].commit@ == id;
                self.lemma_entry_at(i);
                let k0 = choose|k0: int| 0 <= k0 < outv.len() && outv[k0].0@ == id;
                assert(outv.contains(outv[k0]));
                assert(r@.to_multiset().count(outv[k0]) > 0);
                assert(r@.contains(outv[k0]));
                let k = choose|k: int| 0 <= k < r@.len() && r@[k] == outv[k0];
            }
        }
        r
    }
}

/// The candidates arranged by descending Dice score: a permutation of the
/// input, with distinct commits kept distinct.
fn sort_by_dice(v: Vec<(ObjectId, Comparison)>) -> (r: Vec<(ObjectId, Comparison)>)
    requires
        forall|k: int|
            0 <= k < v@.len() ==> (#[trigger] v@[k]).1.lines_in_left + v@[k].1.lines_in_right > 0,
        forall|k1: int, k2: int| 0 <= k1 < k2 < v@.len() ==> v@[k1].0@ != v@[k2].0@,
    ensures
        r@.to_multiset() == v@.to_multiset(),
        forall|k1: int, k2: int| 0 <= k1 < k2 < r@.len() ==> dice_ge(r@[k1].1, r@[k2].1),
        forall|k1: int, k2: int| 0 <= k1 < k2 < r@.len() ==> r@[k1].0@ != r@[k2].0@,
{
    broadcast use group_seq_properties;

    let ghost orig = v@;
    let mut v = v;
    let mut r: Vec<(ObjectId, Comparison)> = Vec::new();
    proof {
        assert(v@.to_multiset().add(r@.to_multiset()) =~= orig.to_multiset());
        assert(v@ =~= orig.take(v@.len() as int));
    }
    while v.len() > 0
        invariant
            v@.len() <= orig.len(),
            v@ == orig.take(v@.len() as int),
            v@.to_multiset().add(r@.to_multiset()) == orig.to_multiset(),
            forall|k: int|
                0 <= k < orig.len() ==> (#[trigger] orig[k]).1.lines_in_left
                    + orig[k].1.lines_in_right > 0,
            forall|k1: int, k2: int| 0 <= k1 < k2 < orig.len() ==> orig[k1].0@ != orig[k2].0@,
            forall|k: int|
                0 <= k < r@.len() ==> exists|j: int|
                    v@.len() <= j < orig.len() && orig[j] == (#[trigger] r@[k]),
            forall|k1: int, k2: int| 0 <= k1 < k2 < r@.len() ==> dice_ge(r@[k1].1, r@[k2].1),
            forall|k1: int, k2: int| 0 <= k1 < k2 < r@.len() ==> r@[k1].0@ != r@[k2].0@,
        decreases v@.len(),
    {
        let ghost prev = v@;
        let e = match v.pop() {
            Some(e) => e,
            None => {
                proof {
                    assert(false);
                }
                unreached()
            },
        };
        proof {
            assert(prev =~= v@.push(e));
            assert(prev == v@.push(e));
            vstd::seq_lib::to_multiset_build(v@, e);
            assert(prev.to_multiset() == v@.to_multiset().insert(e));
            assert(prev == orig.take(prev.len() as int));
            assert forall|i: int| 0 <= i < v@.len() implies v@[i] == orig[i] by {
                assert(v@[i] == prev[i]);
                assert(prev[i] == orig.take(prev.len() as int)[i]);
            }
            assert(v@ =~= orig.take(v@.len() as int));
            assert(orig.take(prev.len() as int)[prev.len() - 1] == e);
            assert(orig[v@.len() as int] == e);
        }
        let mut pos: usize = 0;
        let n = r.len();
        while pos < n
            invariant_except_break
                0 <= pos <= n,
            invariant
                n == r@.len(),
                forall|k: int| 0 <= k < pos ==> dice_ge((#[trigger] r@[k]).1, e.1),
            ensures
                0 <= pos <= n,
                pos < n ==> !dice_ge(r@[pos as int].1, e.1),
            decreases n - pos,
        {
            if !dice_ge_exec(&r[pos].1, &e.1) {
                break ;
            }
            pos += 1;
        }
        let ghost prer = r@;
        let ghost ghost_e = e;
        proof {
            lemma_dice_ge_total(prer[pos as int].1, ghost_e.1);
        }
        r.insert(pos, e);
        proof {
            assert(r@ == prer.insert(pos as int, ghost_e));
            vstd::seq_lib::to_multiset_insert(prer, pos as int, ghost_e);
            // the inserted element stands where the order puts it
            assert(forall|k: int| 0 <= k < pos ==> r@[k] == prer[k]);
            assert(forall|k: int| pos < k < r@.len() ==> r@[k] == prer[k - 1]);
            assert(r@[pos as int] == ghost_e);
            let ghost je = v@.len() as int;
            assert forall|k1: int, k2: int|
                0 <= k1 < k2 < r@.len() implies dice_ge(r@[k1].1, r@[k2].1) by {
                if k1 == pos as int && k2 > pos as int {
                    // e beats what it was inserted before, and order carries on
                    assert(prer[k2 - 1].1.lines_in_left + prer[k2 - 1].1.lines_in_right > 0) by {
                        let j = choose|j: int|
                            prev.len() <= j < orig.len() && orig[j] == prer[k2 - 1];
                    }
                    assert(ghost_e.1.lines_in_left + ghost_e.1.lines_in_right > 0);
                    assert(prer[pos as int].1.lines_in_left + prer[pos as int].1.lines_in_right
                        > 0) by {
                        let j = choose|j: int|
                            prev.len() <= j < orig.len() && orig[j] == prer[pos as int];
                    }
                    if k2 - 1 > pos as int {
                        lemma_dice_ge_trans(ghost_e.1, prer[pos as int].1, prer[k2 - 1].1);
                    }
                } else if k2 == pos as int {
                    assert(dice_ge(r@[k1].1, ghost_e.1));
                }
            }
            assert forall|k1: int, k2: int|
                0 <= k1 < k2 < r@.len() implies r@[k1].0@ != r@[k2].0@ by {
                if k1 == pos as int || k2 == pos as int {
                    let other = if k1 == pos as int {
                        r@[k2]
                    } else {
                        r@[k1]
                    };
                    if other != ghost_e {
                        let j = choose|j: int| prev.len() <= j < orig.len() && orig[j] == other;
                        assert(orig[je] == ghost_e);
                        assert(orig[j].0@ != orig[je].0@);
                    } else {
                        // two copies of one element cannot both come from the
                        // distinct-id input
                        let j = choose|j: int| prev.len() <= j < orig.len() && orig[j] == other;
                        assert(orig[j].0@ != orig[je].0@);
                    }
                }
            }
            assert forall|k: int|
                0 <= k < r@.len() implies exists|j: int|
                v@.len() <= j < orig.len() && orig[j] == (#[trigger] r@[k]) by {
                if k == pos as int {
                    assert(orig[je] == r@[k]);
                } else {
                    let old_k = if k < pos as int {
                        k
                    } else {
                        k - 1
                    };
                    let j = choose|j: int| prev.len() <= j < orig.len() && orig[j] == prer[old_k];
                    assert(orig[j] == r@[k]);
                }
            }
            assert(v@.to_multiset().add(r@.to_multiset()) =~= orig.to_multiset());
        }
    }
    proof {
        assert(v@.to_multiset() =~= Multiset::<(ObjectId, Comparison)>::empty()) by {
            assert(v@ =~= Seq::<(ObjectId, Comparison)>::empty());
        }
        assert(r@.to_multiset() =~= orig.to_multiset());
    }
    r
}

} // verus!
