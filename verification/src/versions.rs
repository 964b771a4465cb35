//! The version ledger: a per-change-request, append-only sequence of
//! (base, head) windows, numbered from zero without gaps, reconciled against
//! a remote that only remembers its recent history.

use crate::ids::{MergeRequest, ObjectId};
use vstd::prelude::*;

verus! {

/// A version number of a change request: zero-based and consecutive.
#[derive(Clone, Copy, Debug, PartialEq, Eq, Structural)]
pub struct Version(pub u8);

/// One recorded window of a change request: at this version, the diff under
/// review ran from `base` to `head`.
#[derive(Debug)]
pub struct VersionInfo {
    pub version: Version,
    pub base: ObjectId,
    pub head: ObjectId,
}

impl Clone for VersionInfo {
    fn clone(&self) -> (r: Self)
        ensures
            r == *self,
    {
        VersionInfo { version: self.version, base: self.base.clone(), head: self.head.clone() }
    }
}

/// What identifies a version record: its number and the two commit addresses.
pub open spec fn vi_view(v: VersionInfo) -> (int, Seq<char>, Seq<char>) {
    (v.version.0 as int, v.base@, v.head@)
}

/// Whether two version records say the same thing.
pub fn vi_same(a: &VersionInfo, b: &VersionInfo) -> (r: bool)
    ensures
        r == (vi_view(*a) == vi_view(*b)),
{
    a.version.0 == b.version.0 && (&a.base) == (&b.base) && (&a.head) == (&b.head)
}

/// A change request's ledger is well-formed when the record at each slot
/// carries that slot's number: versions are zero-based, strictly increasing
/// and gap-free.
pub open spec fn versions_wf(vs: Seq<VersionInfo>) -> bool {
    forall|i: int| 0 <= i < vs.len() ==> (#[trigger] vs[i]).version.0 == i
}

/// A change request and its recorded version windows.
pub struct MRWithVersions {
    pub mr: MergeRequest,
    pub versions: Vec<VersionInfo>,
}

/// The highest-numbered version on record, or nothing.
pub fn latest(versions: &Vec<VersionInfo>) -> (r: Option<&VersionInfo>)
    ensures
        match r {
            Some(v) => versions@.len() > 0 && *v == versions@.last(),
            None => versions@.len() == 0,
        },
{
    if versions.len() == 0 {
        None
    } else {
        Some(&versions[versions.len() - 1])
    }
}

/// Whether the observed head differs from the recorded latest head, which is
/// exactly when a new version must be recorded.
pub open spec fn spec_needs_update(vs: Seq<VersionInfo>, head: Seq<char>) -> bool {
    vs.len() == 0 || vs.last().head@ != head
}

/// Whether `insert_if_newer` would record a new version for this head.
pub fn needs_update(versions: &Vec<VersionInfo>, current_head: &ObjectId) -> (r: bool)
    ensures
        r == spec_needs_update(versions@, current_head@),
{
    if versions.len() == 0 {
        true
    } else {
        !((&versions[versions.len() - 1].head) == current_head)
    }
}

/// Record a new (base, head) window if the observed head moved: the new
/// version is numbered one past the previous one, or zero for the first.
/// An unchanged head records nothing and returns nothing.
pub fn insert_if_newer(versions: &mut Vec<VersionInfo>, current_head: &ObjectId, base: ObjectId)
    -> (r: Option<VersionInfo>)
    requires
        versions_wf(old(versions)@),
        spec_needs_update(old(versions)@, current_head@) ==> old(versions)@.len() < 256,
    ensures
        versions_wf(final(versions)@),
        !spec_needs_update(old(versions)@, current_head@) ==> r is None && final(versions)@ == old(
            versions,
        )@,
        spec_needs_update(old(versions)@, current_head@) ==> {
            &&& final(versions)@.len() == old(versions)@.len() + 1
            &&& final(versions)@ == old(versions)@.push(final(versions)@.last())
            &&& final(versions)@.last().version.0 == old(versions)@.len()
            &&& final(versions)@.last().base == base
            &&& final(versions)@.last().head == *current_head
            &&& r == Some(final(versions)@.last())
        },
{
    if !needs_update(versions, current_head) {
        return None;
    }
    let next = Version(versions.len() as u8);
    let info = VersionInfo { version: next, base, head: current_head.clone() };
    let r = info.clone();
    versions.push(info);
    Some(r)
}

/// The slot of the highest-numbered record matching the given (base, head),
/// or -1 when none does.
pub open spec fn last_match(vs: Seq<VersionInfo>, base: Seq<char>, head: Seq<char>) -> int
    decreases vs.len(),
{
    if vs.len() == 0 {
        -1
    } else if vs.last().base@ == base && vs.last().head@ == head {
        vs.len() - 1
    } else {
        last_match(vs.drop_last(), base, head)
    }
}

pub proof fn lemma_last_match_bounds(vs: Seq<VersionInfo>, base: Seq<char>, head: Seq<char>)
    ensures
        -1 <= last_match(vs, base, head) < vs.len(),
        last_match(vs, base, head) >= 0 ==> vs[last_match(vs, base, head)].base@ == base
            && vs[last_match(vs, base, head)].head@ == head,
    decreases vs.len(),
{
    if vs.len() != 0 && !(vs.last().base@ == base && vs.last().head@ == head) {
        lemma_last_match_bounds(vs.drop_last(), base, head);
    }
}

/// Where the numbering of remote-reported versions starts: at the number of
/// the stored version matching the most recent remote pair when one does, one
/// past the last stored version otherwise, and at zero for a bare ledger.
pub open spec fn spec_start_at(vs: Seq<VersionInfo>, remote: Seq<(ObjectId, ObjectId)>) -> int {
    if remote.len() == 0 {
        0
    } else {
        let m = last_match(vs, remote[0].0@, remote[0].1@);
        if m >= 0 {
            m
        } else {
            vs.len() as int
        }
    }
}

/// Number the remote's recent (base, head) pairs, given newest first: the
/// oldest reported pair takes the starting number and the rest follow. When
/// the most recent reported pair matches a stored version, numbering realigns
/// to continue from that version; otherwise it continues past the ledger.
pub fn reconcile(versions: &Vec<VersionInfo>, remote: &Vec<(ObjectId, ObjectId)>) -> (r: Vec<
    VersionInfo,
>)
    requires
        versions_wf(versions@),
        versions@.len() + remote@.len() <= 256,
    ensures
        r@.len() == remote@.len(),
        forall|i: int|
            0 <= i < r@.len() ==> {
                &&& (#[trigger] r@[i]).version.0 == spec_start_at(versions@, remote@) + i
                &&& r@[i].base == remote@[remote@.len() - 1 - i].0
                &&& r@[i].head == remote@[remote@.len() - 1 - i].1
            },
{
    let mut r: Vec<VersionInfo> = Vec::new();
    if remote.len() == 0 {
        return r;
    }
    proof {
        lemma_last_match_bounds(versions@, remote@[0].0@, remote@[0].1@);
    }
    // scan from the newest stored version for one matching the most recent
    // remote pair
    let ghost m = last_match(versions@, remote@[0].0@, remote@[0].1@);
    let mut start: usize = versions.len();
    let mut probe: usize = versions.len();
    proof {
        assert(versions@.take(versions@.len() as int) =~= versions@);
    }
    loop
        invariant_except_break
            0 <= probe <= versions@.len(),
            last_match(versions@.take(probe as int), remote@[0].0@, remote@[0].1@) == m,
            start == versions@.len(),
            remote@.len() > 0,
        invariant
            m == last_match(versions@, remote@[0].0@, remote@[0].1@),
        ensures
            start as int == if m >= 0 {
                m
            } else {
                versions@.len() as int
            },
        decreases probe,
    {
        if probe == 0 {
            proof {
                assert(versions@.take(0).len() == 0);
            }
            break ;
        }
        let ghost pretake = versions@.take(probe as int);
        proof {
            assert(pretake.len() == probe);
            assert(pretake.last() == versions@[probe - 1]);
            assert(pretake.drop_last() =~= versions@.take(probe - 1));
        }
        let cand = &versions[probe - 1];
        if str_pair_eq(&cand.base, &cand.head, &remote[0].0, &remote[0].1) {
            start = probe - 1;
            break ;
        }
        probe -= 1;
    }
    proof {
        assert(start == spec_start_at(versions@, remote@));
    }
    let n = remote.len();
    let mut i: usize = 0;
    while i < n
        invariant
            0 <= i <= n,
            n == remote@.len(),
            start + n <= 256,
            start == spec_start_at(versions@, remote@),
            r@.len() == i,
            forall|k: int|
                0 <= k < i ==> {
                    &&& (#[trigger] r@[k]).version.0 == start + k
                    &&& r@[k].base == remote@[n - 1 - k].0
                    &&& r@[k].head == remote@[n - 1 - k].1
                },
        decreases n - i,
    {
        let pair = &remote[n - 1 - i];
        r.push(
            VersionInfo {
                version: Version((start + i) as u8),
                base: pair.0.clone(),
                head: pair.1.clone(),
            },
        );
        i += 1;
    }
    r
}

/// Whether two (base, head) pairs coincide.
fn str_pair_eq(b1: &ObjectId, h1: &ObjectId, b2: &ObjectId, h2: &ObjectId) -> (r: bool)
    ensures
        r == (b1@ == b2@ && h1@ == h2@),
{
    b1 == b2 && h1 == h2
}

/// A version number already on record that the remote now reports with a
/// different (base, head): surfaced as a warning, never overwritten.
#[derive(Debug)]
pub struct VersionMismatch {
    pub stored: VersionInfo,
    pub reported: VersionInfo,
}

/// The mismatches that folding the reported versions into the ledger finds:
/// for each reported version whose number is already on record with different
/// content, the stored and the reported record side by side.
pub open spec fn spec_mismatches(vs: Seq<VersionInfo>, recent: Seq<VersionInfo>) -> Seq<
    VersionMismatch,
>
    decreases recent.len(),
{
    if recent.len() == 0 {
        seq![]
    } else {
        let rest = spec_mismatches(vs, recent.drop_last());
        let v = recent.last();
        if v.version.0 < vs.len() && vi_view(vs[v.version.0 as int]) != vi_view(v) {
            rest.push(VersionMismatch { stored: vs[v.version.0 as int], reported: v })
        } else {
            rest
        }
    }
}

/// Fold the remote's numbered versions into the ledger. Numbers already on
/// record keep their stored content: a differing report only yields a
/// warning. Numbers past the ledger are appended, and returned so the caller
/// can pin their heads with durable references.
pub fn apply_remote(versions: &mut Vec<VersionInfo>, recent: &Vec<VersionInfo>) -> (r: (
    Vec<VersionInfo>,
    Vec<VersionMismatch>,
))
    requires
        versions_wf(old(versions)@),
        forall|i: int|
            0 <= i < recent@.len() ==> (#[trigger] recent@[i]).version.0 == recent@[0].version.0
                + i,
        recent@.len() > 0 ==> recent@[0].version.0 <= old(versions)@.len(),
        recent@.len() > 0 ==> recent@[0].version.0 + recent@.len() <= 256,
    ensures
        versions_wf(final(versions)@),
        final(versions)@ == old(versions)@ + r.0@,
        forall|k: int|
            0 <= k < r.0@.len() ==> r.0@[k] == recent@[old(versions)@.len()
                - recent@[0].version.0 + k],
        r.0@.len() == if recent@.len() > 0 && recent@[0].version.0 + recent@.len() > old(
            versions,
        )@.len() {
            recent@[0].version.0 + recent@.len() - old(versions)@.len()
        } else {
            0int
        },
        r.1@ == spec_mismatches(old(versions)@, recent@),
{
    let mut inserted: Vec<VersionInfo> = Vec::new();
    let mut warnings: Vec<VersionMismatch> = Vec::new();
    let mut k: usize = 0;
    proof {
        assert(recent@.take(0) =~= Seq::<VersionInfo>::empty());
        assert(old(versions)@ + inserted@ =~= old(versions)@);
    }
    while k < recent.len()
        invariant
            0 <= k <= recent@.len(),
            versions_wf(old(versions)@),
            forall|i: int|
                0 <= i < recent@.len() ==> (#[trigger] recent@[i]).version.0 == recent@[0].version.0
                    + i,
            recent@.len() > 0 ==> recent@[0].version.0 <= old(versions)@.len(),
            recent@.len() > 0 ==> recent@[0].version.0 + recent@.len() <= 256,
            versions_wf(versions@),
            versions@ == old(versions)@ + inserted@,
            forall|j: int|
                0 <= j < inserted@.len() ==> inserted@[j] == recent@[old(versions)@.len()
                    - recent@[0].version.0 + j],
            inserted@.len() == if k > 0 && recent@[0].version.0 + k > old(versions)@.len() {
                recent@[0].version.0 + k - old(versions)@.len()
            } else {
                0int
            },
            warnings@ == spec_mismatches(old(versions)@, recent@.take(k as int)),
        decreases recent@.len() - k,
    {
        let v = &recent[k];
        let j = v.version.0 as usize;
        proof {
            assert(recent@.take(k + 1).drop_last() =~= recent@.take(k as int));
            assert(recent@.take(k + 1).last() == recent@[k as int]);
        }
        if j < versions.len() {
            proof {
                assert(j < old(versions)@.len());
                assert(versions@[j as int] == old(versions)@[j as int]);
            }
            if !vi_same(&versions[j], v) {
                warnings.push(
                    VersionMismatch { stored: versions[j].clone(), reported: v.clone() },
                );
            }
        } else {
            proof {
                assert(j == versions@.len());
                assert(j >= old(versions)@.len());
            }
            versions.push(v.clone());
            inserted.push(v.clone());
            proof {
                assert(versions@ =~= old(versions)@ + inserted@);
            }
        }
        k += 1;
    }
    proof {
        assert(recent@.take(recent@.len() as int) =~= recent@);
    }
    (inserted, warnings)
}

} // verus!
