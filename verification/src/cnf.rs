//! Approval conditions in conjunctive normal form: every disjunction must be
//! discharged, and a disjunction is discharged by one approval of a named
//! approver at a sufficient level.

use crate::notes::str_eq;
use vstd::prelude::*;

verus! {

/// One alternative set of approvers: any one of them, at at least the level
/// recorded beside the name, discharges the disjunction.
#[derive(Debug)]
pub struct Disjunction(pub Vec<(String, usize)>);

/// All the listed conditions must hold.
#[derive(Debug)]
pub struct Conjunction<T>(pub Vec<T>);

/// A requirement in conjunctive normal form.
pub type CNF = Conjunction<Disjunction>;

/// A disjunction as plain values: each approver with the level asked of them.
pub open spec fn disj_view(d: Disjunction) -> Seq<(Seq<char>, int)> {
    d.0@.map_values(|p: (String, usize)| (p.0@, p.1 as int))
}

/// The whole formula as plain values.
pub open spec fn cnf_view(ds: Seq<Disjunction>) -> Seq<Seq<(Seq<char>, int)>> {
    ds.map_values(|d: Disjunction| disj_view(d))
}

/// Whether an approval of `name` at level `lvl` discharges the disjunction:
/// it lists `name`, at a level no higher than `lvl`.
pub open spec fn view_discharged(v: Seq<(Seq<char>, int)>, name: Seq<char>, lvl: int) -> bool {
    exists|i: int| 0 <= i < v.len() && (#[trigger] v[i]).0 == name && lvl >= v[i].1
}

/// The disjunctions an approval leaves standing.
pub open spec fn kept_views(
    vs: Seq<Seq<(Seq<char>, int)>>,
    name: Seq<char>,
    lvl: int,
) -> Seq<Seq<(Seq<char>, int)>> {
    vs.filter(|v: Seq<(Seq<char>, int)>| !view_discharged(v, name, lvl))
}

/// Whether the approval discharges this disjunction.
fn disj_discharged(d: &Disjunction, name: &str, lvl: usize) -> (r: bool)
    ensures
        r == view_discharged(disj_view(*d), name@, lvl as int),
{
    let mut i: usize = 0;
    while i < d.0.len()
        invariant
            0 <= i <= d.0@.len(),
            forall|j: int|
                0 <= j < i ==> !((#[trigger] disj_view(*d)[j]).0 == name@ && lvl as int
                    >= disj_view(*d)[j].1),
        decreases d.0@.len() - i,
    {
        if str_eq((&d.0[i].0).as_str(), name) && lvl >= d.0[i].1 {
            assert(disj_view(*d)[i as int].0 == name@ && lvl as int >= disj_view(*d)[i as int].1);
            return true;
        }
        i += 1;
    }
    proof {
        if view_discharged(disj_view(*d), name@, lvl as int) {
            let j = choose|j: int|
                0 <= j < disj_view(*d).len() && (#[trigger] disj_view(*d)[j]).0 == name@
                    && lvl as int >= disj_view(*d)[j].1;
            assert(false);
        }
    }
    false
}

/// A copy of a disjunction, value for value.
fn clone_disj(d: &Disjunction) -> (c: Disjunction)
    ensures
        disj_view(c) == disj_view(*d),
{
    let mut entries: Vec<(String, usize)> = Vec::new();
    let mut i: usize = 0;
    while i < d.0.len()
        invariant
            0 <= i <= d.0@.len(),
            entries@.len() == i,
            forall|j: int| 0 <= j < i ==> entries@[j] == d.0@[j],
        decreases d.0@.len() - i,
    {
        entries.push((d.0[i].0.clone(), d.0[i].1));
        i += 1;
    }
    let c = Disjunction(entries);
    proof {
        assert(disj_view(c) =~= disj_view(*d));
    }
    c
}

impl CNF {
    /// Record an approval of `name` at level `lvl`: every disjunction it
    /// discharges is dropped, and only those; the rest keep their order.
    pub fn discharge(&mut self, name: &str, lvl: usize)
        ensures
            cnf_view(final(self).0@) == kept_views(cnf_view(old(self).0@), name@, lvl as int),
    {
        let n = self.0.len();
        let mut out: Vec<Disjunction> = Vec::new();
        let mut i: usize = 0;
        proof {
            reveal(Seq::filter);
            assert(kept_views(cnf_view(self.0@).take(0), name@, lvl as int) =~= cnf_view(out@));
        }
        while i < n
            invariant
                0 <= i <= n,
                n == self.0@.len(),
                self.0@ == old(self).0@,
                cnf_view(out@) == kept_views(cnf_view(self.0@).take(i as int), name@, lvl as int),
            decreases n - i,
        {
            let ghost prefix = cnf_view(self.0@).take(i as int);
            proof {
                reveal(Seq::filter);
                assert(cnf_view(self.0@).take(i + 1).drop_last() =~= prefix);
                assert(cnf_view(self.0@).take(i + 1).last() == disj_view(self.0@[i as int]));
            }
            if !disj_discharged(&self.0[i], name, lvl) {
                let ghost preout = out@;
                out.push(clone_disj(&self.0[i]));
                proof {
                    reveal(Seq::filter);
                    assert(cnf_view(out@) =~= cnf_view(preout).push(disj_view(self.0@[i as int])));
                    assert(cnf_view(out@) =~= kept_views(
                        cnf_view(self.0@).take(i + 1),
                        name@,
                        lvl as int,
                    ));
                }
            } else {
                proof {
                    reveal(Seq::filter);
                    assert(cnf_view(out@) =~= kept_views(
                        cnf_view(self.0@).take(i + 1),
                        name@,
                        lvl as int,
                    ));
                }
            }
            i += 1;
        }
        proof {
            assert(cnf_view(self.0@).take(n as int) =~= cnf_view(self.0@));
        }
        self.0 = out;
    }
}

} // verus!
