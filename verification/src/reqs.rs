//! Outstanding review requirements: each asks that `n` members of a
//! population approve at a given level of scrutiny.

use crate::notes::{line_views, str_eq};
use vstd::prelude::*;

verus! {

/// The level of scrutiny required of (or exercised by) an approver.
#[derive(Debug, Clone, Copy, PartialEq, Eq, Structural, Hash, PartialOrd, Ord)]
pub struct Scrutiny(pub usize);

impl Scrutiny {
    /// Read a scrutiny field: a (possibly empty) run of exclamation marks,
    /// one per level.
    pub fn parse(line: &str) -> (r: Option<Scrutiny>)
        ensures
            match r {
                Some(s) => (forall|i: int| 0 <= i < line@.len() ==> line@[i] == '!') && s.0
                    == line@.len(),
                None => exists|i: int| 0 <= i < line@.len() && line@[i] != '!',
            },
    {
        let n = line.unicode_len();
        let mut i: usize = 0;
        while i < n
            invariant
                0 <= i <= n,
                n == line@.len(),
                forall|j: int| 0 <= j < i ==> line@[j] == '!',
            decreases n - i,
        {
            if line.get_char(i) != '!' {
                return None;
            }
            i += 1;
        }
        Some(Scrutiny(n))
    }

    /// The scrutiny written back out: one exclamation mark per level.
    pub fn render(&self) -> (r: String)
        ensures
            r@.len() == self.0,
            forall|i: int| 0 <= i < r@.len() ==> r@[i] == '!',
    {
        let mut r = String::new();
        let mut i: usize = 0;
        while i < self.0
            invariant
                0 <= i <= self.0,
                r@.len() == i,
                forall|j: int| 0 <= j < i ==> r@[j] == '!',
            decreases self.0 - i,
        {
            proof {
                reveal_strlit("!");
            }
            r.append("!");
            i += 1;
        }
        r
    }
}

/// One requirement: `n` approvals at scrutiny `lvl` from the population.
pub type Requirement = (Scrutiny, usize, Vec<String>);

/// What a requirement asks, as plain values: the scrutiny level, how many
/// approvals are still missing, and who may give them.
pub open spec fn req_view(r: Requirement) -> (int, int, Seq<Seq<char>>) {
    (r.0.0 as int, r.1 as int, line_views(r.2@))
}

/// An approval by `name` at scrutiny `lvl` discharges one slot of a
/// requirement that lists the approver at no higher a level.
pub open spec fn spec_approve_req(
    v: (int, int, Seq<Seq<char>>),
    name: Seq<char>,
    lvl: int,
) -> (int, int, Seq<Seq<char>>) {
    if v.2.contains(name) && v.0 <= lvl {
        (v.0, v.1 - 1, v.2.remove_value(name))
    } else {
        v
    }
}

/// The views of a list of requirements.
pub open spec fn req_views(rs: Seq<Requirement>) -> Seq<(int, int, Seq<Seq<char>>)> {
    rs.map_values(|r: Requirement| req_view(r))
}

/// The requirements not yet fully discharged.
pub open spec fn open_reqs(vs: Seq<(int, int, Seq<Seq<char>>)>) -> Seq<(int, int, Seq<Seq<char>>)> {
    vs.filter(|v: (int, int, Seq<Seq<char>>)| v.1 > 0)
}

/// The outstanding requirements.
#[derive(Debug)]
pub struct Requirements(pub Vec<Requirement>);

impl Requirements {
    /// The views of all requirements.
    pub open spec fn view_all(self) -> Seq<(int, int, Seq<Seq<char>>)> {
        req_views(self.0@)
    }

    /// Each requirement lists an approver once.
    pub open spec fn wf(self) -> bool {
        forall|i: int|
            0 <= i < self.0@.len() ==> line_views(
                (#[trigger] self.0@[i]).2@,
            ).no_duplicates()
    }

    /// No requirements at all.
    pub fn new() -> (r: Requirements)
        ensures
            r.wf(),
            r.0@.len() == 0,
    {
        Requirements(Vec::new())
    }

    /// Ask for `n` approvals at scrutiny `lvl` from the given population.
    pub fn add(&mut self, lvl: Scrutiny, n: usize, pop: Vec<String>)
        requires
            old(self).wf(),
            line_views(pop@).no_duplicates(),
        ensures
            final(self).wf(),
            final(self).0@.len() == old(self).0@.len() + 1,
            final(self).view_all() == old(self).view_all().push(
                (lvl.0 as int, n as int, line_views(pop@)),
            ),
    {
        let ghost pre = self.0@;
        self.0.push((lvl, n, pop));
        proof {
            assert(self.view_all() =~= old(self).view_all().push(
                (lvl.0 as int, n as int, line_views(pop@)),
            ));
        }
    }

    /// Record that `name` approved at scrutiny `lvl`: every requirement that
    /// still lists the approver at no higher a level loses that slot.
    pub fn approve(&mut self, name: String, lvl: Scrutiny)
        requires
            old(self).wf(),
            forall|i: int|
                0 <= i < old(self).0@.len() ==> ((line_views(
                    (#[trigger] old(self).0@[i]).2@,
                ).contains(name@) && old(self).0@[i].0.0 <= lvl.0) ==> old(self).0@[i].1 >= 1),
        ensures
            final(self).wf(),
            final(self).view_all() == old(self).view_all().map_values(
                (|v: (int, int, Seq<Seq<char>>)| spec_approve_req(v, name@, lvl.0 as int)),
            ),
    {
        let n = self.0.len();
        let mut i: usize = 0;
        while i < n
            invariant
                0 <= i <= n,
                n == self.0@.len(),
                self.0@.len() == old(self).0@.len(),
                self.wf(),
                forall|j: int|
                    0 <= j < old(self).0@.len() ==> ((line_views(
                        (#[trigger] old(self).0@[j]).2@,
                    ).contains(name@) && old(self).0@[j].0.0 <= lvl.0) ==> old(self).0@[j].1 >= 1),
                forall|j: int| i <= j < n ==> self.0@[j] == old(self).0@[j],
                forall|j: int|
                    0 <= j < i ==> req_view(#[trigger] self.0@[j]) == spec_approve_req(
                        req_view(old(self).0@[j]),
                        name@,
                        lvl.0 as int,
                    ),
            decreases n - i,
        {
            let applies = self.0[i].0.0 <= lvl.0;
            let hit = if applies {
                find_name(&self.0[i].2, name.as_str())
            } else {
                None
            };
            match hit {
                Some(p) => {
                    let ghost prereq = self.0@[i as int];
                    let slot = &mut self.0[i];
                    slot.1 = slot.1 - 1;
                    slot.2.remove(p);
                    proof {
                        let oldpop = line_views(prereq.2@);
                        assert(line_views(self.0@[i as int].2@) =~= oldpop.remove(p as int));
                        oldpop.index_of_first_ensures(name@);
                        assert(oldpop.index_of_first(name@) == Some(p as int)) by {
                            assert(oldpop.contains(name@)) by {
                                assert(oldpop[p as int] == name@);
                            }
                            match oldpop.index_of_first(name@) {
                                Some(q) => {
                                    if q < p {
                                        assert(oldpop[q] != name@);
                                    }
                                    if q > p {
                                        assert(oldpop[p as int] != name@);
                                    }
                                },
                                None => {
                                    assert(false);
                                },
                            }
                        }
                        assert(oldpop.remove_value(name@) == oldpop.remove(p as int));
                        assert(line_views(self.0@[i as int].2@).no_duplicates()) by {
                            let np = oldpop.remove(p as int);
                            assert forall|a: int, b: int|
                                0 <= a < b < np.len() implies np[a] != np[b] by {
                                if b < p {
                                    assert(np[a] == oldpop[a] && np[b] == oldpop[b]);
                                } else if a < p {
                                    assert(np[a] == oldpop[a] && np[b] == oldpop[b + 1]);
                                } else {
                                    assert(np[a] == oldpop[a + 1] && np[b] == oldpop[b + 1]);
                                }
                            }
                        }
                    }
                },
                None => {},
            }
            i += 1;
        }
        proof {
            assert(self.view_all() =~= old(self).view_all().map_values(
                (|v: (int, int, Seq<Seq<char>>)| spec_approve_req(v, name@, lvl.0 as int)),
            ));
        }
    }

    /// Drop the requirements that are fully discharged.
    pub fn normalize(&mut self)
        requires
            old(self).wf(),
        ensures
            final(self).wf(),
            final(self).view_all() == open_reqs(old(self).view_all()),
    {
        let n = self.0.len();
        let mut kept: Vec<Requirement> = Vec::new();
        let mut i: usize = 0;
        proof {
            reveal(Seq::filter);
            assert(open_reqs(self.view_all().take(0)) =~= req_views(kept@));
        }
        while i < n
            invariant
                0 <= i <= n,
                n == self.0@.len(),
                self.wf(),
                self.0@ == old(self).0@,
                forall|j: int|
                    0 <= j < kept@.len() ==> line_views(
                        (#[trigger] kept@[j]).2@,
                    ).no_duplicates(),
                req_views(kept@) == open_reqs(self.view_all().take(i as int)),
            decreases n - i,
        {
            let ghost prefix = self.view_all().take(i as int);
            proof {
                reveal(Seq::filter);
                assert(self.view_all().take(i + 1).drop_last() =~= prefix);
                assert(self.view_all().take(i + 1).last() == req_view(self.0@[i as int]));
            }
            if self.0[i].1 > 0 {
                let ghost prekept = kept@;
                kept.push(clone_req(&self.0[i]));
                proof {
                    reveal(Seq::filter);
                    assert(req_views(kept@) =~= req_views(prekept).push(
                        req_view(self.0@[i as int]),
                    ));
                    assert(open_reqs(self.view_all().take(i + 1)) =~= open_reqs(prefix).push(
                        req_view(self.0@[i as int]),
                    ));
                }
            } else {
                proof {
                    reveal(Seq::filter);
                    assert(open_reqs(self.view_all().take(i + 1)) =~= open_reqs(prefix));
                }
            }
            i += 1;
        }
        proof {
            assert(self.view_all().take(n as int) =~= self.view_all());
        }
        self.0 = kept;
    }

    /// Whether every requirement has been met.
    pub fn is_satisfied(&self) -> (r: bool)
        ensures
            r == (self.0@.len() == 0),
    {
        self.0.len() == 0
    }
}

/// Where `name` stands in the population, if it does.
fn find_name(pop: &Vec<String>, name: &str) -> (r: Option<usize>)
    ensures
        match r {
            Some(p) => 0 <= p < pop@.len() && line_views(pop@)[p as int] == name@,
            None => !line_views(pop@).contains(name@),
        },
{
    let mut i: usize = 0;
    while i < pop.len()
        invariant
            0 <= i <= pop@.len(),
            forall|j: int| 0 <= j < i ==> line_views(pop@)[j] != name@,
        decreases pop@.len() - i,
    {
        if str_eq((&pop[i]).as_str(), name) {
            return Some(i);
        }
        i += 1;
    }
    proof {
        if line_views(pop@).contains(name@) {
            let j = choose|j: int|
                0 <= j < line_views(pop@).len() && line_views(pop@)[j] == name@;
            assert(false);
        }
    }
    None
}

/// A copy of a requirement, value for value.
fn clone_req(r: &Requirement) -> (c: Requirement)
    ensures
        c.0 == r.0,
        c.1 == r.1,
        c.2@ == r.2@,
{
    let mut pop: Vec<String> = Vec::new();
    let mut i: usize = 0;
    while i < r.2.len()
        invariant
            0 <= i <= r.2@.len(),
            pop@ =~= r.2@.take(i as int),
        decreases r.2@.len() - i,
    {
        pop.push(r.2[i].clone());
        proof {
            assert(pop@ =~= r.2@.take(i + 1));
        }
        i += 1;
    }
    proof {
        assert(r.2@.take(r.2@.len() as int) =~= r.2@);
    }
    (r.0, r.1, pop)
}

} // verus!
