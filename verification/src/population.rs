//! The ranked container of candidate solutions. Members are kept ordered by
//! the goal context's hierarchical dominance, best first; a second traversal
//! order, fewest routes first, serves structural selection strategies.

use vstd::prelude::*;

use crate::goal::{
    lemma_seq_total_order_flip, spec_levels_fit, spec_total_order, GoalContext,
};
use crate::order::Comparison;
use crate::solution::Solution;

verus! {

/// Adjacent members never rank strictly worse before better: the verdict of
/// each member against its successor is never `Greater`.
pub open spec fn spec_ranked(levels: Seq<Seq<usize>>, members: Seq<Solution>) -> bool {
    forall|i: int|
        0 <= i < members.len() - 1 ==> (#[trigger] spec_total_order(
            levels,
            members[i].fitness@,
            members[i + 1].fitness@,
        )) != Comparison::Greater
}

/// Ranked container of solutions under search.
#[derive(Debug)]
pub struct Population {
    goal: GoalContext,
    members: Vec<Solution>,
}

impl Population {
    /// The held solutions, in rank order (best cost first).
    pub closed spec fn members(&self) -> Seq<Solution> {
        self.members@
    }

    /// The resolved global map of the goal context ranking this population.
    pub closed spec fn goal_levels(&self) -> Seq<Seq<usize>> {
        self.goal.levels_view()
    }

    /// Every member's fitness vector covers the goal's objective indices.
    pub closed spec fn all_fit(&self) -> bool {
        forall|i: int|
            0 <= i < self.members@.len() ==> spec_levels_fit(
                self.goal.levels_view(),
                (#[trigger] self.members@[i]).fitness@.len() as int,
            )
    }

    /// Every member fits the goal's objective indices and the members stand
    /// in rank order.
    pub closed spec fn wf(&self) -> bool {
        &&& spec_ranked(self.goal.levels_view(), self.members@)
        &&& self.all_fit()
    }

    /// An empty population ranked by `goal`.
    pub fn new(goal: GoalContext) -> (r: Population)
        ensures
            r.wf(),
            r.members().len() == 0,
            r.goal_levels() == goal.levels_view(),
    {
        Population { goal, members: Vec::new() }
    }

    /// Number of held solutions.
    pub fn size(&self) -> (r: usize)
        ensures
            r == self.members().len(),
    {
        self.members.len()
    }

    /// The solution of rank `i`: position in the best-cost-first order.
    pub fn get(&self, i: usize) -> (r: &Solution)
        requires
            i < self.members().len(),
        ensures
            *r == self.members()[i as int],
    {
        &self.members[i]
    }

    /// Rank at which `solution` stands among the members: the first position
    /// whose holder already ranks strictly worse.
    fn rank_position(&self, solution: &Solution) -> (p: usize)
        requires
            self.all_fit(),
            spec_levels_fit(self.goal_levels(), solution.fitness@.len() as int),
        ensures
            p <= self.members().len(),
            forall|i: int|
                0 <= i < p ==> spec_total_order(
                    self.goal_levels(),
                    solution.fitness@,
                    (#[trigger] self.members()[i]).fitness@,
                ) != Comparison::Less,
            p < self.members().len() ==> spec_total_order(
                self.goal_levels(),
                solution.fitness@,
                self.members()[p as int].fitness@,
            ) == Comparison::Less,
    {
        let ghost levels = self.goal.levels_view();
        let mut p: usize = 0;
        while p < self.members.len()
            invariant
                p <= self.members@.len(),
                levels == self.goal.levels_view(),
                self.all_fit(),
                spec_levels_fit(levels, solution.fitness@.len() as int),
                forall|i: int|
                    0 <= i < p ==> spec_total_order(
                        levels,
                        solution.fitness@,
                        (#[trigger] self.members@[i]).fitness@,
                    ) != Comparison::Less,
            decreases self.members@.len() - p,
        {
            match self.goal.total_order(solution, &self.members[p]) {
                Comparison::Less => {
                    return p;
                },
                _ => {
                    p += 1;
                },
            }
        }
        p
    }

    /// Adds a solution at its rank. The container stays ranked; the new
    /// member stands at some position with everything else kept in order.
    #[verifier::rlimit(50)]
    pub fn add(&mut self, solution: Solution)
        requires
            old(self).wf(),
            spec_levels_fit(old(self).goal_levels(), solution.fitness@.len() as int),
        ensures
            final(self).wf(),
            final(self).goal_levels() == old(self).goal_levels(),
            exists|p: int|
                0 <= p <= old(self).members().len() && final(self).members() == old(
                    self,
                ).members().insert(p, solution),
    {
        let ghost levels = self.goal.levels_view();
        let ghost old_m = self.members@;
        let p = self.rank_position(&solution);
        self.members.insert(p, solution);
        proof {
            let new_m = self.members@;
            assert(new_m == old_m.insert(p as int, solution));
            assert(forall|i: int| 0 <= i < p ==> new_m[i] == old_m[i]);
            assert(new_m[p as int] == solution);
            assert(forall|i: int| p < i < new_m.len() ==> new_m[i] == old_m[i - 1]);
            assert forall|i: int| 0 <= i < new_m.len() - 1 implies (#[trigger] spec_total_order(
                levels,
                new_m[i].fitness@,
                new_m[i + 1].fitness@,
            )) != Comparison::Greater by {
                if i + 1 < p {
                    assert(new_m[i] == old_m[i] && new_m[i + 1] == old_m[i + 1]);
                    assert(spec_total_order(levels, old_m[i].fitness@, old_m[i + 1].fitness@)
                        != Comparison::Greater);
                } else if i + 1 == p {
                    assert(new_m[i] == old_m[i]);
                    assert(spec_total_order(levels, solution.fitness@, old_m[i].fitness@)
                        != Comparison::Less);
                    lemma_seq_total_order_flip(levels, solution.fitness@, old_m[i].fitness@);
                } else if i == p {
                    assert(p < old_m.len());
                    assert(new_m[i + 1] == old_m[i]);
                    assert(spec_total_order(levels, solution.fitness@, old_m[i].fitness@)
                        == Comparison::Less);
                } else {
                    assert(new_m[i] == old_m[i - 1] && new_m[i + 1] == old_m[i]);
                    let j = i - 1;
                    assert(old_m[j + 1] == old_m[i]);
                    assert(spec_total_order(levels, old_m[j].fitness@, old_m[j + 1].fitness@)
                        != Comparison::Greater);
                }
            }
            assert forall|i: int| 0 <= i < new_m.len() implies spec_levels_fit(
                levels,
                (#[trigger] new_m[i]).fitness@.len() as int,
            ) by {
                if i < p {
                    assert(new_m[i] == old_m[i]);
                } else if i == p {
                } else {
                    assert(new_m[i] == old_m[i - 1]);
                }
            }
            assert(final(self).wf());
        }
    }

    /// Ranks of the members ordered by ascending structural size (fewest
    /// routes first): a fresh permutation of the rank indices, valid for the
    /// population as it stands at the call.
    pub fn less_routes(&self) -> (r: Vec<usize>)
        ensures
            r@.len() == self.members().len(),
            forall|i: int| 0 <= i < r@.len() ==> (#[trigger] r@[i]) < self.members().len(),
            forall|i: int, j: int| 0 <= i < j < r@.len() ==> r@[i] != r@[j],
            forall|i: int, j: int|
                0 <= i < j < r@.len() ==> self.members()[r@[i] as int].routes <= self.members()[r@[j] as int].routes,
    {
        let mut r: Vec<usize> = Vec::new();
        let mut idx: usize = 0;
        while idx < self.members.len()
            invariant
                idx <= self.members@.len(),
                r@.len() == idx,
                forall|i: int| 0 <= i < r@.len() ==> (#[trigger] r@[i]) < idx,
                forall|i: int, j: int| 0 <= i < j < r@.len() ==> r@[i] != r@[j],
                forall|i: int, j: int|
                    0 <= i < j < r@.len() ==> self.members@[r@[i] as int].routes
                        <= self.members@[r@[j] as int].routes,
            decreases self.members@.len() - idx,
        {
            let routes = self.members[idx].routes;
            let ghost old_r = r@;
            let mut p: usize = 0;
            let mut found = false;
            while !found && p < r.len()
                invariant
                    p <= r@.len(),
                    r@ == old_r,
                    idx < self.members@.len(),
                    routes == self.members@[idx as int].routes,
                    forall|i: int| 0 <= i < r@.len() ==> (#[trigger] r@[i]) < idx,
                    found ==> p < r@.len() && self.members@[r@[p as int] as int].routes > routes,
                    forall|i: int|
                        0 <= i < p ==> self.members@[(#[trigger] r@[i]) as int].routes <= routes,
                decreases r@.len() - p + (if found {
                    0int
                } else {
                    1int
                }),
            {
                if self.members[r[p]].routes > routes {
                    found = true;
                } else {
                    p += 1;
                }
            }
            r.insert(p, idx);
            proof {
                let new_r = r@;
                assert(new_r == old_r.insert(p as int, idx));
                assert(forall|i: int| 0 <= i < p ==> new_r[i] == old_r[i]);
                assert(new_r[p as int] == idx);
                assert(forall|i: int| p < i < new_r.len() ==> new_r[i] == old_r[i - 1]);
                assert(!found ==> p == old_r.len());
                assert forall|i: int, j: int| 0 <= i < j < new_r.len() implies self.members@[(
                #[trigger] new_r[i]) as int].routes <= self.members@[(#[trigger] new_r[j]) as int].routes by {
                    if j < p {
                    } else if j == p {
                        assert(new_r[i] == old_r[i]);
                        assert(self.members@[old_r[i] as int].routes <= routes);
                    } else if i == p {
                        assert(new_r[j] == old_r[j - 1]);
                        assert(self.members@[old_r[p as int] as int].routes > routes);
                        assert(self.members@[old_r[j - 1] as int].routes
                            >= self.members@[old_r[p as int] as int].routes);
                    } else if i < p {
                        assert(new_r[i] == old_r[i] && new_r[j] == old_r[j - 1]);
                    } else {
                        assert(new_r[i] == old_r[i - 1] && new_r[j] == old_r[j - 1]);
                    }
                }
            }
            idx += 1;
        }
        r
    }
}

} // verus!
