//! The objective hierarchy: composes per-feature objectives into a ranking
//! and a distance function over solutions.
//!
//! Ranking is lexicographic across declared levels; inside a level a Pareto
//! dominance rule applies: one solution beats the other only when it is
//! no worse on every objective of the level and strictly better on at least
//! one. An inconclusive level defers to the next; when every level is
//! inconclusive the solutions rank equal.

use vstd::prelude::*;
use vstd::string::StringExecFns;

use crate::order::{spec_cmp_i64, spec_flip, Comparison};
use crate::solution::Solution;

verus! {

/// A named unit of domain logic. Only its objective contribution matters to
/// the search core: a feature may own at most one objective, identified by
/// the index of the fitness-vector entry that the objective reads.
#[derive(Debug)]
pub struct Feature {
    /// Unique name under which objective maps refer to this feature.
    pub name: String,
    /// Index into a solution's fitness vector, when this feature contributes
    /// an objective.
    pub objective: Option<usize>,
}

/// The declared grouping of objective names: the global map ranks whole
/// solutions, the local map lists the objectives of the per-move cost vector.
#[derive(Debug)]
pub struct Goal {
    /// Ordered comparison levels; each level is a set of objective names.
    pub global: Vec<Vec<String>>,
    /// Flattened-by-construction levels for the per-move cost vector.
    pub local: Vec<Vec<String>>,
}

impl Goal {
    /// A goal with the two declared maps and no alternative configurations.
    pub fn no_alternatives(global: Vec<Vec<String>>, local: Vec<Vec<String>>) -> (r: Goal)
        ensures
            r.global == global,
            r.local == local,
    {
        Goal { global, local }
    }
}

/// Some objective of `level` ranks `a` strictly better than `b`.
pub open spec fn spec_level_less(level: Seq<usize>, a: Seq<i64>, b: Seq<i64>) -> bool {
    exists|j: int|
        0 <= j < level.len() && spec_cmp_i64(a[level[j] as int], b[level[j] as int])
            == Comparison::Less
}

/// Some objective of `level` ranks `a` strictly worse than `b`.
pub open spec fn spec_level_greater(level: Seq<usize>, a: Seq<i64>, b: Seq<i64>) -> bool {
    exists|j: int|
        0 <= j < level.len() && spec_cmp_i64(a[level[j] as int], b[level[j] as int])
            == Comparison::Greater
}

/// Pareto comparison of one level: decided only when one side is no worse on
/// every objective and strictly better on at least one; `Equal` stands for an
/// inconclusive level.
pub open spec fn spec_level_cmp(level: Seq<usize>, a: Seq<i64>, b: Seq<i64>) -> Comparison {
    if spec_level_greater(level, a, b) && !spec_level_less(level, a, b) {
        Comparison::Greater
    } else if spec_level_less(level, a, b) && !spec_level_greater(level, a, b) {
        Comparison::Less
    } else {
        Comparison::Equal
    }
}

/// Hierarchical dominance: the verdict of the first decisive level, `Equal`
/// when every level is inconclusive (in particular for an empty map).
pub open spec fn spec_total_order(levels: Seq<Seq<usize>>, a: Seq<i64>, b: Seq<i64>) -> Comparison
    decreases levels.len(),
{
    if levels.len() == 0 {
        Comparison::Equal
    } else {
        let c = spec_level_cmp(levels[0], a, b);
        if c is Equal {
            spec_total_order(levels.drop_first(), a, b)
        } else {
            c
        }
    }
}

/// Distance of two fitness values along one objective: the non-negative
/// difference.
pub open spec fn spec_abs_diff(x: i64, y: i64) -> u64 {
    (if x >= y {
        x - y
    } else {
        y - x
    }) as u64
}

/// Every objective index named by `levels` reads inside a fitness vector of
/// length `n`.
pub open spec fn spec_levels_fit(levels: Seq<Seq<usize>>, n: int) -> bool {
    forall|l: int, j: int|
        0 <= l < levels.len() && 0 <= j < levels[l].len() ==> (#[trigger] levels[l][j]) < n
}

/// Every objective index of the flat local map reads inside a fitness vector
/// of length `n`.
pub open spec fn spec_flat_fits(indices: Seq<usize>, n: int) -> bool {
    forall|k: int| 0 <= k < indices.len() ==> (#[trigger] indices[k]) < n
}

/// Feature `i` owns the objective that `name` refers to.
pub open spec fn spec_owner(features: Seq<Feature>, name: Seq<char>, i: int) -> bool {
    0 <= i < features.len() && features[i].name@ == name && features[i].objective is Some
}

/// `name` refers to exactly one feature-contributed objective.
pub open spec fn spec_resolvable(features: Seq<Feature>, name: Seq<char>) -> bool {
    exists|i: int|
        #[trigger] spec_owner(features, name, i) && (forall|j: int|
            spec_owner(features, name, j) ==> j == i)
}

/// `name` refers to the objective reading fitness entry `idx`.
pub open spec fn spec_resolves_to(features: Seq<Feature>, name: Seq<char>, idx: usize) -> bool {
    exists|i: int|
        #[trigger] spec_owner(features, name, i) && features[i].objective == Some(idx)
}

/// Ghost image of a declared objective map: levels of names.
pub open spec fn spec_map_view(map: Seq<Vec<String>>) -> Seq<Seq<Seq<char>>> {
    map.map_values(|lvl: Vec<String>| lvl@.map_values(|s: String| s@))
}

/// `needle` stands inside `hay` at position `k`.
pub open spec fn spec_contains_at(hay: Seq<char>, needle: Seq<char>, k: int) -> bool {
    0 <= k && k + needle.len() <= hay.len() && hay.subrange(k, k + needle.len()) == needle
}

/// `needle` stands somewhere inside `hay`.
pub open spec fn spec_seq_contains(hay: Seq<char>, needle: Seq<char>) -> bool {
    exists|k: int| spec_contains_at(hay, needle, k)
}

/// A declared map is valid against a feature list when no level is empty and
/// every name it holds refers to exactly one feature-contributed objective.
pub open spec fn spec_map_valid(features: Seq<Feature>, map: Seq<Seq<Seq<char>>>) -> bool {
    (forall|l: int| 0 <= l < map.len() ==> (#[trigger] map[l]).len() > 0) && (forall|l: int, j: int|
        0 <= l < map.len() && 0 <= j < map[l].len() ==> spec_resolvable(
            features,
            #[trigger] map[l][j],
        ))
}

/// Objective index of the unique feature that `name` refers to, or `None`
/// when the name is unknown or claimed by more than one objective-owning
/// feature.
fn resolve_name(features: &Vec<Feature>, name: &String) -> (r: Option<usize>)
    ensures
        match r {
            Some(idx) => spec_resolvable(features@, name@) && spec_resolves_to(
                features@,
                name@,
                idx,
            ),
            None => !spec_resolvable(features@, name@),
        },
{
    let mut found: Option<usize> = None;
    let ghost mut owner: int = 0int;
    let mut i: usize = 0;
    while i < features.len()
        invariant
            i <= features.len(),
            match found {
                Some(idx) => spec_owner(features@, name@, owner) && owner < i
                    && features@[owner].objective == Some(idx) && (forall|j: int|
                    0 <= j < i && j != owner ==> !spec_owner(features@, name@, j)),
                None => forall|j: int| 0 <= j < i ==> !spec_owner(features@, name@, j),
            },
        decreases features.len() - i,
    {
        if features[i].name == *name && features[i].objective.is_some() {
            proof {
                assert(spec_owner(features@, name@, i as int));
            }
            if found.is_some() {
                proof {
                    assert(!spec_resolvable(features@, name@)) by {
                        if spec_resolvable(features@, name@) {
                            let u = choose|u: int|
                                #[trigger] spec_owner(features@, name@, u) && (forall|j: int|
                                    spec_owner(features@, name@, j) ==> j == u);
                            assert(owner == u);
                            assert(i as int == u);
                        }
                    }
                }
                return None;
            }
            found = Some(features[i].objective.unwrap());
            proof {
                owner = i as int;
            }
        }
        i += 1;
    }
    proof {
        if found is Some {
            assert(spec_resolvable(features@, name@)) by {
                assert(spec_owner(features@, name@, owner));
                assert(forall|j: int| spec_owner(features@, name@, j) ==> j == owner);
            }
        } else {
            assert(!spec_resolvable(features@, name@)) by {
                if spec_resolvable(features@, name@) {
                    let u = choose|u: int|
                        #[trigger] spec_owner(features@, name@, u) && (forall|j: int|
                            spec_owner(features@, name@, j) ==> j == u);
                    assert(!spec_owner(features@, name@, u));
                }
            }
        }
    }
    found
}

/// Resolves one level of declared names to objective indices; fails on the
/// first unknown or ambiguous name.
fn resolve_level(features: &Vec<Feature>, names: &Vec<String>) -> (r: Result<Vec<usize>, String>)
    ensures
        match r {
            Ok(lvl) => lvl@.len() == names@.len() && (forall|j: int|
                0 <= j < names@.len() ==> spec_resolvable(features@, #[trigger] names@[j]@))
                && (forall|j: int|
                0 <= j < names@.len() ==> spec_resolves_to(
                    features@,
                    names@[j]@,
                    #[trigger] lvl@[j],
                )),
            Err(e) => (exists|j: int|
                0 <= j < names@.len() && !spec_resolvable(features@, #[trigger] names@[j]@)
                    && spec_seq_contains(e@, names@[j]@)) && e@.len() > 0,
        },
{
    let mut lvl: Vec<usize> = Vec::new();
    let mut j: usize = 0;
    while j < names.len()
        invariant
            j <= names@.len(),
            lvl@.len() == j,
            forall|t: int| 0 <= t < j ==> spec_resolvable(features@, #[trigger] names@[t]@),
            forall|t: int|
                0 <= t < j ==> spec_resolves_to(features@, names@[t]@, #[trigger] lvl@[t]),
        decreases names@.len() - j,
    {
        match resolve_name(features, &names[j]) {
            Some(k) => {
                lvl.push(k);
            },
            None => {
                let msg = "unknown or ambiguous objective name: ".to_owned().concat(
                    names[j].as_str(),
                );
                proof {
                    reveal_strlit("unknown or ambiguous objective name: ");
                    let plen = "unknown or ambiguous objective name: "@.len() as int;
                    assert(msg@.subrange(plen, plen + names@[j as int]@.len() as int)
                        =~= names@[j as int]@);
                    assert(spec_contains_at(msg@, names@[j as int]@, plen));
                    assert(spec_seq_contains(msg@, names@[j as int]@));
                }
                return Err(msg);
            },
        }
        j += 1;
    }
    Ok(lvl)
}

/// The composed ranking and distance engine over the global objective map.
#[derive(Debug)]
pub struct GoalContext {
    /// Global map with names resolved to fitness-vector indices.
    pub levels: Vec<Vec<usize>>,
    /// Local map, flattened and resolved.
    pub local_indices: Vec<usize>,
}

impl GoalContext {
    /// The resolved global map as a ghost sequence of levels.
    pub open spec fn levels_view(&self) -> Seq<Seq<usize>> {
        self.levels@.map_values(|v: Vec<usize>| v@)
    }

    /// Builds the ranking engine from the feature list and the declared goal.
    /// Every name of both maps is resolved against the features; construction
    /// fails, naming the offending level or name, when a level is empty or a
    /// name is unknown or claimed by more than one objective-owning feature.
    /// On failure no partially built context is handed out.
    pub fn new(features: &Vec<Feature>, goal: Goal) -> (r: Result<GoalContext, String>)
        ensures
            match r {
                Ok(ctx) => {
                    let gmap = spec_map_view(goal.global@);
                    let lmap = spec_map_view(goal.local@);
                    let lflat = lmap.flatten();
                    &&& spec_map_valid(features@, gmap)
                    &&& spec_map_valid(features@, lmap)
                    &&& ctx.levels_view().len() == gmap.len()
                    &&& forall|l: int|
                        0 <= l < gmap.len() ==> (#[trigger] ctx.levels_view()[l]).len()
                            == gmap[l].len()
                    &&& forall|l: int, j: int|
                        0 <= l < gmap.len() && 0 <= j < gmap[l].len() ==> spec_resolves_to(
                            features@,
                            gmap[l][j],
                            #[trigger] ctx.levels_view()[l][j],
                        )
                    &&& ctx.local_indices@.len() == lflat.len()
                    &&& forall|k: int|
                        0 <= k < lflat.len() ==> spec_resolves_to(
                            features@,
                            lflat[k],
                            #[trigger] ctx.local_indices@[k],
                        )
                },
                Err(e) => {
                    let gmap = spec_map_view(goal.global@);
                    let lmap = spec_map_view(goal.local@);
                    &&& !(spec_map_valid(features@, gmap) && spec_map_valid(features@, lmap))
                    &&& e@.len() > 0
                    &&& ({
                        ||| exists|l: int| 0 <= l < gmap.len() && (#[trigger] gmap[l]).len() == 0
                        ||| exists|l: int| 0 <= l < lmap.len() && (#[trigger] lmap[l]).len() == 0
                        ||| exists|l: int, j: int|
                            0 <= l < gmap.len() && 0 <= j < gmap[l].len() && !spec_resolvable(
                                features@,
                                #[trigger] gmap[l][j],
                            ) && spec_seq_contains(e@, gmap[l][j])
                        ||| exists|l: int, j: int|
                            0 <= l < lmap.len() && 0 <= j < lmap[l].len() && !spec_resolvable(
                                features@,
                                #[trigger] lmap[l][j],
                            ) && spec_seq_contains(e@, lmap[l][j])
                    })
                },
            },
    {
        let ghost gmap = spec_map_view(goal.global@);
        let ghost lmap = spec_map_view(goal.local@);
        let mut levels: Vec<Vec<usize>> = Vec::new();
        let mut l: usize = 0;
        while l < goal.global.len()
            invariant
                l <= goal.global@.len(),
                gmap == spec_map_view(goal.global@),
                levels@.len() == l,
                forall|m: int| 0 <= m < l ==> (#[trigger] gmap[m]).len() > 0,
                forall|m: int, j: int|
                    0 <= m < l && 0 <= j < gmap[m].len() ==> spec_resolvable(
                        features@,
                        #[trigger] gmap[m][j],
                    ),
                forall|m: int| 0 <= m < l ==> (#[trigger] levels@[m])@.len() == gmap[m].len(),
                forall|m: int, j: int|
                    0 <= m < l && 0 <= j < gmap[m].len() ==> spec_resolves_to(
                        features@,
                        gmap[m][j],
                        #[trigger] levels@[m]@[j],
                    ),
            decreases goal.global@.len() - l,
        {
            let level_names = &goal.global[l];
            proof {
                assert(gmap[l as int] == level_names@.map_values(|s: String| s@));
            }
            if level_names.len() == 0 {
                proof {
                    reveal_strlit("the global objective map declares an empty level");
                    assert(gmap[l as int].len() == 0);
                    assert(exists|m: int|
                        0 <= m < gmap.len() && (#[trigger] gmap[m]).len() == 0) by {
                        assert(0 <= (l as int) && (l as int) < gmap.len() && gmap[l as int].len() == 0);
                    }
                }
                return Err("the global objective map declares an empty level".to_owned());
            }
            match resolve_level(features, level_names) {
                Ok(lvl) => {
                    levels.push(lvl);
                },
                Err(e) => {
                    proof {
                        let j = choose|j: int|
                            0 <= j < level_names@.len() && !spec_resolvable(
                                features@,
                                #[trigger] level_names@[j]@,
                            ) && spec_seq_contains(e@, level_names@[j]@);
                        assert(gmap[l as int][j] == level_names@[j]@);
                        assert(!spec_map_valid(features@, gmap));
                        assert(exists|m: int, t: int|
                            0 <= m < gmap.len() && 0 <= t < gmap[m].len() && !spec_resolvable(
                                features@,
                                #[trigger] gmap[m][t],
                            ) && spec_seq_contains(e@, gmap[m][t])) by {
                            assert(0 <= (l as int) && (l as int) < gmap.len());
                            assert(0 <= j < gmap[l as int].len());
                            assert(!spec_resolvable(features@, gmap[l as int][j])
                                && spec_seq_contains(e@, gmap[l as int][j]));
                        }
                    }
                    return Err(e);
                },
            }
            l += 1;
        }
        let ghost lflat = lmap.flatten();
        let mut local_indices: Vec<usize> = Vec::new();
        let mut i: usize = 0;
        proof {
            assert(lmap.take(0int) =~= Seq::<Seq<Seq<char>>>::empty());
            assert(lmap.take(0int).flatten() =~= Seq::<Seq<char>>::empty());
        }
        while i < goal.local.len()
            invariant
                i <= goal.local@.len(),
                gmap == spec_map_view(goal.global@),
                lmap == spec_map_view(goal.local@),
                spec_map_valid(features@, gmap),
                levels@.len() == gmap.len(),
                forall|m: int| 0 <= m < gmap.len() ==> (#[trigger] levels@[m])@.len()
                    == gmap[m].len(),
                forall|m: int, j: int|
                    0 <= m < gmap.len() && 0 <= j < gmap[m].len() ==> spec_resolves_to(
                        features@,
                        gmap[m][j],
                        #[trigger] levels@[m]@[j],
                    ),
                forall|m: int| 0 <= m < i ==> (#[trigger] lmap[m]).len() > 0,
                forall|m: int, j: int|
                    0 <= m < i && 0 <= j < lmap[m].len() ==> spec_resolvable(
                        features@,
                        #[trigger] lmap[m][j],
                    ),
                local_indices@.len() == lmap.take(i as int).flatten().len(),
                forall|k: int|
                    0 <= k < local_indices@.len() ==> spec_resolves_to(
                        features@,
                        lmap.take(i as int).flatten()[k],
                        #[trigger] local_indices@[k],
                    ),
            decreases goal.local@.len() - i,
        {
            let level_names = &goal.local[i];
            proof {
                assert(lmap[i as int] == level_names@.map_values(|s: String| s@));
            }
            if level_names.len() == 0 {
                proof {
                    reveal_strlit("the local objective map declares an empty level");
                    assert(lmap[i as int].len() == 0);
                    assert(exists|m: int|
                        0 <= m < lmap.len() && (#[trigger] lmap[m]).len() == 0) by {
                        assert(0 <= (i as int) && (i as int) < lmap.len() && lmap[i as int].len() == 0);
                    }
                }
                return Err("the local objective map declares an empty level".to_owned());
            }
            let mut lvl = match resolve_level(features, level_names) {
                Ok(lvl) => lvl,
                Err(e) => {
                    proof {
                        let j = choose|j: int|
                            0 <= j < level_names@.len() && !spec_resolvable(
                                features@,
                                #[trigger] level_names@[j]@,
                            ) && spec_seq_contains(e@, level_names@[j]@);
                        assert(lmap[i as int][j] == level_names@[j]@);
                        assert(!spec_map_valid(features@, lmap));
                        assert(exists|m: int, t: int|
                            0 <= m < lmap.len() && 0 <= t < lmap[m].len() && !spec_resolvable(
                                features@,
                                #[trigger] lmap[m][t],
                            ) && spec_seq_contains(e@, lmap[m][t])) by {
                            assert(0 <= (i as int) && (i as int) < lmap.len());
                            assert(0 <= j < lmap[i as int].len());
                            assert(!spec_resolvable(features@, lmap[i as int][j])
                                && spec_seq_contains(e@, lmap[i as int][j]));
                        }
                    }
                    return Err(e);
                },
            };
            let ghost pre_flat = lmap.take(i as int).flatten();
            let ghost lvl_view = lvl@;
            local_indices.append(&mut lvl);
            proof {
                lmap.take(i as int).lemma_flatten_push(lmap[i as int]);
                assert(lmap.take(i as int).push(lmap[i as int]) =~= lmap.take(i as int + 1));
                assert(lmap.take(i as int + 1).flatten() == pre_flat + lmap[i as int]);
                assert forall|k: int| 0 <= k < local_indices@.len() implies spec_resolves_to(
                    features@,
                    lmap.take(i as int + 1).flatten()[k],
                    #[trigger] local_indices@[k],
                ) by {
                    if k < pre_flat.len() {
                        assert((pre_flat + lmap[i as int])[k] == pre_flat[k]);
                    } else {
                        assert((pre_flat + lmap[i as int])[k] == lmap[i as int][k
                            - pre_flat.len()]);
                        assert(local_indices@[k] == lvl_view[k - pre_flat.len()]);
                    }
                }
            }
            i += 1;
        }
        proof {
            assert(lmap.take(goal.local@.len() as int) =~= lmap);
        }
        Ok(GoalContext { levels, local_indices })
    }

    /// Hierarchical dominance order over the global map, smaller fitness is
    /// better on every objective.
    pub fn total_order(&self, a: &Solution, b: &Solution) -> (r: Comparison)
        requires
            spec_levels_fit(self.levels_view(), a.fitness@.len() as int),
            spec_levels_fit(self.levels_view(), b.fitness@.len() as int),
        ensures
            r == spec_total_order(self.levels_view(), a.fitness@, b.fitness@),
    {
        let ghost all = self.levels_view();
        proof {
            assert(all.skip(0) =~= all);
        }
        let mut l: usize = 0;
        while l < self.levels.len()
            invariant
                l <= self.levels.len(),
                all == self.levels_view(),
                spec_levels_fit(all, a.fitness@.len() as int),
                spec_levels_fit(all, b.fitness@.len() as int),
                spec_total_order(all, a.fitness@, b.fitness@) == spec_total_order(
                    all.skip(l as int),
                    a.fitness@,
                    b.fitness@,
                ),
            decreases self.levels.len() - l,
        {
            let level = &self.levels[l];
            let ghost lv = all[l as int];
            proof {
                assert(lv == level@);
            }
            let mut has_less = false;
            let mut has_greater = false;
            let mut j: usize = 0;
            while j < level.len()
                invariant
                    j <= level.len(),
                    lv == level@,
                    l < self.levels.len(),
                    all == self.levels_view(),
                    all[l as int] == lv,
                    spec_levels_fit(all, a.fitness@.len() as int),
                    spec_levels_fit(all, b.fitness@.len() as int),
                    has_less == spec_level_less(lv.subrange(0, j as int), a.fitness@, b.fitness@),
                    has_greater == spec_level_greater(
                        lv.subrange(0, j as int),
                        a.fitness@,
                        b.fitness@,
                    ),
                decreases level.len() - j,
            {
                let k = level[j];
                proof {
                    assert(all[l as int][j as int] == level@[j as int]);
                    assert(k < a.fitness@.len() && k < b.fitness@.len());
                    assert(lv.subrange(0, j as int + 1) =~= lv.subrange(0, j as int).push(
                        lv[j as int],
                    ));
                }
                let ghost pre = lv.subrange(0, j as int);
                let ghost cur = lv.subrange(0, j as int + 1);
                let fa = a.fitness[k];
                let fb = b.fitness[k];
                if fa < fb {
                    has_less = true;
                } else if fa > fb {
                    has_greater = true;
                }
                proof {
                    lemma_level_flags_push(pre, lv[j as int], a.fitness@, b.fitness@);
                }
                j += 1;
            }
            proof {
                assert(lv.subrange(0, level@.len() as int) =~= lv);
            }
            let cmp = if has_greater && !has_less {
                Comparison::Greater
            } else if has_less && !has_greater {
                Comparison::Less
            } else {
                Comparison::Equal
            };
            proof {
                assert(cmp == spec_level_cmp(lv, a.fitness@, b.fitness@));
                assert(all.skip(l as int)[0] == all[l as int]);
                assert(all.skip(l as int).drop_first() =~= all.skip(l as int + 1));
            }
            match cmp {
                Comparison::Equal => {},
                decided => {
                    return decided;
                },
            }
            l += 1;
        }
        proof {
            assert(all.skip(l as int) =~= Seq::<Seq<usize>>::empty());
        }
        Comparison::Equal
    }

    /// Per-objective distance vector over the flat local map; entry `k` is
    /// the non-negative fitness difference along local objective `k`. The
    /// caller chooses how to aggregate.
    pub fn distance(&self, a: &Solution, b: &Solution) -> (r: Vec<u64>)
        requires
            spec_flat_fits(self.local_indices@, a.fitness@.len() as int),
            spec_flat_fits(self.local_indices@, b.fitness@.len() as int),
        ensures
            r@.len() == self.local_indices@.len(),
            forall|k: int|
                0 <= k < r@.len() ==> r@[k] == spec_abs_diff(
                    a.fitness@[self.local_indices@[k] as int],
                    b.fitness@[self.local_indices@[k] as int],
                ),
    {
        let mut r: Vec<u64> = Vec::new();
        let mut k: usize = 0;
        while k < self.local_indices.len()
            invariant
                k <= self.local_indices.len(),
                spec_flat_fits(self.local_indices@, a.fitness@.len() as int),
                spec_flat_fits(self.local_indices@, b.fitness@.len() as int),
                r@.len() == k,
                forall|m: int|
                    0 <= m < k ==> r@[m] == spec_abs_diff(
                        a.fitness@[self.local_indices@[m] as int],
                        b.fitness@[self.local_indices@[m] as int],
                    ),
            decreases self.local_indices.len() - k,
        {
            let idx = self.local_indices[k];
            let fa = a.fitness[idx];
            let fb = b.fitness[idx];
            let d: u64 = if fa >= fb {
                ((fa as i128) - (fb as i128)) as u64
            } else {
                ((fb as i128) - (fa as i128)) as u64
            };
            r.push(d);
            k += 1;
        }
        r
    }
}

/// Extending the scanned prefix of a level by one objective updates the two
/// dominance flags exactly as the flag loop does.
proof fn lemma_level_flags_push(pre: Seq<usize>, k: usize, a: Seq<i64>, b: Seq<i64>)
    ensures
        spec_level_less(pre.push(k), a, b) == (spec_level_less(pre, a, b) || spec_cmp_i64(
            a[k as int],
            b[k as int],
        ) == Comparison::Less),
        spec_level_greater(pre.push(k), a, b) == (spec_level_greater(pre, a, b) || spec_cmp_i64(
            a[k as int],
            b[k as int],
        ) == Comparison::Greater),
{
    let post = pre.push(k);
    assert(post[pre.len() as int] == k);
    assert(forall|j: int| 0 <= j < pre.len() ==> post[j] == pre[j]);
    if spec_level_less(pre, a, b) {
        let j = choose|j: int|
            0 <= j < pre.len() && spec_cmp_i64(a[pre[j] as int], b[pre[j] as int])
                == Comparison::Less;
        assert(spec_cmp_i64(a[post[j] as int], b[post[j] as int]) == Comparison::Less);
    }
    if spec_cmp_i64(a[k as int], b[k as int]) == Comparison::Less {
        assert(spec_cmp_i64(a[post[pre.len() as int] as int], b[post[pre.len() as int] as int])
            == Comparison::Less);
    }
    if spec_level_less(post, a, b) && !spec_level_less(pre, a, b) {
        let j = choose|j: int|
            0 <= j < post.len() && spec_cmp_i64(a[post[j] as int], b[post[j] as int])
                == Comparison::Less;
        assert(j == pre.len());
    }
    if spec_level_greater(pre, a, b) {
        let j = choose|j: int|
            0 <= j < pre.len() && spec_cmp_i64(a[pre[j] as int], b[pre[j] as int])
                == Comparison::Greater;
        assert(spec_cmp_i64(a[post[j] as int], b[post[j] as int]) == Comparison::Greater);
    }
    if spec_cmp_i64(a[k as int], b[k as int]) == Comparison::Greater {
        assert(spec_cmp_i64(a[post[pre.len() as int] as int], b[post[pre.len() as int] as int])
            == Comparison::Greater);
    }
    if spec_level_greater(post, a, b) && !spec_level_greater(pre, a, b) {
        let j = choose|j: int|
            0 <= j < post.len() && spec_cmp_i64(a[post[j] as int], b[post[j] as int])
                == Comparison::Greater;
        assert(j == pre.len());
    }
}

/// Swapping the two sides of a level swaps its dominance flags.
proof fn lemma_level_flip(level: Seq<usize>, a: Seq<i64>, b: Seq<i64>)
    ensures
        spec_level_less(level, b, a) == spec_level_greater(level, a, b),
        spec_level_greater(level, b, a) == spec_level_less(level, a, b),
{
    if spec_level_less(level, b, a) {
        let j = choose|j: int|
            0 <= j < level.len() && spec_cmp_i64(b[level[j] as int], a[level[j] as int])
                == Comparison::Less;
        assert(spec_cmp_i64(a[level[j] as int], b[level[j] as int]) == Comparison::Greater);
    }
    if spec_level_greater(level, a, b) {
        let j = choose|j: int|
            0 <= j < level.len() && spec_cmp_i64(a[level[j] as int], b[level[j] as int])
                == Comparison::Greater;
        assert(spec_cmp_i64(b[level[j] as int], a[level[j] as int]) == Comparison::Less);
    }
    if spec_level_greater(level, b, a) {
        let j = choose|j: int|
            0 <= j < level.len() && spec_cmp_i64(b[level[j] as int], a[level[j] as int])
                == Comparison::Greater;
        assert(spec_cmp_i64(a[level[j] as int], b[level[j] as int]) == Comparison::Less);
    }
    if spec_level_less(level, a, b) {
        let j = choose|j: int|
            0 <= j < level.len() && spec_cmp_i64(a[level[j] as int], b[level[j] as int])
                == Comparison::Less;
        assert(spec_cmp_i64(b[level[j] as int], a[level[j] as int]) == Comparison::Greater);
    }
}

pub proof fn lemma_seq_total_order_reflexive(levels: Seq<Seq<usize>>, a: Seq<i64>)
    ensures
        spec_total_order(levels, a, a) == Comparison::Equal,
    decreases levels.len(),
{
    if levels.len() > 0 {
        assert(!spec_level_less(levels[0], a, a));
        assert(!spec_level_greater(levels[0], a, a));
        lemma_seq_total_order_reflexive(levels.drop_first(), a);
    }
}

pub proof fn lemma_seq_total_order_flip(levels: Seq<Seq<usize>>, a: Seq<i64>, b: Seq<i64>)
    ensures
        spec_total_order(levels, b, a) == spec_flip(spec_total_order(levels, a, b)),
    decreases levels.len(),
{
    if levels.len() > 0 {
        lemma_level_flip(levels[0], a, b);
        lemma_seq_total_order_flip(levels.drop_first(), a, b);
    }
}

/// A level of exactly one objective compares the two fitness entries it
/// names directly.
proof fn lemma_singleton_level_cmp(level: Seq<usize>, a: Seq<i64>, b: Seq<i64>)
    requires
        level.len() == 1,
    ensures
        spec_level_cmp(level, a, b) == spec_cmp_i64(a[level[0] as int], b[level[0] as int]),
{
    let c = spec_cmp_i64(a[level[0] as int], b[level[0] as int]);
    if c is Less {
        assert(spec_level_less(level, a, b)) by {
            assert(spec_cmp_i64(a[level[0] as int], b[level[0] as int]) == Comparison::Less);
        }
        assert(!spec_level_greater(level, a, b)) by {
            assert(forall|j: int|
                0 <= j < level.len() ==> spec_cmp_i64(a[level[j] as int], b[level[j] as int])
                    == Comparison::Less);
        }
    } else if c is Greater {
        assert(spec_level_greater(level, a, b)) by {
            assert(spec_cmp_i64(a[level[0] as int], b[level[0] as int]) == Comparison::Greater);
        }
        assert(!spec_level_less(level, a, b)) by {
            assert(forall|j: int|
                0 <= j < level.len() ==> spec_cmp_i64(a[level[j] as int], b[level[j] as int])
                    == Comparison::Greater);
        }
    } else {
        assert(!spec_level_less(level, a, b));
        assert(!spec_level_greater(level, a, b));
    }
}

pub proof fn lemma_seq_total_order_transitive(
    levels: Seq<Seq<usize>>,
    a: Seq<i64>,
    b: Seq<i64>,
    c: Seq<i64>,
)
    requires
        forall|l: int| 0 <= l < levels.len() ==> (#[trigger] levels[l]).len() == 1,
        spec_total_order(levels, a, b) == Comparison::Greater,
        spec_total_order(levels, b, c) == Comparison::Greater,
    ensures
        spec_total_order(levels, a, c) == Comparison::Greater,
    decreases levels.len(),
{
    let k = levels[0][0] as int;
    lemma_singleton_level_cmp(levels[0], a, b);
    lemma_singleton_level_cmp(levels[0], b, c);
    lemma_singleton_level_cmp(levels[0], a, c);
    if a[k] == b[k] && b[k] == c[k] {
        assert(forall|l: int|
            0 <= l < levels.drop_first().len() ==> (#[trigger] levels.drop_first()[l]).len()
                == 1);
        lemma_seq_total_order_transitive(levels.drop_first(), a, b, c);
    }
}

/// Law: an objective map that references a name which no feature-contributed
/// objective uniquely resolves is invalid, so construction can never hand
/// out a context built over it: `GoalContext::new` returns a context only
/// for a valid map.
pub proof fn lemma_unresolvable_name_invalidates_map(
    features: Seq<Feature>,
    map: Seq<Seq<Seq<char>>>,
    l: int,
    j: int,
)
    requires
        0 <= l < map.len(),
        0 <= j < map[l].len(),
        !spec_resolvable(features, map[l][j]),
    ensures
        !spec_map_valid(features, map),
{
}

impl GoalContext {
    /// Law: a solution always ranks equal against itself, under any global
    /// map.
    pub proof fn lemma_total_order_reflexive(&self, a: &Solution)
        ensures
            spec_total_order(self.levels_view(), a.fitness@, a.fitness@) == Comparison::Equal,
    {
        lemma_seq_total_order_reflexive(self.levels_view(), a.fitness@);
    }

    /// Law: the order is antisymmetric under any global map: seen from the
    /// other side the verdict flips.
    pub proof fn lemma_total_order_flip(&self, a: &Solution, b: &Solution)
        ensures
            spec_total_order(self.levels_view(), b.fitness@, a.fitness@) == spec_flip(
                spec_total_order(self.levels_view(), a.fitness@, b.fitness@),
            ),
    {
        lemma_seq_total_order_flip(self.levels_view(), a.fitness@, b.fitness@);
    }

    /// Law: the distance vector of a solution against itself is all zeros.
    pub proof fn lemma_distance_self_zero(&self, a: &Solution)
        ensures
            forall|k: int|
                0 <= k < self.local_indices@.len() ==> spec_abs_diff(
                    a.fitness@[(#[trigger] self.local_indices@[k]) as int],
                    a.fitness@[self.local_indices@[k] as int],
                ) == 0,
    {
    }

    /// Law: the distance vector does not depend on the order of its two
    /// arguments.
    pub proof fn lemma_distance_symmetric(&self, a: &Solution, b: &Solution)
        ensures
            forall|k: int|
                0 <= k < self.local_indices@.len() ==> spec_abs_diff(
                    a.fitness@[(#[trigger] self.local_indices@[k]) as int],
                    b.fitness@[self.local_indices@[k] as int],
                ) == spec_abs_diff(
                    b.fitness@[self.local_indices@[k] as int],
                    a.fitness@[self.local_indices@[k] as int],
                ),
    {
    }

    /// Law: when every level holds a single objective the strict part of the
    /// order is transitive. A map with a multi-objective level can break
    /// transitivity: an inconclusive Pareto level defers to a later level,
    /// which may contradict the dominance that decided another pair.
    pub proof fn lemma_total_order_transitive(&self, a: &Solution, b: &Solution, c: &Solution)
        requires
            forall|l: int|
                0 <= l < self.levels_view().len() ==> (#[trigger] self.levels_view()[l]).len()
                    == 1,
            spec_total_order(self.levels_view(), a.fitness@, b.fitness@) == Comparison::Greater,
            spec_total_order(self.levels_view(), b.fitness@, c.fitness@) == Comparison::Greater,
        ensures
            spec_total_order(self.levels_view(), a.fitness@, c.fitness@) == Comparison::Greater,
    {
        lemma_seq_total_order_transitive(self.levels_view(), a.fitness@, b.fitness@, c.fitness@);
    }
}

} // verus!
