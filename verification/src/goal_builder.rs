//! Assembles the goal context of a problem: chooses the objective
//! configuration, derives the global and local objective maps from the
//! objective-bearing features, and composes the ranking engine.

use vstd::prelude::*;

use crate::goal::{
    spec_map_valid, spec_map_view, spec_owner, spec_resolvable, spec_resolves_to,
    spec_seq_contains, Feature, Goal, GoalContext,
};

verus! {

/// The objectives a problem can declare, grouped into priority levels by the
/// caller.
#[derive(Debug, Clone, Copy, PartialEq, Eq, Structural)]
pub enum ObjectiveKind {
    MinimizeCost,
    MinimizeDistance,
    MinimizeDuration,
    MinimizeTours,
    MaximizeTours,
    MaximizeValue,
    MinimizeUnassigned,
    MinimizeArrivalTime,
    BalanceMaxLoad,
    BalanceActivities,
    BalanceDistance,
    BalanceDuration,
    CompactTour,
    TourOrder,
    FastService,
}

/// Traits of a problem instance that steer the default objective choice.
#[derive(Debug, Clone, Copy, PartialEq, Eq, Structural)]
pub struct ProblemProperties {
    /// Some jobs carry a value to maximize.
    pub has_value: bool,
}

/// The feature name under which an objective kind is registered.
pub open spec fn spec_objective_name(kind: ObjectiveKind) -> Seq<char> {
    match kind {
        ObjectiveKind::MinimizeCost => "min_cost"@,
        ObjectiveKind::MinimizeDistance => "min_distance"@,
        ObjectiveKind::MinimizeDuration => "min_duration"@,
        ObjectiveKind::MinimizeTours => "min_tours"@,
        ObjectiveKind::MaximizeTours => "max_tours"@,
        ObjectiveKind::MaximizeValue => "max_value"@,
        ObjectiveKind::MinimizeUnassigned => "min_unassigned"@,
        ObjectiveKind::MinimizeArrivalTime => "min_arrival_time"@,
        ObjectiveKind::BalanceMaxLoad => "max_load_balance"@,
        ObjectiveKind::BalanceActivities => "activity_balance"@,
        ObjectiveKind::BalanceDistance => "distance_balance"@,
        ObjectiveKind::BalanceDuration => "duration_balance"@,
        ObjectiveKind::CompactTour => "tour_compact"@,
        ObjectiveKind::TourOrder => "tour_order"@,
        ObjectiveKind::FastService => "fast_service"@,
    }
}

/// The feature name under which an objective kind is registered.
pub fn objective_feature_name(kind: ObjectiveKind) -> (r: String)
    ensures
        r@ == spec_objective_name(kind),
{
    match kind {
        ObjectiveKind::MinimizeCost => "min_cost".to_owned(),
        ObjectiveKind::MinimizeDistance => "min_distance".to_owned(),
        ObjectiveKind::MinimizeDuration => "min_duration".to_owned(),
        ObjectiveKind::MinimizeTours => "min_tours".to_owned(),
        ObjectiveKind::MaximizeTours => "max_tours".to_owned(),
        ObjectiveKind::MaximizeValue => "max_value".to_owned(),
        ObjectiveKind::MinimizeUnassigned => "min_unassigned".to_owned(),
        ObjectiveKind::MinimizeArrivalTime => "min_arrival_time".to_owned(),
        ObjectiveKind::BalanceMaxLoad => "max_load_balance".to_owned(),
        ObjectiveKind::BalanceActivities => "activity_balance".to_owned(),
        ObjectiveKind::BalanceDistance => "distance_balance".to_owned(),
        ObjectiveKind::BalanceDuration => "duration_balance".to_owned(),
        ObjectiveKind::CompactTour => "tour_compact".to_owned(),
        ObjectiveKind::TourOrder => "tour_order".to_owned(),
        ObjectiveKind::FastService => "fast_service".to_owned(),
    }
}

/// The default objective configuration: fewest unassigned jobs first, then
/// fewest tours, then least cost; a value level on top when jobs carry
/// values.
pub open spec fn spec_default_objectives(props: ProblemProperties) -> Seq<Seq<ObjectiveKind>> {
    let base = seq![
        seq![ObjectiveKind::MinimizeUnassigned],
        seq![ObjectiveKind::MinimizeTours],
        seq![ObjectiveKind::MinimizeCost],
    ];
    if props.has_value {
        seq![seq![ObjectiveKind::MaximizeValue]] + base
    } else {
        base
    }
}

/// The objective configuration of a problem: the declared one when present,
/// otherwise the default for the problem's properties.
pub fn get_objectives(
    declared: Option<Vec<Vec<ObjectiveKind>>>,
    props: &ProblemProperties,
) -> (r: Vec<Vec<ObjectiveKind>>)
    ensures
        match declared {
            Some(d) => r == d,
            None => r@.map_values(|lvl: Vec<ObjectiveKind>| lvl@) =~= spec_default_objectives(
                *props,
            ),
        },
{
    match declared {
        Some(d) => d,
        None => {
            let mut objectives: Vec<Vec<ObjectiveKind>> = Vec::new();
            if props.has_value {
                let mut lvl: Vec<ObjectiveKind> = Vec::new();
                lvl.push(ObjectiveKind::MaximizeValue);
                proof {
                    assert(lvl@ =~= seq![ObjectiveKind::MaximizeValue]);
                }
                objectives.push(lvl);
            }
            let mut l0: Vec<ObjectiveKind> = Vec::new();
            l0.push(ObjectiveKind::MinimizeUnassigned);
            let mut l1: Vec<ObjectiveKind> = Vec::new();
            l1.push(ObjectiveKind::MinimizeTours);
            let mut l2: Vec<ObjectiveKind> = Vec::new();
            l2.push(ObjectiveKind::MinimizeCost);
            proof {
                assert(l0@ =~= seq![ObjectiveKind::MinimizeUnassigned]);
                assert(l1@ =~= seq![ObjectiveKind::MinimizeTours]);
                assert(l2@ =~= seq![ObjectiveKind::MinimizeCost]);
            }
            objectives.push(l0);
            objectives.push(l1);
            objectives.push(l2);
            proof {
                assert(objectives@.map_values(|lvl: Vec<ObjectiveKind>| lvl@)
                    =~= spec_default_objectives(*props));
            }
            objectives
        },
    }
}

/// A set of feature names, backed by a hash set of the `hashbrown` crate.
#[verifier::external_body]
#[derive(Debug)]
pub struct NameSet {
    inner: hashbrown::HashSet<String>,
}

/// The names a `NameSet` holds.
pub uninterp spec fn spec_name_set_contents(s: &NameSet) -> Set<Seq<char>>;

impl NameSet {
    /// Relies on `hashbrown::HashSet::new`: a fresh set holds nothing.
    #[verifier::external_body]
    pub fn new() -> (r: NameSet)
        ensures
            spec_name_set_contents(&r) == Set::<Seq<char>>::empty(),
    {
        NameSet { inner: hashbrown::HashSet::new() }
    }

    /// Relies on `hashbrown::HashSet::insert` with `String`'s `Eq` and
    /// `Hash`: afterwards the set holds exactly the old names plus this one.
    #[verifier::external_body]
    pub fn insert(&mut self, name: &str)
        ensures
            spec_name_set_contents(final(self)) == spec_name_set_contents(old(self)).insert(
                name@,
            ),
    {
        self.inner.insert(name.to_owned());
    }

    /// Relies on `hashbrown::HashSet::contains` with `String`'s `Eq` and
    /// `Hash`: reports exactly whether the name was inserted.
    #[verifier::external_body]
    pub fn contains(&self, name: &String) -> (r: bool)
        ensures
            r == spec_name_set_contents(self).contains(name@),
    {
        self.inner.contains(name.as_str())
    }
}

/// The global map read off grouped features: one level per group, holding
/// the names of its objective-bearing features.
pub open spec fn spec_global_of(features: Seq<Seq<Feature>>) -> Seq<Seq<Seq<char>>> {
    features.map_values(
        |group: Seq<Feature>|
            group.filter(|f: Feature| f.objective is Some).map_values(|f: Feature| f.name@),
    )
}

/// The flat local map read off grouped features: every objective-bearing
/// name in declaration order, except the unassigned-jobs objective.
pub open spec fn spec_local_of(features: Seq<Seq<Feature>>) -> Seq<Seq<char>> {
    spec_global_of(features).flatten().filter(|n: Seq<char>| n != "min_unassigned"@)
}

/// Derives the two objective maps from the grouped objective features: the
/// global map mirrors the grouping; the local map flattens every
/// objective-bearing feature into a singleton level, leaving out the
/// unassigned-jobs objective, which is not meaningful at move granularity.
pub fn extract_feature_map(features: &Vec<Vec<Feature>>) -> (r: Result<
    (Vec<Vec<String>>, Vec<Vec<String>>),
    String,
>)
    ensures
        r is Ok,
        r matches Ok((global, local)) ==> {
            let view = features@.map_values(|group: Vec<Feature>| group@);
            &&& global@.map_values(|lvl: Vec<String>| lvl@.map_values(|s: String| s@))
                =~~= spec_global_of(view)
            &&& local@.map_values(|lvl: Vec<String>| lvl@.map_values(|s: String| s@))
                =~~= spec_local_of(view).map_values(|n: Seq<char>| seq![n])
        },
{
    let ghost view = features@.map_values(|group: Vec<Feature>| group@);
    let mut global: Vec<Vec<String>> = Vec::new();
    let mut local: Vec<Vec<String>> = Vec::new();
    let mut exclusion_set = NameSet::new();
    let excluded = "min_unassigned".to_owned();
    exclusion_set.insert(excluded.as_str());
    let ghost mut all_names: Seq<Seq<char>> = Seq::empty();
    proof {
        assert(spec_global_of(view).take(0) =~= Seq::<Seq<Seq<char>>>::empty());
        assert(all_names =~= spec_global_of(view).take(0).flatten());
        assert(local@.map_values(|lvl: Vec<String>| lvl@.map_values(|s: String| s@))
            =~~= all_names.filter(|n: Seq<char>| n != "min_unassigned"@).map_values(
            |n: Seq<char>| seq![n],
        ));
    }
    let mut g: usize = 0;
    while g < features.len()
        invariant
            g <= features@.len(),
            view == features@.map_values(|group: Vec<Feature>| group@),
            spec_name_set_contents(&exclusion_set) == Set::<Seq<char>>::empty().insert(
                "min_unassigned"@,
            ),
            global@.len() == g,
            forall|m: int|
                0 <= m < g ==> (#[trigger] global@[m])@.map_values(|s: String| s@)
                    =~~= spec_global_of(view)[m],
            all_names == spec_global_of(view).take(g as int).flatten(),
            local@.map_values(|lvl: Vec<String>| lvl@.map_values(|s: String| s@)) =~~= all_names
                .filter(|n: Seq<char>| n != "min_unassigned"@).map_values(|n: Seq<char>| seq![n]),
        decreases features@.len() - g,
    {
        let group = &features[g];
        let ghost base_names = all_names;
        let mut level: Vec<String> = Vec::new();
        let mut j: usize = 0;
        while j < group.len()
            invariant
                j <= group@.len(),
                spec_name_set_contents(&exclusion_set) == Set::<Seq<char>>::empty().insert(
                    "min_unassigned"@,
                ),
                level@.map_values(|s: String| s@) =~~= group@.take(j as int).filter(
                    |f: Feature| f.objective is Some,
                ).map_values(|f: Feature| f.name@),
                all_names == base_names + level@.map_values(|s: String| s@),
                local@.map_values(|lvl: Vec<String>| lvl@.map_values(|s: String| s@))
                    =~~= all_names.filter(|n: Seq<char>| n != "min_unassigned"@).map_values(
                    |n: Seq<char>| seq![n],
                ),
            decreases group@.len() - j,
        {
            let ghost pre = group@.take(j as int);
            let ghost post = group@.take(j as int + 1);
            let ghost elem = group@[j as int];
            let ghost old_level = level@;
            let ghost old_names = all_names;
            let ghost old_local = local@;
            if group[j].objective.is_some() {
                level.push(clone_string(&group[j].name));
                proof {
                    all_names = all_names.push(elem.name@);
                }
                if !exclusion_set.contains(&group[j].name) {
                    let mut singleton: Vec<String> = Vec::new();
                    singleton.push(clone_string(&group[j].name));
                    local.push(singleton);
                }
            }
            proof {
                reveal(Seq::filter);
                assert(post =~= pre.push(elem));
                assert(post.drop_last() =~= pre);
                assert(post.last() == elem);
                if elem.objective is Some {
                    assert(post.filter(|f: Feature| f.objective is Some) =~= pre.filter(
                        |f: Feature| f.objective is Some,
                    ).push(elem));
                    assert(level@ == old_level.push(level@[old_level.len() as int]));
                    assert(level@[old_level.len() as int]@ == elem.name@);
                    assert(level@.map_values(|s: String| s@) =~~= old_level.map_values(
                        |s: String| s@,
                    ).push(elem.name@));
                    assert(pre.filter(|f: Feature| f.objective is Some).push(elem).map_values(
                        |f: Feature| f.name@,
                    ) =~~= pre.filter(|f: Feature| f.objective is Some).map_values(
                        |f: Feature| f.name@,
                    ).push(elem.name@));
                    assert(all_names =~= base_names + level@.map_values(|s: String| s@));
                    assert(all_names.drop_last() =~= old_names);
                    assert(all_names.last() == elem.name@);
                    let pred = |n: Seq<char>| n != "min_unassigned"@;
                    if elem.name@ != "min_unassigned"@ {
                        assert(all_names.filter(pred) =~= old_names.filter(pred).push(
                            elem.name@,
                        ));
                        assert(local@ == old_local.push(local@[old_local.len() as int]));
                        assert(local@[old_local.len() as int]@.map_values(|s: String| s@)
                            =~~= seq![elem.name@]);
                        assert(local@.map_values(
                            |lvl: Vec<String>| lvl@.map_values(|s: String| s@),
                        ) =~~= old_local.map_values(
                            |lvl: Vec<String>| lvl@.map_values(|s: String| s@),
                        ).push(seq![elem.name@]));
                        assert(all_names.filter(pred).map_values(|n: Seq<char>| seq![n])
                            =~~= old_names.filter(pred).map_values(|n: Seq<char>| seq![n]).push(
                            seq![elem.name@],
                        ));
                        assert(local@.map_values(
                            |lvl: Vec<String>| lvl@.map_values(|s: String| s@),
                        ) =~~= all_names.filter(pred).map_values(|n: Seq<char>| seq![n]));
                    } else {
                        assert(all_names.filter(pred) =~= old_names.filter(pred));
                        assert(local@.map_values(
                            |lvl: Vec<String>| lvl@.map_values(|s: String| s@),
                        ) =~~= all_names.filter(pred).map_values(|n: Seq<char>| seq![n]));
                    }
                } else {
                    assert(post.filter(|f: Feature| f.objective is Some) =~= pre.filter(
                        |f: Feature| f.objective is Some,
                    ));
                }
                assert(level@.map_values(|s: String| s@) =~~= post.filter(
                    |f: Feature| f.objective is Some,
                ).map_values(|f: Feature| f.name@));
            }
            j += 1;
        }
        proof {
            assert(group@.take(group@.len() as int) =~= group@);
            assert(view[g as int] == group@);
            assert(spec_global_of(view).take(g as int).push(spec_global_of(view)[g as int])
                =~= spec_global_of(view).take(g as int + 1));
            spec_global_of(view).take(g as int).lemma_flatten_push(
                spec_global_of(view)[g as int],
            );
            assert(level@.map_values(|s: String| s@) =~~= spec_global_of(view)[g as int]);
            assert(all_names =~= spec_global_of(view).take(g as int + 1).flatten());
        }
        global.push(level);
        g += 1;
    }
    proof {
        assert(spec_global_of(view).take(view.len() as int) =~= spec_global_of(view));
    }
    Ok((global, local))
}

/// The feature names of one configuration level.
pub open spec fn spec_level_names(level: Seq<ObjectiveKind>) -> Seq<Seq<char>> {
    level.map_values(|k: ObjectiveKind| spec_objective_name(k))
}

/// The chosen configuration of a problem: the declared one when present,
/// otherwise the default for the problem's properties.
pub open spec fn spec_config(
    declared: Option<Vec<Vec<ObjectiveKind>>>,
    props: ProblemProperties,
) -> Seq<Seq<ObjectiveKind>> {
    match declared {
        Some(d) => d@.map_values(|lvl: Vec<ObjectiveKind>| lvl@),
        None => spec_default_objectives(props),
    }
}

/// The feature names of the flattened configuration, in declaration order.
pub open spec fn spec_flat_names(config: Seq<Seq<ObjectiveKind>>) -> Seq<Seq<char>> {
    spec_level_names(config.flatten())
}

/// A configuration composes into a goal context: no declared level is
/// empty, no feature name is claimed by two declared objectives, and the
/// objective count stays representable.
pub open spec fn spec_config_ok(config: Seq<Seq<ObjectiveKind>>) -> bool {
    &&& config.flatten().len() < usize::MAX
    &&& (forall|l: int| 0 <= l < config.len() ==> (#[trigger] config[l]).len() > 0)
    &&& (forall|l1: int, j1: int, l2: int, j2: int|
        0 <= l1 < config.len() && 0 <= j1 < config[l1].len() && 0 <= l2 < config.len() && 0 <= j2
            < config[l2].len() && (l1 != l2 || j1 != j2) ==> spec_objective_name(
            #[trigger] config[l1][j1],
        ) != spec_objective_name(#[trigger] config[l2][j2]))
}

/// Flat positions of the names kept in the local map: every position whose
/// name is not the excluded unassigned-jobs objective, in order.
pub open spec fn spec_kept_positions(names: Seq<Seq<char>>) -> Seq<int>
    decreases names.len(),
{
    if names.len() == 0 {
        Seq::empty()
    } else if names.last() != "min_unassigned"@ {
        spec_kept_positions(names.drop_last()).push(names.len() - 1)
    } else {
        spec_kept_positions(names.drop_last())
    }
}

/// Taking one more level extends the flattened configuration by it.
proof fn lemma_flatten_take_succ<A>(s: Seq<Seq<A>>, l: int)
    requires
        0 <= l < s.len(),
    ensures
        s.take(l + 1).flatten() == s.take(l).flatten() + s[l],
{
    assert(s.take(l).push(s[l]) =~= s.take(l + 1));
    s.take(l).lemma_flatten_push(s[l]);
}

/// A flattened prefix stands unchanged at the front of the full flattening.
proof fn lemma_flatten_prefix<A>(s: Seq<Seq<A>>, l: int)
    requires
        0 <= l <= s.len(),
    ensures
        s.take(l).flatten().len() <= s.flatten().len(),
        forall|p: int|
            0 <= p < s.take(l).flatten().len() ==> #[trigger] s.flatten()[p] == s.take(
                l,
            ).flatten()[p],
    decreases s.len() - l,
{
    if l == s.len() {
        assert(s.take(l) =~= s);
    } else {
        lemma_flatten_take_succ(s, l);
        lemma_flatten_prefix(s, l + 1);
    }
}

/// Flattened prefix lengths grow with the prefix.
proof fn lemma_flatten_take_mono<A>(s: Seq<Seq<A>>, l1: int, l2: int)
    requires
        0 <= l1 <= l2 <= s.len(),
    ensures
        s.take(l1).flatten().len() <= s.take(l2).flatten().len(),
    decreases l2 - l1,
{
    if l1 < l2 {
        lemma_flatten_take_succ(s, l1);
        lemma_flatten_take_mono(s, l1 + 1, l2);
    }
}

/// Filtering for objective-bearing features keeps a sequence in which every
/// feature bears one.
proof fn lemma_filter_all_objective(s: Seq<Feature>)
    requires
        forall|i: int| 0 <= i < s.len() ==> (#[trigger] s[i]).objective is Some,
    ensures
        s.filter(|f: Feature| f.objective is Some) == s,
    decreases s.len(),
{
    reveal(Seq::filter);
    if s.len() == 0 {
        assert(s.filter(|f: Feature| f.objective is Some) =~= s);
    } else {
        assert(forall|i: int|
            0 <= i < s.drop_last().len() ==> (#[trigger] s.drop_last()[i]).objective is Some);
        lemma_filter_all_objective(s.drop_last());
        assert(s.filter(|f: Feature| f.objective is Some) =~= s.drop_last().push(s.last()));
        assert(s.drop_last().push(s.last()) =~= s);
    }
}

/// Wrapping names as singleton levels and flattening gives the names back.
proof fn lemma_flatten_singletons(s: Seq<Seq<char>>)
    ensures
        s.map_values(|n: Seq<char>| seq![n]).flatten() == s,
    decreases s.len(),
{
    let m = s.map_values(|n: Seq<char>| seq![n]);
    if s.len() == 0 {
        assert(m.flatten() =~= s);
    } else {
        lemma_flatten_singletons(s.drop_first());
        assert(m.drop_first() =~= s.drop_first().map_values(|n: Seq<char>| seq![n]));
        assert(m.flatten() =~= seq![s[0]] + s.drop_first());
        assert(seq![s[0]] + s.drop_first() =~= s);
    }
}

/// Per-level names flatten to the names of the flattened configuration.
proof fn lemma_flatten_level_names(config: Seq<Seq<ObjectiveKind>>)
    ensures
        config.map_values(|lvl: Seq<ObjectiveKind>| spec_level_names(lvl)).flatten()
            == spec_flat_names(config),
    decreases config.len(),
{
    let m = config.map_values(|lvl: Seq<ObjectiveKind>| spec_level_names(lvl));
    if config.len() == 0 {
        assert(m.flatten() =~= spec_flat_names(config));
        assert(config.flatten() =~= Seq::<ObjectiveKind>::empty());
        assert(spec_flat_names(config) =~= Seq::<Seq<char>>::empty());
    } else {
        lemma_flatten_level_names(config.drop_first());
        assert(m.drop_first() =~= config.drop_first().map_values(
            |lvl: Seq<ObjectiveKind>| spec_level_names(lvl),
        ));
        assert(config.flatten() == config[0] + config.drop_first().flatten());
        assert(m.flatten() == spec_level_names(config[0]) + spec_flat_names(
            config.drop_first(),
        ));
        assert(spec_level_names(config[0]) + spec_flat_names(config.drop_first())
            =~= spec_flat_names(config));
    }
}

/// The filtered names and their kept flat positions align pointwise.
proof fn lemma_filter_kept(names: Seq<Seq<char>>)
    ensures
        spec_kept_positions(names).len() == names.filter(
            |n: Seq<char>| n != "min_unassigned"@,
        ).len(),
        forall|k: int|
            0 <= k < spec_kept_positions(names).len() ==> 0 <= #[trigger] spec_kept_positions(
                names,
            )[k] < names.len() && names[spec_kept_positions(names)[k]] == names.filter(
                |n: Seq<char>| n != "min_unassigned"@,
            )[k],
    decreases names.len(),
{
    reveal(Seq::filter);
    if names.len() > 0 {
        lemma_filter_kept(names.drop_last());
        let kept = spec_kept_positions(names);
        let kept_dl = spec_kept_positions(names.drop_last());
        let f = names.filter(|n: Seq<char>| n != "min_unassigned"@);
        let f_dl = names.drop_last().filter(|n: Seq<char>| n != "min_unassigned"@);
        assert(forall|k: int|
            0 <= k < kept_dl.len() ==> names[#[trigger] kept_dl[k]] == names.drop_last()[kept_dl[k]]);
        if names.last() != "min_unassigned"@ {
            assert(kept == kept_dl.push(names.len() - 1));
            assert(f == f_dl.push(names.last()));
            assert(names[kept[kept.len() - 1]] == f[f.len() - 1]);
        } else {
            assert(kept == kept_dl);
            assert(f == f_dl);
        }
    }
}

/// Deep copy of a feature name.
fn clone_string(s: &String) -> (r: String)
    ensures
        r@ == s@,
{
    s.clone()
}

/// The pair `(l, j)` reads the flattened entry at its flat position.
proof fn lemma_config_position(cfg: Seq<Seq<ObjectiveKind>>, l: int, j: int)
    requires
        0 <= l < cfg.len(),
        0 <= j < cfg[l].len(),
    ensures
        cfg.take(l).flatten().len() + j < cfg.flatten().len(),
        cfg.flatten()[cfg.take(l).flatten().len() + j] == cfg[l][j],
{
    lemma_flatten_take_succ(cfg, l);
    lemma_flatten_prefix(cfg, l + 1);
    assert(cfg.take(l + 1).flatten()[cfg.take(l).flatten().len() + j] == cfg[l][j]);
}

/// Distinct pairs have distinct flat positions.
proof fn lemma_distinct_positions(cfg: Seq<Seq<ObjectiveKind>>, l1: int, j1: int, l2: int, j2: int)
    requires
        0 <= l1 < cfg.len(),
        0 <= j1 < cfg[l1].len(),
        0 <= l2 < cfg.len(),
        0 <= j2 < cfg[l2].len(),
        l1 != l2 || j1 != j2,
    ensures
        cfg.take(l1).flatten().len() + j1 != cfg.take(l2).flatten().len() + j2,
{
    if l1 < l2 {
        lemma_flatten_take_succ(cfg, l1);
        lemma_flatten_take_mono(cfg, l1 + 1, l2);
    } else if l2 < l1 {
        lemma_flatten_take_succ(cfg, l2);
        lemma_flatten_take_mono(cfg, l2 + 1, l1);
    }
}

/// The flat position of level `l`, entry `j`.
spec fn spec_pos_of<A>(s: Seq<Seq<A>>, l: int, j: int) -> int {
    s.take(l).flatten().len() + j
}

/// Every flat position lies inside some level of the configuration.
proof fn lemma_flatten_pos<A>(s: Seq<Seq<A>>, p: int)
    requires
        0 <= p < s.flatten().len(),
    ensures
        exists|l: int, j: int|
            0 <= l < s.len() && 0 <= j < s[l].len() && p == #[trigger] spec_pos_of(s, l, j),
    decreases s.len(),
{
    assert(s.len() > 0) by {
        if s.len() == 0 {
            assert(s.flatten() =~= Seq::<A>::empty());
        }
    }
    assert(s.flatten() == s[0] + s.drop_first().flatten());
    if p < s[0].len() {
        assert(s.take(0) =~= Seq::<Seq<A>>::empty());
        assert(s.take(0).flatten() =~= Seq::<A>::empty());
        assert(0 <= 0 < s.len() && 0 <= p < (s[0]).len() && p == spec_pos_of(s, 0, p));
    } else {
        lemma_flatten_pos(s.drop_first(), p - s[0].len());
        let (l, j) = choose|l: int, j: int|
            0 <= l < s.drop_first().len() && 0 <= j < s.drop_first()[l].len() && p - s[0].len()
                == #[trigger] spec_pos_of(s.drop_first(), l, j);
        assert(s.take(l + 1) =~= seq![s[0]] + s.drop_first().take(l));
        vstd::seq_lib::lemma_flatten_concat(seq![s[0]], s.drop_first().take(l));
        assert(seq![s[0]].flatten() =~= s[0]) by {
            assert(seq![s[0]].drop_first() =~= Seq::<Seq<A>>::empty());
            assert(seq![s[0]].drop_first().flatten() =~= Seq::<A>::empty());
        }
        assert(s.take(l + 1).flatten().len() == s[0].len() + s.drop_first().take(
            l,
        ).flatten().len());
        assert(s[l + 1] == s.drop_first()[l]);
        assert(0 <= l + 1 < s.len() && 0 <= j < (s[l + 1]).len() && p == spec_pos_of(
            s,
            l + 1,
            j,
        ));
    }
}

/// Under a duplicate-free configuration, equal feature names stand at equal
/// flat positions.
proof fn lemma_position_of_name(cfg: Seq<Seq<ObjectiveKind>>, i: int, p: int)
    requires
        spec_config_ok(cfg),
        0 <= i < cfg.flatten().len(),
        0 <= p < cfg.flatten().len(),
        spec_objective_name(cfg.flatten()[i]) == spec_objective_name(cfg.flatten()[p]),
    ensures
        i == p,
{
    if i != p {
        lemma_flatten_pos(cfg, i);
        lemma_flatten_pos(cfg, p);
        let (l1, j1) = choose|l: int, j: int|
            0 <= l < cfg.len() && 0 <= j < cfg[l].len() && i == #[trigger] spec_pos_of(cfg, l, j);
        let (l2, j2) = choose|l: int, j: int|
            0 <= l < cfg.len() && 0 <= j < cfg[l].len() && p == #[trigger] spec_pos_of(cfg, l, j);
        lemma_config_position(cfg, l1, j1);
        lemma_config_position(cfg, l2, j2);
        assert(cfg.flatten()[i] == cfg[l1][j1]);
        assert(cfg.flatten()[p] == cfg[l2][j2]);
        assert(l1 != l2 || j1 != j2);
        assert(false);
    }
}

/// Builds the goal context of a problem: realizes the chosen objective
/// configuration as named features (the objective at level `l`, position
/// `j` reads the fitness entry at its position in the flattened
/// configuration), derives the two maps and composes the ranking engine.
/// Construction fails exactly when a declared level is empty, one feature
/// name is claimed by two declared objectives, or the objective count does
/// not fit the index range.
#[verifier::rlimit(100)]
pub fn create_goal_context(
    declared: Option<Vec<Vec<ObjectiveKind>>>,
    props: &ProblemProperties,
) -> (r: Result<GoalContext, String>)
    ensures
        ({
            let config = spec_config(declared, *props);
            match r {
                Ok(ctx) => {
                    &&& spec_config_ok(config)
                    &&& ctx.levels_view().len() == config.len()
                    &&& forall|l: int|
                        0 <= l < config.len() ==> (#[trigger] ctx.levels_view()[l]).len()
                            == config[l].len()
                    &&& forall|l: int, j: int|
                        0 <= l < config.len() && 0 <= j < config[l].len() ==> (
                        #[trigger] ctx.levels_view()[l][j]) as int == config.take(
                            l,
                        ).flatten().len() + j
                    &&& ctx.local_indices@.map_values(|u: usize| u as int)
                        == spec_kept_positions(spec_flat_names(config))
                },
                Err(e) => e@.len() > 0 && !spec_config_ok(config) && ({
                    ||| config.flatten().len() >= usize::MAX
                    ||| exists|l: int| 0 <= l < config.len() && (#[trigger] config[l]).len() == 0
                    ||| exists|l1: int, j1: int, l2: int, j2: int|
                        0 <= l1 < config.len() && 0 <= j1 < config[l1].len() && 0 <= l2
                            < config.len() && 0 <= j2 < config[l2].len() && (l1 != l2 || j1 != j2)
                            && spec_objective_name(#[trigger] config[l1][j1])
                            == spec_objective_name(#[trigger] config[l2][j2]) && spec_seq_contains(
                            e@,
                            spec_objective_name(config[l1][j1]),
                        )
                }),
            }
        }),
{
    let ghost config = spec_config(declared, *props);
    let objectives = get_objectives(declared, props);
    let ghost cfg = objectives@.map_values(|lvl: Vec<ObjectiveKind>| lvl@);
    proof {
        assert(cfg =~= config);
        assert(cfg.take(0) =~= Seq::<Seq<ObjectiveKind>>::empty());
    }
    let mut features: Vec<Vec<Feature>> = Vec::new();
    let mut next_index: usize = 0;
    let mut l: usize = 0;
    while l < objectives.len()
        invariant
            l <= objectives@.len(),
            cfg == objectives@.map_values(|lvl: Vec<ObjectiveKind>| lvl@),
            config == cfg,
            config == spec_config(declared, *props),
            features@.len() == l,
            next_index as int == cfg.take(l as int).flatten().len(),
            next_index <= usize::MAX - 1,
            forall|m: int| 0 <= m < l ==> (#[trigger] features@[m])@.len() == cfg[m].len(),
            forall|m: int, t: int|
                0 <= m < l && 0 <= t < cfg[m].len() ==> (#[trigger] features@[m]@[t]).name@
                    == spec_objective_name(cfg[m][t]) && features@[m]@[t].objective == Some(
                    (cfg.take(m).flatten().len() + t) as usize,
                ),
        decreases objectives@.len() - l,
    {
        let group = &objectives[l];
        proof {
            assert(cfg[l as int] == group@);
        }
        let mut group_features: Vec<Feature> = Vec::new();
        let mut j: usize = 0;
        while j < group.len()
            invariant
                j <= group@.len(),
                l < objectives@.len(),
                cfg == objectives@.map_values(|lvl: Vec<ObjectiveKind>| lvl@),
                config == cfg,
                config == spec_config(declared, *props),
                cfg[l as int] == group@,
                next_index as int == cfg.take(l as int).flatten().len() + j,
                next_index <= usize::MAX - 1,
                group_features@.len() == j,
                forall|t: int|
                    0 <= t < j ==> (#[trigger] group_features@[t]).name@ == spec_objective_name(
                        cfg[l as int][t],
                    ) && group_features@[t].objective == Some(
                        (cfg.take(l as int).flatten().len() + t) as usize,
                    ),
            decreases group@.len() - j,
        {
            if next_index == usize::MAX - 1 {
                proof {
                    reveal_strlit("too many objectives");
                    lemma_flatten_take_succ(cfg, l as int);
                    lemma_flatten_prefix(cfg, l as int + 1);
                    assert(cfg.take(l as int + 1).flatten().len() == cfg.take(
                        l as int,
                    ).flatten().len() + cfg[l as int].len());
                    assert(cfg.flatten().len() >= usize::MAX);
                    assert(!spec_config_ok(config));
                }
                return Err("too many objectives".to_owned());
            }
            group_features.push(
                Feature { name: objective_feature_name(group[j]), objective: Some(next_index) },
            );
            next_index += 1;
            j += 1;
        }
        proof {
            lemma_flatten_take_succ(cfg, l as int);
            assert(next_index as int == cfg.take(l as int + 1).flatten().len());
        }
        features.push(group_features);
        l += 1;
    }
    proof {
        assert(cfg.take(objectives@.len() as int) =~= cfg);
        assert(next_index as int == cfg.flatten().len());
    }
    let (global, local) = match extract_feature_map(&features) {
        Ok(maps) => maps,
        Err(e) => {
            proof {
                assert(false);
            }
            return Err(e);
        },
    };
    let ghost fview = features@.map_values(|grp: Vec<Feature>| grp@);
    let goal = Goal::no_alternatives(global, local);
    let mut flat: Vec<Feature> = Vec::new();
    let mut g: usize = 0;
    while g < features.len()
        invariant
            g <= features@.len(),
            features@.len() == cfg.len(),
            cfg.flatten().len() < usize::MAX,
            forall|m: int| 0 <= m < cfg.len() ==> (#[trigger] features@[m])@.len() == cfg[m].len(),
            forall|m: int, t: int|
                0 <= m < cfg.len() && 0 <= t < cfg[m].len() ==> (#[trigger] features@[m]@[t]).name@
                    == spec_objective_name(cfg[m][t]) && features@[m]@[t].objective == Some(
                    (cfg.take(m).flatten().len() + t) as usize,
                ),
            flat@.len() == cfg.take(g as int).flatten().len(),
            forall|p: int|
                0 <= p < flat@.len() ==> (#[trigger] flat@[p]).name@ == spec_objective_name(
                    cfg.flatten()[p],
                ) && flat@[p].objective == Some(p as usize),
        decreases features@.len() - g,
    {
        let group = &features[g];
        let mut j: usize = 0;
        proof {
            lemma_flatten_take_succ(cfg, g as int);
            lemma_flatten_prefix(cfg, g as int + 1);
            lemma_flatten_take_mono(cfg, g as int + 1, cfg.len() as int);
            assert(cfg.take(cfg.len() as int) =~= cfg);
        }
        while j < group.len()
            invariant
                j <= group@.len(),
                g < features@.len(),
                features@.len() == cfg.len(),
                cfg.flatten().len() < usize::MAX,
                group@ == features@[g as int]@,
                group@.len() == cfg[g as int].len(),
                forall|t: int|
                    0 <= t < cfg[g as int].len() ==> (#[trigger] group@[t]).name@
                        == spec_objective_name(cfg[g as int][t]) && group@[t].objective == Some(
                        (cfg.take(g as int).flatten().len() + t) as usize,
                    ),
                flat@.len() == cfg.take(g as int).flatten().len() + j,
                cfg.take(g as int + 1).flatten().len() == cfg.take(g as int).flatten().len()
                    + cfg[g as int].len(),
                cfg.take(g as int + 1).flatten().len() <= cfg.flatten().len(),
                forall|p: int|
                    0 <= p < cfg.take(g as int + 1).flatten().len() ==> #[trigger] cfg.flatten()[p]
                        == cfg.take(g as int + 1).flatten()[p],
                cfg.take(g as int + 1).flatten() == cfg.take(g as int).flatten() + cfg[g as int],
                forall|p: int|
                    0 <= p < flat@.len() ==> (#[trigger] flat@[p]).name@ == spec_objective_name(
                        cfg.flatten()[p],
                    ) && flat@[p].objective == Some(p as usize),
            decreases group@.len() - j,
        {
            let ghost p = flat@.len() as int;
            flat.push(
                Feature { name: clone_string(&group[j].name), objective: group[j].objective },
            );
            proof {
                assert(cfg.take(g as int + 1).flatten()[p] == cfg[g as int][j as int]);
                assert(cfg.flatten()[p] == cfg[g as int][j as int]);
                assert((#[trigger] flat@[p]).name@ == spec_objective_name(cfg.flatten()[p]));
                assert(flat@[p].objective == Some(p as usize));
            }
            j += 1;
        }
        g += 1;
    }
    proof {
        assert(cfg.take(cfg.len() as int) =~= cfg);
        assert(flat@.len() == cfg.flatten().len());
    }
    let result = GoalContext::new(&flat, goal);
    proof {
        let gmap = spec_map_view(goal.global@);
        let lmap = spec_map_view(goal.local@);
        let names = spec_flat_names(cfg);
        let pred = |n: Seq<char>| n != "min_unassigned"@;
        assert(gmap =~~= spec_global_of(fview));
        assert(lmap =~~= spec_local_of(fview).map_values(|n: Seq<char>| seq![n]));
        assert forall|m: int| 0 <= m < cfg.len() implies #[trigger] spec_global_of(fview)[m]
            == spec_level_names(cfg[m]) by {
            assert(fview[m] == features@[m]@);
            assert(forall|t: int|
                0 <= t < fview[m].len() ==> (#[trigger] fview[m][t]).objective is Some);
            lemma_filter_all_objective(fview[m]);
            assert(spec_global_of(fview)[m] == fview[m].map_values(|f: Feature| f.name@));
            assert(fview[m].map_values(|f: Feature| f.name@) =~= spec_level_names(cfg[m]));
        }
        assert(spec_global_of(fview) =~= cfg.map_values(
            |lvl: Seq<ObjectiveKind>| spec_level_names(lvl),
        ));
        lemma_flatten_level_names(cfg);
        assert(spec_global_of(fview).flatten() == names);
        lemma_flatten_singletons(spec_local_of(fview));
        assert(lmap.flatten() == spec_local_of(fview));
        assert(spec_local_of(fview) == names.filter(pred));
        assert(gmap.len() == cfg.len());
        assert(forall|m: int| 0 <= m < cfg.len() ==> (#[trigger] gmap[m]).len() == cfg[m].len());
        assert forall|l: int, j: int|
            0 <= l < cfg.len() && 0 <= j < cfg[l].len() implies gmap[l][j]
            == spec_objective_name(#[trigger] cfg[l][j]) by {
            assert(gmap[l] == spec_level_names(cfg[l]));
        }
        assert(forall|p: int|
            0 <= p < names.len() ==> #[trigger] names[p] == spec_objective_name(
                cfg.flatten()[p],
            ));
        lemma_filter_kept(names);
        assert(flat@.len() == names.len());
        assert forall|i: int| 0 <= i < names.len() implies spec_owner(
            flat@,
            #[trigger] names[i],
            i,
        ) by {
            assert(flat@[i].name@ == spec_objective_name(cfg.flatten()[i]));
        }
        if result is Ok {
            let ctx = result->Ok_0;
            assert(spec_map_valid(flat@, gmap));
            assert forall|l1: int, j1: int, l2: int, j2: int|
                0 <= l1 < cfg.len() && 0 <= j1 < cfg[l1].len() && 0 <= l2 < cfg.len() && 0 <= j2
                    < cfg[l2].len() && (l1 != l2 || j1 != j2) implies spec_objective_name(
                #[trigger] cfg[l1][j1],
            ) != spec_objective_name(#[trigger] cfg[l2][j2]) by {
                if spec_objective_name(cfg[l1][j1]) == spec_objective_name(cfg[l2][j2]) {
                    let p1 = cfg.take(l1).flatten().len() + j1;
                    let p2 = cfg.take(l2).flatten().len() + j2;
                    lemma_config_position(cfg, l1, j1);
                    lemma_config_position(cfg, l2, j2);
                    lemma_distinct_positions(cfg, l1, j1, l2, j2);
                    assert(p1 != p2);
                    assert(names[p1] == gmap[l1][j1] && names[p2] == gmap[l1][j1]);
                    assert(spec_owner(flat@, gmap[l1][j1], p1));
                    assert(spec_owner(flat@, gmap[l1][j1], p2));
                    assert(spec_resolvable(flat@, gmap[l1][j1]));
                    let u = choose|u: int|
                        #[trigger] spec_owner(flat@, gmap[l1][j1], u) && (forall|w: int|
                            spec_owner(flat@, gmap[l1][j1], w) ==> w == u);
                    assert(p1 == u && p2 == u);
                    assert(false);
                }
            }
            assert(cfg.flatten().len() < usize::MAX);
            assert forall|l: int| 0 <= l < cfg.len() implies (#[trigger] cfg[l]).len() > 0 by {
                assert(gmap[l].len() > 0);
            }
            assert(spec_config_ok(cfg));
            assert(spec_config_ok(config));
            assert forall|i: int, p: int|
                0 <= i < names.len() && 0 <= p < names.len() && #[trigger] names[i]
                    == #[trigger] names[p] implies i == p by {
                lemma_position_of_name(cfg, i, p);
            }
            assert(ctx.levels_view().len() == cfg.len());
            assert(forall|l: int|
                0 <= l < cfg.len() ==> (#[trigger] ctx.levels_view()[l]).len() == cfg[l].len());
            assert forall|l: int, j: int|
                0 <= l < cfg.len() && 0 <= j < cfg[l].len() implies (
            #[trigger] ctx.levels_view()[l][j]) as int == cfg.take(l).flatten().len() + j by {
                let pos = cfg.take(l).flatten().len() + j;
                lemma_config_position(cfg, l, j);
                assert(spec_resolves_to(flat@, gmap[l][j], ctx.levels_view()[l][j]));
                let i = choose|i: int|
                    #[trigger] spec_owner(flat@, gmap[l][j], i) && flat@[i].objective == Some(
                        ctx.levels_view()[l][j],
                    );
                assert(flat@[i].name@ == names[i]);
                assert(names[i] == gmap[l][j] && names[pos] == gmap[l][j]);
                assert(i == pos);
                assert(flat@[pos].objective == Some(pos as usize));
            }
            assert(ctx.local_indices@.len() == names.filter(pred).len());
            assert(spec_kept_positions(names).len() == names.filter(pred).len());
            assert forall|k: int| 0 <= k < ctx.local_indices@.len() implies (
            #[trigger] ctx.local_indices@[k]) as int == spec_kept_positions(names)[k] by {
                let pos = spec_kept_positions(names)[k];
                assert(lmap.flatten()[k] == names.filter(pred)[k]);
                assert(names[pos] == names.filter(pred)[k]);
                assert(spec_resolves_to(flat@, lmap.flatten()[k], ctx.local_indices@[k]));
                let i = choose|i: int|
                    #[trigger] spec_owner(flat@, lmap.flatten()[k], i) && flat@[i].objective
                        == Some(ctx.local_indices@[k]);
                assert(flat@[i].name@ == names[i]);
                assert(names[i] == names[pos]);
                assert(i == pos);
                assert(flat@[pos].objective == Some(pos as usize));
            }
            assert(ctx.local_indices@.map_values(|u: usize| u as int) =~= spec_kept_positions(
                names,
            ));
        } else {
            let emsg = result->Err_0@;
            if spec_config_ok(config) {
                assert forall|i: int, p: int|
                    0 <= i < names.len() && 0 <= p < names.len() && #[trigger] names[i]
                        == #[trigger] names[p] implies i == p by {
                    lemma_position_of_name(cfg, i, p);
                }
                assert forall|l: int, j: int|
                    0 <= l < gmap.len() && 0 <= j < gmap[l].len() implies spec_resolvable(
                    flat@,
                    #[trigger] gmap[l][j],
                ) by {
                    let pos = cfg.take(l).flatten().len() + j;
                    lemma_config_position(cfg, l, j);
                    assert(names[pos] == gmap[l][j]);
                    assert(spec_owner(flat@, gmap[l][j], pos));
                    assert forall|w: int| spec_owner(flat@, gmap[l][j], w) implies w == pos by {
                        if spec_owner(flat@, gmap[l][j], w) {
                            assert(flat@[w].name@ == names[w]);
                        }
                    }
                }
                assert(forall|l: int| 0 <= l < gmap.len() ==> (#[trigger] gmap[l]).len() > 0);
                assert(spec_map_valid(flat@, gmap));
                assert(lmap.len() == names.filter(pred).len());
                assert forall|l: int, j: int|
                    0 <= l < lmap.len() && 0 <= j < lmap[l].len() implies spec_resolvable(
                    flat@,
                    #[trigger] lmap[l][j],
                ) by {
                    assert(lmap[l] == seq![spec_local_of(fview)[l]]);
                    assert(lmap[l][j] == names.filter(pred)[l]);
                    let pos = spec_kept_positions(names)[l];
                    assert(names[pos] == names.filter(pred)[l]);
                    assert(spec_owner(flat@, lmap[l][j], pos));
                    assert forall|w: int| spec_owner(flat@, lmap[l][j], w) implies w == pos by {
                        if spec_owner(flat@, lmap[l][j], w) {
                            assert(flat@[w].name@ == names[w]);
                        }
                    }
                }
                assert(forall|l: int| 0 <= l < lmap.len() ==> (#[trigger] lmap[l]).len() > 0);
                assert(spec_map_valid(flat@, lmap));
                assert(false);
            }
            assert(forall|p: int|
                0 <= p < names.len() ==> (#[trigger] flat@[p]).name@ == names[p]);
            if exists|l: int| 0 <= l < gmap.len() && (#[trigger] gmap[l]).len() == 0 {
                let l = choose|l: int| 0 <= l < gmap.len() && (#[trigger] gmap[l]).len() == 0;
                assert(exists|m: int| 0 <= m < cfg.len() && (#[trigger] cfg[m]).len() == 0) by {
                    assert(0 <= l < cfg.len() && cfg[l].len() == 0);
                }
            } else if exists|l: int| 0 <= l < lmap.len() && (#[trigger] lmap[l]).len() == 0 {
                let l = choose|l: int| 0 <= l < lmap.len() && (#[trigger] lmap[l]).len() == 0;
                assert(lmap[l] == seq![spec_local_of(fview)[l]]);
                assert(false);
            } else {
                let (the_name, pos) = if exists|l: int, j: int|
                    0 <= l < gmap.len() && 0 <= j < gmap[l].len() && !spec_resolvable(
                        flat@,
                        #[trigger] gmap[l][j],
                    ) && spec_seq_contains(emsg, gmap[l][j]) {
                    let (l, j) = choose|l: int, j: int|
                        0 <= l < gmap.len() && 0 <= j < gmap[l].len() && !spec_resolvable(
                            flat@,
                            #[trigger] gmap[l][j],
                        ) && spec_seq_contains(emsg, gmap[l][j]);
                    lemma_config_position(cfg, l, j);
                    (gmap[l][j], cfg.take(l).flatten().len() + j)
                } else {
                    let (l, j) = choose|l: int, j: int|
                        0 <= l < lmap.len() && 0 <= j < lmap[l].len() && !spec_resolvable(
                            flat@,
                            #[trigger] lmap[l][j],
                        ) && spec_seq_contains(emsg, lmap[l][j]);
                    assert(lmap[l] == seq![spec_local_of(fview)[l]]);
                    assert(lmap.len() == names.filter(pred).len());
                    assert(lmap[l][j] == names.filter(pred)[l]);
                    (lmap[l][j], spec_kept_positions(names)[l])
                };
                assert(0 <= pos < names.len() && names[pos] == the_name);
                assert(!spec_resolvable(flat@, the_name));
                assert(spec_seq_contains(emsg, the_name));
                assert(spec_owner(flat@, the_name, pos)) by {
                    assert(spec_owner(flat@, names[pos], pos));
                }
                assert(exists|w: int| #[trigger] spec_owner(flat@, the_name, w) && w != pos) by {
                    if !(exists|w: int| #[trigger] spec_owner(flat@, the_name, w) && w != pos) {
                        assert(forall|w: int|
                            #[trigger] spec_owner(flat@, the_name, w) ==> w == pos);
                        assert(spec_resolvable(flat@, the_name));
                        assert(false);
                    }
                }
                let w = choose|w: int| #[trigger] spec_owner(flat@, the_name, w) && w != pos;
                assert(0 <= w < names.len());
                assert(flat@[w].name@ == names[w]);
                assert(names[w] == the_name);
                lemma_flatten_pos(cfg, pos);
                lemma_flatten_pos(cfg, w);
                let (l1, j1) = choose|l: int, j: int|
                    0 <= l < cfg.len() && 0 <= j < cfg[l].len() && pos == #[trigger] spec_pos_of(
                        cfg,
                        l,
                        j,
                    );
                let (l2, j2) = choose|l: int, j: int|
                    0 <= l < cfg.len() && 0 <= j < cfg[l].len() && w == #[trigger] spec_pos_of(
                        cfg,
                        l,
                        j,
                    );
                lemma_config_position(cfg, l1, j1);
                lemma_config_position(cfg, l2, j2);
                assert(spec_objective_name(cfg[l1][j1]) == names[pos]);
                assert(spec_objective_name(cfg[l2][j2]) == names[w]);
                assert(l1 != l2 || j1 != j2);
                assert(exists|a1: int, b1: int, a2: int, b2: int|
                    0 <= a1 < cfg.len() && 0 <= b1 < cfg[a1].len() && 0 <= a2 < cfg.len() && 0
                        <= b2 < cfg[a2].len() && (a1 != a2 || b1 != b2) && spec_objective_name(
                        #[trigger] cfg[a1][b1],
                    ) == spec_objective_name(#[trigger] cfg[a2][b2]) && spec_seq_contains(
                        emsg,
                        spec_objective_name(cfg[a1][b1]),
                    )) by {
                    assert(spec_objective_name(cfg[l1][j1]) == spec_objective_name(cfg[l2][j2])
                        && spec_seq_contains(emsg, spec_objective_name(cfg[l1][j1])));
                }
            }
        }
    }
    result
}

} // verus!