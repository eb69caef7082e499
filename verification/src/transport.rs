//! Matrix-based travel cost lookup: per-profile duration/distance matrices,
//! optionally time-aware with linear interpolation of durations between
//! timestamped matrices. Timestamps, durations and distances are fixed-point
//! integers.

use vstd::prelude::*;

use crate::rng::spec_div_trunc;

verus! {

/// Bound on every timestamp, duration and distance a time-aware lookup
/// accepts (micro-units); keeps the interpolation arithmetic in range.
pub const TRAVEL_VALUE_LIMIT: i64 = 4_000_000_000_000_000;

/// A routing profile, identified by the index of its matrix.
#[derive(Debug, Clone, Copy, PartialEq, Eq, Structural)]
pub struct Profile {
    /// Index of this profile's matrices.
    pub index: usize,
    /// Cost scale of the profile in micro-units.
    pub scale: i64,
}

impl Profile {
    /// A profile with the given matrix index; a missing scale means one.
    pub fn new(index: usize, scale: Option<i64>) -> (r: Profile)
        ensures
            r.index == index,
            r.scale == (match scale {
                Some(s) => s,
                None => 1_000_000i64,
            }),
    {
        match scale {
            Some(s) => Profile { index, scale: s },
            None => Profile { index, scale: 1_000_000 },
        }
    }
}

impl Default for Profile {
    /// The profile of matrix zero with scale one.
    fn default() -> (r: Profile)
        ensures
            r.index == 0,
            r.scale == 1_000_000i64,
    {
        Profile::new(0, None)
    }
}

/// When a travel matters: leaving `from` or arriving at `to` at the carried
/// timestamp.
#[derive(Debug, Clone, Copy, PartialEq, Eq, Structural)]
pub enum TravelTime {
    Departure(i64),
    Arrival(i64),
}

impl TravelTime {
    /// The carried timestamp.
    pub open spec fn spec_timestamp(&self) -> i64 {
        match self {
            TravelTime::Departure(t) => *t,
            TravelTime::Arrival(t) => *t,
        }
    }

    /// The carried timestamp.
    pub fn timestamp(&self) -> (r: i64)
        ensures
            r == self.spec_timestamp(),
    {
        match self {
            TravelTime::Departure(t) => *t,
            TravelTime::Arrival(t) => *t,
        }
    }
}

/// One travel matrix: flat duration and distance collections for one
/// profile, optionally valid from a timestamp on.
#[derive(Debug)]
pub struct MatrixData {
    /// Profile index this matrix belongs to.
    pub index: usize,
    /// Departure time from which this matrix applies, in time-aware use.
    pub timestamp: Option<i64>,
    /// Flat travel durations.
    pub durations: Vec<i64>,
    /// Flat travel distances.
    pub distances: Vec<i64>,
}

/// Field-wise equality of two matrices up to storage.
pub open spec fn spec_md_eq(a: MatrixData, b: MatrixData) -> bool {
    a.index == b.index && a.timestamp == b.timestamp && a.durations@ == b.durations@
        && a.distances@ == b.distances@
}

/// The matrices of profile `p`, in input order.
pub open spec fn spec_by_profile(s: Seq<MatrixData>, p: int) -> Seq<MatrixData>
    decreases s.len(),
{
    if s.len() == 0 {
        Seq::empty()
    } else if s[0].index == p {
        seq![s[0]] + spec_by_profile(s.drop_first(), p)
    } else {
        spec_by_profile(s.drop_first(), p)
    }
}

/// Scanning one more matrix extends the profile's group by it or not.
proof fn lemma_by_profile_take_succ(s: Seq<MatrixData>, p: int, i: int)
    requires
        0 <= i < s.len(),
    ensures
        spec_by_profile(s.take(i + 1), p) == (if s[i].index == p {
            spec_by_profile(s.take(i), p) + seq![s[i]]
        } else {
            spec_by_profile(s.take(i), p)
        }),
    decreases i,
{
    if i == 0 {
        assert(s.take(1) =~= seq![s[0]]);
        assert(s.take(1).drop_first() =~= Seq::<MatrixData>::empty());
        assert(s.take(0) =~= Seq::<MatrixData>::empty());
        if s[0].index == p {
            assert(spec_by_profile(s.take(1), p) =~= spec_by_profile(s.take(0), p) + seq![s[0]]);
        }
    } else {
        lemma_by_profile_take_succ(s.drop_first(), p, i - 1);
        assert(s.take(i + 1).drop_first() =~= s.drop_first().take(i));
        assert(s.take(i).drop_first() =~= s.drop_first().take(i - 1));
        assert(s.take(i + 1)[0] == s[0] && s.take(i)[0] == s[0]);
        assert(s.drop_first()[i - 1] == s[i]);
        if s[0].index == p {
            if s[i].index == p {
                assert(seq![s[0]] + (spec_by_profile(s.drop_first().take(i - 1), p)
                    + seq![s[i]]) =~= (seq![s[0]] + spec_by_profile(
                    s.drop_first().take(i - 1),
                    p,
                )) + seq![s[i]]);
            }
        }
    }
}

/// One more than the largest profile index, zero for no matrices.
pub open spec fn spec_num_profiles(s: Seq<MatrixData>) -> int
    decreases s.len(),
{
    if s.len() == 0 {
        0
    } else {
        let rest = spec_num_profiles(s.drop_first());
        if s[0].index + 1 > rest {
            s[0].index + 1
        } else {
            rest
        }
    }
}

/// Scanning one more matrix raises the profile count to its index bound
/// when that is larger.
proof fn lemma_num_profiles_take_succ(s: Seq<MatrixData>, i: int)
    requires
        0 <= i < s.len(),
    ensures
        spec_num_profiles(s.take(i + 1)) == (if s[i].index + 1 > spec_num_profiles(s.take(i)) {
            s[i].index + 1
        } else {
            spec_num_profiles(s.take(i))
        }),
    decreases i,
{
    if i == 0 {
        assert(s.take(1) =~= seq![s[0]]);
        assert(s.take(1).drop_first() =~= Seq::<MatrixData>::empty());
        assert(s.take(0) =~= Seq::<MatrixData>::empty());
    } else {
        lemma_num_profiles_take_succ(s.drop_first(), i - 1);
        assert(s.take(i + 1).drop_first() =~= s.drop_first().take(i));
        assert(s.take(i).drop_first() =~= s.drop_first().take(i - 1));
        assert(s.take(i + 1)[0] == s[0] && s.take(i)[0] == s[0]);
        assert(s.drop_first()[i - 1] == s[i]);
    }
}

/// The profile count covers every matrix's index.
proof fn lemma_num_profiles_at_least(s: Seq<MatrixData>, i: int)
    requires
        0 <= i < s.len(),
    ensures
        spec_num_profiles(s) >= s[i].index + 1,
    decreases i,
{
    if i == 0 {
    } else {
        lemma_num_profiles_at_least(s.drop_first(), i - 1);
        assert(s.drop_first()[i - 1] == s[i]);
    }
}

/// Deep copy of one matrix.
fn copy_matrix(m: &MatrixData) -> (r: MatrixData)
    ensures
        spec_md_eq(r, *m),
{
    let durations = m.durations.clone();
    let distances = m.distances.clone();
    proof {
        assert(forall|i: int| 0 <= i < m.durations@.len() ==> durations@[i] == m.durations@[i]);
        assert(forall|i: int| 0 <= i < m.distances@.len() ==> distances@[i] == m.distances@[i]);
        assert(durations@ =~= m.durations@);
        assert(distances@ =~= m.distances@);
    }
    MatrixData { index: m.index, timestamp: m.timestamp, durations, distances }
}

/// Simple (time-independent) matrix transport lookup.
#[derive(Debug)]
pub struct MatrixTransportCost {
    /// One matrix per profile, indexed by profile index.
    pub matrices: Vec<MatrixData>,
}

/// A group's matrices all carry a timestamp, strictly increasing.
pub open spec fn spec_group_timed(group: Seq<MatrixData>) -> bool {
    (forall|k: int| 0 <= k < group.len() ==> (#[trigger] group[k]).timestamp is Some) && (forall|
        k: int,
    |
        0 <= k < group.len() - 1 ==> (#[trigger] group[k]).timestamp->0 < group[k
            + 1].timestamp->0)
}

/// Every timestamp and duration of the group lies within the accepted
/// fixed-point range.
pub open spec fn spec_group_bounded(group: Seq<MatrixData>) -> bool {
    (forall|k: int|
        0 <= k < group.len() ==> -TRAVEL_VALUE_LIMIT <= (#[trigger] group[k]).timestamp->0
            <= TRAVEL_VALUE_LIMIT) && (forall|k: int, j: int|
        0 <= k < group.len() && 0 <= j < group[k].durations@.len() ==> -TRAVEL_VALUE_LIMIT <= (
        #[trigger] group[k].durations@[j]) <= TRAVEL_VALUE_LIMIT)
}

/// Linear interpolation between the points `(t0, d0)` and `(t1, d1)` at
/// `t`, rounded toward zero.
pub open spec fn spec_interp_pair(t0: int, d0: int, t1: int, d1: int, t: int) -> int {
    d0 + spec_div_trunc((t - t0) * (d1 - d0), t1 - t0)
}

/// Duration of a timed group at timestamp `t`: clamped to the first and
/// last matrices, linearly interpolated between the two bracketing ones.
pub open spec fn spec_interp_duration(group: Seq<MatrixData>, t: int, idx: int) -> int
    decreases group.len(),
{
    if group.len() == 0 {
        0
    } else if group.len() == 1 {
        group[0].durations@[idx] as int
    } else if t <= group[0].timestamp->0 {
        group[0].durations@[idx] as int
    } else if t < group[1].timestamp->0 {
        spec_interp_pair(
            group[0].timestamp->0 as int,
            group[0].durations@[idx] as int,
            group[1].timestamp->0 as int,
            group[1].durations@[idx] as int,
            t,
        )
    } else {
        spec_interp_duration(group.drop_first(), t, idx)
    }
}

/// Distance of a timed group at timestamp `t`: the matrix in force at `t`
/// (the last one whose timestamp is not after `t`, clamped to the first).
pub open spec fn spec_step_distance(group: Seq<MatrixData>, t: int, idx: int) -> int
    decreases group.len(),
{
    if group.len() == 0 {
        0
    } else if group.len() == 1 {
        group[0].distances@[idx] as int
    } else if t < group[1].timestamp->0 {
        group[0].distances@[idx] as int
    } else {
        spec_step_distance(group.drop_first(), t, idx)
    }
}

/// Builds a time-independent matrix lookup. Fails when any matrix's
/// distance and duration collections disagree in length.
pub fn create_matrix_transport_cost(costs: Vec<MatrixData>) -> (r: Result<
    MatrixTransportCost,
    String,
>)
    ensures
        match r {
            Ok(t) => t.matrices@ == costs@ && (forall|i: int|
                0 <= i < costs@.len() ==> (#[trigger] costs@[i]).durations@.len()
                    == costs@[i].distances@.len()),
            Err(e) => (exists|i: int|
                0 <= i < costs@.len() && (#[trigger] costs@[i]).durations@.len()
                    != costs@[i].distances@.len()) && e@.len() > 0,
        },
{
    let mut i: usize = 0;
    while i < costs.len()
        invariant
            i <= costs@.len(),
            forall|j: int|
                0 <= j < i ==> (#[trigger] costs@[j]).durations@.len()
                    == costs@[j].distances@.len(),
        decreases costs@.len() - i,
    {
        if costs[i].durations.len() != costs[i].distances.len() {
            proof {
                reveal_strlit("distance and duration collections have different length");
            }
            return Err("distance and duration collections have different length".to_owned());
        }
        i += 1;
    }
    Ok(MatrixTransportCost { matrices: costs })
}

impl MatrixTransportCost {
    /// Travel duration of profile `p` from `from` to `to`, read from the
    /// profile's matrix.
    pub fn duration_approx(&self, profile: &Profile, from: usize, to: usize, width: usize) -> (r:
        i64)
        requires
            profile.index < self.matrices@.len(),
            from * width + to < self.matrices@[profile.index as int].durations@.len(),
        ensures
            r == self.matrices@[profile.index as int].durations@[from * width + to],
    {
        let m = &self.matrices[profile.index];
        let n = m.durations.len();
        let idx = from * width + to;
        m.durations[idx]
    }

    /// Travel distance of profile `p` from `from` to `to`, read from the
    /// profile's matrix.
    pub fn distance_approx(&self, profile: &Profile, from: usize, to: usize, width: usize) -> (r:
        i64)
        requires
            profile.index < self.matrices@.len(),
            from * width + to < self.matrices@[profile.index as int].distances@.len(),
        ensures
            r == self.matrices@[profile.index as int].distances@[from * width + to],
    {
        let m = &self.matrices[profile.index];
        let n = m.distances.len();
        let idx = from * width + to;
        m.distances[idx]
    }
}

/// The only fallback strategy offered when a profile lacks data: none.
#[derive(Debug, Clone, Copy, PartialEq, Eq, Structural)]
pub struct NoFallback;

/// Time-aware matrix transport lookup: per profile an ordered series of
/// timestamped matrices; durations are interpolated between them.
#[derive(Debug)]
pub struct TimeAwareMatrixTransportCost {
    /// Matrices of each profile, ordered by ascending timestamp; profiles
    /// are indexed contiguously from zero.
    pub groups: Vec<Vec<MatrixData>>,
    /// Number of locations: flat matrix entries are read at
    /// `from * width + to`.
    pub width: usize,
}

/// Every profile up to the largest index holds at least two matrices, all
/// timestamped in strictly increasing input order, and the profile count
/// itself is representable.
pub open spec fn spec_profiles_good(costs: Seq<MatrixData>) -> bool {
    spec_num_profiles(costs) <= usize::MAX && (forall|p: int|
        0 <= p < spec_num_profiles(costs) ==> spec_by_profile(costs, p).len() >= 2
            && spec_group_timed(#[trigger] spec_by_profile(costs, p)))
}

impl TimeAwareMatrixTransportCost {
    /// Groups the matrices by profile index; `size` is the number of
    /// locations each matrix covers. Construction fails unless every matrix
    /// carries a timestamp, every profile up to the largest index holds at
    /// least two matrices, and each profile's timestamps strictly increase
    /// in input order.
    pub fn new(costs: Vec<MatrixData>, size: usize, fallback: NoFallback) -> (r: Result<
        TimeAwareMatrixTransportCost,
        String,
    >)
        ensures
            match r {
                Ok(t) => {
                    &&& spec_profiles_good(costs@)
                    &&& t.width == size
                    &&& t.groups@.len() == spec_num_profiles(costs@)
                    &&& forall|p: int|
                        0 <= p < t.groups@.len() ==> {
                            let group = (#[trigger] t.groups@[p])@;
                            let input = spec_by_profile(costs@, p);
                            &&& group.len() == input.len()
                            &&& group.len() >= 2
                            &&& forall|k: int|
                                0 <= k < group.len() ==> spec_md_eq(
                                    #[trigger] group[k],
                                    input[k],
                                )
                            &&& spec_group_timed(group)
                        }
                },
                Err(e) => e@.len() > 0 && !spec_profiles_good(costs@),
            },
    {
        let _ = fallback;
        let mut num: usize = 0;
        let mut i: usize = 0;
        proof {
            assert(costs@.take(0) =~= Seq::<MatrixData>::empty());
        }
        while i < costs.len()
            invariant
                i <= costs@.len(),
                num == spec_num_profiles(costs@.take(i as int)),
            decreases costs@.len() - i,
        {
            proof {
                lemma_num_profiles_take_succ(costs@, i as int);
            }
            if costs[i].index == usize::MAX {
                proof {
                    reveal_strlit("matrix profile index is out of range");
                    lemma_num_profiles_at_least(costs@, i as int);
                }
                return Err("matrix profile index is out of range".to_owned());
            }
            if costs[i].index + 1 > num {
                num = costs[i].index + 1;
            }
            i += 1;
        }
        proof {
            assert(costs@.take(costs@.len() as int) =~= costs@);
        }
        let mut groups: Vec<Vec<MatrixData>> = Vec::new();
        let mut p: usize = 0;
        while p < num
            invariant
                p <= num,
                num == spec_num_profiles(costs@),
                groups@.len() == p,
                forall|q: int|
                    0 <= q < p ==> {
                        let group = (#[trigger] groups@[q])@;
                        let input = spec_by_profile(costs@, q);
                        &&& group.len() == input.len()
                        &&& group.len() >= 2
                        &&& forall|k: int|
                            0 <= k < group.len() ==> spec_md_eq(#[trigger] group[k], input[k])
                        &&& spec_group_timed(group)
                    },
            decreases num - p,
        {
            let group = match collect_profile(&costs, p) {
                Ok(g) => g,
                Err(e) => {
                    return Err(e);
                },
            };
            if group.len() < 2 {
                proof {
                    reveal_strlit("should not use time aware matrix routing with single matrix");
                }
                return Err(
                    "should not use time aware matrix routing with single matrix".to_owned(),
                );
            }
            groups.push(group);
            p += 1;
        }
        proof {
            assert forall|q: int| 0 <= q < spec_num_profiles(costs@) implies spec_by_profile(
                costs@,
                q,
            ).len() >= 2 && spec_group_timed(#[trigger] spec_by_profile(costs@, q)) by {
                let group = groups@[q]@;
                let input = spec_by_profile(costs@, q);
                assert(group.len() == input.len() && group.len() >= 2);
                assert forall|k: int| 0 <= k < input.len() implies (#[trigger] input[k]).timestamp
                    is Some by {
                    assert(spec_md_eq(group[k], input[k]));
                }
                assert forall|k: int|
                    0 <= k < input.len() - 1 implies (#[trigger] input[k]).timestamp->0 < input[k
                    + 1].timestamp->0 by {
                    assert(spec_md_eq(group[k], input[k]));
                    assert(spec_md_eq(group[k + 1], input[k + 1]));
                }
                assert(spec_group_timed(input));
            }
        }
        Ok(TimeAwareMatrixTransportCost { groups, width: size })
    }

    /// Travel duration of `profile` from `from` to `to` at the carried
    /// timestamp: read from the matrix in force, linearly interpolated
    /// between the two bracketing matrices, clamped at the ends of the
    /// series.
    pub fn duration(&self, profile: &Profile, from: usize, to: usize, travel_time: TravelTime) -> (r:
        i64)
        requires
            profile.index < self.groups@.len(),
            self.groups@[profile.index as int]@.len() >= 1,
            spec_group_timed(self.groups@[profile.index as int]@),
            spec_group_bounded(self.groups@[profile.index as int]@),
            -TRAVEL_VALUE_LIMIT <= travel_time.spec_timestamp() <= TRAVEL_VALUE_LIMIT,
            forall|k: int|
                0 <= k < self.groups@[profile.index as int]@.len() ==> from * self.width + to < (
                #[trigger] self.groups@[profile.index as int]@[k]).durations@.len(),
        ensures
            r == spec_interp_duration(
                self.groups@[profile.index as int]@,
                travel_time.spec_timestamp() as int,
                (from * self.width + to) as int,
            ),
    {
        let group = &self.groups[profile.index];
        let t = travel_time.timestamp();
        let n0 = group[0].durations.len();
        let idx = from * self.width + to;
        interp_duration_at(group, t, idx)
    }

    /// Travel distance of `profile` from `from` to `to` at the carried
    /// timestamp: the distance of the matrix in force at that time.
    pub fn distance(&self, profile: &Profile, from: usize, to: usize, travel_time: TravelTime) -> (r:
        i64)
        requires
            profile.index < self.groups@.len(),
            self.groups@[profile.index as int]@.len() >= 1,
            spec_group_timed(self.groups@[profile.index as int]@),
            forall|k: int|
                0 <= k < self.groups@[profile.index as int]@.len() ==> from * self.width + to < (
                #[trigger] self.groups@[profile.index as int]@[k]).distances@.len(),
        ensures
            r == spec_step_distance(
                self.groups@[profile.index as int]@,
                travel_time.spec_timestamp() as int,
                (from * self.width + to) as int,
            ),
    {
        let group = &self.groups[profile.index];
        let t = travel_time.timestamp();
        let n0 = group[0].distances.len();
        let idx = from * self.width + to;
        step_distance_at(group, t, idx)
    }

    /// Time-independent distance of `profile`: read from its first matrix.
    pub fn distance_approx(&self, profile: &Profile, from: usize, to: usize) -> (r: i64)
        requires
            profile.index < self.groups@.len(),
            self.groups@[profile.index as int]@.len() >= 1,
            from * self.width + to < self.groups@[profile.index as int]@[0].distances@.len(),
        ensures
            r == self.groups@[profile.index as int]@[0].distances@[(from * self.width
                + to) as int],
    {
        let group = &self.groups[profile.index];
        let n0 = group[0].distances.len();
        let idx = from * self.width + to;
        group[0].distances[idx]
    }
}

/// The timestamp of a matrix known to carry one.
fn matrix_timestamp(m: &MatrixData) -> (r: i64)
    requires
        m.timestamp is Some,
    ensures
        r == m.timestamp->0,
{
    match m.timestamp {
        Some(t) => t,
        None => 0,
    }
}

/// Collects the matrices of profile `p` in input order, insisting that all
/// carry timestamps and that those strictly increase.
fn collect_profile(costs: &Vec<MatrixData>, p: usize) -> (r: Result<Vec<MatrixData>, String>)
    ensures
        match r {
            Ok(group) => {
                let input = spec_by_profile(costs@, p as int);
                &&& group@.len() == input.len()
                &&& forall|k: int|
                    0 <= k < group@.len() ==> spec_md_eq(#[trigger] group@[k], input[k])
                &&& spec_group_timed(group@)
            },
            Err(e) => e@.len() > 0 && !spec_group_timed(spec_by_profile(costs@, p as int)),
        },
{
    let ghost input = spec_by_profile(costs@, p as int);
    let mut group: Vec<MatrixData> = Vec::new();
    let mut i: usize = 0;
    proof {
        assert(costs@.take(0) =~= Seq::<MatrixData>::empty());
    }
    while i < costs.len()
        invariant
            i <= costs@.len(),
            input == spec_by_profile(costs@, p as int),
            group@.len() == spec_by_profile(costs@.take(i as int), p as int).len(),
            forall|k: int|
                0 <= k < group@.len() ==> spec_md_eq(
                    #[trigger] group@[k],
                    spec_by_profile(costs@.take(i as int), p as int)[k],
                ),
            spec_group_timed(group@),
        decreases costs@.len() - i,
    {
        proof {
            lemma_by_profile_take_succ(costs@, p as int, i as int);
        }
        if costs[i].index == p {
            match costs[i].timestamp {
                None => {
                    proof {
                        reveal_strlit("time-aware routing requires all matrices to have timestamp");
                        let pre = spec_by_profile(costs@.take(i as int), p as int);
                        lemma_by_profile_take_succ(costs@, p as int, i as int);
                        lemma_by_profile_prefix_mono(costs@, p as int, i as int + 1);
                        assert(spec_by_profile(costs@.take(i as int + 1), p as int)[pre.len() as int]
                            == costs@[i as int]);
                        assert(input[pre.len() as int] == costs@[i as int]);
                        assert(!spec_group_timed(input));
                    }
                    return Err(
                        "time-aware routing requires all matrices to have timestamp".to_owned(),
                    );
                },
                Some(ts) => {
                    if group.len() > 0 {
                        let last = matrix_timestamp(&group[group.len() - 1]);
                        if last >= ts {
                            proof {
                                reveal_strlit(
                                    "time-aware routing requires strictly increasing timestamps",
                                );
                                let pre = spec_by_profile(costs@.take(i as int), p as int);
                                let len = pre.len() as int;
                                lemma_by_profile_take_succ(costs@, p as int, i as int);
                                lemma_by_profile_prefix_mono(costs@, p as int, i as int + 1);
                                assert(spec_by_profile(costs@.take(i as int + 1), p as int)[len]
                                    == costs@[i as int]);
                                assert(input[len] == costs@[i as int]);
                                assert(spec_by_profile(costs@.take(i as int + 1), p as int)[len - 1]
                                    == pre[len - 1]);
                                assert(input[len - 1] == pre[len - 1]);
                                assert(spec_md_eq(group@[len - 1], pre[len - 1]));
                                assert(input[len - 1].timestamp->0 >= input[len].timestamp->0);
                                assert(!spec_group_timed(input));
                            }
                            return Err(
                                "time-aware routing requires strictly increasing timestamps".to_owned(),
                            );
                        }
                    }
                    group.push(copy_matrix(&costs[i]));
                },
            }
        }
        i += 1;
    }
    proof {
        assert(costs@.take(costs@.len() as int) =~= costs@);
    }
    Ok(group)
}

/// Growing the scanned prefix never drops or reorders collected matrices.
proof fn lemma_by_profile_prefix_mono(s: Seq<MatrixData>, p: int, i: int)
    requires
        0 <= i <= s.len(),
    ensures
        spec_by_profile(s, p).len() >= spec_by_profile(s.take(i), p).len(),
        forall|k: int|
            0 <= k < spec_by_profile(s.take(i), p).len() ==> #[trigger] spec_by_profile(s, p)[k]
                == spec_by_profile(s.take(i), p)[k],
    decreases s.len() - i,
{
    if i == s.len() {
        assert(s.take(i) =~= s);
    } else {
        lemma_by_profile_take_succ(s, p, i);
        lemma_by_profile_prefix_mono(s, p, i + 1);
    }
}

/// Exact fixed-point linear interpolation between two sample points.
fn interp_pair(t0: i64, d0: i64, t1: i64, d1: i64, t: i64) -> (r: i64)
    requires
        -TRAVEL_VALUE_LIMIT <= t0 <= TRAVEL_VALUE_LIMIT,
        -TRAVEL_VALUE_LIMIT <= t1 <= TRAVEL_VALUE_LIMIT,
        -TRAVEL_VALUE_LIMIT <= d0 <= TRAVEL_VALUE_LIMIT,
        -TRAVEL_VALUE_LIMIT <= d1 <= TRAVEL_VALUE_LIMIT,
        t0 < t <= t1,
    ensures
        r == spec_interp_pair(t0 as int, d0 as int, t1 as int, d1 as int, t as int),
{
    let dt: u64 = (t - t0) as u64;
    let span: u64 = (t1 - t0) as u64;
    let diff: i64 = d1 - d0;
    proof {
        lemma_interp_bounds(dt, span, diff);
    }
    if diff >= 0 {
        let part = (((dt as u128) * (diff as u128)) / (span as u128)) as u64;
        d0 + (part as i64)
    } else {
        let part = (((dt as u128) * ((-diff) as u128)) / (span as u128)) as u64;
        proof {
            assert((t - t0) * ((d1 - d0) as int) == -((dt as int) * (-(diff as int))))
                by (nonlinear_arith)
                requires
                    dt as int == t - t0 && diff as int == d1 - d0 && diff < 0,
            ;
        }
        d0 - (part as i64)
    }
}

/// The interpolated share never exceeds the endpoint difference.
proof fn lemma_interp_bounds(dt: u64, span: u64, diff: i64)
    requires
        0 < dt <= span,
        span <= 2 * TRAVEL_VALUE_LIMIT,
        -2 * TRAVEL_VALUE_LIMIT <= diff <= 2 * TRAVEL_VALUE_LIMIT,
    ensures
        diff >= 0 ==> 0 <= (dt as int) * (diff as int) / (span as int) <= diff,
        diff < 0 ==> 0 <= (dt as int) * (-(diff as int)) / (span as int) <= -(diff as int),
        (dt as int) * (if diff >= 0 { diff as int } else { -(diff as int) }) <= u128::MAX as int,
{
    assert((dt as int) * (if diff >= 0 { diff as int } else { -(diff as int) }) <= (2
        * TRAVEL_VALUE_LIMIT as int) * (2 * TRAVEL_VALUE_LIMIT as int)) by (nonlinear_arith)
        requires
            0 < dt <= 2 * (TRAVEL_VALUE_LIMIT as int) && 0 <= (if diff >= 0 { diff as int } else { -(diff as int) }) <= 2 * (TRAVEL_VALUE_LIMIT as int),
    ;
    assert((2 * TRAVEL_VALUE_LIMIT as int) * (2 * TRAVEL_VALUE_LIMIT as int) <= u128::MAX as int)
        by (nonlinear_arith);
    let mag: int = if diff >= 0 {
        diff as int
    } else {
        -(diff as int)
    };
    assert((dt as int) * mag <= (span as int) * mag) by (nonlinear_arith)
        requires
            0 < dt <= span && mag >= 0,
    ;
    assert((span as int) * mag == mag * (span as int)) by (nonlinear_arith);
    vstd::arithmetic::div_mod::lemma_div_is_ordered(
        (dt as int) * mag,
        mag * (span as int),
        span as int,
    );
    vstd::arithmetic::div_mod::lemma_div_by_multiple(mag, span as int);
    assert((dt as int) * mag >= 0) by (nonlinear_arith)
        requires
            dt > 0 && mag >= 0,
    ;
    vstd::arithmetic::div_mod::lemma_div_pos_is_pos((dt as int) * mag, span as int);
}

/// Scans a timed group for the duration at timestamp `t`.
#[verifier::rlimit(100)]
fn interp_duration_at(group: &Vec<MatrixData>, t: i64, idx: usize) -> (r: i64)
    requires
        group@.len() >= 1,
        spec_group_timed(group@),
        spec_group_bounded(group@),
        -TRAVEL_VALUE_LIMIT <= t <= TRAVEL_VALUE_LIMIT,
        forall|k: int| 0 <= k < group@.len() ==> idx < (#[trigger] group@[k]).durations@.len(),
    ensures
        r == spec_interp_duration(group@, t as int, idx as int),
{
    let ghost g = group@;
    proof {
        assert(g.skip(0) =~= g);
    }
    let n = group.len();
    if n == 1 || t <= matrix_timestamp(&group[0]) {
        return group[0].durations[idx];
    }
    let mut k: usize = 0;
    while k + 1 < n
        invariant
            k < n,
            n == g.len(),
            g == group@,
            spec_group_timed(g),
            spec_group_bounded(g),
            forall|m: int| 0 <= m < g.len() ==> idx < (#[trigger] g[m]).durations@.len(),
            -TRAVEL_VALUE_LIMIT <= t <= TRAVEL_VALUE_LIMIT,
            t >= g[k as int].timestamp->0,
            spec_interp_duration(g, t as int, idx as int) == spec_interp_duration(
                g.skip(k as int),
                t as int,
                idx as int,
            ),
        decreases n - k,
    {
        proof {
            assert(g.skip(k as int)[0] == g[k as int]);
            assert(g.skip(k as int)[1] == g[k as int + 1]);
            assert(g.skip(k as int).drop_first() =~= g.skip(k as int + 1));
        }
        let t0 = matrix_timestamp(&group[k]);
        if t <= t0 {
            return group[k].durations[idx];
        }
        if t < matrix_timestamp(&group[k + 1]) {
            let t1 = matrix_timestamp(&group[k + 1]);
            let d0 = group[k].durations[idx];
            let d1 = group[k + 1].durations[idx];
            let r = interp_pair(t0, d0, t1, d1, t);
            proof {
                assert(spec_interp_duration(g.skip(k as int), t as int, idx as int)
                    == spec_interp_pair(t0 as int, d0 as int, t1 as int, d1 as int, t as int));
            }
            return r;
        }
        k += 1;
    }
    proof {
        assert(g.skip(k as int).len() == 1);
        assert(g.skip(k as int)[0] == g[k as int]);
    }
    group[k].durations[idx]
}

/// Scans a timed group for the distance in force at timestamp `t`.
#[verifier::rlimit(100)]
fn step_distance_at(group: &Vec<MatrixData>, t: i64, idx: usize) -> (r: i64)
    requires
        group@.len() >= 1,
        spec_group_timed(group@),
        forall|k: int| 0 <= k < group@.len() ==> idx < (#[trigger] group@[k]).distances@.len(),
    ensures
        r == spec_step_distance(group@, t as int, idx as int),
{
    let ghost g = group@;
    proof {
        assert(g.skip(0) =~= g);
    }
    let n = group.len();
    let mut k: usize = 0;
    while k + 1 < n
        invariant
            k < n,
            n == g.len(),
            g == group@,
            spec_group_timed(g),
            forall|m: int| 0 <= m < g.len() ==> idx < (#[trigger] g[m]).distances@.len(),
            spec_step_distance(g, t as int, idx as int) == spec_step_distance(
                g.skip(k as int),
                t as int,
                idx as int,
            ),
        decreases n - k,
    {
        proof {
            assert(g.skip(k as int)[0] == g[k as int]);
            assert(g.skip(k as int)[1] == g[k as int + 1]);
            assert(g.skip(k as int).drop_first() =~= g.skip(k as int + 1));
        }
        if t < matrix_timestamp(&group[k + 1]) {
            return group[k].distances[idx];
        }
        k += 1;
    }
    proof {
        assert(g.skip(k as int).len() == 1);
        assert(g.skip(k as int)[0] == g[k as int]);
    }
    group[k].distances[idx]
}

} // verus!
