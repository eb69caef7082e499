//! Logical validation of a problem definition before the search starts:
//! duplicate identifiers in the plan or the fleet are configuration errors.

use vstd::prelude::*;
use vstd::string::StringExecFns;

verus! {

/// One job of the plan.
#[derive(Debug)]
pub struct Job {
    /// Unique job identifier.
    pub id: String,
}

/// The plan part of a problem: what has to be served.
#[derive(Debug)]
pub struct Plan {
    pub jobs: Vec<Job>,
}

/// One vehicle type of the fleet.
#[derive(Debug)]
pub struct VehicleType {
    /// Unique identifier of the type.
    pub type_id: String,
    /// Unique identifiers of the concrete vehicles of this type.
    pub vehicle_ids: Vec<String>,
}

/// The fleet part of a problem: what serves the plan.
#[derive(Debug)]
pub struct Fleet {
    pub vehicles: Vec<VehicleType>,
}

/// A problem definition, reduced to what validation reads.
#[derive(Debug)]
pub struct Problem {
    pub plan: Plan,
    pub fleet: Fleet,
}

/// A routing matrix reference handed along with a problem.
#[derive(Debug)]
pub struct Matrix {
    /// Profile name of this matrix.
    pub profile: Option<String>,
    /// Timestamp of this matrix.
    pub timestamp: Option<String>,
}

/// Some identifier occurs twice in the list.
pub open spec fn spec_has_duplicate(ids: Seq<Seq<char>>) -> bool {
    exists|i: int, j: int| 0 <= i < j < ids.len() && ids[i] == ids[j]
}

/// The job identifiers of a problem.
pub open spec fn spec_job_ids(p: &Problem) -> Seq<Seq<char>> {
    p.plan.jobs@.map_values(|j: Job| j.id@)
}

/// The vehicle type identifiers of a problem.
pub open spec fn spec_type_ids(p: &Problem) -> Seq<Seq<char>> {
    p.fleet.vehicles@.map_values(|v: VehicleType| v.type_id@)
}

/// Validation verdict over a problem: no duplicate job identifiers and no
/// duplicate vehicle type identifiers.
pub open spec fn spec_problem_valid(p: &Problem) -> bool {
    !spec_has_duplicate(spec_job_ids(p)) && !spec_has_duplicate(spec_type_ids(p))
}

/// One report line per violation: a line break, then the violation's text.
pub open spec fn spec_join_lines(lines: Seq<Seq<char>>) -> Seq<char>
    decreases lines.len(),
{
    if lines.len() == 0 {
        Seq::empty()
    } else {
        spec_join_lines(lines.drop_last()) + "\n"@ + lines.last()
    }
}

/// The full validation report of a problem: the fixed heading followed by
/// one line per violated rule, plan rules before fleet rules.
pub open spec fn spec_validation_report(p: &Problem) -> Seq<char> {
    let jobs: Seq<Seq<char>> = if spec_has_duplicate(spec_job_ids(p)) {
        seq!["duplicated job ids"@]
    } else {
        Seq::empty()
    };
    let vehicles: Seq<Seq<char>> = if spec_has_duplicate(spec_type_ids(p)) {
        seq!["duplicated vehicle type ids"@]
    } else {
        Seq::empty()
    };
    "Problem has the following validation errors:"@ + spec_join_lines(jobs + vehicles)
}

/// Checks a list of identifiers for a duplicate.
fn find_duplicate(ids: &Vec<&String>) -> (r: bool)
    ensures
        r == spec_has_duplicate(ids@.map_values(|s: &String| s@)),
{
    let ghost view = ids@.map_values(|s: &String| s@);
    let mut i: usize = 0;
    while i < ids.len()
        invariant
            i <= ids@.len(),
            view == ids@.map_values(|s: &String| s@),
            forall|a: int, b: int| 0 <= a < b < ids@.len() && a < i ==> view[a] != view[b],
        decreases ids@.len() - i,
    {
        let mut j: usize = i + 1;
        while j < ids.len()
            invariant
                i < j || j == i + 1,
                i < ids@.len(),
                j >= i + 1,
                j <= ids@.len(),
                view == ids@.map_values(|s: &String| s@),
                forall|b: int| i < b < j ==> view[i as int] != view[b],
            decreases ids@.len() - j,
        {
            if ids[i].eq(ids[j]) {
                proof {
                    assert(view[i as int] == view[j as int]);
                }
                return true;
            }
            j += 1;
        }
        i += 1;
    }
    proof {
        assert(!spec_has_duplicate(view)) by {
            if spec_has_duplicate(view) {
                let (a, b) = choose|a: int, b: int| 0 <= a < b < view.len() && view[a] == view[b];
                assert(view[a] != view[b]);
            }
        }
    }
    false
}

/// Validation of the plan: rejects duplicate job identifiers.
fn validate_jobs(ctx: &ValidationContext<'_>) -> (r: Result<(), String>)
    ensures
        r is Ok <==> !spec_has_duplicate(spec_job_ids(ctx.problem)),
        r matches Err(e) ==> e@ == "duplicated job ids"@,
{
    let jobs = ctx.jobs();
    let mut ids: Vec<&String> = Vec::new();
    let mut i: usize = 0;
    while i < jobs.len()
        invariant
            i <= jobs@.len(),
            jobs == &ctx.problem.plan.jobs,
            ids@.len() == i,
            forall|t: int| 0 <= t < i ==> (#[trigger] ids@[t])@ == jobs@[t].id@,
        decreases jobs@.len() - i,
    {
        ids.push(&jobs[i].id);
        i += 1;
    }
    proof {
        assert(ids@.map_values(|s: &String| s@) =~= spec_job_ids(ctx.problem));
    }
    if find_duplicate(&ids) {
        proof {
            reveal_strlit("duplicated job ids");
        }
        Err("duplicated job ids".to_owned())
    } else {
        Ok(())
    }
}

/// Validation of the fleet: rejects duplicate vehicle type identifiers.
fn validate_vehicles(ctx: &ValidationContext<'_>) -> (r: Result<(), String>)
    ensures
        r is Ok <==> !spec_has_duplicate(spec_type_ids(ctx.problem)),
        r matches Err(e) ==> e@ == "duplicated vehicle type ids"@,
{
    let vehicles = ctx.vehicles();
    let mut ids: Vec<&String> = Vec::new();
    let mut i: usize = 0;
    while i < vehicles.len()
        invariant
            i <= vehicles@.len(),
            vehicles == &ctx.problem.fleet.vehicles,
            ids@.len() == i,
            forall|t: int| 0 <= t < i ==> (#[trigger] ids@[t])@ == vehicles@[t].type_id@,
        decreases vehicles@.len() - i,
    {
        ids.push(&vehicles[i].type_id);
        i += 1;
    }
    proof {
        assert(ids@.map_values(|s: &String| s@) =~= spec_type_ids(ctx.problem));
    }
    if find_duplicate(&ids) {
        proof {
            reveal_strlit("duplicated vehicle type ids");
        }
        Err("duplicated vehicle type ids".to_owned())
    } else {
        Ok(())
    }
}

/// Validates a problem definition for logical correctness before it is
/// handed to the solver.
#[derive(Debug)]
pub struct ValidationContext<'a> {
    pub problem: &'a Problem,
    pub matrices: Option<&'a Vec<Matrix>>,
}

impl<'a> ValidationContext<'a> {
    /// Creates an instance of `ValidationContext`.
    pub fn new(problem: &'a Problem, matrices: Option<&'a Vec<Matrix>>) -> (r: ValidationContext<
        'a,
    >)
        ensures
            r.problem == problem,
            r.matrices == matrices,
    {
        Self { problem, matrices }
    }

    /// Validates the problem on the set of rules: `Ok` exactly when no rule
    /// is violated, otherwise exactly the report that opens with the fixed
    /// heading and lists every violation on its own line, plan rules before
    /// fleet rules.
    pub fn validate(&self) -> (r: Result<(), String>)
        ensures
            r is Ok <==> spec_problem_valid(self.problem),
            r matches Err(e) ==> e@ == spec_validation_report(self.problem),
    {
        let ghost expected_lines: Seq<Seq<char>> = (if spec_has_duplicate(
            spec_job_ids(self.problem),
        ) {
            seq!["duplicated job ids"@]
        } else {
            Seq::empty()
        }) + (if spec_has_duplicate(spec_type_ids(self.problem)) {
            seq!["duplicated vehicle type ids"@]
        } else {
            Seq::empty()
        });
        let mut errors: Vec<String> = Vec::new();
        match validate_jobs(self) {
            Ok(_) => {},
            Err(e) => {
                errors.push(e);
            },
        }
        match validate_vehicles(self) {
            Ok(_) => {},
            Err(e) => {
                errors.push(e);
            },
        }
        proof {
            assert(errors@.map_values(|s: String| s@) =~= expected_lines);
        }
        if errors.len() == 0 {
            Ok(())
        } else {
            let ghost lines = errors@.map_values(|s: String| s@);
            let mut msg = "Problem has the following validation errors:".to_owned();
            let ghost heading = "Problem has the following validation errors:"@;
            let mut i: usize = 0;
            proof {
                assert(lines.take(0) =~= Seq::<Seq<char>>::empty());
                assert(msg@ =~= heading + spec_join_lines(lines.take(0)));
            }
            while i < errors.len()
                invariant
                    i <= errors@.len(),
                    heading == "Problem has the following validation errors:"@,
                    lines == errors@.map_values(|s: String| s@),
                    msg@ == heading + spec_join_lines(lines.take(i as int)),
                decreases errors@.len() - i,
            {
                msg.append("\n");
                msg.append(errors[i].as_str());
                proof {
                    assert(lines.take(i as int + 1).drop_last() =~= lines.take(i as int));
                    assert(lines.take(i as int + 1).last() == lines[i as int]);
                    assert(msg@ =~= heading + spec_join_lines(lines.take(i as int + 1)));
                }
                i += 1;
            }
            proof {
                assert(lines.take(errors@.len() as int) =~= lines);
                assert(msg@ == heading + spec_join_lines(expected_lines));
            }
            Err(msg)
        }
    }

    /// The jobs of the plan.
    fn jobs(&self) -> (r: &'a Vec<Job>)
        ensures
            r == &self.problem.plan.jobs,
    {
        &self.problem.plan.jobs
    }

    /// The vehicle types of the fleet.
    fn vehicles(&self) -> (r: &'a Vec<VehicleType>)
        ensures
            r == &self.problem.fleet.vehicles,
    {
        &self.problem.fleet.vehicles
    }
}

} // verus!
