use vrp_search_core::validation::{
    Fleet, Job, Plan, Problem, ValidationContext, VehicleType,
};

fn job(id: &str) -> Job {
    Job { id: id.to_string() }
}

fn vehicle(type_id: &str, ids: &[&str]) -> VehicleType {
    VehicleType {
        type_id: type_id.to_string(),
        vehicle_ids: ids.iter().map(|s| s.to_string()).collect(),
    }
}

fn problem(jobs: Vec<Job>, vehicles: Vec<VehicleType>) -> Problem {
    Problem { plan: Plan { jobs }, fleet: Fleet { vehicles } }
}

#[test]
fn valid_problem_passes_validation() {
    let p = problem(
        vec![job("j1"), job("j2")],
        vec![vehicle("car", &["car_1"]), vehicle("truck", &["truck_1"])],
    );
    assert_eq!(ValidationContext::new(&p, None).validate(), Ok(()));
}

#[test]
fn duplicate_job_ids_fail_validation() {
    let p = problem(vec![job("j1"), job("j2"), job("j1")], vec![vehicle("car", &["car_1"])]);
    let err = ValidationContext::new(&p, None).validate().err().unwrap();
    assert!(err.starts_with("Problem has the following validation errors:"));
    assert!(err.contains("duplicated job ids"));
}

#[test]
fn duplicate_vehicle_type_ids_fail_validation() {
    let p = problem(vec![job("j1")], vec![vehicle("car", &["car_1"]), vehicle("car", &["car_2"])]);
    let err = ValidationContext::new(&p, None).validate().err().unwrap();
    assert!(err.contains("duplicated vehicle type ids"));
}

#[test]
fn both_violations_are_reported_together() {
    let p = problem(
        vec![job("j1"), job("j1")],
        vec![vehicle("car", &["car_1"]), vehicle("car", &["car_2"])],
    );
    let err = ValidationContext::new(&p, None).validate().err().unwrap();
    assert!(err.contains("duplicated job ids"));
    assert!(err.contains("duplicated vehicle type ids"));
}

#[test]
fn empty_problem_is_valid() {
    let p = problem(Vec::new(), Vec::new());
    assert_eq!(ValidationContext::new(&p, None).validate(), Ok(()));
}
