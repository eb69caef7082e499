use vrp_search_core::transport::{
    create_matrix_transport_cost, MatrixData, NoFallback, Profile, TimeAwareMatrixTransportCost,
    TravelTime,
};

fn create_matrix_data(
    profile: Profile,
    timestamp: Option<i64>,
    duration: (i64, usize),
    distance: (i64, usize),
) -> MatrixData {
    MatrixData {
        index: profile.index,
        timestamp,
        durations: vec![duration.0; duration.1],
        distances: vec![distance.0; distance.1],
    }
}

#[test]
fn can_detect_dimensions_mismatch() {
    assert_eq!(
        create_matrix_transport_cost(vec![
            create_matrix_data(Profile::default(), Some(0), (0, 2), (0, 2)),
            create_matrix_data(Profile::default(), Some(1), (0, 1), (0, 2)),
        ])
        .err(),
        Some("distance and duration collections have different length".to_string())
    );
}

#[test]
fn can_return_error_when_mixing_timestamps() {
    let p0 = Profile::default();
    let p1 = Profile::new(1, None);

    assert_eq!(
        TimeAwareMatrixTransportCost::new(
            vec![create_matrix_data(Profile::default(), None, (0, 1), (0, 1))],
            1,
            NoFallback
        )
        .err(),
        Some("time-aware routing requires all matrices to have timestamp".to_string())
    );

    assert_eq!(
        TimeAwareMatrixTransportCost::new(
            vec![
                create_matrix_data(p0, Some(0), (0, 1), (0, 1)),
                create_matrix_data(p0, None, (0, 1), (0, 1))
            ],
            1,
            NoFallback
        )
        .err(),
        Some("time-aware routing requires all matrices to have timestamp".to_string())
    );

    assert_eq!(
        TimeAwareMatrixTransportCost::new(
            vec![create_matrix_data(p0, Some(0), (0, 1), (0, 1))],
            1,
            NoFallback
        )
        .err(),
        Some("should not use time aware matrix routing with single matrix".to_string())
    );

    assert_eq!(
        TimeAwareMatrixTransportCost::new(
            vec![
                create_matrix_data(p0, Some(0), (1, 1), (1, 1)),
                create_matrix_data(p0, Some(1), (1, 1), (1, 1)),
                create_matrix_data(p1, Some(0), (1, 1), (1, 1)),
            ],
            1,
            NoFallback
        )
        .err(),
        Some("should not use time aware matrix routing with single matrix".to_string())
    );
}

#[test]
fn can_interpolate_durations() {
    let p0 = Profile::new(0, None);
    let p1 = Profile::new(1, None);

    let costs = TimeAwareMatrixTransportCost::new(
        vec![
            create_matrix_data(p0, Some(0), (100, 2), (1, 2)),
            create_matrix_data(p0, Some(10), (200, 2), (1, 2)),
            create_matrix_data(p1, Some(0), (300, 2), (5, 2)),
            create_matrix_data(p1, Some(10), (400, 2), (5, 2)),
        ],
        2,
        NoFallback,
    )
    .unwrap();

    for &(timestamp, duration) in &[(0, 100), (10, 200), (15, 200), (3, 130), (5, 150), (7, 170)] {
        assert_eq!(costs.duration(&p0, 0, 1, TravelTime::Departure(timestamp)), duration);
    }

    for &(timestamp, duration) in &[(0, 300), (10, 400), (15, 400), (3, 330), (5, 350), (7, 370)] {
        assert_eq!(costs.duration(&p1, 0, 1, TravelTime::Departure(timestamp)), duration);
    }

    assert_eq!(costs.distance(&p0, 0, 1, TravelTime::Departure(0)), 1);
    assert_eq!(costs.distance(&p1, 0, 1, TravelTime::Departure(0)), 5);

    assert_eq!(costs.distance_approx(&p0, 0, 1), 1);
    assert_eq!(costs.distance_approx(&p1, 0, 1), 5);
}

#[test]
fn matrix_transport_cost_reads_flat_matrices() {
    let costs = create_matrix_transport_cost(vec![
        create_matrix_data(Profile::default(), None, (7, 4), (3, 4)),
    ])
    .unwrap();
    let p0 = Profile::default();
    assert_eq!(costs.duration_approx(&p0, 1, 0, 2), 7);
    assert_eq!(costs.distance_approx(&p0, 0, 1, 2), 3);
}
