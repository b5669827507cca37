use runlog::service::{
    greeting, insert_failure, lease_failure, render_run, validate_submission, NewRun, RunError,
    RunSubmission, StoredRun,
};

#[test]
fn valid_submission_decodes_duration_and_keeps_distance() {
    let sub = RunSubmission {
        distance: String::from("5.2"),
        duration_text: String::from("30m"),
    };
    let nr: NewRun = validate_submission(sub).unwrap();
    assert_eq!(nr.distance, "5.2");
    assert_eq!(nr.duration_micros, 1_800_000_000);
}

#[test]
fn invalid_duration_is_rejected_before_any_store_work() {
    let sub = RunSubmission {
        distance: String::from("10"),
        duration_text: String::from("not-a-duration"),
    };
    match validate_submission(sub) {
        Ok(_) => panic!("malformed duration accepted"),
        Err(e) => {
            assert!(matches!(e, RunError::Validation(_)));
            assert_eq!(e.status_code(), 400);
        }
    }
}

#[test]
fn empty_duration_is_rejected() {
    let sub = RunSubmission {
        distance: String::from("1"),
        duration_text: String::new(),
    };
    assert!(validate_submission(sub).is_err());
}

#[test]
fn pool_failure_maps_to_unavailable() {
    let e = lease_failure(String::from("connection pool timed out"));
    assert!(matches!(e, RunError::Unavailable(_)));
    assert_eq!(e.status_code(), 503);
    assert_eq!(e.message().as_str(), "connection pool timed out");
}

#[test]
fn insert_failure_maps_to_persistence() {
    let e = insert_failure(String::from("constraint violation"));
    assert!(matches!(e, RunError::Persistence(_)));
    assert_eq!(e.status_code(), 500);
    assert_eq!(e.message().as_str(), "constraint violation");
}

#[test]
fn stored_row_renders_with_reencoded_duration() {
    let row = StoredRun {
        id: 1,
        distance: String::from("5.2"),
        duration_micros: 1_800_000_000,
        created_at: String::from("2024-01-01T00:00:00"),
    };
    let wire = render_run(row);
    assert!(wire.id >= 1);
    assert_eq!(wire.distance, "5.2");
    assert_eq!(wire.duration, "30m");
    assert_eq!(wire.created_at, "2024-01-01T00:00:00");
}

#[test]
fn liveness_greeting_is_fixed() {
    assert_eq!(greeting(), "Hello, World!");
}
