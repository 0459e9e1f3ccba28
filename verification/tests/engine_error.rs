use lave_core::engine::error::{EngineError, Failure, Obstacle};

#[test]
fn permission_denied_explains_the_docker_group() {
    let error = EngineError::unreachable(
        "/var/run/docker.sock",
        Obstacle::PermissionDenied,
    );

    assert!(error.to_string().contains("/var/run/docker.sock"));
    let hint = error.hint().expect("permission errors carry a hint");
    assert!(
        hint.contains("docker"),
        "hint should name the group: {hint}"
    );
    assert!(error.is_transient());
}

#[test]
fn a_missing_socket_suggests_starting_the_daemon() {
    let error =
        EngineError::unreachable("/run/user/1000/docker.sock", Obstacle::NotFound);

    assert!(error.to_string().contains("no socket"));
    assert!(error.hint().expect("hint").contains("not be running"));
}

#[test]
fn a_refused_connection_is_distinguished_from_a_missing_one() {
    let refused = EngineError::unreachable(
        "/var/run/docker.sock",
        Obstacle::ConnectionRefused,
    );
    let missing =
        EngineError::unreachable("/var/run/docker.sock", Obstacle::NotFound);

    assert_ne!(refused.to_string(), missing.to_string());
    assert!(refused.to_string().contains("nothing is listening"));
}

#[test]
fn unmapped_kinds_still_name_the_socket_and_carry_no_false_hint() {
    let error =
        EngineError::unreachable("/var/run/docker.sock", Obstacle::Other);

    assert!(error.to_string().contains("/var/run/docker.sock"));
    assert_eq!(error.hint(), None);
}

#[test]
fn a_404_becomes_not_found_and_is_not_retried() {
    let error = EngineError::from_bollard(
        &Failure::Response {
            status: 404,
            message: "No such container: abc".to_owned(),
        },
        "/var/run/docker.sock",
    );

    assert!(matches!(error, EngineError::NotFound { .. }));
    assert!(!error.is_transient());
}

#[test]
fn server_errors_are_transient_but_client_errors_are_not() {
    let socket = "/var/run/docker.sock";
    let server = EngineError::from_bollard(
        &Failure::Response {
            status: 500,
            message: "boom".to_owned(),
        },
        socket,
    );
    let client = EngineError::from_bollard(
        &Failure::Response {
            status: 409,
            message: "conflict".to_owned(),
        },
        socket,
    );

    assert!(server.is_transient());
    assert!(!client.is_transient());
}

#[test]
fn a_403_explains_itself_rather_than_reporting_a_bare_refusal() {
    let error = EngineError::from_bollard(
        &Failure::Response {
            status: 403,
            message: "operation not permitted".to_owned(),
        },
        "/var/run/docker.sock",
    );

    assert!(error.hint().is_some(), "403 should be explained");
}

#[test]
fn a_missing_socket_error_uses_the_path_bollard_reports() {
    let error = EngineError::from_bollard(
        &Failure::NoSocket("/elsewhere.sock".to_owned()),
        "/var/run/docker.sock",
    );

    assert!(error.to_string().contains("/elsewhere.sock"));
}

#[test]
fn multi_line_daemon_messages_are_reduced_to_their_first_line() {
    let error = EngineError::from_bollard(
        &Failure::Response {
            status: 500,
            message: "it broke\nstack trace follows\n  frame 1".to_owned(),
        },
        "/var/run/docker.sock",
    );

    assert_eq!(error.to_string(), "it broke");
}
