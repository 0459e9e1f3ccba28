use lave_core::activity::{
    Activity, ActivityState, BACKOFF_CAP, Effect, MAX_LOG_ENTRIES, Signal, backoff, describe,
};
use lave_core::engine::{EngineError, EngineEvent};
use lave_core::engine::error::Obstacle;

fn event(kind: &str, action: &str, name: &str, time: i64) -> EngineEvent {
    EngineEvent {
        kind: kind.to_owned(),
        action: action.to_owned(),
        actor_id: "13ef39df585fa5ea8df9325dffdc7c18".to_owned(),
        actor_name: if name.is_empty() {
            None
        } else {
            Some(name.to_owned())
        },
        time,
    }
}

fn transient() -> EngineError {
    EngineError::unreachable(
        "/var/run/docker.sock",
        Obstacle::ConnectionRefused,
    )
}

fn permanent() -> EngineError {
    EngineError::Protocol("unparseable frame".to_owned())
}

#[test]
fn a_fresh_monitor_is_connecting_and_has_nothing_to_show() {
    let activity = Activity::new();

    assert_eq!(*activity.state(), ActivityState::Connecting);
    assert!(activity.log().is_empty());
    assert_eq!(activity.since(), None);
    assert_eq!(activity.last_event_at(), None);
}

#[test]
fn connecting_triggers_a_refresh_of_the_listings() {
    let mut activity = Activity::new();

    let effects = activity.apply(Signal::Connected { at: 1000 });

    assert_eq!(effects, vec![Effect::Refresh]);
    assert!(activity.state().is_connected());
    assert_eq!(activity.since(), Some(1000));
}

#[test]
fn container_and_image_events_refresh_the_tree() {
    let mut activity = Activity::new();
    activity.apply(Signal::Connected { at: 1000 });

    for kind in ["container", "image"] {
        let effects = activity.apply(Signal::Observed(event(kind, "start", "web", 1001)));
        assert_eq!(effects, vec![Effect::Refresh], "{kind} should refresh");
    }
}

#[test]
fn other_events_are_logged_without_reloading_anything() {
    let mut activity = Activity::new();
    activity.apply(Signal::Connected { at: 1000 });

    let effects = activity.apply(Signal::Observed(event("network", "connect", "", 1001)));

    assert!(effects.is_empty());
    assert_eq!(activity.log().len(), 1);
}

#[test]
fn the_log_keeps_the_most_recent_entries_newest_first() {
    let mut activity = Activity::new();
    activity.apply(Signal::Connected { at: 0 });

    for index in 0..(MAX_LOG_ENTRIES + 5) {
        let time = i64::try_from(index).expect("small");
        activity.apply(Signal::Observed(event("container", "start", "web", time)));
    }

    assert_eq!(activity.log().len(), MAX_LOG_ENTRIES);
    let newest = activity.log().front().expect("an entry");
    let oldest = activity.log().back().expect("an entry");
    assert!(newest.time > oldest.time);
    assert_eq!(
        newest.time,
        i64::try_from(MAX_LOG_ENTRIES + 4).expect("small")
    );
}

#[test]
fn events_advance_the_replay_point_so_a_reconnect_loses_nothing() {
    let mut activity = Activity::new();
    activity.apply(Signal::Connected { at: 1000 });
    activity.apply(Signal::Observed(event("container", "die", "web", 1500)));

    assert_eq!(activity.since(), Some(1500));
    assert_eq!(activity.last_event_at(), Some(1500));

    activity.apply(Signal::Lost(transient()));
    activity.apply(Signal::RetryElapsed);
    activity.apply(Signal::Connected { at: 2000 });

    // Still 1500: the gap between 1500 and reconnection must be replayed.
    assert_eq!(activity.since(), Some(1500));
}

#[test]
fn a_transient_loss_schedules_a_retry_with_doubling_backoff() {
    let mut activity = Activity::new();
    let expected = [1, 2, 4, 8, 16, 30, 30, 30];

    for (index, seconds) in expected.into_iter().enumerate() {
        let effects = activity.apply(Signal::Lost(transient()));
        assert_eq!(
            effects,
            vec![Effect::WaitThen(seconds)],
            "attempt {} should wait {seconds}s",
            index + 1
        );
        activity.apply(Signal::RetryElapsed);
    }
}

#[test]
fn the_backoff_is_capped_and_never_zero() {
    assert_eq!(backoff(0), 1);
    assert_eq!(backoff(1), 1);
    assert_eq!(backoff(6), BACKOFF_CAP);
    assert_eq!(backoff(u32::MAX), BACKOFF_CAP);
}

#[test]
fn a_successful_reconnect_resets_the_backoff() {
    let mut activity = Activity::new();
    for _ in 0..4 {
        activity.apply(Signal::Lost(transient()));
        activity.apply(Signal::RetryElapsed);
    }
    activity.apply(Signal::Connected { at: 5000 });

    let effects = activity.apply(Signal::Lost(transient()));

    assert_eq!(effects, vec![Effect::WaitThen(1)]);
}

#[test]
fn retrying_moves_back_to_connecting_and_asks_for_a_connection() {
    let mut activity = Activity::new();
    activity.apply(Signal::Lost(transient()));

    let effects = activity.apply(Signal::RetryElapsed);

    assert_eq!(effects, vec![Effect::Connect]);
    assert_eq!(*activity.state(), ActivityState::Connecting);
}

#[test]
fn reconnecting_state_reports_the_attempt_and_the_wait() {
    let mut activity = Activity::new();
    activity.apply(Signal::Lost(transient()));
    activity.apply(Signal::RetryElapsed);
    activity.apply(Signal::Lost(transient()));

    assert_eq!(
        *activity.state(),
        ActivityState::Reconnecting {
            attempt: 2,
            delay: 2
        }
    );
}

#[test]
fn an_unrecoverable_loss_stops_rather_than_retrying_forever() {
    let mut activity = Activity::new();

    let effects = activity.apply(Signal::Lost(permanent()));

    assert_eq!(effects, vec![Effect::Stop]);
    assert!(matches!(activity.state(), ActivityState::Failed { .. }));
}

#[test]
fn a_failure_carries_the_hint_forward_to_the_user() {
    let mut activity = Activity::new();
    let denied = EngineError::Api {
        status: 400,
        message: "bad request".to_owned(),
    };

    activity.apply(Signal::Lost(denied));

    let ActivityState::Failed { reason, .. } = activity.state() else {
        panic!("expected Failed, got {:?}", activity.state());
    };
    assert_eq!(reason, "bad request");
}

#[test]
fn events_are_described_using_the_name_when_there_is_one() {
    assert_eq!(
        describe(&event("container", "start", "web", 1)),
        "container start: web"
    );
}

#[test]
fn nameless_events_fall_back_to_the_short_id() {
    assert_eq!(
        describe(&event("container", "destroy", "", 1)),
        "container destroy: 13ef39df585f"
    );
}

#[test]
fn incomplete_events_still_describe_themselves() {
    let bare = EngineEvent::default();

    assert_eq!(describe(&bare), "event changed");
}
