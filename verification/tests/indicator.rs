use lave_core::activity::{Activity, Signal};
use lave_core::engine::{EngineError, EngineEvent};
use lave_core::engine::error::Obstacle;
use lave_core::indicator::{Counts, IndicatorIcon, IndicatorModel, MenuAction, MenuItem, model};

fn counts() -> Counts {
    Counts {
        images: 16,
        containers: 5,
        running: 1,
    }
}

fn connected() -> Activity {
    let mut activity = Activity::new();
    activity.apply(Signal::Connected { at: 1000 });
    activity
}

fn labels(model: &IndicatorModel) -> Vec<String> {
    model
        .items
        .iter()
        .filter_map(|item| match item {
            MenuItem::Action { label, .. } | MenuItem::Info(label) => Some(label.clone()),
            MenuItem::Separator => None,
        })
        .collect()
}

fn actions(model: &IndicatorModel) -> Vec<MenuAction> {
    model
        .items
        .iter()
        .filter_map(|item| match item {
            MenuItem::Action { action, .. } => Some(*action),
            _ => None,
        })
        .collect()
}

#[test]
fn the_menu_always_offers_open_and_quit() {
    for activity in [Activity::new(), connected()] {
        let model = model(&activity, counts());
        assert_eq!(actions(&model), vec![MenuAction::Open, MenuAction::Quit]);
    }
}

#[test]
fn a_connected_indicator_reports_the_counts() {
    let model = model(&connected(), counts());

    assert_eq!(model.icon, IndicatorIcon::Connected);
    assert!(labels(&model).contains(&"16 images".to_owned()));
    assert!(labels(&model).contains(&"5 containers (1 running)".to_owned()));
    assert_eq!(model.tooltip, "Lave Station \u{2014} Connected");
}

#[test]
fn counts_are_pluralised() {
    let single = Counts {
        images: 1,
        containers: 1,
        running: 0,
    };

    let rendered = labels(&model(&connected(), single));

    assert!(rendered.contains(&"1 image".to_owned()));
    assert!(rendered.contains(&"1 container".to_owned()));
}

#[test]
fn a_zero_running_count_is_omitted_rather_than_shown_as_zero() {
    let idle = Counts {
        images: 3,
        containers: 2,
        running: 0,
    };

    assert!(labels(&model(&connected(), idle)).contains(&"2 containers".to_owned()));
}

#[test]
fn counts_are_hidden_while_disconnected_because_they_would_be_stale() {
    let model = model(&Activity::new(), counts());

    assert_eq!(model.icon, IndicatorIcon::Connecting);
    assert!(!labels(&model).contains(&"16 images".to_owned()));
}

#[test]
fn reconnecting_says_how_long_the_wait_is() {
    let mut activity = Activity::new();
    let error =
        EngineError::unreachable("/var/run/docker.sock", Obstacle::NotFound);
    activity.apply(Signal::Lost(error));

    let model = model(&activity, counts());

    assert_eq!(model.icon, IndicatorIcon::Reconnecting);
    assert!(
        model.tooltip.contains("Reconnecting in 1s"),
        "got {}",
        model.tooltip
    );
}

#[test]
fn a_failure_names_the_reason_in_the_tooltip() {
    let mut activity = Activity::new();
    activity.apply(Signal::Lost(EngineError::Protocol("bad frame".to_owned())));

    let model = model(&activity, counts());

    assert_eq!(model.icon, IndicatorIcon::Failed);
    assert!(model.tooltip.contains("bad frame"), "got {}", model.tooltip);
}

#[test]
fn the_most_recent_event_is_surfaced_in_the_menu() {
    let mut activity = connected();
    activity.apply(Signal::Observed(EngineEvent {
        kind: "container".to_owned(),
        action: "start".to_owned(),
        actor_id: "abc".to_owned(),
        actor_name: Some("web".to_owned()),
        time: 1001,
    }));

    assert!(labels(&model(&activity, counts())).contains(&"container start: web".to_owned()));
}

#[test]
fn every_state_has_its_own_icon_so_colour_is_never_the_only_cue() {
    let icons = [
        IndicatorIcon::Connected,
        IndicatorIcon::Connecting,
        IndicatorIcon::Reconnecting,
        IndicatorIcon::Failed,
    ];

    let mut names: Vec<&str> = icons.iter().map(|icon| icon.icon_name()).collect();
    names.sort_unstable();
    names.dedup();

    assert_eq!(names.len(), icons.len(), "icon names must be distinct");
}

#[test]
fn separators_never_lead_or_trail_the_menu() {
    let model = model(&connected(), counts());

    assert!(!matches!(model.items.first(), Some(MenuItem::Separator)));
    assert!(!matches!(model.items.last(), Some(MenuItem::Separator)));
}
