use lave_core::engine::{ContainerState, ContainerStats, ContainerSummary};
use lave_core::model::metrics::StatsIndex;

fn container(id: &str, state: ContainerState) -> ContainerSummary {
    ContainerSummary {
        id: id.to_owned(),
        state,
        ..ContainerSummary::default()
    }
}

fn sample(id: &str, usage: i64) -> ContainerStats {
    ContainerStats {
        id: id.to_owned(),
        memory_usage: usage,
        memory_limit: 8_000_000_000,
    }
}

#[test]
fn a_sample_is_found_by_the_container_it_describes() {
    let mut index = StatsIndex::new();
    index.insert(sample("web", 1_000));

    assert_eq!(index.memory("web"), Some(1_000));
    assert_eq!(index.memory("db"), None);
}

#[test]
fn a_later_sample_replaces_the_one_before_it() {
    let mut index = StatsIndex::new();
    index.insert(sample("web", 1_000));
    index.insert(sample("web", 2_000));

    assert_eq!(index.len(), 1);
    assert_eq!(index.memory("web"), Some(2_000));
}

#[test]
fn a_sample_the_daemon_could_not_measure_reads_as_absent() {
    let mut index = StatsIndex::new();
    index.insert(ContainerStats {
        id: "web".to_owned(),
        memory_usage: -1,
        memory_limit: -1,
    });

    assert!(index.get("web").is_some(), "the sample itself is held");
    assert_eq!(index.memory("web"), None, "but it has no figure to give");
}

#[test]
fn the_running_total_adds_up_the_containers_that_are_executing() {
    let mut index = StatsIndex::new();
    index.insert(sample("web", 1_000));
    index.insert(sample("api", 2_500));
    // A sample left over from before this one stopped must not be counted.
    index.insert(sample("old", 9_000));

    let total = index.running_total(&[
        container("web", ContainerState::Running),
        container("api", ContainerState::Paused),
        container("old", ContainerState::Exited),
    ]);

    assert_eq!(total.bytes, 3_500);
    assert_eq!(total.measured, 2);
    assert_eq!(total.unmeasured, 0);
    assert!(!total.is_partial());
}

#[test]
fn a_running_container_with_no_sample_makes_the_total_a_floor() {
    let mut index = StatsIndex::new();
    index.insert(sample("web", 1_000));

    let total = index.running_total(&[
        container("web", ContainerState::Running),
        container("api", ContainerState::Running),
    ]);

    assert_eq!(total.bytes, 1_000);
    assert_eq!(total.unmeasured, 1);
    assert!(total.is_partial(), "one of the two was never measured");
}

#[test]
fn a_machine_with_nothing_running_has_an_empty_total_rather_than_a_zero_one() {
    let index = StatsIndex::new();
    let total = index.running_total(&[container("old", ContainerState::Exited)]);

    assert!(total.is_empty());
    assert!(!total.is_partial());
}

#[test]
fn samples_for_containers_that_have_gone_are_dropped() {
    let mut index = StatsIndex::new();
    index.insert(sample("web", 1_000));
    index.insert(sample("gone", 2_000));

    index.retain_known(&[container("web", ContainerState::Running)]);

    assert_eq!(index.len(), 1);
    assert_eq!(index.memory("gone"), None);
}
