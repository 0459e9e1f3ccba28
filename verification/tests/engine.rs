use lave_core::engine::{ContainerStats, DiskCategory, DiskUsage};

fn category(size: i64, reclaimable: i64) -> DiskCategory {
    DiskCategory {
        total_count: 1,
        active_count: 1,
        size,
        reclaimable,
    }
}

#[test]
fn a_measured_sample_reports_its_share_of_the_limit() {
    let stats = ContainerStats {
        id: "web".to_owned(),
        memory_usage: 2_000_000_000,
        memory_limit: 8_000_000_000,
    };

    assert!(stats.has_memory());
    assert_eq!(stats.memory_fraction(), Some(0.25f64.to_bits()));
}

#[test]
fn an_unmeasured_sample_has_no_share_to_report() {
    let unmeasured = ContainerStats {
        id: "web".to_owned(),
        memory_usage: -1,
        memory_limit: -1,
    };
    assert!(!unmeasured.has_memory());
    assert_eq!(unmeasured.memory_fraction(), None);

    // Unconstrained containers on some daemons report usage but no limit.
    let unlimited = ContainerStats {
        memory_usage: 2_000,
        memory_limit: 0,
        ..unmeasured
    };
    assert!(unlimited.has_memory());
    assert_eq!(unlimited.memory_fraction(), None);
}

#[test]
fn disk_usage_adds_up_the_categories_the_daemon_broke_down() {
    let usage = DiskUsage {
        images: Some(category(1_000, 400)),
        containers: Some(category(30, 30)),
        volumes: None,
        build_cache: Some(category(500, 500)),
    };

    assert_eq!(usage.total_size(), Some(1_530));
    assert_eq!(usage.total_reclaimable(), Some(930));
}

#[test]
fn a_daemon_that_broke_nothing_down_yields_no_total_rather_than_zero() {
    let usage = DiskUsage::default();

    assert_eq!(
        usage.total_size(),
        None,
        "zero would be a claim we cannot make"
    );
    assert_eq!(usage.total_reclaimable(), None);
}
