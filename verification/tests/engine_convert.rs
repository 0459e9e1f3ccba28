use lave_core::engine::{ContainerState, EngineEvent, ImageSummary, MountSummary, PortMapping};
use lave_core::engine::convert::{
    WireActor, WireEvent, WireImage, WireInfo, WireMount, WirePort, WireState, WireVersion,
    environment_summary,
};

#[test]
fn rootless_is_detected_from_the_security_options() {
    let info = WireInfo {
        security_options: Some(vec![
            "name=seccomp,profile=builtin".to_owned(),
            "name=rootless".to_owned(),
        ]),
        ..WireInfo::default()
    };

    assert!(environment_summary(WireVersion::default(), info).rootless);
}

#[test]
fn the_native_storage_driver_earns_a_warning() {
    let info = WireInfo {
        driver: Some("native".to_owned()),
        ..WireInfo::default()
    };

    let environment = environment_summary(WireVersion::default(), info);

    assert!(
        environment
            .warnings
            .iter()
            .any(|warning| warning.contains("native storage driver")),
        "expected a native-driver warning, got {:?}",
        environment.warnings
    );
}

#[test]
fn daemon_warnings_are_preserved_alongside_our_own() {
    let info = WireInfo {
        driver: Some("native".to_owned()),
        warnings: Some(vec!["No swap limit support".to_owned()]),
        ..WireInfo::default()
    };

    let warnings = environment_summary(WireVersion::default(), info).warnings;

    assert_eq!(warnings.len(), 2);
    assert_eq!(warnings[0], "No swap limit support");
}

#[test]
fn absent_fields_become_unknown_rather_than_empty() {
    let environment = environment_summary(WireVersion::default(), WireInfo::default());

    assert_eq!(environment.cgroup_version, "unknown");
    assert_eq!(environment.cgroup_driver, "unknown");
    assert_eq!(environment.min_api_version, None);
}

#[test]
fn ports_default_to_tcp_when_the_daemon_omits_the_protocol() {
    let port = PortMapping::from_wire(WirePort {
        ip: Some(String::new()),
        private_port: 80,
        public_port: Some(8080),
        protocol: None,
    });

    assert_eq!(port.protocol, "tcp");
    assert_eq!(port.ip, None);
    assert_eq!(port.public_port, Some(8080));
}

#[test]
fn a_volume_mount_falls_back_to_its_name_when_it_has_no_source() {
    let mount = MountSummary::from_wire(WireMount {
        name: Some("app-data".to_owned()),
        source: Some(String::new()),
        destination: Some("/var/lib/app".to_owned()),
        rw: Some(true),
        ..WireMount::default()
    });

    assert_eq!(mount.source, "app-data");
    assert!(mount.read_write);
}

#[test]
fn events_carry_the_actor_name_when_the_daemon_supplies_one() {
    let wire = WireEvent {
        kind: Some("container".to_owned()),
        action: Some("start".to_owned()),
        actor: Some(WireActor {
            id: Some("abc123".to_owned()),
            attributes: Some(vec![
                ("name".to_owned(), "web".to_owned()),
                ("image".to_owned(), "nginx".to_owned()),
            ]),
        }),
        time: Some(1_782_058_645),
    };

    let event = EngineEvent::from_wire(wire);

    assert_eq!(event.kind, "container");
    assert_eq!(event.action, "start");
    assert_eq!(event.actor_id, "abc123");
    assert_eq!(event.actor_name.as_deref(), Some("web"));
    assert!(event.affects_listing());
}

#[test]
fn events_without_a_name_attribute_do_not_invent_one() {
    let wire = WireEvent {
        kind: Some("network".to_owned()),
        action: Some("connect".to_owned()),
        actor: Some(WireActor {
            id: Some("net1".to_owned()),
            attributes: Some(Vec::new()),
        }),
        time: Some(1),
    };

    let event = EngineEvent::from_wire(wire);

    assert_eq!(event.actor_name, None);
    assert!(
        !event.affects_listing(),
        "network events do not change listings"
    );
}

#[test]
fn labels_are_ordered_so_the_detail_pane_is_stable() {
    let wire = WireImage {
        labels: vec![
            ("z.last".to_owned(), "1".to_owned()),
            ("a.first".to_owned(), "2".to_owned()),
        ],
        ..WireImage::default()
    };

    let image = ImageSummary::from_wire(wire);
    let keys: Vec<&str> = (0..image.labels.len())
        .map(|at| image.labels.key_at(at))
        .collect();

    assert_eq!(keys, vec!["a.first", "z.last"]);
}

#[test]
fn every_container_state_maps_to_a_distinct_label() {
    let states = [
        (WireState::Created, "created"),
        (WireState::Running, "running"),
        (WireState::Paused, "paused"),
        (WireState::Restarting, "restarting"),
        (WireState::Exited, "exited"),
        (WireState::Removing, "removing"),
        (WireState::Dead, "dead"),
        (WireState::Stopping, "stopping"),
        (WireState::Empty, "unknown"),
    ];

    for (wire, expected) in states {
        assert_eq!(ContainerState::from_wire(wire).label(), expected);
    }
}

#[test]
fn only_executing_states_count_as_active() {
    assert!(ContainerState::Running.is_active());
    assert!(ContainerState::Restarting.is_active());
    assert!(ContainerState::Paused.is_active());
    assert!(!ContainerState::Exited.is_active());
    assert!(!ContainerState::Created.is_active());
    assert!(!ContainerState::Dead.is_active());
}
