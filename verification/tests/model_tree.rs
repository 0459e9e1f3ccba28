use lave_core::engine::{ContainerState, ContainerSummary, EnvironmentSummary, ImageSummary};
use lave_core::model::format::UNTAGGED;
use lave_core::model::tree::{
    ICON_DEAD, ICON_PAUSED, ICON_RUNNING, ICON_STOPPED, NodeId, TreeNode, build,
};

fn image(id: &str, tag: &str) -> ImageSummary {
    ImageSummary {
        id: format!("sha256:{id}"),
        repo_tags: if tag.is_empty() {
            vec![]
        } else {
            vec![tag.to_owned()]
        },
        ..ImageSummary::default()
    }
}

fn container(id: &str, name: &str, state: ContainerState) -> ContainerSummary {
    ContainerSummary {
        id: id.to_owned(),
        names: if name.is_empty() {
            vec![]
        } else {
            vec![name.to_owned()]
        },
        state,
        ..ContainerSummary::default()
    }
}

fn labels(node: &TreeNode) -> Vec<&str> {
    node.children
        .iter()
        .map(|child| child.label.as_str())
        .collect()
}

#[test]
fn the_root_has_exactly_the_two_nodes_the_readme_asks_for() {
    let tree = build(None, &[], &[]);

    assert_eq!(tree.id, NodeId::Root);
    assert_eq!(labels(&tree), vec!["Images", "Containers"]);
    assert_eq!(tree.children[0].id, NodeId::Images);
    assert_eq!(tree.children[1].id, NodeId::Containers);
}

#[test]
fn the_root_is_named_for_the_daemon_when_it_is_known() {
    let environment = EnvironmentSummary {
        name: "workstation".to_owned(),
        server_version: "29.6.2".to_owned(),
        ..EnvironmentSummary::default()
    };

    let tree = build(Some(&environment), &[], &[]);

    assert_eq!(tree.label, "workstation");
    assert_eq!(tree.detail.as_deref(), Some("29.6.2"));
}

#[test]
fn the_root_falls_back_to_a_generic_name_before_the_probe_returns() {
    let tree = build(None, &[], &[]);

    assert_eq!(tree.label, "Docker");
    assert_eq!(tree.detail, None);
}

#[test]
fn a_blank_daemon_name_does_not_produce_an_empty_label() {
    let environment = EnvironmentSummary {
        name: "   ".to_owned(),
        ..EnvironmentSummary::default()
    };

    assert_eq!(build(Some(&environment), &[], &[]).label, "Docker");
}

#[test]
fn images_are_listed_case_insensitively_by_tag() {
    let images = [
        image("aaa", "Zebra:latest"),
        image("bbb", "alpine:3.20"),
        image("ccc", "nginx:1.27"),
    ];

    let tree = build(None, &images, &[]);

    assert_eq!(
        labels(&tree.children[0]),
        vec!["alpine:3.20", "nginx:1.27", "Zebra:latest"]
    );
}

#[test]
fn untagged_images_appear_under_a_placeholder_and_stay_distinguishable() {
    let images = [image("aaa", ""), image("bbb", "")];

    let node = &build(None, &images, &[]).children[0];

    assert_eq!(labels(node), vec![UNTAGGED, UNTAGGED]);
    assert_eq!(node.children[0].detail.as_deref(), Some("aaa"));
    assert_ne!(node.children[0].id, node.children[1].id);
}

#[test]
fn each_node_carries_the_count_of_its_children() {
    let images = [image("aaa", "one:1"), image("bbb", "two:2")];
    let containers = [container("c1", "web", ContainerState::Exited)];

    let tree = build(None, &images, &containers);

    assert_eq!(tree.children[0].detail.as_deref(), Some("2"));
    assert_eq!(tree.children[1].detail.as_deref(), Some("1"));
}

#[test]
fn the_container_count_calls_out_running_ones() {
    let containers = [
        container("c1", "web", ContainerState::Running),
        container("c2", "db", ContainerState::Exited),
        container("c3", "cache", ContainerState::Paused),
    ];

    let tree = build(None, &[], &containers);

    assert_eq!(tree.children[1].detail.as_deref(), Some("3 (2 running)"));
}

#[test]
fn containers_show_their_state_as_text_and_as_a_distinct_icon() {
    let containers = [
        container("c1", "runner", ContainerState::Running),
        container("c2", "sleeper", ContainerState::Exited),
        container("c3", "held", ContainerState::Paused),
        container("c4", "broken", ContainerState::Dead),
    ];

    let node = &build(None, &[], &containers).children[1];
    let by_label = |label: &str| {
        node.children
            .iter()
            .find(|child| child.label == label)
            .expect("child present")
            .clone()
    };

    assert_eq!(by_label("runner").detail.as_deref(), Some("running"));
    assert_eq!(by_label("runner").icon, ICON_RUNNING);
    assert_eq!(by_label("sleeper").icon, ICON_STOPPED);
    assert_eq!(by_label("held").icon, ICON_PAUSED);
    assert_eq!(by_label("broken").icon, ICON_DEAD);
}

#[test]
fn an_unnamed_container_is_listed_by_its_short_id() {
    let containers = [container(
        "13ef39df585fa5ea8df9325dffdc7c18",
        "",
        ContainerState::Exited,
    )];

    let node = &build(None, &[], &containers).children[1];

    assert_eq!(labels(node), vec!["13ef39df585f"]);
}

#[test]
fn empty_listings_produce_empty_nodes_rather_than_missing_ones() {
    let tree = build(None, &[], &[]);

    assert!(tree.children[0].children.is_empty());
    assert!(tree.children[1].children.is_empty());
    assert_eq!(tree.children[0].detail.as_deref(), Some("0"));
}

#[test]
fn node_keys_round_trip() {
    let ids = [
        NodeId::Root,
        NodeId::Images,
        NodeId::Containers,
        NodeId::Image("sha256:abc".to_owned()),
        NodeId::Container("13ef39df".to_owned()),
    ];

    for id in ids {
        let key = id.key();
        assert_eq!(NodeId::from_key(&key), Some(id), "key was {key}");
    }
}

#[test]
fn unrecognised_keys_are_rejected_rather_than_guessed_at() {
    for key in ["", "image:", "nonsense", "volume:abc", ":"] {
        assert_eq!(NodeId::from_key(key), None, "key was {key:?}");
    }
}
