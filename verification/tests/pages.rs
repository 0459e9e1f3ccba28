//! What the window shows, and what holds of it whatever the daemon lists.

use lave_core::endpoint::{Endpoint, EndpointSource, Resolved};
use lave_core::engine::{
    ContainerState, ContainerStats, ContainerSummary, DiskUsage, EnvironmentSummary, ImageSummary,
};
use lave_core::indicator::IndicatorIcon;
use lave_core::model::action::{
    Action, Offer, for_container, for_environment, for_image, for_selection, prunable_containers,
    prunable_images,
};
use lave_core::model::detail::{
    Context, container, containers, environment, image, images, pretty_or_raw, raw_json,
};
use lave_core::model::layout::{GUTTER, Placement, place};
use lave_core::model::metrics::StatsIndex;
use lave_core::model::relations::{LayerIndex, base_of, derived_from, same_layers_as};
use lave_core::model::table::{
    CONTAINERS, IMAGES, PROCESS_LIST, Table, containers_filtered, images_filtered, process_list,
};
use lave_core::model::tabs::{Scope, closing};
use lave_core::model::tree::{NodeId, TreeNode, build, container_key, image_key};
use lave_core::settings::{MAX_SIDEBAR_WIDTH, Settings};

const NOW: i64 = 1_782_231_445;

const STATES: [ContainerState; 9] = [
    ContainerState::Created,
    ContainerState::Running,
    ContainerState::Paused,
    ContainerState::Restarting,
    ContainerState::Exited,
    ContainerState::Removing,
    ContainerState::Dead,
    ContainerState::Stopping,
    ContainerState::Unknown,
];

fn tagged(id: &str, tag: &str) -> ImageSummary {
    ImageSummary {
        id: format!("sha256:{id}"),
        repo_tags: if tag.is_empty() {
            Vec::new()
        } else {
            vec![tag.to_owned()]
        },
        created: NOW - 86_400,
        size: 1_000,
        ..ImageSummary::default()
    }
}

fn named(name: &str, image_id: &str, state: ContainerState) -> ContainerSummary {
    ContainerSummary {
        id: format!("id-{name}"),
        names: vec![name.to_owned()],
        image_id: format!("sha256:{image_id}"),
        created: NOW - 60,
        state,
        ..ContainerSummary::default()
    }
}

fn every_state() -> Vec<ContainerSummary> {
    STATES
        .iter()
        .enumerate()
        .map(|(at, state)| named(&format!("c{at}"), "a", *state))
        .collect()
}

/// The lists that a page looks at, owned.
struct Listing {
    images: Vec<ImageSummary>,
    containers: Vec<ContainerSummary>,
    layers: LayerIndex,
    stats: StatsIndex,
    disk: DiskUsage,
}

impl Listing {
    fn new(images: Vec<ImageSummary>, containers: Vec<ContainerSummary>) -> Self {
        Self {
            images,
            containers,
            layers: LayerIndex::new(),
            stats: StatsIndex::new(),
            disk: DiskUsage::default(),
        }
    }

    fn context<'a>(&'a self, raw: Option<&'a serde_json::Value>) -> Context<'a> {
        Context {
            images: &self.images,
            containers: &self.containers,
            layers: &self.layers,
            stats: &self.stats,
            disk: &self.disk,
            raw,
            now: NOW,
            offset: 0,
            show_stopped: true,
            show_untagged: true,
        }
    }
}

fn resolved() -> Resolved {
    Resolved {
        endpoint: Endpoint::Unix("/var/run/docker.sock".to_owned()),
        source: EndpointSource::RootfulSocket,
    }
}

fn keys(table: &Table) -> Vec<NodeId> {
    table.rows.iter().map(|row| row.key.clone()).collect()
}

fn children(node: &TreeNode) -> Vec<NodeId> {
    node.children.iter().map(|child| child.id.clone()).collect()
}

#[test]
fn inspect_output_is_laid_out_over_several_lines() {
    let value: serde_json::Value = serde_json::from_str(r#"{"Id":"abc","Up":[1,2]}"#).unwrap();
    assert_eq!(
        raw_json(Some(&value)).as_deref(),
        Some("{\n  \"Id\": \"abc\",\n  \"Up\": [\n    1,\n    2\n  ]\n}")
    );
    assert_eq!(raw_json(None), None);
}

#[test]
fn inspect_output_is_laid_out_however_deep_it_is() {
    let mut value = serde_json::Value::from(1);
    for _ in 0..200 {
        value = serde_json::Value::Array(vec![value]);
    }
    let shown = raw_json(Some(&value)).unwrap();
    let lines: Vec<&str> = shown.lines().collect();
    assert_eq!(lines.len(), 401);
    for depth in 0..200 {
        assert_eq!(lines[depth], format!("{}[", "  ".repeat(depth)));
        assert_eq!(lines[400 - depth], format!("{}]", "  ".repeat(depth)));
    }
    assert_eq!(lines[200], format!("{}1", "  ".repeat(200)));
}

#[test]
fn inspect_output_keeps_every_digit_of_a_number() {
    for number in [0.1 + 0.2, 1e-7 / 3.0, 5e-324, f64::MAX, 2.0 / 3.0 * 1e23] {
        let value = serde_json::Value::from(number);
        let shown = raw_json(Some(&value)).unwrap();
        assert_eq!(shown.parse::<f64>().unwrap().to_bits(), number.to_bits());
    }
}

#[test]
fn inspect_output_that_cannot_be_laid_out_is_shown_on_one_line() {
    assert_eq!(pretty_or_raw("raw", None), "raw");
    assert_eq!(pretty_or_raw("raw", Some("laid out".to_owned())), "laid out");
}

#[test]
fn listing_pages_lead_with_a_table_and_object_pages_have_none() {
    let listing = Listing::new(vec![tagged("a", "a:1")], every_state());
    let cx = listing.context(None);
    let summary = EnvironmentSummary::default();

    for page in [
        environment(&summary, &resolved(), &cx),
        images(&cx),
        containers(&cx),
    ] {
        assert!(page.table.is_some() && page.table_first && page.table_filter.is_some());
        assert!(!page.shows_action_bar());
    }
    for page in [
        image(&listing.images[0], &cx),
        container(&listing.containers[1], &cx),
    ] {
        assert!(page.table.is_none() && !page.table_first && page.table_filter.is_none());
        assert!(page.shows_action_bar());
    }
}

#[test]
fn the_summary_counts_every_container_once() {
    let listing = Listing::new(Vec::new(), every_state());
    let page = containers(&listing.context(None));
    let count = |label: &str| -> usize {
        page.value("Summary", label)
            .and_then(|value| value.parse().ok())
            .expect("a count")
    };

    assert_eq!(count("Containers"), 9);
    assert_eq!(
        count("Running") + count("Paused") + count("Exited") + count("Created") + count("Other"),
        9
    );
    assert_eq!(count("Other"), 5);
}

#[test]
fn every_warning_of_the_daemon_is_on_the_page() {
    let listing = Listing::new(Vec::new(), Vec::new());
    let summary = EnvironmentSummary {
        warnings: vec!["one".to_owned(), "two".to_owned()],
        ..EnvironmentSummary::default()
    };
    let page = environment(&summary, &resolved(), &listing.context(None));

    let last = page.groups.last().expect("groups");
    assert_eq!(last.title, "Warnings");
    let shown: Vec<&str> = last.rows.iter().map(|row| row.value.as_str()).collect();
    assert_eq!(shown, vec!["one", "two"]);
}

#[test]
fn the_last_of_several_largest_images_is_named() {
    let listing = Listing::new(vec![tagged("a", "a:1"), tagged("b", "b:1")], Vec::new());
    let page = images(&listing.context(None));

    assert_eq!(page.value("Summary", "Largest"), Some("b:1 (1.0 kB)"));
}

#[test]
fn related_images_are_never_the_image_itself() {
    let mut listing = Listing::new(
        vec![tagged("a", "a:1"), tagged("b", "b:1"), tagged("c", "c:1")],
        Vec::new(),
    );
    let stack = |layers: &[&str]| layers.iter().map(|l| (*l).to_owned()).collect();
    listing.layers.insert("sha256:a", stack(&["l1"]));
    listing.layers.insert("sha256:b", stack(&["l1", "l2"]));
    listing.layers.insert("sha256:c", stack(&["l1", "l2"]));
    let page = image(&listing.images[1], &listing.context(None));

    let links: Vec<NodeId> = page
        .groups
        .iter()
        .filter(|group| group.title == "Related images")
        .flat_map(|group| group.rows.iter())
        .filter_map(|row| row.link.clone())
        .collect();
    assert_eq!(
        links,
        vec![
            NodeId::Image("sha256:a".to_owned()),
            NodeId::Image("sha256:c".to_owned()),
        ]
    );
}

#[test]
fn twins_are_mutual_and_neither_is_the_others_base() {
    let images = [tagged("a", "a:1"), tagged("b", "b:1")];
    let mut layers = LayerIndex::new();
    layers.insert("sha256:a", vec!["l1".to_owned(), "l2".to_owned()]);
    layers.insert("sha256:b", vec!["l1".to_owned(), "l2".to_owned()]);

    for (one, other) in [(0, 1), (1, 0)] {
        let twins = same_layers_as(&images[one], &images, &layers);
        assert_eq!(twins.len(), 1);
        assert_eq!(twins[0].id, images[other].id);
        assert!(base_of(&images[one], &images, &layers).is_none());
        assert!(derived_from(&images[one], &images, &layers).is_empty());
    }
}

#[test]
fn the_sidebar_does_not_depend_on_the_order_of_the_listing() {
    let images = vec![
        tagged("c", "b:1"),
        tagged("a", "B:1"),
        tagged("d", ""),
        tagged("b", "a:1"),
        tagged("e", ""),
    ];
    let containers = every_state();
    let mut images_backwards = images.clone();
    images_backwards.reverse();
    let mut containers_backwards = containers.clone();
    containers_backwards.reverse();

    let tree = build(None, &images, &containers);
    assert_eq!(
        tree,
        build(None, &images_backwards, &containers_backwards)
    );
    assert_eq!(children(&tree), vec![NodeId::Images, NodeId::Containers]);
    assert_eq!(tree.children[0].children.len(), images.len());
    assert_eq!(tree.children[1].children.len(), containers.len());
}

#[test]
fn equal_tags_are_told_apart_by_their_ids() {
    let key = image_key(&tagged("a", "X:1"), Some("x:1".to_owned()));
    assert_eq!((key.major, key.first.as_str()), (0, "x:1"));
    assert_eq!(key.second, "image:sha256:a");
    let untagged = image_key(&tagged("a", ""), None);
    assert_eq!(untagged.major, 1 + i128::from(i64::MAX) - i128::from(NOW - 86_400));
    let key = container_key(
        &named("Web", "a", ContainerState::Running),
        "web".to_owned(),
    );
    assert_eq!((key.first.as_str(), key.second.as_str()), ("web", "container:id-Web"));
}

#[test]
fn full_tables_follow_the_sidebar_and_fill_every_cell() {
    let listed = vec![tagged("c", "b:1"), tagged("a", "a:1"), tagged("d", "")];
    let containers = every_state();
    let tree = build(None, &listed, &containers);

    let by_image = images_filtered(&listed, &containers, NOW, true);
    let by_container = containers_filtered(&containers, NOW, true);
    let processes = process_list(&containers, NOW, true);
    assert_eq!(keys(&by_image), children(&tree.children[0]));
    assert_eq!(keys(&by_container), children(&tree.children[1]));
    assert_eq!(keys(&processes), children(&tree.children[1]));
    for table in [&by_image, &by_container, &processes] {
        let sort = table.default_sort.as_ref().expect("a sort");
        assert!(table.column_titles().contains(&sort.column));
        for row in &table.rows {
            assert_eq!(row.cells.len(), table.columns.len());
        }
    }
    assert_eq!([by_image.id, by_container.id, processes.id], [IMAGES, CONTAINERS, PROCESS_LIST]);
}

#[test]
fn a_narrowed_process_list_is_what_runs() {
    let containers = every_state();
    let table = process_list(&containers, NOW, false);
    let running: Vec<&ContainerSummary> = containers
        .iter()
        .filter(|container| container.state.is_active())
        .collect();

    assert_eq!(table.rows.len(), running.len());
    for container in running {
        assert!(keys(&table).contains(&NodeId::Container(container.id.clone())));
    }
}

#[test]
fn the_latest_sample_of_a_container_is_the_one_that_counts() {
    let sample = |usage: i64| ContainerStats {
        id: "id-c1".to_owned(),
        memory_usage: usage,
        memory_limit: 100,
    };
    let mut stats = StatsIndex::new();
    stats.insert(sample(10));
    stats.insert(sample(20));

    assert_eq!(stats.len(), 1);
    assert_eq!(stats.memory("id-c1"), Some(20));
    assert_eq!(stats.memory("id-c2"), None);
    let total = stats.running_total(&every_state());
    assert_eq!((total.bytes, total.measured), (20, 1));
    assert_eq!(total.measured + total.unmeasured, 3);
}

#[test]
fn nothing_destructive_is_offered_without_a_question() {
    let images = vec![tagged("a", "a:1"), tagged("b", "")];
    let containers = every_state();
    let mut offers: Vec<Offer> = for_environment(&containers, &images);
    for container in &containers {
        offers.extend(for_container(container, &images));
    }
    for image in &images {
        offers.extend(for_image(image, &containers));
    }

    for offer in &offers {
        assert_eq!(offer.confirmation.is_some(), offer.is_destructive(), "{}", offer.label);
    }
    assert!(offers.iter().any(Offer::is_destructive));
}

#[test]
fn prunes_list_exactly_what_they_would_remove() {
    let images = vec![tagged("a", "a:1"), tagged("b", ""), tagged("c", "<none>:<none>")];
    let containers = every_state();

    let stopped = prunable_containers(&containers);
    assert_eq!(stopped.len(), 6);
    assert!(stopped.iter().all(|container| !container.state.is_active()));
    let dangling = prunable_images(&images);
    let ids: Vec<&str> = dangling.iter().map(|image| image.id.as_str()).collect();
    assert_eq!(ids, vec!["sha256:b", "sha256:c"]);
    assert!(for_environment(&[], &images[..1]).is_empty());
}

#[test]
fn a_selection_is_acted_on_one_container_at_a_time() {
    let images = vec![tagged("a", "a:1")];
    let containers = every_state();
    let selected: Vec<&ContainerSummary> = containers.iter().collect();
    let offers = for_selection(&selected, &[], &containers, &images);

    for offer in &offers {
        assert!(!offer.targets.is_empty());
        assert_eq!(offer.confirmation.is_some(), offer.is_destructive());
    }
    let removal = offers.last().expect("a removal");
    assert!(removal.is_destructive(), "removals come last");
    assert_eq!(removal.targets.len(), 8, "one is already being removed");
    for target in &removal.targets {
        let container = containers
            .iter()
            .find(|container| container.id == target.id)
            .expect("selected");
        assert_eq!(
            target.action,
            Action::RemoveContainer {
                force: container.state.is_active()
            }
        );
    }
}

#[test]
fn groups_never_overlap_and_never_leave_their_columns() {
    let heights = [120, 40, 0, 300, -5, 77, 18, 18, 500];
    for columns in 1..4 {
        let (placements, total) = place(&heights, columns);
        assert_eq!(placements.len(), heights.len());
        for (at, one) in placements.iter().enumerate() {
            assert!(one.column < columns);
            assert!(one.top >= 0 && one.top + heights[at].max(0) <= total);
            for (later, other) in placements.iter().enumerate().skip(at + 1) {
                let apart: &Placement = other;
                assert!(
                    one.column != apart.column || one.top + heights[at].max(0) + GUTTER <= apart.top,
                    "{at} and {later} in {columns}"
                );
            }
        }
    }
}

#[test]
fn pinned_tabs_stay_whatever_is_closed() {
    for tabs in 0..6 {
        for subject in 0..7 {
            for pinned in 0..7 {
                for scope in [Scope::All, Scope::ToLeft, Scope::ToRight] {
                    let closed = closing(scope, tabs, subject, pinned);
                    assert!(closed.iter().all(|tab| *tab >= pinned && *tab < tabs));
                }
                let mut sides = closing(Scope::ToLeft, tabs, subject, pinned);
                if subject >= pinned && subject < tabs {
                    sides.push(subject);
                }
                sides.extend(closing(Scope::ToRight, tabs, subject, pinned));
                if subject < tabs {
                    assert_eq!(sides, closing(Scope::All, tabs, subject, pinned));
                }
            }
        }
    }
}

#[test]
fn clamping_settings_twice_changes_nothing_more() {
    let mut settings = Settings {
        sidebar_width: 10_000,
        ..Settings::default()
    };
    settings.set_column_width("images", "Size", 100);
    let once = settings.clamped();

    assert_eq!(once.sidebar_width, MAX_SIDEBAR_WIDTH);
    assert_eq!(once.clone().clamped(), once);
    assert_eq!(once.column_width("images", "Size"), Some(100));
}

#[test]
fn every_state_of_the_indicator_has_its_own_icon() {
    let icons = [
        IndicatorIcon::Connected,
        IndicatorIcon::Connecting,
        IndicatorIcon::Reconnecting,
        IndicatorIcon::Failed,
    ];
    for (at, icon) in icons.iter().enumerate() {
        for other in &icons[at + 1..] {
            assert_ne!(icon.icon_name(), other.icon_name());
        }
    }
}

#[test]
fn node_keys_name_their_nodes() {
    for node in [
        NodeId::Root,
        NodeId::Images,
        NodeId::Containers,
        NodeId::Image("sha256:a:b".to_owned()),
        NodeId::Container("abc".to_owned()),
    ] {
        assert_eq!(NodeId::from_key(&node.key()), Some(node));
    }
    assert_eq!(NodeId::from_key("image:"), None);
}

#[test]
fn hiding_the_untagged_images_changes_neither_the_summary_nor_the_toggle() {
    let listing = Listing::new(
        vec![tagged("a", "a:1"), tagged("b", ""), tagged("c", "<none>:<none>")],
        Vec::new(),
    );
    let all = images(&listing.context(None));
    let mut narrow = listing.context(None);
    narrow.show_untagged = false;
    let narrow = images(&narrow);

    assert_eq!(all.groups, narrow.groups);
    let all = all.table_filter.unwrap();
    let narrow = narrow.table_filter.unwrap();
    assert_eq!(all.kind, narrow.kind);
    assert_eq!(all.all_label, "All (3)");
    assert_eq!(narrow.all_label, "All (3)");
    assert_eq!(all.narrow_label, "Tagged (1)");
    assert_eq!(narrow.narrow_label, "Tagged (1)");
    assert!(all.showing_all && !narrow.showing_all);
}

#[test]
fn narrowing_the_process_list_only_leaves_rows_out() {
    let containers = every_state();
    let all = process_list(&containers, NOW, true);
    let run = process_list(&containers, NOW, false);

    let mut listed = keys(&all);
    let mut given: Vec<NodeId> =
        containers.iter().map(|c| NodeId::Container(c.id.clone())).collect();
    listed.sort_by_key(NodeId::key);
    given.sort_by_key(NodeId::key);
    assert_eq!(listed, given);
    let active: Vec<NodeId> = containers
        .iter()
        .filter(|c| c.state.is_active())
        .map(|c| NodeId::Container(c.id.clone()))
        .collect();
    let expected: Vec<_> = all.rows.iter().filter(|row| active.contains(&row.key)).collect();
    assert_eq!(run.rows.iter().collect::<Vec<_>>(), expected);
    assert_eq!(run.columns, all.columns);
}

#[test]
fn tables_have_an_age_for_every_instant() {
    let mut container = named("web", "a", ContainerState::Running);
    container.created = 1;
    let table = process_list(&[container], i64::MIN, true);
    assert_eq!(table.cell(0, "Created"), Some("in the future"));
}

#[test]
fn the_greater_id_decides_between_bases_of_equal_depth() {
    let images = [tagged("a", "a:1"), tagged("c", "c:1"), tagged("b", "b:1"), tagged("z", "z:1")];
    let mut layers = LayerIndex::new();
    for image in &images[..3] {
        layers.insert(&image.id, vec!["l1".to_owned()]);
    }
    layers.insert(&images[3].id, vec!["l1".to_owned(), "l2".to_owned()]);
    let base = base_of(&images[3], &images, &layers).unwrap();
    assert_eq!(base.id, "sha256:c");
}

#[test]
fn a_text_that_names_a_node_is_its_key() {
    for text in ["root", "images", "containers", "image:a:b", "container:x", "image:", "x:y", ""] {
        if let Some(node) = NodeId::from_key(text) {
            assert_eq!(node.key(), text);
        }
    }
    assert_eq!(NodeId::from_key("image:"), None);
}

#[test]
fn a_copy_of_the_sidebar_is_the_same_sidebar() {
    let tree = build(None, &[tagged("a", "a:1")], &every_state());
    assert_eq!(tree.clone(), tree);
}
