use lave_core::endpoint::{Endpoint, EndpointSource, Resolved};
use lave_core::engine::{
    ContainerState, ContainerSummary, DiskCategory, DiskUsage, EnvironmentSummary, ImageSummary,
    MountSummary, PortMapping,
};
use lave_core::model::detail::{
    Context, FilterKind, container, containers, environment, image, images,
};
use lave_core::model::metrics::StatsIndex;
use lave_core::model::relations::LayerIndex;
use lave_core::model::tree::NodeId;
use lave_core::ordered::TextMap;
use lave_core::settings::Settings;

const NOW: i64 = 1_782_231_445;

fn utc() -> i32 {
    0
}

/// Labels with the given entries.
fn labels<const N: usize>(entries: [(String, String); N]) -> TextMap<String> {
    let mut labels = TextMap::new();
    for (key, value) in entries {
        labels.insert(key, value);
    }
    labels
}

fn resolved() -> Resolved {
    Resolved {
        endpoint: Endpoint::Unix("/var/run/docker.sock".to_owned()),
        source: EndpointSource::RootfulSocket,
    }
}

/// Owns the slices a [`Context`] borrows, so tests can build one in a line.
struct World {
    images: Vec<ImageSummary>,
    containers: Vec<ContainerSummary>,
    layers: LayerIndex,
    stats: StatsIndex,
    disk: DiskUsage,
    raw: Option<serde_json::Value>,
    show_stopped: bool,
    show_untagged: bool,
}

impl Default for World {
    fn default() -> Self {
        Self {
            images: Vec::new(),
            containers: Vec::new(),
            layers: LayerIndex::new(),
            stats: StatsIndex::new(),
            disk: DiskUsage::default(),
            raw: None,
            // Matches Settings::default, so tests exercise what a fresh install does.
            show_stopped: true,
            show_untagged: true,
        }
    }
}

impl World {
    fn showing_running_only(mut self) -> Self {
        self.show_stopped = false;
        self
    }

    fn showing_tagged_only(mut self) -> Self {
        self.show_untagged = false;
        self
    }

    fn with_images(mut self, images: Vec<ImageSummary>) -> Self {
        self.images = images;
        self
    }

    fn with_containers(mut self, containers: Vec<ContainerSummary>) -> Self {
        self.containers = containers;
        self
    }

    fn with_layers(mut self, image_id: &str, layers: &[&str]) -> Self {
        self.layers.insert(
            image_id,
            layers.iter().map(|layer| (*layer).to_owned()).collect(),
        );
        self
    }

    fn with_stats(mut self, id: &str, usage: i64) -> Self {
        self.stats.insert(lave_core::engine::ContainerStats {
            id: id.to_owned(),
            memory_usage: usage,
            memory_limit: 8_000_000_000,
        });
        self
    }

    fn with_disk(mut self, disk: DiskUsage) -> Self {
        self.disk = disk;
        self
    }

    fn with_raw(mut self, raw: serde_json::Value) -> Self {
        self.raw = Some(raw);
        self
    }

    fn context(&self) -> Context<'_> {
        Context {
            images: &self.images,
            containers: &self.containers,
            layers: &self.layers,
            stats: &self.stats,
            disk: &self.disk,
            raw: self.raw.as_ref(),
            now: NOW,
            offset: utc(),
            show_stopped: self.show_stopped,
            show_untagged: self.show_untagged,
        }
    }
}

fn environment_summary() -> EnvironmentSummary {
    EnvironmentSummary {
        name: "workstation".to_owned(),
        server_version: "29.6.2".to_owned(),
        api_version: "1.55".to_owned(),
        min_api_version: Some("1.24".to_owned()),
        os_type: "linux".to_owned(),
        architecture: "amd64".to_owned(),
        operating_system: "Debian GNU/Linux 13 (trixie)".to_owned(),
        kernel_version: "6.12.90".to_owned(),
        storage_driver: "overlayfs".to_owned(),
        logging_driver: "json-file".to_owned(),
        cgroup_version: "2".to_owned(),
        cgroup_driver: "systemd".to_owned(),
        rootless: false,
        cpus: 32,
        memory_total: 64_960_110_592,
        docker_root_dir: "/var/lib/docker".to_owned(),
        containers_total: 5,
        containers_running: 1,
        containers_paused: 0,
        containers_stopped: 4,
        images: 16,
        security_options: vec!["name=seccomp,profile=builtin".to_owned()],
        warnings: vec![],
    }
}

fn sample_image() -> ImageSummary {
    ImageSummary {
        id: "sha256:dff9997d956e5b7117ff96819a213cc4f80754c8".to_owned(),
        repo_tags: vec!["pub-sub-tui:local".to_owned()],
        repo_digests: vec!["pub-sub-tui@sha256:dff9997d".to_owned()],
        created: 1_782_058_645,
        size: 164_231_172,
        shared_size: 1000,
        containers: 2,
        labels: labels([("maintainer".to_owned(), "dave".to_owned())]),
    }
}

fn sample_container() -> ContainerSummary {
    ContainerSummary {
        id: "13ef39df585fa5ea8df9325dffdc7c18".to_owned(),
        names: vec!["web".to_owned()],
        image: "nginx:1.27".to_owned(),
        image_id: "sha256:abcdef0123456789".to_owned(),
        command: "nginx -g daemon off;".to_owned(),
        created: 1_782_058_645,
        state: ContainerState::Running,
        status: "Up 2 hours".to_owned(),
        ports: vec![PortMapping {
            ip: Some("0.0.0.0".to_owned()),
            private_port: 80,
            public_port: Some(8080),
            protocol: "tcp".to_owned(),
        }],
        mounts: vec![MountSummary {
            kind: "bind".to_owned(),
            source: "/srv/www".to_owned(),
            destination: "/usr/share/nginx/html".to_owned(),
            read_write: false,
        }],
        networks: vec!["bridge".to_owned()],
        labels: labels([("com.docker.compose.project".to_owned(), "site".to_owned())]),
    }
}

fn named_image(id: &str, tag: &str) -> ImageSummary {
    ImageSummary {
        id: format!("sha256:{id}"),
        repo_tags: if tag.is_empty() {
            vec![]
        } else {
            vec![tag.to_owned()]
        },
        ..ImageSummary::default()
    }
}

fn named_container(name: &str, reference: &str, image_id: &str) -> ContainerSummary {
    ContainerSummary {
        id: format!("id-{name}"),
        names: vec![name.to_owned()],
        image: reference.to_owned(),
        image_id: format!("sha256:{image_id}"),
        state: ContainerState::Running,
        ..ContainerSummary::default()
    }
}

#[test]
fn the_environment_page_says_where_it_connected_and_why() {
    let page = environment(
        &environment_summary(),
        &resolved(),
        &World::default().context(),
    );

    assert_eq!(
        page.value("Connection", "Endpoint"),
        Some("unix:///var/run/docker.sock")
    );
    assert_eq!(
        page.value("Connection", "Selected by"),
        Some("rootful socket")
    );
    assert!(
        page.subtitle
            .as_deref()
            .expect("subtitle")
            .contains("/var/run/docker.sock")
    );
}

#[test]
fn the_environment_page_reports_the_capability_probe() {
    let page = environment(
        &environment_summary(),
        &resolved(),
        &World::default().context(),
    );

    assert_eq!(page.value("Connection", "API version"), Some("1.55"));
    assert_eq!(page.value("Connection", "Rootless"), Some("no"));
    assert_eq!(page.value("Runtime", "Storage driver"), Some("overlayfs"));
    assert_eq!(page.value("Runtime", "cgroup version"), Some("2"));
    assert_eq!(page.value("Host", "Platform"), Some("linux/amd64"));
    assert_eq!(page.value("Host", "Memory"), Some("65.0 GB"));
    assert_eq!(page.value("Contents", "Images"), Some("16"));
}

#[test]
fn a_clean_environment_has_no_warnings_group() {
    let page = environment(
        &environment_summary(),
        &resolved(),
        &World::default().context(),
    );

    assert!(!page.group_titles().contains(&"Warnings"));
}

#[test]
fn warnings_get_their_own_group_when_the_daemon_reports_any() {
    let mut summary = environment_summary();
    summary.warnings = vec!["No swap limit support".to_owned()];

    let page = environment(&summary, &resolved(), &World::default().context());

    assert!(page.group_titles().contains(&"Warnings"));
    assert_eq!(
        page.value("Warnings", "Warning"),
        Some("No swap limit support")
    );
}

#[test]
fn a_rootless_daemon_is_stated_plainly() {
    let mut summary = environment_summary();
    summary.rootless = true;

    assert_eq!(
        environment(&summary, &resolved(), &World::default().context())
            .value("Connection", "Rootless"),
        Some("yes")
    );
}

#[test]
fn missing_environment_fields_read_as_unknown() {
    let page = environment(
        &EnvironmentSummary::default(),
        &resolved(),
        &World::default().context(),
    );

    assert_eq!(page.value("Connection", "Server version"), Some("unknown"));
    assert_eq!(
        page.value("Connection", "Minimum API version"),
        Some("unknown")
    );
    assert_eq!(page.title, "Docker");
}

#[test]
fn the_images_page_summarises_the_collection() {
    let mut small = sample_image();
    small.id = "sha256:small".to_owned();
    small.size = 1000;
    small.repo_tags = vec!["small:1".to_owned()];

    let world = World::default()
        .with_images(vec![sample_image(), small])
        .with_containers(vec![named_container(
            "web",
            "pub-sub-tui:local",
            "dff9997d956e5b7117ff96819a213cc4f80754c8",
        )]);
    let page = images(&world.context());

    assert_eq!(page.value("Summary", "Images"), Some("2"));
    assert_eq!(page.value("Summary", "Combined size"), Some("164.2 MB"));
    assert_eq!(
        page.value("Summary", "Largest"),
        Some("pub-sub-tui:local (164.2 MB)")
    );
    assert_eq!(page.value("Summary", "Used by containers"), Some("1"));
}

#[test]
fn the_images_page_counts_untagged_images() {
    let mut untagged = sample_image();
    untagged.id = "sha256:untagged".to_owned();
    untagged.repo_tags = vec![];
    let mut placeholder = sample_image();
    placeholder.id = "sha256:placeholder".to_owned();
    placeholder.repo_tags = vec![lave_core::model::format::UNTAGGED.to_owned()];

    let world = World::default().with_images(vec![sample_image(), untagged, placeholder]);

    assert_eq!(
        images(&world.context()).value("Summary", "Untagged"),
        Some("2")
    );
}

#[test]
fn an_empty_images_page_is_still_coherent() {
    let page = images(&World::default().context());

    assert_eq!(page.value("Summary", "Images"), Some("0"));
    assert_eq!(page.value("Summary", "Combined size"), Some("0 B"));
    assert_eq!(page.value("Summary", "Largest"), Some("none"));
}

#[test]
fn the_environment_page_leads_with_the_container_table() {
    let world = World::default().with_containers(vec![sample_container()]);

    let page = environment(&environment_summary(), &resolved(), &world.context());
    let table = page.table.expect("the environment page has a table");

    assert!(page.table_first, "the containers come before the metadata");
    assert_eq!(
        table.column_titles(),
        vec![
            "Container ID",
            "Image",
            "Command",
            "Created",
            "Status",
            "Ports",
            "Names"
        ]
    );
    assert_eq!(table.cell(0, "Names"), Some("web"));
}

#[test]
fn the_environment_table_offers_a_filter_labelled_with_both_counts() {
    let mut exited = sample_container();
    exited.id = "exited".to_owned();
    exited.state = ContainerState::Exited;
    let world = World::default().with_containers(vec![sample_container(), exited]);

    let filter = environment(&environment_summary(), &resolved(), &world.context())
        .table_filter
        .expect("the filter toggle is offered");

    assert!(filter.showing_all);
    assert_eq!(filter.narrow_label, "Running (1)");
    assert_eq!(filter.all_label, "All (2)");
    // One running container, so the table takes the floor rather than one row.
    assert_eq!(filter.visible_rows, lave_core::model::table::MIN_VISIBLE_ROWS);
}

#[test]
fn the_table_is_sized_by_the_running_containers_not_by_the_whole_list() {
    let containers: Vec<ContainerSummary> = (0..30)
        .map(|index| {
            let mut container = sample_container();
            container.id = format!("c{index}");
            container.names = vec![format!("c{index}")];
            // A third of them running, the rest stopped.
            container.state = if index % 3 == 0 {
                ContainerState::Running
            } else {
                ContainerState::Exited
            };
            container
        })
        .collect();

    let world = World::default().with_containers(containers);
    let filter = environment(&environment_summary(), &resolved(), &world.context())
        .table_filter
        .expect("the filter toggle is offered");

    assert_eq!(filter.narrow_label, "Running (10)");
    assert_eq!(filter.all_label, "All (30)");
    assert_eq!(filter.visible_rows, 10, "sized to the running ones only");
}

#[test]
fn the_environment_table_honours_the_running_only_choice() {
    let mut exited = sample_container();
    exited.id = "exited".to_owned();
    exited.names = vec!["sleeper".to_owned()];
    exited.state = ContainerState::Exited;
    let containers = vec![sample_container(), exited];

    let all = World::default().with_containers(containers.clone());
    let all_page = environment(&environment_summary(), &resolved(), &all.context());
    assert_eq!(all_page.table.expect("table").rows.len(), 2);

    let running = World::default()
        .with_containers(containers)
        .showing_running_only();
    let running_page = environment(&environment_summary(), &resolved(), &running.context());
    let table = running_page.table.expect("table");

    assert_eq!(table.rows.len(), 1);
    assert_eq!(table.cell(0, "Names"), Some("web"));
    assert!(
        !running_page
            .table_filter
            .expect("the toggle is still offered")
            .showing_all
    );
}

#[test]
fn a_page_listing_one_object_carries_no_filter_toggle() {
    let world = World::default()
        .with_images(vec![sample_image()])
        .with_containers(vec![sample_container()]);
    let cx = world.context();

    assert!(image(&sample_image(), &cx).table_filter.is_none());
    assert!(container(&sample_container(), &cx).table_filter.is_none());
}

#[test]
fn every_listing_page_leads_with_its_table() {
    // The objects are what these pages are for; the summary is reference material
    // below them, and 300 pixels of it before the first row is not a summary.
    let world = World::default().with_containers(vec![sample_container()]);
    let cx = world.context();

    assert!(images(&cx).table_first);
    assert!(containers(&cx).table_first);
    assert_eq!(images(&cx).group_titles(), vec!["Summary"]);
    assert_eq!(containers(&cx).group_titles(), vec!["Summary"]);
}

#[test]
fn the_containers_page_hides_the_stopped_ones_on_request() {
    let mut exited = sample_container();
    exited.id = "exited".to_owned();
    exited.names = vec!["sleeper".to_owned()];
    exited.state = ContainerState::Exited;
    let listing = vec![sample_container(), exited];

    let all = World::default().with_containers(listing.clone());
    assert_eq!(
        containers(&all.context()).table.expect("table").rows.len(),
        2
    );

    let running = World::default()
        .with_containers(listing)
        .showing_running_only();
    let page = containers(&running.context());
    let table = page.table.expect("table");

    assert_eq!(table.rows.len(), 1);
    assert_eq!(table.cell(0, "Container"), Some("web"));

    let filter = page.table_filter.expect("the toggle is still offered");
    assert!(!filter.showing_all);
    assert_eq!(filter.kind, FilterKind::StoppedContainers);
    assert_eq!(filter.narrow_label, "Running (1)");
    assert_eq!(filter.all_label, "All (2)");
}

#[test]
fn the_containers_page_asks_the_same_question_as_the_environment_page() {
    // One preference drives both, so the toggles cannot disagree about what is showing.
    let world = World::default()
        .with_containers(vec![sample_container()])
        .showing_running_only();
    let cx = world.context();

    let overview = containers(&cx).table_filter.expect("filter");
    let environment = environment(&environment_summary(), &resolved(), &cx)
        .table_filter
        .expect("filter");

    assert_eq!(overview.kind, environment.kind);
    assert_eq!(overview.showing_all, environment.showing_all);
}

#[test]
fn the_images_page_hides_the_untagged_ones_on_request() {
    let mut untagged = sample_image();
    untagged.id = "sha256:loose".to_owned();
    untagged.repo_tags = Vec::new();
    let listing = vec![sample_image(), untagged];

    let all = World::default().with_images(listing.clone());
    assert_eq!(images(&all.context()).table.expect("table").rows.len(), 2);

    let tagged = World::default().with_images(listing).showing_tagged_only();
    let page = images(&tagged.context());
    let table = page.table.expect("table");

    assert_eq!(table.rows.len(), 1);
    assert_eq!(table.cell(0, "Image"), Some("pub-sub-tui:local"));

    let filter = page.table_filter.expect("the toggle is offered");
    assert!(!filter.showing_all);
    assert_eq!(filter.kind, FilterKind::UntaggedImages);
    assert_eq!(filter.narrow_label, "Tagged (1)");
    assert_eq!(filter.all_label, "All (2)");
}

#[test]
fn hiding_the_untagged_images_does_not_change_what_the_summary_counts() {
    // The summary describes the collection, not the view of it: a count that fell to
    // zero when the rows were hidden would be reporting the filter back at the user.
    let mut untagged = sample_image();
    untagged.id = "sha256:loose".to_owned();
    untagged.repo_tags = Vec::new();
    let listing = vec![sample_image(), untagged];

    let page = images(
        &World::default()
            .with_images(listing)
            .showing_tagged_only()
            .context(),
    );

    assert_eq!(page.value("Summary", "Images"), Some("2"));
    assert_eq!(page.value("Summary", "Untagged"), Some("1"));
}

#[test]
fn the_overview_pages_carry_a_table_and_the_object_pages_do_not() {
    let world = World::default()
        .with_images(vec![sample_image()])
        .with_containers(vec![sample_container()]);
    let cx = world.context();

    let image_table = images(&cx).table.expect("the images page has a table");
    assert_eq!(image_table.rows.len(), 1);
    assert_eq!(image_table.cell(0, "Image"), Some("pub-sub-tui:local"));

    let container_table = containers(&cx)
        .table
        .expect("the containers page has a table");
    assert_eq!(container_table.cell(0, "Container"), Some("web"));

    assert!(image(&sample_image(), &cx).table.is_none());
    assert!(container(&sample_container(), &cx).table.is_none());
}

#[test]
fn the_containers_page_breaks_down_by_state() {
    let mut exited = sample_container();
    exited.id = "exited".to_owned();
    exited.state = ContainerState::Exited;
    let mut dead = sample_container();
    dead.id = "dead".to_owned();
    dead.state = ContainerState::Dead;

    let world = World::default().with_containers(vec![sample_container(), exited, dead]);
    let page = containers(&world.context());

    assert_eq!(page.value("Summary", "Containers"), Some("3"));
    assert_eq!(page.value("Summary", "Running"), Some("1"));
    assert_eq!(page.value("Summary", "Exited"), Some("1"));
    assert_eq!(page.value("Summary", "Other"), Some("1"));
}

#[test]
fn the_image_page_shows_identity_and_storage() {
    let world = World::default().with_images(vec![sample_image()]);
    let page = image(&sample_image(), &world.context());

    assert_eq!(page.title, "pub-sub-tui:local");
    assert_eq!(page.value("Identity", "ID"), Some("dff9997d956e"));
    assert_eq!(page.value("Identity", "Tags"), Some("pub-sub-tui:local"));
    assert_eq!(page.value("Storage", "Size"), Some("164.2 MB"));
    assert_eq!(
        page.value("Storage", "Created"),
        Some("2026-06-21 16:17:25 (2 days ago)")
    );
    assert_eq!(page.value("Labels", "maintainer"), Some("dave"));
}

#[test]
fn an_uncomputed_shared_size_is_omitted_rather_than_shown_as_unknown() {
    let mut image_summary = sample_image();
    image_summary.shared_size = -1;
    let world = World::default();

    let page = image(&image_summary, &world.context());

    assert_eq!(page.value("Storage", "Shared size"), None);
    assert_eq!(page.value("Storage", "Size"), Some("164.2 MB"));
    assert!(page.value("Storage", "Created").is_some());
}

#[test]
fn a_computed_shared_size_is_shown() {
    assert_eq!(
        image(&sample_image(), &World::default().context()).value("Storage", "Shared size"),
        Some("1.0 kB")
    );
}

#[test]
fn an_untagged_image_page_identifies_the_image_by_id() {
    let mut untagged = sample_image();
    untagged.repo_tags = vec![];
    untagged.repo_digests = vec![];
    untagged.labels = TextMap::new();

    let page = image(&untagged, &World::default().context());

    assert_eq!(page.title, "dff9997d956e");
    // Repeating the ID as a subtitle would say nothing; say what it means instead.
    assert_eq!(page.subtitle.as_deref(), Some("untagged"));
    assert_eq!(page.value("Identity", "Tags"), Some("none"));
    assert_eq!(page.value("Identity", "Digests"), Some("none"));
    assert!(!page.group_titles().contains(&"Labels"));
}

#[test]
fn an_image_lists_the_containers_using_it_and_each_one_is_navigable() {
    let nginx = named_image("nginx", "nginx:1.27");
    let world = World::default()
        .with_images(vec![nginx.clone()])
        .with_containers(vec![
            named_container("web", "nginx:1.27", "nginx"),
            named_container("api", "nginx:1.27", "nginx"),
            named_container("db", "postgres:16", "postgres"),
        ]);

    let page = image(&nginx, &world.context());

    assert_eq!(page.value("Used by", "web"), Some("running"));
    assert_eq!(page.value("Used by", "api"), Some("running"));
    assert_eq!(page.value("Used by", "db"), None, "db uses another image");
    assert_eq!(
        page.link("Used by", "web"),
        Some(&NodeId::Container("id-web".to_owned()))
    );
}

#[test]
fn an_unused_image_says_so_rather_than_showing_an_empty_group() {
    let nginx = named_image("nginx", "nginx:1.27");
    let world = World::default().with_images(vec![nginx.clone()]);

    let page = image(&nginx, &world.context());

    assert_eq!(page.value("Used by", "Containers"), Some("none"));
    assert!(page.link("Used by", "Containers").is_none());
}

#[test]
fn an_image_links_to_the_image_it_was_built_from_and_to_its_descendants() {
    let alpine = named_image("alpine", "alpine:3.24");
    let node = named_image("node", "node:22-alpine");
    let webgui = named_image("webgui", "web-gui:latest");
    let world = World::default()
        .with_images(vec![alpine.clone(), node.clone(), webgui])
        .with_layers("sha256:alpine", &["l1"])
        .with_layers("sha256:node", &["l1", "l2", "l3", "l4"])
        .with_layers("sha256:webgui", &["l1", "l2", "l3", "l4", "l5"]);

    let page = image(&node, &world.context());

    assert_eq!(
        page.value("Related images", "alpine:3.24"),
        Some("the image this was built FROM \u{2014} 1 of these 4 layers come from it")
    );
    assert_eq!(
        page.link("Related images", "alpine:3.24"),
        Some(&NodeId::Image("sha256:alpine".to_owned()))
    );
    assert_eq!(
        page.value("Related images", "web-gui:latest"),
        Some("built FROM this image \u{2014} adds 1 layer")
    );
    assert_eq!(
        page.link("Related images", "web-gui:latest"),
        Some(&NodeId::Image("sha256:webgui".to_owned()))
    );
}

#[test]
fn an_image_with_no_relatives_has_no_related_group_at_all() {
    let lonely = named_image("lonely", "lonely:1");
    let world = World::default()
        .with_images(vec![lonely.clone()])
        .with_layers("sha256:lonely", &["l1"]);

    let page = image(&lonely, &world.context());

    assert!(!page.group_titles().contains(&"Related images"));
}

#[test]
fn without_layer_data_the_related_group_is_absent_rather_than_wrong() {
    let alpine = named_image("alpine", "alpine:3.24");
    let node = named_image("node", "node:22-alpine");
    let world = World::default().with_images(vec![alpine, node.clone()]);

    assert!(
        !image(&node, &world.context())
            .group_titles()
            .contains(&"Related images")
    );
}

#[test]
fn the_object_pages_carry_actions_and_the_listing_pages_do_not() {
    let world = World::default();

    // A listing is a way of choosing something, not a thing to act on; the object's
    // own page is where its actions belong.
    assert!(images(&world.context()).actions.is_empty());
    assert!(containers(&world.context()).actions.is_empty());

    assert!(
        !container(&sample_container(), &world.context())
            .actions
            .is_empty()
    );
    assert!(!image(&sample_image(), &world.context()).actions.is_empty());
}

#[test]
fn only_an_object_page_leads_with_its_actions_as_buttons() {
    let stopped = ContainerSummary {
        id: "old".to_owned(),
        names: vec!["old".to_owned()],
        state: ContainerState::Exited,
        ..ContainerSummary::default()
    };
    let world = World::default().with_containers(vec![stopped]);
    let cx = world.context();

    assert!(container(&sample_container(), &cx).shows_action_bar());
    assert!(image(&sample_image(), &cx).shows_action_bar());

    // A listing page acts through its table, and the environment's prunes are on the
    // primary menu, so neither wants a strip of buttons over its table.
    assert!(!containers(&cx).shows_action_bar());
    assert!(!images(&cx).shows_action_bar());
    let overview = environment(&environment_summary(), &resolved(), &cx);
    assert!(!overview.actions.is_empty(), "there is a prune to be had");
    assert!(!overview.shows_action_bar());
}

#[test]
fn the_environment_page_offers_a_prune_only_when_something_is_prunable() {
    let idle = World::default();
    assert!(
        environment(&environment_summary(), &resolved(), &idle.context())
            .actions
            .is_empty(),
        "nothing stopped and nothing untagged means nothing to prune"
    );

    let stopped = ContainerSummary {
        id: "old".to_owned(),
        names: vec!["old".to_owned()],
        state: ContainerState::Exited,
        ..ContainerSummary::default()
    };
    let world = World::default().with_containers(vec![stopped]);

    let actions = environment(&environment_summary(), &resolved(), &world.context()).actions;

    assert!(
        actions
            .iter()
            .any(|offer| offer.action == lave_core::model::action::Action::PruneContainers)
    );
}

#[test]
fn the_container_page_shows_state_ports_and_mounts() {
    let page = container(&sample_container(), &World::default().context());

    assert_eq!(page.title, "web");
    assert_eq!(page.value("State", "State"), Some("running"));
    assert_eq!(page.value("State", "Status"), Some("Up 2 hours"));
    assert_eq!(
        page.value("Networking", "Ports"),
        Some("0.0.0.0:8080 \u{2192} 80/tcp")
    );
    assert_eq!(page.value("Networking", "Networks"), Some("bridge"));
    assert_eq!(
        page.value("Storage", "Mounts"),
        Some("/srv/www \u{2192} /usr/share/nginx/html (read-only)")
    );
}

#[test]
fn a_container_with_nothing_published_says_none_rather_than_blank() {
    let mut bare = sample_container();
    bare.ports.clear();
    bare.mounts.clear();
    bare.networks.clear();
    bare.names.clear();
    bare.labels = TextMap::new();

    let page = container(&bare, &World::default().context());

    assert_eq!(page.value("Networking", "Ports"), Some("none"));
    assert_eq!(page.value("Networking", "Networks"), Some("none"));
    assert_eq!(page.value("Storage", "Mounts"), Some("none"));
    assert_eq!(page.value("Identity", "Name"), Some("none"));
    assert_eq!(page.title, "13ef39df585f");
    assert!(!page.group_titles().contains(&"Labels"));
}

#[test]
fn a_read_write_mount_is_not_annotated() {
    let mut writable = sample_container();
    writable.mounts[0].read_write = true;

    let page = container(&writable, &World::default().context());

    assert_eq!(
        page.value("Storage", "Mounts"),
        Some("/srv/www \u{2192} /usr/share/nginx/html")
    );
}

#[test]
fn a_container_links_to_the_image_it_is_running() {
    let nginx = named_image("nginx", "nginx:1.27");
    let web = named_container("web", "nginx:1.27", "nginx");
    let world = World::default().with_images(vec![nginx]);

    let page = container(&web, &world.context());

    assert_eq!(
        page.value("Image", "nginx:1.27"),
        Some("the image this container is running")
    );
    assert_eq!(
        page.link("Image", "nginx:1.27"),
        Some(&NodeId::Image("sha256:nginx".to_owned()))
    );
}

#[test]
fn a_container_whose_tag_has_moved_reaches_both_images() {
    // nginx:1.27 was pulled again: the tag moved to a new image while this container
    // kept running the old one, which lost its tag in the process.
    let old = named_image("old", "");
    let new = named_image("new", "nginx:1.27");
    let web = named_container("web", "nginx:1.27", "old");
    let world = World::default().with_images(vec![old, new]);

    let page = container(&web, &world.context());

    assert_eq!(
        page.link("Image", "old"),
        Some(&NodeId::Image("sha256:old".to_owned())),
        "the untagged image it is running is reachable by short ID"
    );
    assert_eq!(
        page.value("Image", "nginx:1.27"),
        Some("what nginx:1.27 refers to now \u{2014} this container predates it")
    );
    assert_eq!(
        page.link("Image", "nginx:1.27"),
        Some(&NodeId::Image("sha256:new".to_owned()))
    );
}

#[test]
fn a_container_whose_tag_still_agrees_shows_only_one_image() {
    let nginx = named_image("nginx", "nginx:1.27");
    let web = named_container("web", "nginx:1.27", "nginx");
    let world = World::default().with_images(vec![nginx]);

    let rows = container(&web, &world.context())
        .groups
        .into_iter()
        .find(|group| group.title == "Image")
        .expect("the Image group is always present")
        .rows;

    assert_eq!(rows.len(), 1, "got {rows:?}");
}

#[test]
fn a_container_whose_image_was_deleted_says_so_rather_than_linking_nowhere() {
    let web = named_container("web", "nginx:1.27", "gone");

    let page = container(&web, &World::default().context());

    assert_eq!(
        page.value("Image", "Running image"),
        Some("gone \u{2014} no longer present")
    );
    assert!(page.link("Image", "Running image").is_none());
}

#[test]
fn a_container_lists_its_siblings_from_the_same_image() {
    let web = named_container("web", "nginx:1.27", "nginx");
    let world = World::default()
        .with_images(vec![named_image("nginx", "nginx:1.27")])
        .with_containers(vec![
            web.clone(),
            named_container("api", "nginx:1.27", "nginx"),
            named_container("db", "postgres:16", "postgres"),
        ]);

    let page = container(&web, &world.context());

    assert_eq!(
        page.value("Others from the same image", "api"),
        Some("running")
    );
    assert_eq!(
        page.link("Others from the same image", "api"),
        Some(&NodeId::Container("id-api".to_owned()))
    );
    assert_eq!(
        page.value("Others from the same image", "web"),
        None,
        "not itself"
    );
    assert_eq!(page.value("Others from the same image", "db"), None);
}

#[test]
fn an_only_container_has_no_siblings_group() {
    let web = named_container("web", "nginx:1.27", "nginx");
    let world = World::default().with_containers(vec![web.clone()]);

    assert!(
        !container(&web, &world.context())
            .group_titles()
            .contains(&"Others from the same image")
    );
}

#[test]
fn raw_inspect_output_is_pretty_printed_for_the_expander() {
    let mut state = serde_json::Map::new();
    state.insert("Running".to_owned(), serde_json::Value::from(true));
    let mut inspect = serde_json::Map::new();
    inspect.insert("Id".to_owned(), serde_json::Value::from("abc"));
    inspect.insert("State".to_owned(), serde_json::Value::Object(state));
    let world = World::default().with_raw(serde_json::Value::Object(inspect));

    let page = container(&sample_container(), &world.context());
    let rendered = page.raw.expect("raw output present");

    assert!(rendered.contains("\n  \"Id\": \"abc\""), "got: {rendered}");
}

#[test]
fn pages_without_inspect_output_have_no_raw_section() {
    let world = World::default();

    assert!(image(&sample_image(), &world.context()).raw.is_none());
    assert!(images(&world.context()).raw.is_none());
    assert!(containers(&world.context()).raw.is_none());
}

fn disk_usage() -> DiskUsage {
    DiskUsage {
        images: Some(DiskCategory {
            total_count: 16,
            active_count: 4,
            size: 14_783_927_715,
            reclaimable: 12_556_632_188,
        }),
        containers: Some(DiskCategory {
            total_count: 6,
            active_count: 1,
            size: 17_522_688,
            reclaimable: 17_518_592,
        }),
        volumes: Some(DiskCategory::default()),
        build_cache: Some(DiskCategory {
            total_count: 103,
            active_count: 0,
            size: 8_023_805_715,
            reclaimable: 7_704_593_624,
        }),
    }
}

#[test]
fn the_environment_page_reports_what_the_daemon_is_costing_the_machine() {
    let world = World::default()
        .with_containers(vec![
            named_container("web", "nginx:1.27", "abc"),
            named_container("api", "nginx:1.27", "abc"),
        ])
        .with_stats("id-web", 700_000_000)
        .with_stats("id-api", 300_000_000)
        .with_disk(disk_usage());

    let page = environment(&environment_summary(), &resolved(), &world.context());

    assert_eq!(
        page.value("Footprint", "Memory in use"),
        Some("1.0 GB of 65.0 GB (1.5%) across 2 containers")
    );
    assert_eq!(
        page.value("Footprint", "Images"),
        Some("14.8 GB (12.6 GB reclaimable)")
    );
    assert_eq!(
        page.value("Footprint", "Volumes"),
        Some("0 B"),
        "a category with nothing to reclaim says only its size"
    );
    assert_eq!(page.value("Footprint", "Total on disk"), Some("22.8 GB"));
}

#[test]
fn a_running_container_that_has_not_been_sampled_makes_the_total_a_floor() {
    let world = World::default()
        .with_containers(vec![
            named_container("web", "nginx:1.27", "abc"),
            named_container("api", "nginx:1.27", "abc"),
        ])
        .with_stats("id-web", 700_000_000);

    let page = containers(&world.context());

    assert_eq!(
        page.table_summary.as_deref(),
        Some("Memory in use: 700.0 MB in 1 container, 1 not measured")
    );
}

#[test]
fn the_containers_page_totals_the_memory_of_the_ones_that_are_running() {
    let world = World::default()
        .with_containers(vec![
            named_container("web", "nginx:1.27", "abc"),
            named_container("api", "nginx:1.27", "abc"),
        ])
        .with_stats("id-web", 700_000_000)
        .with_stats("id-api", 300_000_000);

    let page = containers(&world.context());

    // Above the table, where it is read against the column it sums, rather than in
    // the summary group below it.
    assert_eq!(
        page.table_summary.as_deref(),
        Some("Memory in use: 1.0 GB across 2 containers")
    );
    assert_eq!(
        page.value("Summary", "Memory in use"),
        None,
        "the figure is stated once"
    );
}

#[test]
fn only_the_page_listing_containers_carries_a_table_summary() {
    let world = World::default()
        .with_containers(vec![named_container("web", "nginx:1.27", "abc")])
        .with_images(vec![sample_image()])
        .with_stats("id-web", 700_000_000);
    let cx = world.context();

    assert!(images(&cx).table_summary.is_none());
    assert!(
        environment(&environment_summary(), &resolved(), &cx)
            .table_summary
            .is_none(),
        "the environment page has the same figure in its Footprint group"
    );
    assert!(container(&sample_container(), &cx).table_summary.is_none());
}

#[test]
fn a_machine_with_nothing_running_says_so_rather_than_reporting_no_memory() {
    let mut stopped = sample_container();
    stopped.state = ContainerState::Exited;
    let world = World::default().with_containers(vec![stopped]);

    let page = containers(&world.context());

    assert_eq!(
        page.table_summary.as_deref(),
        Some("Memory in use: nothing running")
    );
}

#[test]
fn a_daemon_too_old_to_itemise_its_storage_leaves_the_disk_rows_out() {
    // Every category absent: the row would otherwise read "unknown" four times.
    let page = environment(
        &environment_summary(),
        &resolved(),
        &World::default().context(),
    );

    let footprint = page
        .groups
        .iter()
        .find(|group| group.title == "Footprint")
        .expect("the group is still there for the memory row");

    assert_eq!(footprint.rows.len(), 1);
    assert_eq!(footprint.rows[0].label, "Memory in use");
}

#[test]
fn the_images_page_reports_the_disk_the_daemon_actually_spent() {
    let world = World::default()
        .with_images(vec![sample_image()])
        .with_disk(disk_usage());

    let page = images(&world.context());

    // The listing's sum counts a shared layer once per image that carries it; the
    // daemon's figure counts it once.
    assert_eq!(page.value("Summary", "Combined size"), Some("164.2 MB"));
    assert_eq!(page.value("Summary", "On disk"), Some("14.8 GB"));
    assert_eq!(page.value("Summary", "Reclaimable"), Some("12.6 GB"));
}

#[test]
fn the_images_page_falls_back_to_the_listing_when_the_daemon_does_not_itemise() {
    let world = World::default().with_images(vec![sample_image()]);
    let page = images(&world.context());

    assert_eq!(page.value("Summary", "Combined size"), Some("164.2 MB"));
    assert_eq!(page.value("Summary", "On disk"), None);
}

#[test]
fn a_running_containers_page_reports_what_it_is_holding_and_of_what() {
    let world = World::default()
        .with_containers(vec![sample_container()])
        .with_stats(&sample_container().id, 716_800);

    let page = container(&sample_container(), &world.context());

    assert_eq!(
        page.value("Memory", "In use"),
        Some("716.8 kB of 8.0 GB (<0.1%)")
    );
}

#[test]
fn a_running_container_awaiting_its_first_sample_says_so() {
    let world = World::default().with_containers(vec![sample_container()]);
    let page = container(&sample_container(), &world.context());

    assert_eq!(page.value("Memory", "In use"), Some("not measured yet"));
}

#[test]
fn a_stopped_container_is_not_given_a_memory_group_at_all() {
    let mut stopped = sample_container();
    stopped.state = ContainerState::Exited;
    let world = World::default().with_containers(vec![stopped.clone()]);

    let page = container(&stopped, &world.context());

    assert!(!page.group_titles().contains(&"Memory"));
}
