//! What the right-hand pane shows for the current selection.

use vstd::prelude::*;

use super::action;
use super::action::{for_container, for_environment, for_image, Offer, OfferView};
use super::format::{
    bytes, container_label, image_label, instant, is_untagged, list_or_none, share, short_id,
    text_or_unknown,
};
use super::metrics;
use super::metrics::StatsIndex;
use super::relations;
use super::relations::{
    base_of, containers_of, depth_of, derived_from, running_image, same_layers_as, tagged_image,
    LayerIndex, Layers,
};
use super::table;
use super::table::{
    containers_filtered, images_filtered, ports_shown, process_list, visible_rows, Table, TableView,
};
use super::tree;
use super::tree::{count_active, NodeId, NodeKey};
use crate::endpoint;
use crate::endpoint::{Resolved, ResolvedView};
use crate::engine;
use crate::engine::{
    total, ContainerState, ContainerSummary, ContainerView, DiskCategory, DiskUsage,
    EnvironmentSummary, EnvironmentView, ImageSummary, ImageView, MountSummary, MountView,
    StatsView,
};
use crate::lists;
use crate::lists::{extend, put, slice_of};
use crate::ordered;
use crate::ordered::TextMap;
use crate::text;
use crate::text::{count_text, integer_text, same, trim};

verus! {

/// One line of a page.
#[derive(Debug, Clone, PartialEq, Eq)]
pub struct DetailRow {
    pub label: String,
    pub value: String,
    /// Where selecting this row navigates to. `None` for plain informational rows.
    pub link: Option<NodeId>,
}

/// The value of a [`DetailRow`].
#[verifier::ext_equal]
pub struct DetailRowView {
    pub label: Seq<char>,
    pub value: Seq<char>,
    pub link: Option<NodeKey>,
}

impl DeepView for DetailRow {
    type V = DetailRowView;

    open spec fn deep_view(&self) -> DetailRowView {
        DetailRowView { label: self.label@, value: self.value@, link: self.link.deep_view() }
    }
}

/// Lines that belong together.
#[derive(Debug, Clone, PartialEq, Eq)]
pub struct DetailGroup {
    pub title: String,
    pub rows: Vec<DetailRow>,
}

/// The value of a [`DetailGroup`].
#[verifier::ext_equal]
pub struct GroupView {
    pub title: Seq<char>,
    pub rows: Seq<DetailRowView>,
}

impl DeepView for DetailGroup {
    type V = GroupView;

    open spec fn deep_view(&self) -> GroupView {
        GroupView { title: self.title@, rows: self.rows.deep_view() }
    }
}

/// Which listing a table's filter narrows, and so which preference it drives.
#[derive(Debug, Clone, Copy, PartialEq, Eq)]
pub enum FilterKind {
    /// Leave out containers that are not running.
    StoppedContainers,
    /// Leave out images carrying no tag.
    UntaggedImages,
}

/// The narrowed / everything toggle offered above a table.
#[derive(Debug, Clone, PartialEq, Eq)]
pub struct TableFilter {
    pub kind: FilterKind,
    /// True when the rows the filter would leave out are included.
    pub showing_all: bool,
    /// The narrowed view, with its count: "Running (3)", "Tagged (12)".
    pub narrow_label: String,
    pub all_label: String,
    /// Rows the table should be given before the user drags it. See
    /// [`super::table::visible_rows`].
    pub visible_rows: usize,
}

/// The value of a [`TableFilter`].
#[verifier::ext_equal]
pub struct FilterView {
    pub kind: FilterKind,
    pub showing_all: bool,
    pub narrow_label: Seq<char>,
    pub all_label: Seq<char>,
    pub visible_rows: nat,
}

impl DeepView for TableFilter {
    type V = FilterView;

    open spec fn deep_view(&self) -> FilterView {
        FilterView {
            kind: self.kind,
            showing_all: self.showing_all,
            narrow_label: self.narrow_label@,
            all_label: self.all_label@,
            visible_rows: self.visible_rows as nat,
        }
    }
}

/// Everything that the pane shows.
#[derive(Debug, Clone, PartialEq, Eq)]
pub struct DetailPage {
    pub title: String,
    pub subtitle: Option<String>,
    pub groups: Vec<DetailGroup>,
    /// Shown on the pages that list many objects. Rendered at full window width, since
    /// a table is exactly the thing the width is for.
    pub table: Option<Table>,
    /// Whether the table leads the page or follows the groups.
    pub table_first: bool,
    /// When set, the table is offered with a filter toggle above it.
    pub table_filter: Option<TableFilter>,
    /// A figure about the listing as a whole, shown in the strip above the table where
    /// it is read alongside the rows it sums rather than below them.
    pub table_summary: Option<String>,
    /// Pretty-printed inspect output, shown in a collapsed expander.
    pub raw: Option<String>,
    /// What the user may do to this object, decided in [`crate::model::action`].
    pub actions: Vec<Offer>,
}

/// The value of a [`DetailPage`].
#[verifier::ext_equal]
pub struct PageView {
    pub title: Seq<char>,
    pub subtitle: Option<Seq<char>>,
    pub groups: Seq<GroupView>,
    pub table: Option<TableView>,
    pub table_first: bool,
    pub table_filter: Option<FilterView>,
    pub table_summary: Option<Seq<char>>,
    pub raw: Option<Seq<char>>,
    pub actions: Seq<OfferView>,
}

impl DeepView for DetailPage {
    type V = PageView;

    open spec fn deep_view(&self) -> PageView {
        PageView {
            title: self.title@,
            subtitle: self.subtitle.deep_view(),
            groups: self.groups.deep_view(),
            table: self.table.deep_view(),
            table_first: self.table_first,
            table_filter: self.table_filter.deep_view(),
            table_summary: self.table_summary.deep_view(),
            raw: self.raw.deep_view(),
            actions: self.actions.deep_view(),
        }
    }
}

/// Everything a detail page needs beyond the object it is describing. Passed as one
/// value so adding context does not ripple through every call site.
pub struct Context<'a> {
    pub images: &'a [ImageSummary],
    pub containers: &'a [ContainerSummary],
    pub layers: &'a LayerIndex,
    /// The most recent memory sample per container. Refreshed on its own timer, so it
    /// moves between listings rather than with them.
    pub stats: &'a StatsIndex,
    /// What the daemon says its storage is spent on.
    pub disk: &'a DiskUsage,
    /// The inspect output.
    pub raw: Option<&'a serde_json::Value>,
    /// Seconds since the Unix epoch, injected so rendering is deterministic.
    pub now: i64,
    /// How far the local time is ahead of UTC, in seconds.
    pub offset: i32,
    /// Whether container tables include the ones that are not running.
    pub show_stopped: bool,
    /// Whether the image table includes the ones carrying no tag.
    pub show_untagged: bool,
}

/// The value of a [`Context`].
#[verifier::ext_equal]
pub struct ContextView {
    pub images: Seq<ImageView>,
    pub containers: Seq<ContainerView>,
    pub layers: Layers,
    pub stats: Seq<(Seq<char>, StatsView)>,
    pub disk: DiskUsage,
    pub raw: Option<Seq<char>>,
    pub now: i64,
    pub offset: i32,
    pub show_stopped: bool,
    pub show_untagged: bool,
}

impl<'a> DeepView for Context<'a> {
    type V = ContextView;

    open spec fn deep_view(&self) -> ContextView {
        ContextView {
            images: self.images.deep_view(),
            containers: self.containers.deep_view(),
            layers: self.layers.deep_view(),
            stats: self.stats.deep_view(),
            disk: *self.disk,
            raw: held_text(self.raw),
            now: self.now,
            offset: self.offset,
            show_stopped: self.show_stopped,
            show_untagged: self.show_untagged,
        }
    }
}

/// The first row with a label, in the first group with a title.
pub open spec fn row_in(groups: Seq<GroupView>, title: Seq<char>, label: Seq<char>) -> Option<
    DetailRowView,
> {
    match lists::first_where(groups, |g: GroupView| g.title == title) {
        Some(group) => lists::first_where(group.rows, |r: DetailRowView| r.label == label),
        None => None,
    }
}

impl DetailPage {
    fn find_row(&self, title: &str, label: &str) -> (row: Option<&DetailRow>)
        ensures
            row.deep_view() == row_in(self.deep_view().groups, title@, label@),
    {
        let ghost all = self.groups.deep_view();
        let ghost p = |g: GroupView| g.title == title@;
        let mut i: usize = 0;
        while i < self.groups.len()
            invariant
                i <= self.groups@.len(),
                all == self.groups.deep_view(),
                p == (|g: GroupView| g.title == title@),
                forall|k: int| 0 <= k < i ==> !p(#[trigger] all[k]),
            decreases self.groups@.len() - i,
        {
            let group = &self.groups[i];
            assert(all[i as int] == group.deep_view());
            if same(group.title.as_str(), title) {
                proof {
                    lists::lemma_first_where(all, p, i as int);
                }
                return row_labelled(&group.rows, label);
            }
            i += 1;
        }
        proof {
            lists::lemma_first_where(all, p, i as int);
        }
        None
    }

    /// Looks up a row's value. Convenience for callers and tests.
    #[must_use]
    pub fn value(&self, group: &str, label: &str) -> (value: Option<&str>)
        ensures
            match row_in(self.deep_view().groups, group@, label@) {
                Some(row) => value matches Some(text) && text@ == row.value,
                None => value is None,
            },
    {
        match self.find_row(group, label) {
            Some(row) => Some(row.value.as_str()),
            None => None,
        }
    }

    /// Whether the page leads with a strip of buttons for its actions.
    ///
    /// Only the pages describing a single object do. A listing page acts through its
    /// table, and the daemon's own prunes are on the primary menu, where a
    /// whole-machine action belongs.
    #[must_use]
    pub fn shows_action_bar(&self) -> (yes: bool)
        ensures
            yes == (self.deep_view().table is None && self.deep_view().actions.len() > 0),
    {
        self.table.is_none() && self.actions.len() > 0
    }

    /// The titles of the groups, in their order.
    #[must_use]
    pub fn group_titles(&self) -> (titles: Vec<&str>)
        ensures
            titles.deep_view() == self.deep_view().groups.map_values(|g: GroupView| g.title),
    {
        let ghost to = self.groups.deep_view().map_values(|g: GroupView| g.title);
        let mut titles: Vec<&str> = Vec::new();
        let mut i: usize = 0;
        assert(titles.deep_view() =~= to.take(0));
        while i < self.groups.len()
            invariant
                i <= self.groups@.len(),
                to == self.groups.deep_view().map_values(|g: GroupView| g.title),
                titles.deep_view() == to.take(i as int),
            decreases self.groups@.len() - i,
        {
            put(&mut titles, self.groups[i].title.as_str());
            i += 1;
            assert(titles.deep_view() =~= to.take(i as int));
        }
        assert(titles.deep_view() =~= to);
        titles
    }

    /// Where a row navigates to, if anywhere.
    #[must_use]
    pub fn link(&self, group: &str, label: &str) -> (link: Option<&NodeId>)
        ensures
            match row_in(self.deep_view().groups, group@, label@) {
                Some(row) => link.deep_view() == row.link,
                None => link is None,
            },
    {
        match self.find_row(group, label) {
            Some(row) => row.link.as_ref(),
            None => None,
        }
    }
}

fn row_labelled<'a>(rows: &'a Vec<DetailRow>, label: &str) -> (row: Option<&'a DetailRow>)
    ensures
        row.deep_view() == lists::first_where(
            rows.deep_view(),
            |r: DetailRowView| r.label == label@,
        ),
{
    let ghost all = rows.deep_view();
    let ghost p = |r: DetailRowView| r.label == label@;
    let mut i: usize = 0;
    while i < rows.len()
        invariant
            i <= rows@.len(),
            all == rows.deep_view(),
            p == (|r: DetailRowView| r.label == label@),
            forall|k: int| 0 <= k < i ==> !p(#[trigger] all[k]),
        decreases rows@.len() - i,
    {
        assert(all[i as int] == rows@[i as int].deep_view());
        if same(rows[i].label.as_str(), label) {
            proof {
                lists::lemma_first_where(all, p, i as int);
            }
            return Some(&rows[i]);
        }
        i += 1;
    }
    proof {
        lists::lemma_first_where(all, p, i as int);
    }
    None
}

/// A row without a link.
pub open spec fn plain_row(label: Seq<char>, value: Seq<char>) -> DetailRowView {
    DetailRowView { label, value, link: None }
}

/// A row that leads to another object.
pub open spec fn linked_row(label: Seq<char>, value: Seq<char>, target: NodeKey) -> DetailRowView {
    DetailRowView { label, value, link: Some(target) }
}

fn row(label: &str, value: String) -> (row: DetailRow)
    ensures
        row.deep_view() == plain_row(label@, value@),
{
    DetailRow { label: label.to_owned(), value, link: None }
}

/// A row that selects another object in the tree when activated.
fn link_row(label: String, value: String, target: NodeId) -> (row: DetailRow)
    ensures
        row.deep_view() == linked_row(label@, value@, target.deep_view()),
{
    DetailRow { label, value, link: Some(target) }
}

fn group(title: &str, rows: Vec<DetailRow>) -> (group: DetailGroup)
    ensures
        group.deep_view() == (GroupView { title: title@, rows: rows.deep_view() }),
{
    DetailGroup { title: title.to_owned(), rows }
}

/// A JSON value of `serde_json`, which is carried to where it is written out.
#[verifier::external_type_specification]
#[verifier::external_body]
pub struct ExJsonValue(serde_json::Value);

/// What a JSON value holds, as the text that it is on one line.
pub uninterp spec fn json_text(value: serde_json::Value) -> Seq<char>;

/// The JSON value that a text on one line stands for, laid out over several lines.
pub uninterp spec fn pretty_json(text: Seq<char>) -> Option<Seq<char>>;

/// Calls `to_string` on a `serde_json::Value`, which writes all that the value holds on
/// one line.
#[verifier::external_body]
fn compact(value: &serde_json::Value) -> (text: String)
    ensures
        text@ == json_text(*value),
{
    value.to_string()
}

/// Calls `serde_json::to_string_pretty`. What it writes depends on what the value holds
/// alone; `None` stands for a value that it will not write.
#[verifier::external_body]
fn prettify(value: &serde_json::Value) -> (pretty: Option<String>)
    ensures
        pretty.deep_view() == pretty_json(json_text(*value)),
{
    serde_json::to_string_pretty(value).ok()
}

/// What an optional JSON value holds.
pub open spec fn held_text(value: Option<&serde_json::Value>) -> Option<Seq<char>> {
    match value {
        Some(value) => Some(json_text(*value)),
        None => None,
    }
}

/// Inspect output as it is shown: laid out, or on one line.
pub open spec fn raw_shown(text: Seq<char>, pretty: Option<Seq<char>>) -> Seq<char> {
    match pretty {
        Some(pretty) => pretty,
        None => text,
    }
}

/// The laid out text, or the text on one line where there is none.
#[must_use]
pub fn pretty_or_raw(text: &str, pretty: Option<String>) -> (shown: String)
    ensures
        shown@ == raw_shown(text@, pretty.deep_view()),
{
    match pretty {
        Some(pretty) => pretty,
        None => text.to_owned(),
    }
}

/// Inspect output for the raw expander.
pub open spec fn raw_text(value: Option<Seq<char>>) -> Option<Seq<char>> {
    match value {
        Some(text) => Some(raw_shown(text, pretty_json(text))),
        None => None,
    }
}

/// Pretty-prints inspect output for the raw expander.
#[must_use]
pub fn raw_json(value: Option<&serde_json::Value>) -> (shown: Option<String>)
    ensures
        shown.deep_view() == raw_text(held_text(value)),
{
    match value {
        Some(value) => Some(pretty_or_raw(compact(value).as_str(), prettify(value))),
        None => None,
    }
}

// ------------------------------------------------------------ the environment

/// The rows on how the daemon is reached.
pub open spec fn connection_rows(environment: EnvironmentView, resolved: ResolvedView) -> Seq<
    DetailRowView,
> {
    seq![
        plain_row("Endpoint"@, endpoint::endpoint_url(resolved.endpoint)),
        plain_row("Selected by"@, endpoint::source_label(resolved.source)),
        plain_row(
            "Server version"@,
            crate::model::format::known_text(environment.server_version),
        ),
        plain_row("API version"@, crate::model::format::known_text(environment.api_version)),
        plain_row(
            "Minimum API version"@,
            match environment.min_api_version {
                Some(version) => version,
                None => "unknown"@,
            },
        ),
        plain_row(
            "Rootless"@,
            if environment.rootless {
                "yes"@
            } else {
                "no"@
            },
        ),
    ]
}

fn connection_group(environment: &EnvironmentSummary, resolved: &Resolved) -> (shown: DetailGroup)
    ensures
        shown.deep_view() == (GroupView {
            title: "Connection"@,
            rows: connection_rows(environment.deep_view(), resolved.deep_view()),
        }),
{
    let mut rows: Vec<DetailRow> = Vec::new();
    put(&mut rows, row("Endpoint", resolved.endpoint.to_string()));
    put(&mut rows, row("Selected by", resolved.source.to_string()));
    put(&mut rows, row("Server version", text_or_unknown(environment.server_version.as_str())));
    put(&mut rows, row("API version", text_or_unknown(environment.api_version.as_str())));
    let minimum = match &environment.min_api_version {
        Some(version) => version.clone(),
        None => "unknown".to_owned(),
    };
    put(&mut rows, row("Minimum API version", minimum));
    let rootless = if environment.rootless {
        "yes"
    } else {
        "no"
    };
    put(&mut rows, row("Rootless", rootless.to_owned()));
    assert(rows.deep_view() =~= connection_rows(environment.deep_view(), resolved.deep_view()));
    group("Connection", rows)
}

/// The rows on the machine that the daemon runs on.
pub open spec fn host_rows(environment: EnvironmentView) -> Seq<DetailRowView> {
    seq![
        plain_row("Name"@, crate::model::format::known_text(environment.name)),
        plain_row(
            "Operating system"@,
            crate::model::format::known_text(environment.operating_system),
        ),
        plain_row(
            "Platform"@,
            crate::model::format::known_text(environment.os_type) + "/"@
                + crate::model::format::known_text(environment.architecture),
        ),
        plain_row("Kernel"@, crate::model::format::known_text(environment.kernel_version)),
        plain_row("CPUs"@, text::integer(environment.cpus as int)),
        plain_row("Memory"@, crate::model::format::bytes_text(environment.memory_total as int)),
    ]
}

fn host_group(environment: &EnvironmentSummary) -> (shown: DetailGroup)
    ensures
        shown.deep_view() == (GroupView {
            title: "Host"@,
            rows: host_rows(environment.deep_view()),
        }),
{
    let mut rows: Vec<DetailRow> = Vec::new();
    put(&mut rows, row("Name", text_or_unknown(environment.name.as_str())));
    put(
        &mut rows,
        row("Operating system", text_or_unknown(environment.operating_system.as_str())),
    );
    let platform = text_or_unknown(environment.os_type.as_str()).concat("/").concat(
        text_or_unknown(environment.architecture.as_str()).as_str(),
    );
    put(&mut rows, row("Platform", platform));
    put(&mut rows, row("Kernel", text_or_unknown(environment.kernel_version.as_str())));
    put(&mut rows, row("CPUs", integer_text(environment.cpus)));
    put(&mut rows, row("Memory", bytes(environment.memory_total)));
    assert(rows.deep_view() =~= host_rows(environment.deep_view()));
    group("Host", rows)
}

/// The rows on how the daemon is set up.
pub open spec fn runtime_rows(environment: EnvironmentView) -> Seq<DetailRowView> {
    seq![
        plain_row("Storage driver"@, crate::model::format::known_text(environment.storage_driver)),
        plain_row("Logging driver"@, crate::model::format::known_text(environment.logging_driver)),
        plain_row("cgroup version"@, crate::model::format::known_text(environment.cgroup_version)),
        plain_row("cgroup driver"@, crate::model::format::known_text(environment.cgroup_driver)),
        plain_row("Root directory"@, crate::model::format::known_text(environment.docker_root_dir)),
    ]
}

fn runtime_group(environment: &EnvironmentSummary) -> (shown: DetailGroup)
    ensures
        shown.deep_view() == (GroupView {
            title: "Runtime"@,
            rows: runtime_rows(environment.deep_view()),
        }),
{
    let mut rows: Vec<DetailRow> = Vec::new();
    put(&mut rows, row("Storage driver", text_or_unknown(environment.storage_driver.as_str())));
    put(&mut rows, row("Logging driver", text_or_unknown(environment.logging_driver.as_str())));
    put(&mut rows, row("cgroup version", text_or_unknown(environment.cgroup_version.as_str())));
    put(&mut rows, row("cgroup driver", text_or_unknown(environment.cgroup_driver.as_str())));
    put(&mut rows, row("Root directory", text_or_unknown(environment.docker_root_dir.as_str())));
    assert(rows.deep_view() =~= runtime_rows(environment.deep_view()));
    group("Runtime", rows)
}

/// The rows on what the daemon holds, by its own count.
pub open spec fn contents_rows(environment: EnvironmentView) -> Seq<DetailRowView> {
    seq![
        plain_row("Images"@, text::integer(environment.images as int)),
        plain_row("Containers"@, text::integer(environment.containers_total as int)),
        plain_row("Running"@, text::integer(environment.containers_running as int)),
        plain_row("Paused"@, text::integer(environment.containers_paused as int)),
        plain_row("Stopped"@, text::integer(environment.containers_stopped as int)),
    ]
}

fn contents_group(environment: &EnvironmentSummary) -> (shown: DetailGroup)
    ensures
        shown.deep_view() == (GroupView {
            title: "Contents"@,
            rows: contents_rows(environment.deep_view()),
        }),
{
    let mut rows: Vec<DetailRow> = Vec::new();
    put(&mut rows, row("Images", integer_text(environment.images)));
    put(&mut rows, row("Containers", integer_text(environment.containers_total)));
    put(&mut rows, row("Running", integer_text(environment.containers_running)));
    put(&mut rows, row("Paused", integer_text(environment.containers_paused)));
    put(&mut rows, row("Stopped", integer_text(environment.containers_stopped)));
    assert(rows.deep_view() =~= contents_rows(environment.deep_view()));
    group("Contents", rows)
}

/// How much memory the executing containers hold, in words. The count of containers is
/// part of the figure: a total that silently left one out would read as the machine's.
pub open spec fn memory_text(
    containers: Seq<ContainerView>,
    samples: Seq<(Seq<char>, StatsView)>,
    host_memory: Option<i64>,
) -> Seq<char> {
    let held = metrics::measured_bytes(samples, containers);
    let measured = metrics::measured_count(samples, containers, true);
    let unmeasured = metrics::measured_count(samples, containers, false);
    if measured == 0 {
        if unmeasured > 0 {
            "not measured yet"@
        } else {
            "nothing running"@
        }
    } else {
        let figure = match host_memory {
            Some(memory) => if memory > 0 {
                crate::model::format::share_text(held, memory as int)
            } else {
                crate::model::format::bytes_text(held)
            },
            None => crate::model::format::bytes_text(held),
        };
        let across = if measured == 1 {
            figure + " in 1 container"@
        } else {
            figure + " across "@ + text::decimal(measured) + " containers"@
        };
        if unmeasured > 0 {
            across + ", "@ + text::decimal(unmeasured) + " not measured"@
        } else {
            across
        }
    }
}

/// Memory across the containers that are executing, as the summaries phrase it.
fn memory_in_use(
    containers: &[ContainerSummary],
    stats: &StatsIndex,
    host_memory: Option<i64>,
) -> (line: String)
    requires
        metrics::measured_bytes(stats.deep_view(), containers.deep_view()) <= i64::MAX,
    ensures
        line@ == memory_text(containers.deep_view(), stats.deep_view(), host_memory),
{
    let total = stats.running_total(containers);
    if total.is_empty() {
        return if total.is_partial() {
            "not measured yet".to_owned()
        } else {
            "nothing running".to_owned()
        };
    }
    let figure = match host_memory {
        Some(memory) => if memory > 0 {
            share(total.bytes, memory)
        } else {
            bytes(total.bytes)
        },
        None => bytes(total.bytes),
    };
    let across = if total.measured == 1 {
        figure.concat(" in 1 container")
    } else {
        figure.concat(" across ").concat(count_text(total.measured).as_str()).concat(" containers")
    };
    if total.is_partial() {
        across.concat(", ").concat(count_text(total.unmeasured).as_str()).concat(" not measured")
    } else {
        across
    }
}

/// A category's disk usage: its size, and what a prune of it would give back.
pub open spec fn disk_text(category: Option<DiskCategory>) -> Seq<char> {
    match category {
        Some(category) => if category.reclaimable > 0 {
            crate::model::format::bytes_text(category.size as int) + " ("@
                + crate::model::format::bytes_text(category.reclaimable as int) + " reclaimable)"@
        } else {
            crate::model::format::bytes_text(category.size as int)
        },
        None => "unknown"@,
    }
}

fn disk_row(label: &str, category: Option<DiskCategory>) -> (shown: DetailRow)
    ensures
        shown.deep_view() == plain_row(label@, disk_text(category)),
{
    match category {
        Some(category) => if category.reclaimable > 0 {
            row(
                label,
                bytes(category.size).concat(" (").concat(bytes(category.reclaimable).as_str()).concat(
                    " reclaimable)",
                ),
            )
        } else {
            row(label, bytes(category.size))
        },
        None => row(label, "unknown".to_owned()),
    }
}

/// The rows on what the daemon costs the machine. The disk rows are left out on a daemon
/// that does not itemise.
pub open spec fn footprint_rows(cx: ContextView, host_memory: Option<i64>) -> Seq<DetailRowView> {
    seq![
        plain_row("Memory in use"@, memory_text(cx.containers, cx.stats, host_memory)),
    ] + (if cx.disk.sizes().len() == 0 {
        seq![]
    } else {
        seq![
            plain_row("Images"@, disk_text(cx.disk.images)),
            plain_row("Containers"@, disk_text(cx.disk.containers)),
            plain_row("Volumes"@, disk_text(cx.disk.volumes)),
            plain_row("Build cache"@, disk_text(cx.disk.build_cache)),
            plain_row(
                "Total on disk"@,
                crate::model::format::bytes_text(engine::sum(cx.disk.sizes())),
            ),
        ]
    })
}

/// What the daemon is costing the machine: memory now, disk since it was installed.
fn footprint_group(cx: &Context<'_>, host_memory: Option<i64>) -> (shown: DetailGroup)
    requires
        metrics::measured_bytes(cx.deep_view().stats, cx.deep_view().containers) <= i64::MAX,
        engine::sum_fits(cx.disk.sizes()),
    ensures
        shown.deep_view() == (GroupView {
            title: "Footprint"@,
            rows: footprint_rows(cx.deep_view(), host_memory),
        }),
{
    let mut rows: Vec<DetailRow> = Vec::new();
    put(&mut rows, row("Memory in use", memory_in_use(cx.containers, cx.stats, host_memory)));
    if let Some(total) = cx.disk.total_size() {
        put(&mut rows, disk_row("Images", cx.disk.images));
        put(&mut rows, disk_row("Containers", cx.disk.containers));
        put(&mut rows, disk_row("Volumes", cx.disk.volumes));
        put(&mut rows, disk_row("Build cache", cx.disk.build_cache));
        put(&mut rows, row("Total on disk", bytes(total)));
    }
    assert(rows.deep_view() =~= footprint_rows(cx.deep_view(), host_memory));
    group("Footprint", rows)
}

/// A group with one row for each of some texts, or none without texts.
pub open spec fn listed(title: Seq<char>, label: Seq<char>, values: Seq<Seq<char>>) -> Seq<
    GroupView,
> {
    if values.len() == 0 {
        seq![]
    } else {
        seq![
            GroupView { title, rows: values.map_values(|value: Seq<char>| plain_row(label, value)) },
        ]
    }
}

fn list_groups(title: &str, label: &str, values: &Vec<String>) -> (groups: Vec<DetailGroup>)
    ensures
        groups.deep_view() == listed(title@, label@, values.deep_view()),
{
    let mut groups: Vec<DetailGroup> = Vec::new();
    assert(groups.deep_view() =~= seq![]);
    assert(values.deep_view().len() == values@.len());
    if values.len() == 0 {
        return groups;
    }
    let ghost to = values.deep_view().map_values(|value: Seq<char>| plain_row(label@, value));
    let mut rows: Vec<DetailRow> = Vec::new();
    let mut i: usize = 0;
    assert(rows.deep_view() =~= to.take(0));
    while i < values.len()
        invariant
            i <= values@.len(),
            to == values.deep_view().map_values(|value: Seq<char>| plain_row(label@, value)),
            rows.deep_view() == to.take(i as int),
        decreases values@.len() - i,
    {
        put(&mut rows, row(label, values[i].clone()));
        i += 1;
        assert(rows.deep_view() =~= to.take(i as int));
    }
    assert(rows.deep_view() =~= to);
    put(&mut groups, group(title, rows));
    assert(groups.deep_view() =~= listed(title@, label@, values.deep_view()));
    groups
}

/// The running-only / everything toggle, shared by the two pages that list containers so
/// the same question is asked the same way in both. It is sized to the running ones
/// whichever view is showing.
pub open spec fn running_toggle(cx: ContextView) -> FilterView {
    let running = tree::active_count(cx.containers);
    FilterView {
        kind: FilterKind::StoppedContainers,
        showing_all: cx.show_stopped,
        narrow_label: "Running ("@ + text::decimal(running) + ")"@,
        all_label: "All ("@ + text::decimal(cx.containers.len()) + ")"@,
        visible_rows: table::rows_for(running),
    }
}

fn running_filter(cx: &Context<'_>) -> (filter: TableFilter)
    ensures
        filter.deep_view() == running_toggle(cx.deep_view()),
{
    let running: usize = count_active(cx.containers);
    assert(cx.containers.deep_view().len() == cx.containers@.len());
    TableFilter {
        kind: FilterKind::StoppedContainers,
        showing_all: cx.show_stopped,
        narrow_label: "Running (".to_owned().concat(count_text(running).as_str()).concat(")"),
        all_label: "All (".to_owned().concat(count_text(cx.containers.len()).as_str()).concat(")"),
        visible_rows: visible_rows(running),
    }
}

/// The groups of the environment page. Warnings come last, closest to the raw output,
/// and are always there when the daemon has something to say.
pub open spec fn environment_groups(
    environment: EnvironmentView,
    resolved: ResolvedView,
    cx: ContextView,
) -> Seq<GroupView> {
    seq![
        GroupView { title: "Connection"@, rows: connection_rows(environment, resolved) },
        GroupView { title: "Host"@, rows: host_rows(environment) },
        GroupView { title: "Runtime"@, rows: runtime_rows(environment) },
        GroupView { title: "Contents"@, rows: contents_rows(environment) },
        GroupView {
            title: "Footprint"@,
            rows: footprint_rows(cx, Some(environment.memory_total)),
        },
    ] + listed("Security"@, "Option"@, environment.security_options) + listed(
        "Warnings"@,
        "Warning"@,
        environment.warnings,
    )
}

/// The page of the environment as a whole.
pub open spec fn environment_page(
    environment: EnvironmentView,
    resolved: ResolvedView,
    cx: ContextView,
) -> PageView {
    PageView {
        title: if text::trimmed(environment.name).len() == 0 {
            "Docker"@
        } else {
            environment.name
        },
        subtitle: Some(
            endpoint::endpoint_url(resolved.endpoint) + " \u{2014} "@ + endpoint::source_label(
                resolved.source,
            ),
        ),
        groups: environment_groups(environment, resolved, cx),
        table: Some(table::process_table(cx.containers, cx.now, cx.show_stopped)),
        table_first: true,
        table_filter: Some(running_toggle(cx)),
        table_summary: None,
        raw: raw_text(cx.raw),
        actions: action::environment_offers(cx.containers, cx.images),
    }
}

/// The root node: the local Docker environment, as probed at startup, led by the
/// container table.
#[must_use]
pub fn environment(
    summary: &EnvironmentSummary,
    resolved: &Resolved,
    cx: &Context<'_>,
) -> (page: DetailPage)
    requires
        metrics::measured_bytes(cx.deep_view().stats, cx.deep_view().containers) <= i64::MAX,
        engine::sum_fits(cx.disk.sizes()),
        engine::sum_fits(action::sizes_of(action::dangling_images(cx.deep_view().images))),
    ensures
        page.deep_view() == environment_page(
            summary.deep_view(),
            resolved.deep_view(),
            cx.deep_view(),
        ),
{
    let mut groups: Vec<DetailGroup> = Vec::new();
    put(&mut groups, connection_group(summary, resolved));
    put(&mut groups, host_group(summary));
    put(&mut groups, runtime_group(summary));
    put(&mut groups, contents_group(summary));
    put(&mut groups, footprint_group(cx, Some(summary.memory_total)));
    extend(&mut groups, list_groups("Security", "Option", &summary.security_options));
    extend(&mut groups, list_groups("Warnings", "Warning", &summary.warnings));
    assert(groups.deep_view() =~= environment_groups(
        summary.deep_view(),
        resolved.deep_view(),
        cx.deep_view(),
    ));
    let title = if trim(summary.name.as_str()).is_empty() {
        "Docker".to_owned()
    } else {
        summary.name.clone()
    };
    let subtitle = resolved.endpoint.to_string().concat(" \u{2014} ").concat(
        resolved.source.to_string().as_str(),
    );
    DetailPage {
        title,
        subtitle: Some(subtitle),
        groups,
        table: Some(process_list(cx.containers, cx.now, cx.show_stopped)),
        table_first: true,
        table_filter: Some(running_filter(cx)),
        table_summary: None,
        raw: raw_json(cx.raw),
        actions: for_environment(cx.containers, cx.images),
    }
}

// ------------------------------------------------------------------ the images

/// The image with the largest size, the last of several.
pub open spec fn largest(images: Seq<ImageView>) -> Option<ImageView>
    decreases images.len(),
{
    if images.len() == 0 {
        None
    } else {
        match largest(images.drop_last()) {
            Some(before) => if before.size > images.last().size {
                Some(before)
            } else {
                Some(images.last())
            },
            None => Some(images.last()),
        }
    }
}

/// The largest image and its size, in words.
pub open spec fn largest_text(images: Seq<ImageView>) -> Seq<char> {
    match largest(images) {
        Some(image) => crate::model::format::image_label_text(image) + " ("@
            + crate::model::format::bytes_text(image.size as int) + ")"@,
        None => "none"@,
    }
}

fn largest_line(images: &[ImageSummary]) -> (line: String)
    ensures
        line@ == largest_text(images.deep_view()),
{
    let ghost all = images.deep_view();
    let mut best: Option<&ImageSummary> = None;
    let mut i: usize = 0;
    assert(all.take(0) =~= seq![]);
    while i < images.len()
        invariant
            i <= images@.len(),
            all == images.deep_view(),
            best.deep_view() == largest(all.take(i as int)),
        decreases images@.len() - i,
    {
        proof {
            assert(all.take(i + 1).drop_last() =~= all.take(i as int));
            assert(all.take(i + 1).last() == images@[i as int].deep_view());
        }
        best = match best {
            Some(before) => if before.size > images[i].size {
                Some(before)
            } else {
                Some(&images[i])
            },
            None => Some(&images[i]),
        };
        i += 1;
    }
    assert(all.take(all.len() as int) =~= all);
    match best {
        Some(image) => image_label(image).concat(" (").concat(bytes(image.size).as_str()).concat(
            ")",
        ),
        None => "none".to_owned(),
    }
}

/// How many images carry no tag.
pub open spec fn untagged_count(images: Seq<ImageView>) -> nat {
    images.filter(|i: ImageView| crate::model::format::untagged(i)).len()
}

fn count_untagged(images: &[ImageSummary]) -> (count: usize)
    ensures
        count == untagged_count(images.deep_view()),
        count <= images@.len(),
{
    let ghost all = images.deep_view();
    let ghost p = |i: ImageView| crate::model::format::untagged(i);
    let mut count: usize = 0;
    let mut i: usize = 0;
    proof {
        lists::lemma_filter_ends(all, p);
    }
    while i < images.len()
        invariant
            i <= images@.len(),
            all == images.deep_view(),
            p == (|i: ImageView| crate::model::format::untagged(i)),
            count == all.take(i as int).filter(p).len(),
            count <= i,
        decreases images@.len() - i,
    {
        proof {
            lists::lemma_filter_step(all, p, i as int);
        }
        if is_untagged(&images[i]) {
            count += 1;
        }
        i += 1;
    }
    proof {
        lists::lemma_filter_ends(all, p);
    }
    count
}

fn count_used(images: &[ImageSummary], containers: &[ContainerSummary]) -> (count: usize)
    ensures
        count == action::in_use_count(images.deep_view(), containers.deep_view()),
{
    let ghost all = images.deep_view();
    let ghost p = |i: ImageView| relations::users_of(i, containers.deep_view()).len() > 0;
    let mut count: usize = 0;
    let mut i: usize = 0;
    proof {
        lists::lemma_filter_ends(all, p);
    }
    while i < images.len()
        invariant
            i <= images@.len(),
            all == images.deep_view(),
            p == (|i: ImageView| relations::users_of(i, containers.deep_view()).len() > 0),
            count == all.take(i as int).filter(p).len(),
            count <= i,
        decreases images@.len() - i,
    {
        proof {
            lists::lemma_filter_step(all, p, i as int);
        }
        let users = containers_of(&images[i], containers);
        assert(users.deep_view().len() == users@.len());
        if users.len() > 0 {
            count += 1;
        }
        i += 1;
    }
    proof {
        lists::lemma_filter_ends(all, p);
    }
    count
}

fn size_of_all(images: &[ImageSummary]) -> (size: i64)
    requires
        engine::sum_fits(action::sizes_of(images.deep_view())),
    ensures
        size == engine::sum(action::sizes_of(images.deep_view())),
{
    let ghost to = action::sizes_of(images.deep_view());
    let mut sizes: Vec<i64> = Vec::new();
    let mut i: usize = 0;
    assert(sizes@ =~= to.take(0));
    while i < images.len()
        invariant
            i <= images@.len(),
            to == action::sizes_of(images.deep_view()),
            sizes@ == to.take(i as int),
        decreases images@.len() - i,
    {
        sizes.push(images[i].size);
        i += 1;
        assert(sizes@ =~= to.take(i as int));
    }
    assert(sizes@ =~= to);
    total(&sizes)
}

/// The rows that sum the images up. The combined size counts a layer once for every
/// image that holds it; the daemon's own figure, where there is one, counts it once.
pub open spec fn image_summary(cx: ContextView) -> Seq<DetailRowView> {
    seq![
        plain_row("Images"@, text::decimal(cx.images.len())),
        plain_row(
            "Combined size"@,
            crate::model::format::bytes_text(engine::sum(action::sizes_of(cx.images))),
        ),
    ] + (match cx.disk.images {
        Some(disk) => seq![
            plain_row("On disk"@, crate::model::format::bytes_text(disk.size as int)),
            plain_row("Reclaimable"@, crate::model::format::bytes_text(disk.reclaimable as int)),
        ],
        None => seq![],
    }) + seq![
        plain_row("Largest"@, largest_text(cx.images)),
        plain_row("Untagged"@, text::decimal(untagged_count(cx.images))),
        plain_row(
            "Used by containers"@,
            text::decimal(action::in_use_count(cx.images, cx.containers)),
        ),
    ]
}

/// The tagged-only / everything toggle of the images.
pub open spec fn tagged_toggle(cx: ContextView) -> FilterView {
    let tagged = (cx.images.len() - untagged_count(cx.images)) as nat;
    FilterView {
        kind: FilterKind::UntaggedImages,
        showing_all: cx.show_untagged,
        narrow_label: "Tagged ("@ + text::decimal(tagged) + ")"@,
        all_label: "All ("@ + text::decimal(cx.images.len()) + ")"@,
        visible_rows: table::rows_for(
            if cx.show_untagged {
                cx.images.len()
            } else {
                tagged
            },
        ),
    }
}

/// The page of the images.
pub open spec fn images_page(cx: ContextView) -> PageView {
    PageView {
        title: "Images"@,
        subtitle: Some("Images available on the local device"@),
        groups: seq![GroupView { title: "Summary"@, rows: image_summary(cx) }],
        table: Some(table::images_table(cx.images, cx.containers, cx.now, cx.show_untagged)),
        table_first: true,
        table_filter: Some(tagged_toggle(cx)),
        table_summary: None,
        raw: None,
        actions: seq![],
    }
}

/// The Images node: every image as a table, with a summary beneath it.
#[must_use]
pub fn images(cx: &Context<'_>) -> (page: DetailPage)
    requires
        engine::sum_fits(action::sizes_of(cx.deep_view().images)),
    ensures
        page.deep_view() == images_page(cx.deep_view()),
{
    assert(cx.images.deep_view().len() == cx.images@.len());
    let count: usize = cx.images.len();
    let untagged: usize = count_untagged(cx.images);
    let tagged: usize = count - untagged;
    let mut rows: Vec<DetailRow> = Vec::new();
    put(&mut rows, row("Images", count_text(count)));
    put(&mut rows, row("Combined size", bytes(size_of_all(cx.images))));
    if let Some(disk) = cx.disk.images {
        put(&mut rows, row("On disk", bytes(disk.size)));
        put(&mut rows, row("Reclaimable", bytes(disk.reclaimable)));
    }
    put(&mut rows, row("Largest", largest_line(cx.images)));
    put(&mut rows, row("Untagged", count_text(untagged)));
    put(
        &mut rows,
        row("Used by containers", count_text(count_used(cx.images, cx.containers))),
    );
    assert(rows.deep_view() =~= image_summary(cx.deep_view()));
    let mut groups: Vec<DetailGroup> = Vec::new();
    put(&mut groups, group("Summary", rows));
    assert(groups.deep_view() =~= images_page(cx.deep_view()).groups);
    let actions: Vec<Offer> = Vec::new();
    assert(actions.deep_view() =~= seq![]);
    let shown: usize = if cx.show_untagged {
        count
    } else {
        tagged
    };
    DetailPage {
        title: "Images".to_owned(),
        subtitle: Some("Images available on the local device".to_owned()),
        groups,
        table: Some(images_filtered(cx.images, cx.containers, cx.now, cx.show_untagged)),
        table_first: true,
        table_filter: Some(
            TableFilter {
                kind: FilterKind::UntaggedImages,
                showing_all: cx.show_untagged,
                narrow_label: "Tagged (".to_owned().concat(count_text(tagged).as_str()).concat(
                    ")",
                ),
                all_label: "All (".to_owned().concat(count_text(count).as_str()).concat(")"),
                visible_rows: visible_rows(shown),
            },
        ),
        table_summary: None,
        raw: None,
        actions,
    }
}

// -------------------------------------------------------------- the containers

/// How many containers are in a state.
pub open spec fn count_in(containers: Seq<ContainerView>, state: ContainerState) -> nat {
    containers.filter(|c: ContainerView| c.state == state).len()
}

/// Whether a state has no row of its own in the summary.
pub open spec fn is_other(state: ContainerState) -> bool {
    !(state is Running || state is Paused || state is Exited || state is Created)
}

/// How many containers are in a state that has no row of its own.
pub open spec fn count_other(containers: Seq<ContainerView>) -> nat {
    containers.filter(|c: ContainerView| is_other(c.state)).len()
}

/// How many containers there are of each kind that the summary tells apart.
struct StateCounts {
    running: usize,
    paused: usize,
    exited: usize,
    created: usize,
    other: usize,
}

fn count_states(containers: &[ContainerSummary]) -> (counts: StateCounts)
    ensures
        counts.running == count_in(containers.deep_view(), ContainerState::Running),
        counts.paused == count_in(containers.deep_view(), ContainerState::Paused),
        counts.exited == count_in(containers.deep_view(), ContainerState::Exited),
        counts.created == count_in(containers.deep_view(), ContainerState::Created),
        counts.other == count_other(containers.deep_view()),
{
    let ghost all = containers.deep_view();
    let ghost running = |c: ContainerView| c.state == ContainerState::Running;
    let ghost paused = |c: ContainerView| c.state == ContainerState::Paused;
    let ghost exited = |c: ContainerView| c.state == ContainerState::Exited;
    let ghost created = |c: ContainerView| c.state == ContainerState::Created;
    let ghost other = |c: ContainerView| is_other(c.state);
    let mut counts = StateCounts { running: 0, paused: 0, exited: 0, created: 0, other: 0 };
    let mut i: usize = 0;
    proof {
        lists::lemma_filter_ends(all, running);
        lists::lemma_filter_ends(all, paused);
        lists::lemma_filter_ends(all, exited);
        lists::lemma_filter_ends(all, created);
        lists::lemma_filter_ends(all, other);
    }
    while i < containers.len()
        invariant
            i <= containers@.len(),
            all == containers.deep_view(),
            running == (|c: ContainerView| c.state == ContainerState::Running),
            paused == (|c: ContainerView| c.state == ContainerState::Paused),
            exited == (|c: ContainerView| c.state == ContainerState::Exited),
            created == (|c: ContainerView| c.state == ContainerState::Created),
            other == (|c: ContainerView| is_other(c.state)),
            counts.running == all.take(i as int).filter(running).len() <= i,
            counts.paused == all.take(i as int).filter(paused).len() <= i,
            counts.exited == all.take(i as int).filter(exited).len() <= i,
            counts.created == all.take(i as int).filter(created).len() <= i,
            counts.other == all.take(i as int).filter(other).len() <= i,
        decreases containers@.len() - i,
    {
        proof {
            lists::lemma_filter_step(all, running, i as int);
            lists::lemma_filter_step(all, paused, i as int);
            lists::lemma_filter_step(all, exited, i as int);
            lists::lemma_filter_step(all, created, i as int);
            lists::lemma_filter_step(all, other, i as int);
            assert(all[i as int] == containers@[i as int].deep_view());
        }
        match containers[i].state {
            ContainerState::Running => {
                counts.running = counts.running + 1;
            },
            ContainerState::Paused => {
                counts.paused = counts.paused + 1;
            },
            ContainerState::Exited => {
                counts.exited = counts.exited + 1;
            },
            ContainerState::Created => {
                counts.created = counts.created + 1;
            },
            _ => {
                counts.other = counts.other + 1;
            },
        }
        i += 1;
    }
    proof {
        lists::lemma_filter_ends(all, running);
        lists::lemma_filter_ends(all, paused);
        lists::lemma_filter_ends(all, exited);
        lists::lemma_filter_ends(all, created);
        lists::lemma_filter_ends(all, other);
    }
    counts
}

proof fn lemma_counts_add_up(containers: Seq<ContainerView>)
    ensures
        count_in(containers, ContainerState::Running) + count_in(containers, ContainerState::Paused)
            + count_in(containers, ContainerState::Exited) + count_in(
            containers,
            ContainerState::Created,
        ) + count_other(containers) == containers.len(),
    decreases containers.len(),
{
    reveal(Seq::filter);
    if containers.len() > 0 {
        lemma_counts_add_up(containers.drop_last());
    }
}

/// The rows of the summary account for every container once.
pub proof fn law_every_container_is_counted_once(containers: Seq<ContainerView>)
    ensures
        count_in(containers, ContainerState::Running) + count_in(containers, ContainerState::Paused)
            + count_in(containers, ContainerState::Exited) + count_in(
            containers,
            ContainerState::Created,
        ) + count_other(containers) == containers.len(),
{
    lemma_counts_add_up(containers);
}

/// The rows that sum the containers up.
pub open spec fn container_summary(containers: Seq<ContainerView>) -> Seq<DetailRowView> {
    seq![
        plain_row("Containers"@, text::decimal(containers.len())),
        plain_row("Running"@, text::decimal(count_in(containers, ContainerState::Running))),
        plain_row("Paused"@, text::decimal(count_in(containers, ContainerState::Paused))),
        plain_row("Exited"@, text::decimal(count_in(containers, ContainerState::Exited))),
        plain_row("Created"@, text::decimal(count_in(containers, ContainerState::Created))),
        plain_row("Other"@, text::decimal(count_other(containers))),
    ]
}

/// The page of the containers.
pub open spec fn containers_page(cx: ContextView) -> PageView {
    PageView {
        title: "Containers"@,
        subtitle: Some("Containers on the local device, running and stopped"@),
        groups: seq![GroupView { title: "Summary"@, rows: container_summary(cx.containers) }],
        table: Some(table::containers_table(cx.containers, cx.now, cx.show_stopped)),
        table_first: true,
        table_filter: Some(running_toggle(cx)),
        table_summary: Some("Memory in use: "@ + memory_text(cx.containers, cx.stats, None)),
        raw: None,
        actions: seq![],
    }
}

/// The Containers node: every container as a table, with a summary beneath it.
#[must_use]
pub fn containers(cx: &Context<'_>) -> (page: DetailPage)
    requires
        metrics::measured_bytes(cx.deep_view().stats, cx.deep_view().containers) <= i64::MAX,
    ensures
        page.deep_view() == containers_page(cx.deep_view()),
{
    assert(cx.containers.deep_view().len() == cx.containers@.len());
    let counts = count_states(cx.containers);
    let mut rows: Vec<DetailRow> = Vec::new();
    put(&mut rows, row("Containers", count_text(cx.containers.len())));
    put(&mut rows, row("Running", count_text(counts.running)));
    put(&mut rows, row("Paused", count_text(counts.paused)));
    put(&mut rows, row("Exited", count_text(counts.exited)));
    put(&mut rows, row("Created", count_text(counts.created)));
    put(&mut rows, row("Other", count_text(counts.other)));
    assert(rows.deep_view() =~= container_summary(cx.deep_view().containers));
    let mut groups: Vec<DetailGroup> = Vec::new();
    put(&mut groups, group("Summary", rows));
    assert(groups.deep_view() =~= containers_page(cx.deep_view()).groups);
    let actions: Vec<Offer> = Vec::new();
    assert(actions.deep_view() =~= seq![]);
    let memory = "Memory in use: ".to_owned().concat(
        memory_in_use(cx.containers, cx.stats, None).as_str(),
    );
    DetailPage {
        title: "Containers".to_owned(),
        subtitle: Some("Containers on the local device, running and stopped".to_owned()),
        groups,
        table: Some(containers_filtered(cx.containers, cx.now, cx.show_stopped)),
        table_first: true,
        table_filter: Some(running_filter(cx)),
        table_summary: Some(memory),
        raw: None,
        actions,
    }
}

// ------------------------------------------------------------------- one image

/// The rows on an image's size. A negative shared size is how the daemon says that it
/// has not worked it out.
pub open spec fn storage_of(image: ImageView, now: i64, east: i32) -> Seq<DetailRowView> {
    seq![plain_row("Size"@, crate::model::format::bytes_text(image.size as int))] + (if
    image.shared_size >= 0 {
        seq![
            plain_row("Shared size"@, crate::model::format::bytes_text(image.shared_size as int)),
        ]
    } else {
        seq![]
    }) + seq![
        plain_row("Created"@, crate::model::format::instant_text(image.created, now, east)),
    ]
}

fn storage_rows(image: &ImageSummary, now: i64, east: i32) -> (rows: Vec<DetailRow>)
    requires
        -86_400 < east < 86_400,
    ensures
        rows.deep_view() == storage_of(image.deep_view(), now, east),
{
    let mut rows: Vec<DetailRow> = Vec::new();
    put(&mut rows, row("Size", bytes(image.size)));
    if image.shared_size >= 0 {
        put(&mut rows, row("Shared size", bytes(image.shared_size)));
    }
    put(&mut rows, row("Created", instant(image.created, now, east)));
    assert(rows.deep_view() =~= storage_of(image.deep_view(), now, east));
    rows
}

/// A container as something to navigate to.
pub open spec fn container_link(container: ContainerView) -> DetailRowView {
    linked_row(
        crate::model::format::container_label_text(container),
        engine::state_label(container.state),
        NodeKey::Container(container.id),
    )
}

/// Containers, each one navigable.
fn container_links(containers: &Vec<&ContainerSummary>) -> (rows: Vec<DetailRow>)
    ensures
        rows.deep_view() == containers.deep_view().map_values(|c: ContainerView| container_link(c)),
{
    let ghost to = containers.deep_view().map_values(|c: ContainerView| container_link(c));
    let mut rows: Vec<DetailRow> = Vec::new();
    let mut i: usize = 0;
    assert(rows.deep_view() =~= to.take(0));
    while i < containers.len()
        invariant
            i <= containers@.len(),
            to == containers.deep_view().map_values(|c: ContainerView| container_link(c)),
            rows.deep_view() == to.take(i as int),
        decreases containers@.len() - i,
    {
        let container = containers[i];
        put(
            &mut rows,
            link_row(
                container_label(container),
                container.state.label().to_owned(),
                NodeId::Container(container.id.clone()),
            ),
        );
        i += 1;
        assert(rows.deep_view() =~= to.take(i as int));
    }
    assert(rows.deep_view() =~= to);
    rows
}

/// The rows on the containers built from an image.
pub open spec fn users_rows(image: ImageView, containers: Seq<ContainerView>) -> Seq<
    DetailRowView,
> {
    let users = relations::users_of(image, containers);
    if users.len() == 0 {
        seq![plain_row("Containers"@, "none"@)]
    } else {
        users.map_values(|c: ContainerView| container_link(c))
    }
}

/// The containers built from an image, each one navigable.
fn using_group(image: &ImageSummary, cx: &Context<'_>) -> (shown: DetailGroup)
    ensures
        shown.deep_view() == (GroupView {
            title: "Used by"@,
            rows: users_rows(image.deep_view(), cx.deep_view().containers),
        }),
{
    let users = containers_of(image, cx.containers);
    assert(users.deep_view().len() == users@.len());
    if users.len() == 0 {
        let mut rows: Vec<DetailRow> = Vec::new();
        put(&mut rows, row("Containers", "none".to_owned()));
        assert(rows.deep_view() =~= users_rows(image.deep_view(), cx.deep_view().containers));
        return group("Used by", rows);
    }
    group("Used by", container_links(&users))
}

/// How many layers an image adds, in words.
pub open spec fn layers_text(count: nat) -> Seq<char> {
    if count == 1 {
        "adds 1 layer"@
    } else {
        "adds "@ + text::decimal(count) + " layers"@
    }
}

fn layers_added(count: usize) -> (line: String)
    ensures
        line@ == layers_text(count as nat),
{
    if count == 1 {
        "adds 1 layer".to_owned()
    } else {
        "adds ".to_owned().concat(count_text(count).as_str()).concat(" layers")
    }
}

/// An image as something to navigate to.
pub open spec fn image_link(image: ImageView, value: Seq<char>) -> DetailRowView {
    linked_row(crate::model::format::image_label_text(image), value, NodeKey::Image(image.id))
}

fn image_link_row(image: &ImageSummary, value: String) -> (shown: DetailRow)
    ensures
        shown.deep_view() == image_link(image.deep_view(), value@),
{
    link_row(image_label(image), value, NodeId::Image(image.id.clone()))
}

/// What is said of the image that an image was built on.
pub open spec fn base_text(shared: nat, own: nat) -> Seq<char> {
    "the image this was built FROM \u{2014} "@ + text::decimal(shared) + " of these "@
        + text::decimal(own) + " layers come from it"@
}

/// What is said of an image that was built on an image with `own` layers.
pub open spec fn derived_text(depth: nat, own: nat) -> Seq<char> {
    "built FROM this image \u{2014} "@ + layers_text(
        if depth > own {
            (depth - own) as nat
        } else {
            0
        },
    )
}

/// The rows on the images that an image is related to: its base, what was built on it,
/// and its twins.
pub open spec fn related_rows(image: ImageView, images: Seq<ImageView>, layers: Layers) -> Seq<
    DetailRowView,
> {
    let own = relations::depth(image, layers);
    (match relations::base(image, images, layers) {
        Some(base) => seq![image_link(base, base_text(relations::depth(base, layers), own))],
        None => seq![],
    }) + relations::built_on(image, images, layers).map_values(
        |c: ImageView| image_link(c, derived_text(relations::depth(c, layers), own)),
    ) + relations::twins(image, images, layers).map_values(
        |t: ImageView| image_link(t, "identical layers, different metadata"@),
    )
}

/// A group, unless it would be empty.
pub open spec fn if_any(title: Seq<char>, rows: Seq<DetailRowView>) -> Seq<GroupView> {
    if rows.len() == 0 {
        seq![]
    } else {
        seq![GroupView { title, rows }]
    }
}

fn put_if_any(groups: &mut Vec<DetailGroup>, title: &str, rows: Vec<DetailRow>)
    ensures
        final(groups).deep_view() == old(groups).deep_view() + if_any(title@, rows.deep_view()),
{
    assert(rows.deep_view().len() == rows@.len());
    if rows.len() > 0 {
        put(groups, group(title, rows));
    }
    assert(groups.deep_view() =~= old(groups).deep_view() + if_any(title@, rows.deep_view()));
}

/// Derivation, reconstructed from shared layer prefixes rather than from what the daemon
/// records of parents, which modern builders leave empty.
fn related_images(image: &ImageSummary, cx: &Context<'_>) -> (rows: Vec<DetailRow>)
    ensures
        rows.deep_view() == related_rows(
            image.deep_view(),
            cx.deep_view().images,
            cx.deep_view().layers,
        ),
{
    let ghost me = image.deep_view();
    let ghost known = cx.deep_view().layers;
    let own: usize = depth_of(image, cx.layers);
    let mut rows: Vec<DetailRow> = Vec::new();
    assert(rows.deep_view() =~= seq![]);
    if let Some(base) = base_of(image, cx.images, cx.layers) {
        let shared: usize = depth_of(base, cx.layers);
        let value = "the image this was built FROM \u{2014} ".to_owned().concat(
            count_text(shared).as_str(),
        ).concat(" of these ").concat(count_text(own).as_str()).concat(" layers come from it");
        put(&mut rows, image_link_row(base, value));
    }
    let ghost head = rows.deep_view();
    let ghost f = |c: ImageView| image_link(c, derived_text(relations::depth(c, known), own as nat));
    let children = derived_from(image, cx.images, cx.layers);
    let ghost to = children.deep_view().map_values(f);
    let mut i: usize = 0;
    assert(rows.deep_view() =~= head + to.take(0));
    while i < children.len()
        invariant
            i <= children@.len(),
            known == cx.layers.deep_view(),
            f == (|c: ImageView|
                image_link(c, derived_text(relations::depth(c, known), own as nat))),
            to == children.deep_view().map_values(f),
            rows.deep_view() == head + to.take(i as int),
        decreases children@.len() - i,
    {
        let child = children[i];
        let depth: usize = depth_of(child, cx.layers);
        let added: usize = if depth > own {
            depth - own
        } else {
            0
        };
        let value = "built FROM this image \u{2014} ".to_owned().concat(
            layers_added(added).as_str(),
        );
        assert(to[i as int] == f(child.deep_view()));
        put(&mut rows, image_link_row(child, value));
        i += 1;
        assert(rows.deep_view() =~= head + to.take(i as int));
    }
    assert(rows.deep_view() =~= head + to);
    let ghost trunk = rows.deep_view();
    let ghost g = |t: ImageView| image_link(t, "identical layers, different metadata"@);
    let twins = same_layers_as(image, cx.images, cx.layers);
    let ghost more = twins.deep_view().map_values(g);
    let mut k: usize = 0;
    assert(rows.deep_view() =~= trunk + more.take(0));
    while k < twins.len()
        invariant
            k <= twins@.len(),
            g == (|t: ImageView| image_link(t, "identical layers, different metadata"@)),
            more == twins.deep_view().map_values(g),
            rows.deep_view() == trunk + more.take(k as int),
        decreases twins@.len() - k,
    {
        assert(more[k as int] == g(twins@[k as int].deep_view()));
        put(
            &mut rows,
            image_link_row(twins[k], "identical layers, different metadata".to_owned()),
        );
        k += 1;
        assert(rows.deep_view() =~= trunk + more.take(k as int));
    }
    assert(rows.deep_view() =~= trunk + more);
    assert(rows.deep_view() =~= related_rows(me, cx.deep_view().images, known));
    rows
}

/// The rows on an object's labels, in the order of their keys.
pub open spec fn label_rows(labels: Seq<(Seq<char>, Seq<char>)>) -> Seq<DetailRowView> {
    labels.map_values(|label: (Seq<char>, Seq<char>)| plain_row(label.0, label.1))
}

fn rows_of_labels(labels: &TextMap<String>) -> (rows: Vec<DetailRow>)
    ensures
        rows.deep_view() == label_rows(labels.deep_view()),
{
    let ghost to = label_rows(labels.deep_view());
    let count: usize = labels.len();
    let mut rows: Vec<DetailRow> = Vec::new();
    let mut i: usize = 0;
    assert(rows.deep_view() =~= to.take(0));
    while i < count
        invariant
            i <= count,
            count == labels@.len(),
            count == labels.deep_view().len(),
            to == label_rows(labels.deep_view()),
            rows.deep_view() == to.take(i as int),
        decreases count - i,
    {
        put(&mut rows, row(labels.key_at(i), labels.value_at(i).clone()));
        i += 1;
        assert(rows.deep_view() =~= to.take(i as int));
    }
    assert(rows.deep_view() =~= to);
    rows
}

/// The groups of an image's page.
pub open spec fn image_groups(image: ImageView, cx: ContextView) -> Seq<GroupView> {
    seq![
        GroupView {
            title: "Identity"@,
            rows: seq![
                plain_row("Tags"@, crate::model::format::list_text(image.repo_tags)),
                plain_row("ID"@, crate::model::format::short_text(image.id)),
                plain_row("Digests"@, crate::model::format::list_text(image.repo_digests)),
            ],
        },
        GroupView { title: "Storage"@, rows: storage_of(image, cx.now, cx.offset) },
        GroupView { title: "Used by"@, rows: users_rows(image, cx.containers) },
    ] + if_any("Related images"@, related_rows(image, cx.images, cx.layers)) + if_any(
        "Labels"@,
        label_rows(image.labels),
    )
}

/// The page of an image.
pub open spec fn image_page(image: ImageView, cx: ContextView) -> PageView {
    PageView {
        title: crate::model::format::image_label_text(image),
        subtitle: if crate::model::format::untagged(image) {
            Some("untagged"@)
        } else {
            Some(crate::model::format::short_text(image.id))
        },
        groups: image_groups(image, cx),
        table: None,
        table_first: false,
        table_filter: None,
        table_summary: None,
        raw: raw_text(cx.raw),
        actions: action::image_offers(image, cx.containers),
    }
}

/// One image, with its relationships to containers and to other images.
#[must_use]
pub fn image(shown: &ImageSummary, cx: &Context<'_>) -> (page: DetailPage)
    requires
        -86_400 < cx.offset < 86_400,
    ensures
        page.deep_view() == image_page(shown.deep_view(), cx.deep_view()),
{
    let mut identity: Vec<DetailRow> = Vec::new();
    put(&mut identity, row("Tags", list_or_none(slice_of(&shown.repo_tags))));
    put(&mut identity, row("ID", short_id(shown.id.as_str())));
    put(&mut identity, row("Digests", list_or_none(slice_of(&shown.repo_digests))));
    assert(identity.deep_view() =~= image_groups(shown.deep_view(), cx.deep_view())[0].rows);
    let mut groups: Vec<DetailGroup> = Vec::new();
    put(&mut groups, group("Identity", identity));
    put(&mut groups, group("Storage", storage_rows(shown, cx.now, cx.offset)));
    put(&mut groups, using_group(shown, cx));
    put_if_any(&mut groups, "Related images", related_images(shown, cx));
    put_if_any(&mut groups, "Labels", rows_of_labels(&shown.labels));
    assert(groups.deep_view() =~= image_groups(shown.deep_view(), cx.deep_view()));
    let subtitle = if is_untagged(shown) {
        "untagged".to_owned()
    } else {
        short_id(shown.id.as_str())
    };
    DetailPage {
        title: image_label(shown),
        subtitle: Some(subtitle),
        groups,
        table: None,
        table_first: false,
        table_filter: None,
        table_summary: None,
        raw: raw_json(cx.raw),
        actions: for_image(shown, cx.containers),
    }
}

// --------------------------------------------------------------- one container

/// A mount in words.
pub open spec fn mount_text(mount: MountView) -> Seq<char> {
    crate::model::format::known_text(mount.source) + " \u{2192} "@
        + crate::model::format::known_text(mount.destination) + (if mount.read_write {
        ""@
    } else {
        " (read-only)"@
    })
}

/// The mounts of a container in words.
pub open spec fn mounts_text(mounts: Seq<MountView>) -> Seq<char> {
    crate::model::format::list_text(mounts.map_values(|m: MountView| mount_text(m)))
}

fn mount_shown(mount: &MountSummary) -> (line: String)
    ensures
        line@ == mount_text(mount.deep_view()),
{
    let suffix = if mount.read_write {
        ""
    } else {
        " (read-only)"
    };
    text_or_unknown(mount.source.as_str()).concat(" \u{2192} ").concat(
        text_or_unknown(mount.destination.as_str()).as_str(),
    ).concat(suffix)
}

fn mounts_shown(mounts: &Vec<MountSummary>) -> (line: String)
    ensures
        line@ == mounts_text(mounts.deep_view()),
{
    let ghost to = mounts.deep_view().map_values(|m: MountView| mount_text(m));
    let mut lines: Vec<String> = Vec::new();
    let mut i: usize = 0;
    assert(lines.deep_view() =~= to.take(0));
    while i < mounts.len()
        invariant
            i <= mounts@.len(),
            to == mounts.deep_view().map_values(|m: MountView| mount_text(m)),
            lines.deep_view() == to.take(i as int),
        decreases mounts@.len() - i,
    {
        put(&mut lines, mount_shown(&mounts[i]));
        i += 1;
        assert(lines.deep_view() =~= to.take(i as int));
    }
    assert(lines.deep_view() =~= to);
    list_or_none(slice_of(&lines))
}

/// The rows on what a container is.
pub open spec fn identity_of(container: ContainerView, now: i64, east: i32) -> Seq<DetailRowView> {
    seq![
        plain_row("Name"@, crate::model::format::list_text(container.names)),
        plain_row("ID"@, crate::model::format::short_text(container.id)),
        plain_row("Image"@, crate::model::format::known_text(container.image)),
        plain_row("Image ID"@, crate::model::format::short_text(container.image_id)),
        plain_row("Command"@, crate::model::format::known_text(container.command)),
        plain_row("Created"@, crate::model::format::instant_text(container.created, now, east)),
    ]
}

/// The rows on the image that a container runs and, when they have diverged, the image
/// that its reference names now.
pub open spec fn image_rows(container: ContainerView, images: Seq<ImageView>) -> Seq<
    DetailRowView,
> {
    (match relations::running(container, images) {
        Some(image) => seq![image_link(image, "the image this container is running"@)],
        None => seq![
            plain_row(
                "Running image"@,
                crate::model::format::short_text(container.image_id)
                    + " \u{2014} no longer present"@,
            ),
        ],
    }) + (match relations::tagged(container, images) {
        Some(tagged) => if relations::moved(container, images) {
            seq![
                image_link(
                    tagged,
                    "what "@ + container.image
                        + " refers to now \u{2014} this container predates it"@,
                ),
            ]
        } else {
            seq![]
        },
        None => seq![],
    })
}

/// The image a container runs, and the different image that its reference may name now.
/// A container relates to two images exactly when a later pull or build moved the tag
/// out from under it.
fn image_group(container: &ContainerSummary, cx: &Context<'_>) -> (shown: DetailGroup)
    ensures
        shown.deep_view() == (GroupView {
            title: "Image"@,
            rows: image_rows(container.deep_view(), cx.deep_view().images),
        }),
{
    let mut rows: Vec<DetailRow> = Vec::new();
    match running_image(container, cx.images) {
        Some(image) => {
            put(
                &mut rows,
                image_link_row(image, "the image this container is running".to_owned()),
            );
        },
        None => {
            let gone = short_id(container.image_id.as_str()).concat(
                " \u{2014} no longer present",
            );
            put(&mut rows, row("Running image", gone));
        },
    }
    if let Some(tagged) = tagged_image(container, cx.images) {
        if !same(tagged.id.as_str(), container.image_id.as_str()) {
            let value = "what ".to_owned().concat(container.image.as_str()).concat(
                " refers to now \u{2014} this container predates it",
            );
            put(&mut rows, image_link_row(tagged, value));
        }
    }
    assert(rows.deep_view() =~= image_rows(container.deep_view(), cx.deep_view().images));
    group("Image", rows)
}

/// The rows on what a container holds, for one that is executing. A stopped one holds
/// nothing, and says nothing of it.
pub open spec fn memory_rows(
    container: ContainerView,
    samples: Seq<(Seq<char>, StatsView)>,
) -> Seq<DetailRowView> {
    if !engine::active(container.state) {
        seq![]
    } else {
        seq![
            plain_row(
                "In use"@,
                match ordered::lookup(samples, container.id) {
                    Some(stats) => if stats.memory_usage >= 0 {
                        crate::model::format::share_text(
                            stats.memory_usage as int,
                            stats.memory_limit as int,
                        )
                    } else {
                        "not measured yet"@
                    },
                    None => "not measured yet"@,
                },
            ),
        ]
    }
}

fn rows_of_memory(container: &ContainerSummary, cx: &Context<'_>) -> (rows: Vec<DetailRow>)
    ensures
        rows.deep_view() == memory_rows(container.deep_view(), cx.deep_view().stats),
{
    let mut rows: Vec<DetailRow> = Vec::new();
    assert(rows.deep_view() =~= seq![]);
    if container.state.is_active() {
        let held = match cx.stats.get(container.id.as_str()) {
            Some(stats) => if stats.has_memory() {
                share(stats.memory_usage, stats.memory_limit)
            } else {
                "not measured yet".to_owned()
            },
            None => "not measured yet".to_owned(),
        };
        put(&mut rows, row("In use", held));
    }
    assert(rows.deep_view() =~= memory_rows(container.deep_view(), cx.deep_view().stats));
    rows
}

/// The other containers built from the same image.
pub open spec fn siblings(container: ContainerView, containers: Seq<ContainerView>) -> Seq<
    ContainerView,
> {
    containers.filter(
        |c: ContainerView| c.id != container.id && c.image_id == container.image_id,
    )
}

/// Other containers built from the same image.
fn siblings_of<'a>(container: &ContainerSummary, cx: &Context<'a>) -> (others: Vec<
    &'a ContainerSummary,
>)
    ensures
        others.deep_view() == siblings(container.deep_view(), cx.deep_view().containers),
{
    let ghost all = cx.containers.deep_view();
    let ghost me = container.deep_view();
    let ghost p = |c: ContainerView| c.id != me.id && c.image_id == me.image_id;
    let containers = cx.containers;
    let mut others: Vec<&ContainerSummary> = Vec::new();
    let mut i: usize = 0;
    proof {
        lists::lemma_filter_ends(all, p);
    }
    while i < containers.len()
        invariant
            i <= containers@.len(),
            all == containers.deep_view(),
            me == container.deep_view(),
            p == (|c: ContainerView| c.id != me.id && c.image_id == me.image_id),
            others.deep_view() == all.take(i as int).filter(p),
        decreases containers@.len() - i,
    {
        proof {
            lists::lemma_filter_step(all, p, i as int);
        }
        let other = &containers[i];
        if !same(other.id.as_str(), container.id.as_str()) && same(
            other.image_id.as_str(),
            container.image_id.as_str(),
        ) {
            put(&mut others, other);
        }
        i += 1;
    }
    proof {
        lists::lemma_filter_ends(all, p);
    }
    others
}

/// The groups of a container's page.
pub open spec fn container_groups(container: ContainerView, cx: ContextView) -> Seq<GroupView> {
    seq![
        GroupView { title: "Identity"@, rows: identity_of(container, cx.now, cx.offset) },
        GroupView {
            title: "State"@,
            rows: seq![
                plain_row("State"@, engine::state_label(container.state)),
                plain_row("Status"@, crate::model::format::known_text(container.status)),
            ],
        },
        GroupView { title: "Image"@, rows: image_rows(container, cx.images) },
        GroupView {
            title: "Networking"@,
            rows: seq![
                plain_row("Ports"@, table::ports_text(container.ports)),
                plain_row("Networks"@, crate::model::format::list_text(container.networks)),
            ],
        },
        GroupView {
            title: "Storage"@,
            rows: seq![plain_row("Mounts"@, mounts_text(container.mounts))],
        },
    ] + if_any("Memory"@, memory_rows(container, cx.stats)) + if_any(
        "Others from the same image"@,
        siblings(container, cx.containers).map_values(|c: ContainerView| container_link(c)),
    ) + if_any("Labels"@, label_rows(container.labels))
}

/// The page of a container.
pub open spec fn container_page(container: ContainerView, cx: ContextView) -> PageView {
    PageView {
        title: crate::model::format::container_label_text(container),
        subtitle: Some(
            engine::state_label(container.state) + " \u{2014} "@ + crate::model::format::known_text(
                container.image,
            ),
        ),
        groups: container_groups(container, cx),
        table: None,
        table_first: false,
        table_filter: None,
        table_summary: None,
        raw: raw_text(cx.raw),
        actions: action::container_offers(container, cx.images),
    }
}

/// The groups that every container's page has.
fn container_basics(shown: &ContainerSummary, cx: &Context<'_>) -> (groups: Vec<DetailGroup>)
    requires
        -86_400 < cx.offset < 86_400,
    ensures
        groups.deep_view() == container_groups(shown.deep_view(), cx.deep_view()).take(5),
{
    let mut identity: Vec<DetailRow> = Vec::new();
    put(&mut identity, row("Name", list_or_none(slice_of(&shown.names))));
    put(&mut identity, row("ID", short_id(shown.id.as_str())));
    put(&mut identity, row("Image", text_or_unknown(shown.image.as_str())));
    put(&mut identity, row("Image ID", short_id(shown.image_id.as_str())));
    put(&mut identity, row("Command", text_or_unknown(shown.command.as_str())));
    put(&mut identity, row("Created", instant(shown.created, cx.now, cx.offset)));
    assert(identity.deep_view() =~= identity_of(shown.deep_view(), cx.now, cx.offset));
    let mut state: Vec<DetailRow> = Vec::new();
    put(&mut state, row("State", shown.state.label().to_owned()));
    put(&mut state, row("Status", text_or_unknown(shown.status.as_str())));
    let mut networking: Vec<DetailRow> = Vec::new();
    put(&mut networking, row("Ports", ports_shown(shown)));
    put(&mut networking, row("Networks", list_or_none(slice_of(&shown.networks))));
    let mut storage: Vec<DetailRow> = Vec::new();
    put(&mut storage, row("Mounts", mounts_shown(&shown.mounts)));
    let ghost want = container_groups(shown.deep_view(), cx.deep_view());
    assert(state.deep_view() =~= want[1].rows);
    assert(networking.deep_view() =~= want[3].rows);
    assert(storage.deep_view() =~= want[4].rows);
    let mut groups: Vec<DetailGroup> = Vec::new();
    put(&mut groups, group("Identity", identity));
    put(&mut groups, group("State", state));
    put(&mut groups, image_group(shown, cx));
    put(&mut groups, group("Networking", networking));
    put(&mut groups, group("Storage", storage));
    assert(groups.deep_view() =~= want.take(5));
    groups
}

/// One container, with the image it runs and its siblings.
#[must_use]
pub fn container(shown: &ContainerSummary, cx: &Context<'_>) -> (page: DetailPage)
    requires
        -86_400 < cx.offset < 86_400,
    ensures
        page.deep_view() == container_page(shown.deep_view(), cx.deep_view()),
{
    let mut groups = container_basics(shown, cx);
    put_if_any(&mut groups, "Memory", rows_of_memory(shown, cx));
    let others = siblings_of(shown, cx);
    put_if_any(&mut groups, "Others from the same image", container_links(&others));
    put_if_any(&mut groups, "Labels", rows_of_labels(&shown.labels));
    assert(groups.deep_view() =~= container_groups(shown.deep_view(), cx.deep_view()));
    let subtitle = shown.state.label().to_owned().concat(" \u{2014} ").concat(
        text_or_unknown(shown.image.as_str()).as_str(),
    );
    DetailPage {
        title: container_label(shown),
        subtitle: Some(subtitle),
        groups,
        table: None,
        table_first: false,
        table_filter: None,
        table_summary: None,
        raw: raw_json(cx.raw),
        actions: for_container(shown, cx.images),
    }
}

// ------------------------------------------------------------------------ laws

/// Whether a page leads with a table and offers to filter it.
pub open spec fn leads_with_its_table(page: PageView) -> bool {
    page.table is Some && page.table_first && page.table_filter is Some
}

/// Whether a page has no table and nothing to filter.
pub open spec fn has_no_table(page: PageView) -> bool {
    page.table is None && !page.table_first && page.table_filter is None
}

proof fn lemma_environment_leads_with_its_table(
    environment: EnvironmentView,
    resolved: ResolvedView,
    cx: ContextView,
)
    ensures
        leads_with_its_table(environment_page(environment, resolved, cx)),
{
}

proof fn lemma_images_lead_with_their_table(cx: ContextView)
    ensures
        leads_with_its_table(images_page(cx)),
{
}

proof fn lemma_containers_lead_with_their_table(cx: ContextView)
    ensures
        leads_with_its_table(containers_page(cx)),
{
}

proof fn lemma_image_has_no_table(image: ImageView, cx: ContextView)
    ensures
        has_no_table(image_page(image, cx)),
{
}

proof fn lemma_container_has_no_table(container: ContainerView, cx: ContextView)
    ensures
        has_no_table(container_page(container, cx)),
{
}

/// A page that lists many objects leads with its table and offers its filter; a page of
/// one object has neither.
#[verifier::spinoff_prover]
pub proof fn law_listing_pages_lead_with_their_table(
    environment: EnvironmentView,
    resolved: ResolvedView,
    image: ImageView,
    container: ContainerView,
    cx: ContextView,
)
    ensures
        leads_with_its_table(environment_page(environment, resolved, cx)),
        leads_with_its_table(images_page(cx)),
        leads_with_its_table(containers_page(cx)),
        has_no_table(image_page(image, cx)),
        has_no_table(container_page(container, cx)),
{
    lemma_environment_leads_with_its_table(environment, resolved, cx);
    lemma_images_lead_with_their_table(cx);
    lemma_containers_lead_with_their_table(cx);
    lemma_image_has_no_table(image, cx);
    lemma_container_has_no_table(container, cx);
}

/// The two pages that list containers ask the same question in the same words.
pub proof fn law_container_listings_share_their_filter(
    environment: EnvironmentView,
    resolved: ResolvedView,
    cx: ContextView,
)
    ensures
        environment_page(environment, resolved, cx).table_filter == containers_page(
            cx,
        ).table_filter,
{
}

/// Every warning of the daemon is shown on the environment page.
pub proof fn law_warnings_are_never_hidden(
    environment: EnvironmentView,
    resolved: ResolvedView,
    cx: ContextView,
    at: int,
)
    requires
        0 <= at < environment.warnings.len(),
    ensures
        environment_page(environment, resolved, cx).groups.last() == (GroupView {
            title: "Warnings"@,
            rows: environment.warnings.map_values(|w: Seq<char>| plain_row("Warning"@, w)),
        }),
        environment_page(environment, resolved, cx).groups.last().rows[at] == plain_row(
            "Warning"@,
            environment.warnings[at],
        ),
{
}

/// Every related image that is offered is another image of the listing, never the image
/// that the page describes.
pub proof fn law_related_images_are_other_images(image: ImageView, cx: ContextView, at: int)
    requires
        0 <= at < related_rows(image, cx.images, cx.layers).len(),
    ensures
        related_rows(image, cx.images, cx.layers)[at].link matches Some(NodeKey::Image(id)) && id
            != image.id && exists|k: int|
            0 <= k < cx.images.len() && (#[trigger] cx.images[k]).id == id,
{
    let base = relations::base(image, cx.images, cx.layers);
    let children = relations::built_on(image, cx.images, cx.layers);
    let twins = relations::twins(image, cx.images, cx.layers);
    let head: int = if base is Some {
        1
    } else {
        0
    };
    if at < head {
        relations::law_base_is_the_longest_proper_prefix(image, cx.images, cx.layers);
    } else if at < head + children.len() {
        let p = |c: ImageView|
            c.id != image.id && (relations::base(c, cx.images, cx.layers) matches Some(b) && b.id
                == image.id);
        lists::lemma_filter_keeps(cx.images, p);
        assert(children == cx.images.filter(p));
        let child = children[at - head];
        assert(cx.images.filter(p).contains(child));
    } else {
        let own = ordered::lookup(cx.layers, image.id)->0;
        let p = |c: ImageView| c.id != image.id && ordered::lookup(cx.layers, c.id) == Some(own);
        lists::lemma_filter_keeps(cx.images, p);
        assert(twins == cx.images.filter(p));
        let twin = twins[at - head - children.len()];
        assert(cx.images.filter(p).contains(twin));
    }
}

proof fn lemma_tagged_are_the_rest(images: Seq<ImageView>)
    ensures
        images.filter(|i: ImageView| !crate::model::format::untagged(i)).len() + untagged_count(images)
            == images.len(),
    decreases images.len(),
{
    reveal(Seq::filter);
    if images.len() > 0 {
        lemma_tagged_are_the_rest(images.drop_last());
    }
}

/// Hiding the untagged images changes the view of the collection and not what is said of
/// it: the summary and the words of the toggle, which count all images and the tagged
/// ones, stay as they are.
pub proof fn law_hiding_untagged_images_keeps_the_summary(cx: ContextView, show_untagged: bool)
    ensures
        ({
            let page = images_page(cx);
            let other = images_page(ContextView { show_untagged, ..cx });
            let tagged = cx.images.filter(|i: ImageView| !crate::model::format::untagged(i)).len();
            &&& page.groups == other.groups
            &&& page.table_filter matches Some(filter)
            &&& other.table_filter matches Some(toggled)
            &&& filter.kind == toggled.kind
            &&& filter.narrow_label == toggled.narrow_label
            &&& filter.all_label == toggled.all_label
            &&& filter.showing_all == cx.show_untagged
            &&& toggled.showing_all == show_untagged
            &&& filter.all_label == "All ("@ + text::decimal(cx.images.len()) + ")"@
            &&& filter.narrow_label == "Tagged ("@ + text::decimal(tagged) + ")"@
        }),
{
    lemma_tagged_are_the_rest(cx.images);
}

proof fn lemma_row_is(groups: Seq<GroupView>, at: int, row: int)
    requires
        0 <= at < groups.len(),
        0 <= row < groups[at].rows.len(),
        forall|i: int| 0 <= i < at ==> (#[trigger] groups[i]).title != groups[at].title,
        forall|i: int|
            0 <= i < row ==> (#[trigger] groups[at].rows[i]).label != groups[at].rows[row].label,
    ensures
        row_in(groups, groups[at].title, groups[at].rows[row].label) == Some(groups[at].rows[row]),
{
    let title = groups[at].title;
    let label = groups[at].rows[row].label;
    lists::lemma_first_where(groups, |g: GroupView| g.title == title, at);
    lists::lemma_first_where(groups[at].rows, |r: DetailRowView| r.label == label, row);
}

/// Each row on the connection says what its label asks.
pub proof fn law_the_connection_is_described(
    environment: EnvironmentView,
    resolved: ResolvedView,
    cx: ContextView,
)
    ensures
        ({
            let groups = environment_groups(environment, resolved, cx);
            &&& row_in(groups, "Connection"@, "Endpoint"@) == Some(
                plain_row("Endpoint"@, endpoint::endpoint_url(resolved.endpoint)),
            )
            &&& row_in(groups, "Connection"@, "Selected by"@) == Some(
                plain_row("Selected by"@, endpoint::source_label(resolved.source)),
            )
            &&& row_in(groups, "Connection"@, "Server version"@) == Some(
                plain_row(
                    "Server version"@,
                    crate::model::format::known_text(environment.server_version),
                ),
            )
            &&& row_in(groups, "Connection"@, "API version"@) == Some(
                plain_row(
                    "API version"@,
                    crate::model::format::known_text(environment.api_version),
                ),
            )
            &&& row_in(groups, "Connection"@, "Minimum API version"@) == Some(
                plain_row(
                    "Minimum API version"@,
                    match environment.min_api_version {
                        Some(version) => version,
                        None => "unknown"@,
                    },
                ),
            )
            &&& row_in(groups, "Connection"@, "Rootless"@) == Some(
                plain_row("Rootless"@, if environment.rootless { "yes"@ } else { "no"@ }),
            )
        }),
{
    let groups = environment_groups(environment, resolved, cx);
    reveal_strlit("Connection");
    assert("Connection"@.len() == 10);
    reveal_strlit("Endpoint");
    reveal_strlit("Selected by");
    reveal_strlit("Server version");
    reveal_strlit("API version");
    reveal_strlit("Minimum API version");
    reveal_strlit("Rootless");
    assert("Endpoint"@.len() == 8);
    assert("Selected by"@.len() == 11);
    assert("Server version"@.len() == 14);
    assert("API version"@.len() == 11);
    assert("Minimum API version"@.len() == 19);
    assert("Rootless"@.len() == 8);
    assert("API version"@[0] == 'A');
    assert("Selected by"@[0] == 'S');
    assert("Rootless"@[0] == 'R');
    assert("Endpoint"@[0] == 'E');
    lemma_row_is(groups, 0, 0);
    lemma_row_is(groups, 0, 1);
    lemma_row_is(groups, 0, 2);
    lemma_row_is(groups, 0, 3);
    lemma_row_is(groups, 0, 4);
    lemma_row_is(groups, 0, 5);
}

/// Each row on the host says what its label asks.
pub proof fn law_the_host_is_described(
    environment: EnvironmentView,
    resolved: ResolvedView,
    cx: ContextView,
)
    ensures
        ({
            let groups = environment_groups(environment, resolved, cx);
            &&& row_in(groups, "Host"@, "Name"@) == Some(
                plain_row("Name"@, crate::model::format::known_text(environment.name)),
            )
            &&& row_in(groups, "Host"@, "Operating system"@) == Some(
                plain_row(
                    "Operating system"@,
                    crate::model::format::known_text(environment.operating_system),
                ),
            )
            &&& row_in(groups, "Host"@, "Platform"@) == Some(
                plain_row(
                    "Platform"@,
                    crate::model::format::known_text(environment.os_type) + "/"@ + crate::model::format::known_text(environment.architecture),
                ),
            )
            &&& row_in(groups, "Host"@, "Kernel"@) == Some(
                plain_row("Kernel"@, crate::model::format::known_text(environment.kernel_version)),
            )
            &&& row_in(groups, "Host"@, "CPUs"@) == Some(
                plain_row("CPUs"@, text::integer(environment.cpus as int)),
            )
            &&& row_in(groups, "Host"@, "Memory"@) == Some(
                plain_row(
                    "Memory"@,
                    crate::model::format::bytes_text(environment.memory_total as int),
                ),
            )
        }),
{
    let groups = environment_groups(environment, resolved, cx);
    reveal_strlit("Connection");
    reveal_strlit("Host");
    assert("Connection"@.len() == 10);
    assert("Host"@.len() == 4);
    reveal_strlit("Name");
    reveal_strlit("Operating system");
    reveal_strlit("Platform");
    reveal_strlit("Kernel");
    reveal_strlit("CPUs");
    reveal_strlit("Memory");
    assert("Name"@.len() == 4);
    assert("Operating system"@.len() == 16);
    assert("Platform"@.len() == 8);
    assert("Kernel"@.len() == 6);
    assert("CPUs"@.len() == 4);
    assert("Memory"@.len() == 6);
    assert("CPUs"@[0] == 'C');
    assert("Name"@[0] == 'N');
    assert("Memory"@[0] == 'M');
    assert("Kernel"@[0] == 'K');
    lemma_row_is(groups, 1, 0);
    lemma_row_is(groups, 1, 1);
    lemma_row_is(groups, 1, 2);
    lemma_row_is(groups, 1, 3);
    lemma_row_is(groups, 1, 4);
    lemma_row_is(groups, 1, 5);
}

/// Each row on the runtime says what its label asks.
pub proof fn law_the_runtime_is_described(
    environment: EnvironmentView,
    resolved: ResolvedView,
    cx: ContextView,
)
    ensures
        ({
            let groups = environment_groups(environment, resolved, cx);
            &&& row_in(groups, "Runtime"@, "Storage driver"@) == Some(
                plain_row(
                    "Storage driver"@,
                    crate::model::format::known_text(environment.storage_driver),
                ),
            )
            &&& row_in(groups, "Runtime"@, "Logging driver"@) == Some(
                plain_row(
                    "Logging driver"@,
                    crate::model::format::known_text(environment.logging_driver),
                ),
            )
            &&& row_in(groups, "Runtime"@, "cgroup version"@) == Some(
                plain_row(
                    "cgroup version"@,
                    crate::model::format::known_text(environment.cgroup_version),
                ),
            )
            &&& row_in(groups, "Runtime"@, "cgroup driver"@) == Some(
                plain_row(
                    "cgroup driver"@,
                    crate::model::format::known_text(environment.cgroup_driver),
                ),
            )
            &&& row_in(groups, "Runtime"@, "Root directory"@) == Some(
                plain_row(
                    "Root directory"@,
                    crate::model::format::known_text(environment.docker_root_dir),
                ),
            )
        }),
{
    let groups = environment_groups(environment, resolved, cx);
    reveal_strlit("Connection");
    reveal_strlit("Host");
    reveal_strlit("Runtime");
    assert("Connection"@.len() == 10);
    assert("Host"@.len() == 4);
    assert("Runtime"@.len() == 7);
    reveal_strlit("Storage driver");
    reveal_strlit("Logging driver");
    reveal_strlit("cgroup version");
    reveal_strlit("cgroup driver");
    reveal_strlit("Root directory");
    assert("Storage driver"@.len() == 14);
    assert("Logging driver"@.len() == 14);
    assert("cgroup version"@.len() == 14);
    assert("cgroup driver"@.len() == 13);
    assert("Root directory"@.len() == 14);
    assert("Logging driver"@[0] == 'L');
    assert("Storage driver"@[0] == 'S');
    assert("cgroup version"@[0] == 'c');
    assert("Root directory"@[0] == 'R');
    lemma_row_is(groups, 2, 0);
    lemma_row_is(groups, 2, 1);
    lemma_row_is(groups, 2, 2);
    lemma_row_is(groups, 2, 3);
    lemma_row_is(groups, 2, 4);
}

/// Each row on what the daemon holds gives the count that its label names.
pub proof fn law_the_contents_are_counted(
    environment: EnvironmentView,
    resolved: ResolvedView,
    cx: ContextView,
)
    ensures
        ({
            let groups = environment_groups(environment, resolved, cx);
            &&& row_in(groups, "Contents"@, "Images"@) == Some(
                plain_row("Images"@, text::integer(environment.images as int)),
            )
            &&& row_in(groups, "Contents"@, "Containers"@) == Some(
                plain_row("Containers"@, text::integer(environment.containers_total as int)),
            )
            &&& row_in(groups, "Contents"@, "Running"@) == Some(
                plain_row("Running"@, text::integer(environment.containers_running as int)),
            )
            &&& row_in(groups, "Contents"@, "Paused"@) == Some(
                plain_row("Paused"@, text::integer(environment.containers_paused as int)),
            )
            &&& row_in(groups, "Contents"@, "Stopped"@) == Some(
                plain_row("Stopped"@, text::integer(environment.containers_stopped as int)),
            )
        }),
{
    let groups = environment_groups(environment, resolved, cx);
    reveal_strlit("Connection");
    reveal_strlit("Host");
    reveal_strlit("Runtime");
    reveal_strlit("Contents");
    assert("Connection"@.len() == 10);
    assert("Host"@.len() == 4);
    assert("Runtime"@.len() == 7);
    assert("Contents"@.len() == 8);
    reveal_strlit("Images");
    reveal_strlit("Containers");
    reveal_strlit("Running");
    reveal_strlit("Paused");
    reveal_strlit("Stopped");
    assert("Images"@.len() == 6);
    assert("Containers"@.len() == 10);
    assert("Running"@.len() == 7);
    assert("Paused"@.len() == 6);
    assert("Stopped"@.len() == 7);
    assert("Paused"@[0] == 'P');
    assert("Images"@[0] == 'I');
    assert("Stopped"@[0] == 'S');
    assert("Running"@[0] == 'R');
    lemma_row_is(groups, 3, 0);
    lemma_row_is(groups, 3, 1);
    lemma_row_is(groups, 3, 2);
    lemma_row_is(groups, 3, 3);
    lemma_row_is(groups, 3, 4);
}

/// Each row on the footprint gives the usage of the category that its label names, and the
/// total is that of all categories.
pub proof fn law_the_footprint_is_itemised(
    environment: EnvironmentView,
    resolved: ResolvedView,
    cx: ContextView,
)
    requires
        cx.disk.sizes().len() > 0,
    ensures
        ({
            let groups = environment_groups(environment, resolved, cx);
            &&& row_in(groups, "Footprint"@, "Images"@) == Some(
                plain_row("Images"@, disk_text(cx.disk.images)),
            )
            &&& row_in(groups, "Footprint"@, "Containers"@) == Some(
                plain_row("Containers"@, disk_text(cx.disk.containers)),
            )
            &&& row_in(groups, "Footprint"@, "Volumes"@) == Some(
                plain_row("Volumes"@, disk_text(cx.disk.volumes)),
            )
            &&& row_in(groups, "Footprint"@, "Build cache"@) == Some(
                plain_row("Build cache"@, disk_text(cx.disk.build_cache)),
            )
            &&& row_in(groups, "Footprint"@, "Total on disk"@) == Some(
                plain_row(
                    "Total on disk"@,
                    crate::model::format::bytes_text(
                        engine::figure_of(cx.disk.images, true) + engine::figure_of(cx.disk.containers, true)
                            + engine::figure_of(cx.disk.volumes, true) + engine::figure_of(cx.disk.build_cache, true),
                    ),
                ),
            )
        }),
{
    engine::law_disk_totals_add_up(cx.disk);
    let groups = environment_groups(environment, resolved, cx);
    reveal_strlit("Connection");
    reveal_strlit("Host");
    reveal_strlit("Runtime");
    reveal_strlit("Contents");
    reveal_strlit("Footprint");
    assert("Connection"@.len() == 10);
    assert("Host"@.len() == 4);
    assert("Runtime"@.len() == 7);
    assert("Contents"@.len() == 8);
    assert("Footprint"@.len() == 9);
    reveal_strlit("Memory in use");
    reveal_strlit("Images");
    reveal_strlit("Containers");
    reveal_strlit("Volumes");
    reveal_strlit("Build cache");
    reveal_strlit("Total on disk");
    assert("Memory in use"@.len() == 13);
    assert("Images"@.len() == 6);
    assert("Containers"@.len() == 10);
    assert("Volumes"@.len() == 7);
    assert("Build cache"@.len() == 11);
    assert("Total on disk"@.len() == 13);
    assert("Total on disk"@[0] == 'T');
    assert("Memory in use"@[0] == 'M');
    lemma_row_is(groups, 4, 1);
    lemma_row_is(groups, 4, 2);
    lemma_row_is(groups, 4, 3);
    lemma_row_is(groups, 4, 4);
    lemma_row_is(groups, 4, 5);
}

/// Memory in use is measured against that of the host.
pub proof fn law_memory_in_use_is_shown(
    environment: EnvironmentView,
    resolved: ResolvedView,
    cx: ContextView,
)
    ensures
        ({
            let groups = environment_groups(environment, resolved, cx);
            &&& row_in(groups, "Footprint"@, "Memory in use"@) == Some(
                plain_row(
                    "Memory in use"@,
                    memory_text(cx.containers, cx.stats, Some(environment.memory_total)),
                ),
            )
        }),
{
    let groups = environment_groups(environment, resolved, cx);
    reveal_strlit("Connection");
    reveal_strlit("Host");
    reveal_strlit("Runtime");
    reveal_strlit("Contents");
    reveal_strlit("Footprint");
    assert("Connection"@.len() == 10);
    assert("Host"@.len() == 4);
    assert("Runtime"@.len() == 7);
    assert("Contents"@.len() == 8);
    assert("Footprint"@.len() == 9);
    reveal_strlit("Memory in use");
    reveal_strlit("Images");
    reveal_strlit("Containers");
    reveal_strlit("Volumes");
    reveal_strlit("Build cache");
    reveal_strlit("Total on disk");
    assert("Memory in use"@.len() == 13);
    assert("Images"@.len() == 6);
    assert("Containers"@.len() == 10);
    assert("Volumes"@.len() == 7);
    assert("Build cache"@.len() == 11);
    assert("Total on disk"@.len() == 13);
    assert("Total on disk"@[0] == 'T');
    assert("Memory in use"@[0] == 'M');
    lemma_row_is(groups, 4, 0);
}

/// Each row of the summary counts the containers in the state that its label names.
pub proof fn law_containers_are_summed_up_by_state(cx: ContextView)
    ensures
        ({
            let groups = containers_page(cx).groups;
            &&& row_in(groups, "Summary"@, "Containers"@) == Some(
                plain_row("Containers"@, text::decimal(cx.containers.len())),
            )
            &&& row_in(groups, "Summary"@, "Running"@) == Some(
                plain_row(
                    "Running"@,
                    text::decimal(count_in(cx.containers, ContainerState::Running)),
                ),
            )
            &&& row_in(groups, "Summary"@, "Paused"@) == Some(
                plain_row(
                    "Paused"@,
                    text::decimal(count_in(cx.containers, ContainerState::Paused)),
                ),
            )
            &&& row_in(groups, "Summary"@, "Exited"@) == Some(
                plain_row(
                    "Exited"@,
                    text::decimal(count_in(cx.containers, ContainerState::Exited)),
                ),
            )
            &&& row_in(groups, "Summary"@, "Created"@) == Some(
                plain_row(
                    "Created"@,
                    text::decimal(count_in(cx.containers, ContainerState::Created)),
                ),
            )
            &&& row_in(groups, "Summary"@, "Other"@) == Some(
                plain_row("Other"@, text::decimal(count_other(cx.containers))),
            )
        }),
{
    let groups = containers_page(cx).groups;
    reveal_strlit("Summary");
    assert("Summary"@.len() == 7);
    reveal_strlit("Containers");
    reveal_strlit("Running");
    reveal_strlit("Paused");
    reveal_strlit("Exited");
    reveal_strlit("Created");
    reveal_strlit("Other");
    assert("Containers"@.len() == 10);
    assert("Running"@.len() == 7);
    assert("Paused"@.len() == 6);
    assert("Exited"@.len() == 6);
    assert("Created"@.len() == 7);
    assert("Other"@.len() == 5);
    assert("Exited"@[0] == 'E');
    assert("Paused"@[0] == 'P');
    assert("Created"@[0] == 'C');
    assert("Running"@[0] == 'R');
    lemma_row_is(groups, 0, 0);
    lemma_row_is(groups, 0, 1);
    lemma_row_is(groups, 0, 2);
    lemma_row_is(groups, 0, 3);
    lemma_row_is(groups, 0, 4);
    lemma_row_is(groups, 0, 5);
}

/// An image is identified by its tags, its short id and its digests.
pub proof fn law_an_image_is_identified(image: ImageView, cx: ContextView)
    ensures
        ({
            let groups = image_groups(image, cx);
            &&& row_in(groups, "Identity"@, "Tags"@) == Some(
                plain_row("Tags"@, crate::model::format::list_text(image.repo_tags)),
            )
            &&& row_in(groups, "Identity"@, "ID"@) == Some(
                plain_row("ID"@, crate::model::format::short_text(image.id)),
            )
            &&& row_in(groups, "Identity"@, "Digests"@) == Some(
                plain_row("Digests"@, crate::model::format::list_text(image.repo_digests)),
            )
        }),
{
    let groups = image_groups(image, cx);
    reveal_strlit("Identity");
    assert("Identity"@.len() == 8);
    reveal_strlit("Tags");
    reveal_strlit("ID");
    reveal_strlit("Digests");
    assert("Tags"@.len() == 4);
    assert("ID"@.len() == 2);
    assert("Digests"@.len() == 7);
    lemma_row_is(groups, 0, 0);
    lemma_row_is(groups, 0, 1);
    lemma_row_is(groups, 0, 2);
}

/// What an image takes, shares and how old it is stand under their labels.
pub proof fn law_an_image_is_measured(image: ImageView, cx: ContextView)
    requires
        image.shared_size >= 0,
    ensures
        ({
            let groups = image_groups(image, cx);
            &&& row_in(groups, "Storage"@, "Size"@) == Some(
                plain_row("Size"@, crate::model::format::bytes_text(image.size as int)),
            )
            &&& row_in(groups, "Storage"@, "Shared size"@) == Some(
                plain_row(
                    "Shared size"@,
                    crate::model::format::bytes_text(image.shared_size as int),
                ),
            )
            &&& row_in(groups, "Storage"@, "Created"@) == Some(
                plain_row(
                    "Created"@,
                    crate::model::format::instant_text(image.created, cx.now, cx.offset),
                ),
            )
        }),
{
    let groups = image_groups(image, cx);
    reveal_strlit("Identity");
    reveal_strlit("Storage");
    assert("Identity"@.len() == 8);
    assert("Storage"@.len() == 7);
    reveal_strlit("Size");
    reveal_strlit("Shared size");
    reveal_strlit("Created");
    assert("Size"@.len() == 4);
    assert("Shared size"@.len() == 11);
    assert("Created"@.len() == 7);
    lemma_row_is(groups, 1, 0);
    lemma_row_is(groups, 1, 1);
    lemma_row_is(groups, 1, 2);
}

/// Where the shared size is not known, nothing is said of it.
pub proof fn law_an_unshared_image_is_measured(image: ImageView, cx: ContextView)
    requires
        image.shared_size < 0,
    ensures
        ({
            let groups = image_groups(image, cx);
            &&& row_in(groups, "Storage"@, "Size"@) == Some(
                plain_row("Size"@, crate::model::format::bytes_text(image.size as int)),
            )
            &&& row_in(groups, "Storage"@, "Created"@) == Some(
                plain_row(
                    "Created"@,
                    crate::model::format::instant_text(image.created, cx.now, cx.offset),
                ),
            )
        }),
{
    let groups = image_groups(image, cx);
    reveal_strlit("Identity");
    reveal_strlit("Storage");
    assert("Identity"@.len() == 8);
    assert("Storage"@.len() == 7);
    reveal_strlit("Size");
    reveal_strlit("Created");
    assert("Size"@.len() == 4);
    assert("Created"@.len() == 7);
    lemma_row_is(groups, 1, 0);
    lemma_row_is(groups, 1, 1);
}

/// Each row on the identity of a container says what its label asks.
pub proof fn law_a_container_is_identified(container: ContainerView, cx: ContextView)
    ensures
        ({
            let groups = container_groups(container, cx);
            &&& row_in(groups, "Identity"@, "Name"@) == Some(
                plain_row("Name"@, crate::model::format::list_text(container.names)),
            )
            &&& row_in(groups, "Identity"@, "ID"@) == Some(
                plain_row("ID"@, crate::model::format::short_text(container.id)),
            )
            &&& row_in(groups, "Identity"@, "Image"@) == Some(
                plain_row("Image"@, crate::model::format::known_text(container.image)),
            )
            &&& row_in(groups, "Identity"@, "Image ID"@) == Some(
                plain_row("Image ID"@, crate::model::format::short_text(container.image_id)),
            )
            &&& row_in(groups, "Identity"@, "Command"@) == Some(
                plain_row("Command"@, crate::model::format::known_text(container.command)),
            )
            &&& row_in(groups, "Identity"@, "Created"@) == Some(
                plain_row(
                    "Created"@,
                    crate::model::format::instant_text(container.created, cx.now, cx.offset),
                ),
            )
        }),
{
    let groups = container_groups(container, cx);
    reveal_strlit("Identity");
    assert("Identity"@.len() == 8);
    reveal_strlit("Name");
    reveal_strlit("ID");
    reveal_strlit("Image");
    reveal_strlit("Image ID");
    reveal_strlit("Command");
    reveal_strlit("Created");
    assert("Name"@.len() == 4);
    assert("ID"@.len() == 2);
    assert("Image"@.len() == 5);
    assert("Image ID"@.len() == 8);
    assert("Command"@.len() == 7);
    assert("Created"@.len() == 7);
    assert("Created"@[1] == 'r');
    assert("Command"@[1] == 'o');
    lemma_row_is(groups, 0, 0);
    lemma_row_is(groups, 0, 1);
    lemma_row_is(groups, 0, 2);
    lemma_row_is(groups, 0, 3);
    lemma_row_is(groups, 0, 4);
    lemma_row_is(groups, 0, 5);
}

/// The state of a container and the daemon's words for it stand under their labels.
pub proof fn law_the_state_of_a_container_is_told(container: ContainerView, cx: ContextView)
    ensures
        ({
            let groups = container_groups(container, cx);
            &&& row_in(groups, "State"@, "State"@) == Some(
                plain_row("State"@, engine::state_label(container.state)),
            )
            &&& row_in(groups, "State"@, "Status"@) == Some(
                plain_row("Status"@, crate::model::format::known_text(container.status)),
            )
        }),
{
    let groups = container_groups(container, cx);
    reveal_strlit("Identity");
    reveal_strlit("State");
    assert("Identity"@.len() == 8);
    assert("State"@.len() == 5);
    reveal_strlit("Status");
    assert("Status"@.len() == 6);
    lemma_row_is(groups, 1, 0);
    lemma_row_is(groups, 1, 1);
}

/// The ports and the networks of a container stand under their labels.
pub proof fn law_the_networking_of_a_container_is_told(container: ContainerView, cx: ContextView)
    ensures
        ({
            let groups = container_groups(container, cx);
            &&& row_in(groups, "Networking"@, "Ports"@) == Some(
                plain_row("Ports"@, table::ports_text(container.ports)),
            )
            &&& row_in(groups, "Networking"@, "Networks"@) == Some(
                plain_row("Networks"@, crate::model::format::list_text(container.networks)),
            )
        }),
{
    let groups = container_groups(container, cx);
    reveal_strlit("Identity");
    reveal_strlit("State");
    reveal_strlit("Image");
    reveal_strlit("Networking");
    assert("Identity"@.len() == 8);
    assert("State"@.len() == 5);
    assert("Image"@.len() == 5);
    assert("Networking"@.len() == 10);
    assert("Image"@[0] == 'I');
    assert("State"@[0] == 'S');
    reveal_strlit("Ports");
    reveal_strlit("Networks");
    assert("Ports"@.len() == 5);
    assert("Networks"@.len() == 8);
    lemma_row_is(groups, 3, 0);
    lemma_row_is(groups, 3, 1);
}

/// The mounts of a container stand under their label.
pub proof fn law_the_mounts_of_a_container_are_told(container: ContainerView, cx: ContextView)
    ensures
        ({
            let groups = container_groups(container, cx);
            &&& row_in(groups, "Storage"@, "Mounts"@) == Some(
                plain_row("Mounts"@, mounts_text(container.mounts)),
            )
        }),
{
    let groups = container_groups(container, cx);
    reveal_strlit("Identity");
    reveal_strlit("State");
    reveal_strlit("Image");
    reveal_strlit("Networking");
    reveal_strlit("Storage");
    assert("Identity"@.len() == 8);
    assert("State"@.len() == 5);
    assert("Image"@.len() == 5);
    assert("Networking"@.len() == 10);
    assert("Storage"@.len() == 7);
    assert("Image"@[0] == 'I');
    assert("State"@[0] == 'S');
    reveal_strlit("Mounts");
    assert("Mounts"@.len() == 6);
    lemma_row_is(groups, 4, 0);
}

/// Each row of the summary of the images gives the figure that its label names.
pub proof fn law_images_are_summed_up(cx: ContextView)
    requires
        cx.disk.images is Some,
    ensures
        ({
            let groups = images_page(cx).groups;
            &&& row_in(groups, "Summary"@, "Images"@) == Some(
                plain_row("Images"@, text::decimal(cx.images.len())),
            )
            &&& row_in(groups, "Summary"@, "Combined size"@) == Some(
                plain_row(
                    "Combined size"@,
                    crate::model::format::bytes_text(engine::sum(action::sizes_of(cx.images))),
                ),
            )
            &&& row_in(groups, "Summary"@, "On disk"@) == Some(
                plain_row(
                    "On disk"@,
                    crate::model::format::bytes_text(cx.disk.images->0.size as int),
                ),
            )
            &&& row_in(groups, "Summary"@, "Reclaimable"@) == Some(
                plain_row(
                    "Reclaimable"@,
                    crate::model::format::bytes_text(cx.disk.images->0.reclaimable as int),
                ),
            )
            &&& row_in(groups, "Summary"@, "Largest"@) == Some(
                plain_row("Largest"@, largest_text(cx.images)),
            )
            &&& row_in(groups, "Summary"@, "Untagged"@) == Some(
                plain_row("Untagged"@, text::decimal(untagged_count(cx.images))),
            )
            &&& row_in(groups, "Summary"@, "Used by containers"@) == Some(
                plain_row(
                    "Used by containers"@,
                    text::decimal(action::in_use_count(cx.images, cx.containers)),
                ),
            )
        }),
{
    let groups = images_page(cx).groups;
    reveal_strlit("Summary");
    assert("Summary"@.len() == 7);
    reveal_strlit("Images");
    reveal_strlit("Combined size");
    reveal_strlit("On disk");
    reveal_strlit("Reclaimable");
    reveal_strlit("Largest");
    reveal_strlit("Untagged");
    reveal_strlit("Used by containers");
    assert("Images"@.len() == 6);
    assert("Combined size"@.len() == 13);
    assert("On disk"@.len() == 7);
    assert("Reclaimable"@.len() == 11);
    assert("Largest"@.len() == 7);
    assert("Untagged"@.len() == 8);
    assert("Used by containers"@.len() == 18);
    assert("Largest"@[0] == 'L');
    assert("On disk"@[0] == 'O');
    lemma_row_is(groups, 0, 0);
    lemma_row_is(groups, 0, 1);
    lemma_row_is(groups, 0, 2);
    lemma_row_is(groups, 0, 3);
    lemma_row_is(groups, 0, 4);
    lemma_row_is(groups, 0, 5);
    lemma_row_is(groups, 0, 6);
}

/// Where the daemon does not itemise the images, the summary leaves its figures out.
pub proof fn law_images_are_summed_up_without_the_disk(cx: ContextView)
    requires
        cx.disk.images is None,
    ensures
        ({
            let groups = images_page(cx).groups;
            &&& row_in(groups, "Summary"@, "Images"@) == Some(
                plain_row("Images"@, text::decimal(cx.images.len())),
            )
            &&& row_in(groups, "Summary"@, "Combined size"@) == Some(
                plain_row(
                    "Combined size"@,
                    crate::model::format::bytes_text(engine::sum(action::sizes_of(cx.images))),
                ),
            )
            &&& row_in(groups, "Summary"@, "Largest"@) == Some(
                plain_row("Largest"@, largest_text(cx.images)),
            )
            &&& row_in(groups, "Summary"@, "Untagged"@) == Some(
                plain_row("Untagged"@, text::decimal(untagged_count(cx.images))),
            )
            &&& row_in(groups, "Summary"@, "Used by containers"@) == Some(
                plain_row(
                    "Used by containers"@,
                    text::decimal(action::in_use_count(cx.images, cx.containers)),
                ),
            )
        }),
{
    let groups = images_page(cx).groups;
    reveal_strlit("Summary");
    assert("Summary"@.len() == 7);
    reveal_strlit("Images");
    reveal_strlit("Combined size");
    reveal_strlit("Largest");
    reveal_strlit("Untagged");
    reveal_strlit("Used by containers");
    assert("Images"@.len() == 6);
    assert("Combined size"@.len() == 13);
    assert("Largest"@.len() == 7);
    assert("Untagged"@.len() == 8);
    assert("Used by containers"@.len() == 18);
    lemma_row_is(groups, 0, 0);
    lemma_row_is(groups, 0, 1);
    lemma_row_is(groups, 0, 2);
    lemma_row_is(groups, 0, 3);
    lemma_row_is(groups, 0, 4);
}

/// The largest image is one of the images, and none takes more than it does.
pub proof fn law_the_largest_image_is_the_largest(images: Seq<ImageView>, at: int)
    requires
        0 <= at < images.len(),
    ensures
        largest(images) matches Some(image) && images.contains(image) && images[at].size
            <= image.size,
        largest_text(images) == crate::model::format::image_label_text(largest(images)->0) + " ("@
            + crate::model::format::bytes_text(largest(images)->0.size as int) + ")"@,
    decreases images.len(),
{
    let front = images.drop_last();
    assert(images[images.len() - 1] == images.last());
    assert(images.contains(images.last()));
    if front.len() > 0 {
        law_the_largest_image_is_the_largest(
            front,
            if at < front.len() {
                at
            } else {
                0
            },
        );
        let before = largest(front)->0;
        let i = choose|i: int| 0 <= i < front.len() && front[i] == before;
        assert(images[i] == before);
    }
}

/// What is summed up of the images grows by each image: by one, by its size, and by one among
/// the untagged and among those that a container runs, if it is one of these.
pub proof fn law_each_image_adds_to_the_summary(
    images: Seq<ImageView>,
    containers: Seq<ContainerView>,
    next: ImageView,
)
    ensures
        engine::sum(action::sizes_of(images.push(next))) == engine::sum(action::sizes_of(images))
            + next.size,
        untagged_count(images.push(next)) == untagged_count(images) + (
        if crate::model::format::untagged(next) {
            1nat
        } else {
            0nat
        }),
        (exists|i: int|
            0 <= i < containers.len() && (#[trigger] containers[i]).image_id == next.id)
            ==> action::in_use_count(images.push(next), containers) == action::in_use_count(
            images,
            containers,
        ) + 1,
        (forall|i: int|
            0 <= i < containers.len() ==> (#[trigger] containers[i]).image_id != next.id)
            ==> action::in_use_count(images.push(next), containers) == action::in_use_count(
            images,
            containers,
        ),
{
    reveal(Seq::filter);
    let more = images.push(next);
    assert(more.drop_last() =~= images);
    assert(action::sizes_of(more).drop_last() =~= action::sizes_of(images));
    let p = |c: ContainerView| c.image_id == next.id;
    lists::lemma_filter_keeps(containers, p);
    let users = relations::users_of(next, containers);
    assert(users == containers.filter(p));
    if exists|i: int| 0 <= i < containers.len() && (#[trigger] containers[i]).image_id == next.id {
        let i = choose|i: int|
            0 <= i < containers.len() && (#[trigger] containers[i]).image_id == next.id;
        assert(containers.contains(containers[i]));
        assert(users.contains(containers[i]));
    }
    if forall|i: int| 0 <= i < containers.len() ==> (#[trigger] containers[i]).image_id != next.id {
        if users.len() > 0 {
            assert(users.contains(users[0]));
            let i = choose|i: int| 0 <= i < containers.len() && containers[i] == users[0];
            assert(p(containers[i]));
        }
    }
}

/// Each container adds one to the count of its own state and to no other.
pub proof fn law_each_container_adds_to_its_own_count(
    containers: Seq<ContainerView>,
    next: ContainerView,
    state: ContainerState,
)
    ensures
        next.state == state ==> count_in(containers.push(next), state) == count_in(containers, state)
            + 1,
        next.state != state ==> count_in(containers.push(next), state) == count_in(containers, state),
        next.state is Restarting || next.state is Removing || next.state is Dead || next.state
            is Stopping || next.state is Unknown ==> count_other(containers.push(next))
            == count_other(containers) + 1,
        next.state is Running || next.state is Paused || next.state is Exited || next.state
            is Created ==> count_other(containers.push(next)) == count_other(containers),
{
    reveal(Seq::filter);
    assert(containers.push(next).drop_last() =~= containers);
}

/// A page is titled for what it shows, and what stands beside the title tells it apart.
pub proof fn law_pages_are_titled_for_what_they_show(
    environment: EnvironmentView,
    resolved: ResolvedView,
    image: ImageView,
    container: ContainerView,
    cx: ContextView,
)
    ensures
        environment.name.len() > 0 && !text::is_space(environment.name[0]) ==> environment_page(
            environment,
            resolved,
            cx,
        ).title == environment.name,
        environment.name.len() == 0 ==> environment_page(environment, resolved, cx).title
            == "Docker"@,
        image_page(image, cx).title == crate::model::format::image_label_text(image),
        crate::model::format::untagged(image) ==> image_page(image, cx).subtitle == Some(
            "untagged"@,
        ),
        !crate::model::format::untagged(image) ==> image_page(image, cx).subtitle == Some(
            crate::model::format::short_text(image.id),
        ),
        container_page(container, cx).title == crate::model::format::container_label_text(container),
        engine::state_label(container.state).is_prefix_of(
            container_page(container, cx).subtitle->0,
        ),
        crate::model::format::known_text(container.image).is_suffix_of(
            container_page(container, cx).subtitle->0,
        ),
        endpoint::endpoint_url(resolved.endpoint).is_prefix_of(
            environment_page(environment, resolved, cx).subtitle->0,
        ),
        endpoint::source_label(resolved.source).is_suffix_of(
            environment_page(environment, resolved, cx).subtitle->0,
        ),
{
    let name = environment.name;
    if name.len() > 0 && !text::is_space(name[0]) {
        assert(text::trimmed_start(name) == name);
        lemma_not_blank(name);
    }
    if name.len() == 0 {
        assert(text::trimmed(name).len() == 0);
    }
    let state = engine::state_label(container.state);
    let from = crate::model::format::known_text(container.image);
    let said = container_page(container, cx).subtitle->0;
    assert(said.subrange(0, state.len() as int) =~= state);
    assert(said.subrange(said.len() - from.len(), said.len() as int) =~= from);
    let url = endpoint::endpoint_url(resolved.endpoint);
    let source = endpoint::source_label(resolved.source);
    let beside = environment_page(environment, resolved, cx).subtitle->0;
    assert(beside.subrange(0, url.len() as int) =~= url);
    assert(beside.subrange(beside.len() - source.len(), beside.len() as int) =~= source);
}

proof fn lemma_not_blank(text: Seq<char>)
    requires
        text.len() > 0,
        !text::is_space(text[0]),
    ensures
        text::trimmed_start(text) == text,
        text::trimmed(text).len() > 0,
{
    lemma_end_stays(text);
}

proof fn lemma_end_stays(text: Seq<char>)
    requires
        text.len() > 0,
        !text::is_space(text[0]),
    ensures
        text::trimmed_end(text).len() > 0,
    decreases text.len(),
{
    if text::is_space(text.last()) {
        assert(text.drop_last()[0] == text[0]);
        lemma_end_stays(text.drop_last());
    }
}

/// The page of an image leads to each container that runs it, under its name and with its
/// state; without any, it says so.
pub proof fn law_an_image_leads_to_its_containers(
    image: ImageView,
    containers: Seq<ContainerView>,
    at: int,
)
    requires
        0 <= at < containers.len(),
    ensures
        containers[at].image_id == image.id ==> users_rows(image, containers).contains(
            linked_row(
                crate::model::format::container_label_text(containers[at]),
                engine::state_label(containers[at].state),
                NodeKey::Container(containers[at].id),
            ),
        ),
        (forall|i: int|
            0 <= i < containers.len() ==> (#[trigger] containers[i]).image_id != image.id)
            ==> users_rows(image, containers) == seq![plain_row("Containers"@, "none"@)],
{
    let p = |c: ContainerView| c.image_id == image.id;
    lists::lemma_filter_keeps(containers, p);
    let users = relations::users_of(image, containers);
    assert(users == containers.filter(p));
    if containers[at].image_id == image.id {
        assert(containers.contains(containers[at]));
        assert(users.contains(containers[at]));
        let i = choose|i: int| 0 <= i < users.len() && users[i] == containers[at];
        assert(users_rows(image, containers)[i] == container_link(containers[at]));
    }
    if forall|i: int| 0 <= i < containers.len() ==> (#[trigger] containers[i]).image_id != image.id {
        if users.len() > 0 {
            assert(users.contains(users[0]));
            let i = choose|i: int| 0 <= i < containers.len() && containers[i] == users[0];
            assert(p(containers[i]));
        }
    }
}

/// The page of a container leads to the image that it runs, if that is still there; and to
/// the image that its reference names, where that is another one.
pub proof fn law_a_container_leads_to_its_images(container: ContainerView, images: Seq<ImageView>)
    ensures
        ({
            let rows = image_rows(container, images);
            &&& relations::running(container, images) matches Some(image) ==> rows[0].link == Some(
                NodeKey::Image(image.id),
            ) && rows[0].label == crate::model::format::image_label_text(image)
            &&& relations::running(container, images) is None ==> rows[0].link is None
                && crate::model::format::short_text(container.image_id).is_prefix_of(rows[0].value)
            &&& relations::moved(container, images) <==> rows.len() == 2
            &&& relations::moved(container, images) ==> rows[1].link == Some(
                NodeKey::Image((relations::tagged(container, images)->0).id),
            )
        }),
{
    let short = crate::model::format::short_text(container.image_id);
    let said = short + " \u{2014} no longer present"@;
    assert(said.subrange(0, short.len() as int) =~= short);
}

/// The other containers that a container's page leads to run the same image, and all of these
/// are there.
pub proof fn law_siblings_run_the_same_image(
    container: ContainerView,
    containers: Seq<ContainerView>,
    other: ContainerView,
)
    ensures
        siblings(container, containers).contains(other) <==> containers.contains(other) && other.id
            != container.id && other.image_id == container.image_id,
{
    let p = |c: ContainerView| c.id != container.id && c.image_id == container.image_id;
    lists::lemma_filter_keeps(containers, p);
    assert(siblings(container, containers) == containers.filter(p));
}

/// A mount leads from its source to its destination, and says when it cannot be written to.
pub proof fn law_a_mount_leads_from_source_to_destination(mount: MountView)
    ensures
        mount.read_write ==> mount_text(mount) == crate::model::format::known_text(mount.source)
            + " \u{2192} "@ + crate::model::format::known_text(mount.destination),
        !mount.read_write ==> mount_text(mount) == crate::model::format::known_text(mount.source)
            + " \u{2192} "@ + crate::model::format::known_text(mount.destination)
            + " (read-only)"@,
        mounts_text(seq![mount]) == mount_text(mount),
        mounts_text(Seq::empty()) == "none"@,
{
    reveal_strlit("");
    let told = |m: MountView| mount_text(m);
    assert(seq![mount].map_values(told) =~= seq![told(mount)]);
    text::law_texts_are_joined_one_by_one(Seq::empty(), told(mount), ", "@);
    let line = crate::model::format::known_text(mount.source) + " \u{2192} "@
        + crate::model::format::known_text(mount.destination);
    assert(line + ""@ =~= line);
}

/// Every label is a row of its own: the key beside its value, in the order of the keys.
pub proof fn law_labels_are_shown_one_by_one(labels: Seq<(Seq<char>, Seq<char>)>, at: int)
    requires
        0 <= at < labels.len(),
    ensures
        label_rows(labels).len() == labels.len(),
        label_rows(labels)[at].label == labels[at].0,
        label_rows(labels)[at].value == labels[at].1,
        label_rows(labels)[at].link is None,
{
}

/// What a running container holds is told against its limit; one that is not running holds
/// nothing and says nothing.
pub proof fn law_memory_is_told_of_what_runs(
    container: ContainerView,
    samples: Seq<(Seq<char>, StatsView)>,
)
    ensures
        !engine::active(container.state) ==> memory_rows(container, samples).len() == 0,
        engine::active(container.state) && metrics::memory_of(samples, container.id) is None
            ==> memory_rows(container, samples) == seq![plain_row("In use"@, "not measured yet"@)],
        engine::active(container.state) ==> (metrics::memory_of(samples, container.id) matches Some(
            held,
        ) ==> (ordered::lookup(samples, container.id) matches Some(stats) && held
            == stats.memory_usage && memory_rows(container, samples) == seq![
            plain_row(
                "In use"@,
                crate::model::format::share_text(held as int, stats.memory_limit as int),
            ),
        ])),
{
}

/// The total in use says how many containers it is made of and how many it leaves out.
pub proof fn law_the_memory_total_says_what_it_covers(
    containers: Seq<ContainerView>,
    samples: Seq<(Seq<char>, StatsView)>,
)
    ensures
        ({
            let held = metrics::measured_bytes(samples, containers);
            let measured = metrics::measured_count(samples, containers, true);
            let missed = metrics::measured_count(samples, containers, false);
            let said = memory_text(containers, samples, None);
            &&& measured == 0 && missed == 0 ==> said == "nothing running"@
            &&& measured == 0 && missed > 0 ==> said == "not measured yet"@
            &&& measured > 0 ==> crate::model::format::bytes_text(held).is_prefix_of(said)
            &&& measured == 1 && missed == 0 ==> said == crate::model::format::bytes_text(held)
                + " in 1 container"@
            &&& measured > 1 && missed == 0 ==> said == crate::model::format::bytes_text(held)
                + " across "@ + text::decimal(measured) + " containers"@
            &&& measured > 0 && missed > 0 ==> (", "@ + text::decimal(missed)
                + " not measured"@).is_suffix_of(said)
        }),
        containers.len() == 0 ==> memory_text(containers, samples, None) == "nothing running"@,
{
    reveal(Seq::filter);
    let held = metrics::measured_bytes(samples, containers);
    let figure = crate::model::format::bytes_text(held);
    let said = memory_text(containers, samples, None);
    let missed = metrics::measured_count(samples, containers, false);
    let end = ", "@ + text::decimal(missed) + " not measured"@;
    if metrics::measured_count(samples, containers, true) > 0 {
        assert(said.subrange(0, figure.len() as int) =~= figure);
        if missed > 0 {
            assert(said.subrange(said.len() - end.len(), said.len() as int) =~= end);
        }
    }
}

/// The usage of a category is its size, with what can be reclaimed of it beside it.
pub proof fn law_disk_usage_leads_with_the_size(category: DiskCategory)
    ensures
        disk_text(None) == "unknown"@,
        category.reclaimable <= 0 ==> disk_text(Some(category))
            == crate::model::format::bytes_text(category.size as int),
        category.reclaimable > 0 ==> disk_text(Some(category))
            == crate::model::format::bytes_text(category.size as int) + " ("@
            + crate::model::format::bytes_text(category.reclaimable as int) + " reclaimable)"@,
{
}

/// The image that an image was built on is told first, with how many of the layers are its;
/// then come the images that were built on this one, with how many layers they add.
pub proof fn law_related_images_are_told_by_their_layers(
    image: ImageView,
    images: Seq<ImageView>,
    layers: Layers,
    at: int,
)
    ensures
        relations::base(image, images, layers) matches Some(base) ==> related_rows(
            image,
            images,
            layers,
        )[0] == linked_row(
            crate::model::format::image_label_text(base),
            "the image this was built FROM \u{2014} "@ + text::decimal(
                relations::depth(base, layers),
            ) + " of these "@ + text::decimal(relations::depth(image, layers))
                + " layers come from it"@,
            NodeKey::Image(base.id),
        ),
        relations::base(image, images, layers) is None && 0 <= at < relations::built_on(
            image,
            images,
            layers,
        ).len() ==> ({
            let child = relations::built_on(image, images, layers)[at];
            let row = related_rows(image, images, layers)[at];
            let own = relations::depth(image, layers);
            let deep = relations::depth(child, layers);
            &&& row.link == Some(NodeKey::Image(child.id))
            &&& row.label == crate::model::format::image_label_text(child)
            &&& deep == own + 1 ==> row.value == "built FROM this image \u{2014} "@
                + "adds 1 layer"@
            &&& deep > own + 1 ==> row.value == "built FROM this image \u{2014} "@ + ("adds "@
                + text::decimal((deep - own) as nat) + " layers"@)
        }),
{
}

/// The toggle of the containers counts the running ones and all of them, shows what is shown,
/// and gives the table room for the running ones.
pub proof fn law_the_toggle_counts_what_runs(cx: ContextView)
    ensures
        ({
            let toggle = containers_page(cx).table_filter->0;
            let running = tree::active_count(cx.containers);
            &&& toggle.kind == FilterKind::StoppedContainers
            &&& toggle.showing_all == cx.show_stopped
            &&& toggle.narrow_label == "Running ("@ + text::decimal(running) + ")"@
            &&& toggle.all_label == "All ("@ + text::decimal(cx.containers.len()) + ")"@
            &&& 3 <= running <= 20 ==> toggle.visible_rows == running
            &&& running < 3 ==> toggle.visible_rows == 3
            &&& running > 20 ==> toggle.visible_rows == 20
        }),
        images_page(cx).table_filter->0.kind == FilterKind::UntaggedImages,
        cx.show_untagged && 3 <= cx.images.len() <= 20 ==> images_page(
            cx,
        ).table_filter->0.visible_rows == cx.images.len(),
{
}

/// What the daemon said is shown laid out where it could be laid out and as it came where it
/// could not; without it nothing is shown. The pages of lists show none.
pub proof fn law_raw_output_is_shown_where_there_is_some(
    image: ImageView,
    container: ContainerView,
    cx: ContextView,
    text: Seq<char>,
    pretty: Seq<char>,
)
    ensures
        raw_shown(text, Some(pretty)) == pretty,
        raw_shown(text, None) == text,
        cx.raw is None ==> image_page(image, cx).raw is None && container_page(
            container,
            cx,
        ).raw is None,
        cx.raw is Some ==> image_page(image, cx).raw is Some && container_page(
            container,
            cx,
        ).raw == image_page(image, cx).raw,
        images_page(cx).raw is None,
        containers_page(cx).raw is None,
{
}

/// A page offers what is offered of what it shows, and its table is that of its listing,
/// narrowed as its filter says.
pub proof fn law_pages_offer_what_suits_them(
    environment: EnvironmentView,
    resolved: ResolvedView,
    image: ImageView,
    container: ContainerView,
    cx: ContextView,
)
    ensures
        environment_page(environment, resolved, cx).actions == action::environment_offers(
            cx.containers,
            cx.images,
        ),
        image_page(image, cx).actions == action::image_offers(image, cx.containers),
        container_page(container, cx).actions == action::container_offers(container, cx.images),
        images_page(cx).actions.len() == 0,
        containers_page(cx).actions.len() == 0,
        environment_page(environment, resolved, cx).table == Some(
            table::process_table(cx.containers, cx.now, cx.show_stopped),
        ),
        images_page(cx).table == Some(
            table::images_table(cx.images, cx.containers, cx.now, cx.show_untagged),
        ),
        containers_page(cx).table == Some(
            table::containers_table(cx.containers, cx.now, cx.show_stopped),
        ),
{
}

/// The groups of a page stand in their order, those that may be empty behind the rest; every
/// security option of the daemon is a row of its own.
pub proof fn law_groups_stand_in_their_order(
    environment: EnvironmentView,
    resolved: ResolvedView,
    image: ImageView,
    container: ContainerView,
    cx: ContextView,
    at: int,
)
    ensures
        ({
            let groups = environment_groups(environment, resolved, cx);
            &&& groups[0].title == "Connection"@
            &&& groups[1].title == "Host"@
            &&& groups[2].title == "Runtime"@
            &&& groups[3].title == "Contents"@
            &&& groups[4].title == "Footprint"@
            &&& 0 <= at < environment.security_options.len() ==> {
                &&& groups[5].title == "Security"@
                &&& groups[5].rows.len() == environment.security_options.len()
                &&& groups[5].rows[at] == plain_row("Option"@, environment.security_options[at])
            }
            &&& environment.security_options.len() == 0 && environment.warnings.len() == 0
                ==> groups.len() == 5
        }),
        ({
            let groups = image_groups(image, cx);
            &&& groups[0].title == "Identity"@
            &&& groups[1].title == "Storage"@
            &&& groups[2].title == "Used by"@
            &&& groups[2].rows == users_rows(image, cx.containers)
            &&& related_rows(image, cx.images, cx.layers).len() > 0 ==> groups[3].title
                == "Related images"@ && groups[3].rows == related_rows(image, cx.images, cx.layers)
            &&& image.labels.len() > 0 ==> groups.last().title == "Labels"@
                && groups.last().rows == label_rows(image.labels)
        }),
        ({
            let groups = container_groups(container, cx);
            &&& groups[0].title == "Identity"@
            &&& groups[1].title == "State"@
            &&& groups[2].title == "Image"@
            &&& groups[2].rows == image_rows(container, cx.images)
            &&& groups[3].title == "Networking"@
            &&& groups[4].title == "Storage"@
            &&& engine::active(container.state) ==> groups[5].title == "Memory"@ && groups[5].rows
                == memory_rows(container, cx.stats)
            &&& !engine::active(container.state) && siblings(container, cx.containers).len() > 0
                ==> groups[5].title == "Others from the same image"@
            &&& !engine::active(container.state) && 0 <= at < siblings(
                container,
                cx.containers,
            ).len() ==> groups[5].rows[at] == linked_row(
                crate::model::format::container_label_text(siblings(container, cx.containers)[at]),
                engine::state_label(siblings(container, cx.containers)[at].state),
                NodeKey::Container(siblings(container, cx.containers)[at].id),
            )
            &&& container.labels.len() > 0 ==> groups.last().title == "Labels"@
                && groups.last().rows == label_rows(container.labels)
        }),
{
}

} // verus!
