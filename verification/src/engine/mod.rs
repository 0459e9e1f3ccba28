//! What the container engine reports, as plain data.

use vstd::prelude::*;

use crate::binary64;
use crate::binary64::Binary64;
use crate::lists;
use crate::lists::put;
use crate::ordered;
use crate::ordered::TextMap;
use crate::text::same;

pub mod convert;
pub mod error;

pub use error::EngineError;

verus! {

/// One image, as the daemon lists it.
#[derive(Debug, Clone, PartialEq, Eq, Default)]
pub struct ImageSummary {
    pub id: String,
    /// Empty for untagged images; the daemon reports `<none>:<none>` on some versions.
    pub repo_tags: Vec<String>,
    pub repo_digests: Vec<String>,
    /// Seconds since the Unix epoch.
    pub created: i64,
    pub size: i64,
    /// `-1` when the daemon has not computed it.
    pub shared_size: i64,
    /// `-1` when the daemon has not computed it.
    pub containers: i64,
    pub labels: TextMap<String>,
}

/// The value of an [`ImageSummary`].
#[verifier::ext_equal]
pub struct ImageView {
    pub id: Seq<char>,
    pub repo_tags: Seq<Seq<char>>,
    pub repo_digests: Seq<Seq<char>>,
    pub created: i64,
    pub size: i64,
    pub shared_size: i64,
    pub containers: i64,
    pub labels: Seq<(Seq<char>, Seq<char>)>,
}

impl DeepView for ImageSummary {
    type V = ImageView;

    open spec fn deep_view(&self) -> ImageView {
        ImageView {
            id: self.id@,
            repo_tags: self.repo_tags.deep_view(),
            repo_digests: self.repo_digests.deep_view(),
            created: self.created,
            size: self.size,
            shared_size: self.shared_size,
            containers: self.containers,
            labels: self.labels.deep_view(),
        }
    }
}

/// One container, as the daemon lists it.
#[derive(Debug, Clone, PartialEq, Eq, Default)]
pub struct ContainerSummary {
    pub id: String,
    /// Without the leading slash the daemon adds.
    pub names: Vec<String>,
    /// The reference the container was created from, which may have moved since.
    pub image: String,
    /// The image the container actually runs.
    pub image_id: String,
    pub command: String,
    /// Seconds since the Unix epoch.
    pub created: i64,
    pub state: ContainerState,
    /// The daemon's own phrase, such as `Up 3 hours`.
    pub status: String,
    pub ports: Vec<PortMapping>,
    pub mounts: Vec<MountSummary>,
    pub networks: Vec<String>,
    pub labels: TextMap<String>,
}

/// The value of a [`ContainerSummary`].
#[verifier::ext_equal]
pub struct ContainerView {
    pub id: Seq<char>,
    pub names: Seq<Seq<char>>,
    pub image: Seq<char>,
    pub image_id: Seq<char>,
    pub command: Seq<char>,
    pub created: i64,
    pub state: ContainerState,
    pub status: Seq<char>,
    pub ports: Seq<PortView>,
    pub mounts: Seq<MountView>,
    pub networks: Seq<Seq<char>>,
    pub labels: Seq<(Seq<char>, Seq<char>)>,
}

impl DeepView for ContainerSummary {
    type V = ContainerView;

    open spec fn deep_view(&self) -> ContainerView {
        ContainerView {
            id: self.id@,
            names: self.names.deep_view(),
            image: self.image@,
            image_id: self.image_id@,
            command: self.command@,
            created: self.created,
            state: self.state,
            status: self.status@,
            ports: self.ports.deep_view(),
            mounts: self.mounts.deep_view(),
            networks: self.networks.deep_view(),
            labels: self.labels.deep_view(),
        }
    }
}

/// What a container is doing.
#[derive(Debug, Clone, Copy, PartialEq, Eq, Default)]
pub enum ContainerState {
    Created,
    Running,
    Paused,
    Restarting,
    Exited,
    Removing,
    Dead,
    Stopping,
    /// A state this version does not know.
    #[default]
    Unknown,
}

impl DeepView for ContainerState {
    type V = ContainerState;

    open spec fn deep_view(&self) -> ContainerState {
        *self
    }
}

/// Whether a container in this state holds a process.
pub open spec fn active(state: ContainerState) -> bool {
    state is Running || state is Restarting || state is Paused
}

/// The word for a state.
pub open spec fn state_label(state: ContainerState) -> Seq<char> {
    match state {
        ContainerState::Created => "created"@,
        ContainerState::Running => "running"@,
        ContainerState::Paused => "paused"@,
        ContainerState::Restarting => "restarting"@,
        ContainerState::Exited => "exited"@,
        ContainerState::Removing => "removing"@,
        ContainerState::Dead => "dead"@,
        ContainerState::Stopping => "stopping"@,
        ContainerState::Unknown => "unknown"@,
    }
}

impl ContainerState {
    /// True while the container holds a process, running or suspended.
    #[must_use]
    pub fn is_active(&self) -> (yes: bool)
        ensures
            yes == active(*self),
    {
        matches!(self, ContainerState::Running | ContainerState::Restarting | ContainerState::Paused)
    }

    /// The word for this state.
    #[must_use]
    pub fn label(&self) -> (label: &'static str)
        ensures
            label@ == state_label(*self),
    {
        match self {
            ContainerState::Created => "created",
            ContainerState::Running => "running",
            ContainerState::Paused => "paused",
            ContainerState::Restarting => "restarting",
            ContainerState::Exited => "exited",
            ContainerState::Removing => "removing",
            ContainerState::Dead => "dead",
            ContainerState::Stopping => "stopping",
            ContainerState::Unknown => "unknown",
        }
    }
}

/// A port a container exposes, published on the host or not.
#[derive(Debug, Clone, PartialEq, Eq, Default)]
pub struct PortMapping {
    pub ip: Option<String>,
    pub private_port: u16,
    pub public_port: Option<u16>,
    pub protocol: String,
}

/// The value of a [`PortMapping`].
#[verifier::ext_equal]
pub struct PortView {
    pub ip: Option<Seq<char>>,
    pub private_port: u16,
    pub public_port: Option<u16>,
    pub protocol: Seq<char>,
}

impl DeepView for PortMapping {
    type V = PortView;

    open spec fn deep_view(&self) -> PortView {
        PortView {
            ip: self.ip.deep_view(),
            private_port: self.private_port,
            public_port: self.public_port,
            protocol: self.protocol@,
        }
    }
}

/// A file system mounted into a container.
#[derive(Debug, Clone, PartialEq, Eq, Default)]
pub struct MountSummary {
    pub kind: String,
    pub source: String,
    pub destination: String,
    pub read_write: bool,
}

/// The value of a [`MountSummary`].
#[verifier::ext_equal]
pub struct MountView {
    pub kind: Seq<char>,
    pub source: Seq<char>,
    pub destination: Seq<char>,
    pub read_write: bool,
}

impl DeepView for MountSummary {
    type V = MountView;

    open spec fn deep_view(&self) -> MountView {
        MountView {
            kind: self.kind@,
            source: self.source@,
            destination: self.destination@,
            read_write: self.read_write,
        }
    }
}

/// One sample of a container's memory.
#[derive(Debug, Clone, PartialEq, Eq, Default)]
pub struct ContainerStats {
    pub id: String,
    /// Bytes in use, or `-1` when the daemon did not say.
    pub memory_usage: i64,
    /// The ceiling, or `-1` when there is none.
    pub memory_limit: i64,
}

/// The value of a [`ContainerStats`].
#[verifier::ext_equal]
pub struct StatsView {
    pub id: Seq<char>,
    pub memory_usage: i64,
    pub memory_limit: i64,
}

impl DeepView for ContainerStats {
    type V = StatsView;

    open spec fn deep_view(&self) -> StatsView {
        StatsView {
            id: self.id@,
            memory_usage: self.memory_usage,
            memory_limit: self.memory_limit,
        }
    }
}

impl ContainerStats {
    /// Whether the daemon reported any memory figure.
    #[must_use]
    pub fn has_memory(&self) -> (yes: bool)
        ensures
            yes == (self.memory_usage >= 0),
    {
        self.memory_usage >= 0
    }

    /// The share of its ceiling in use, as the bits of a binary64 number: the
    /// quotient of the two figures, each rounded to binary64 first. `None` when
    /// either is unknown.
    #[must_use]
    pub fn memory_fraction(&self) -> (fraction: Option<u64>)
        ensures
            fraction is Some <==> self.memory_usage >= 0 && self.memory_limit > 0,
            fraction matches Some(bits) ==> {
                &&& !binary64::bits_negative(bits)
                &&& binary64::bits_exponent(bits) < 2047
                &&& binary64::of_bits(bits) == binary64::quotient(
                    binary64::of_integer(self.memory_usage as nat),
                    binary64::of_integer(self.memory_limit as nat),
                )
            },
    {
        if !self.has_memory() || self.memory_limit <= 0 {
            return None;
        }
        let limit = Binary64::from_integer(self.memory_limit as u64);
        proof {
            limit.lemma_within(944, 1094, 944, 1094);
        }
        if self.memory_usage == 0 {
            proof {
                assert(0nat * binary64::one() == 0) by (nonlinear_arith);
                binary64::lemma_nearest_zero(1);
                binary64::lemma_nearest_zero(limit.value());
            }
            return Some(0);
        }
        let used = Binary64::from_integer(self.memory_usage as u64);
        let fraction = used.divide(limit, Ghost(944), Ghost(1094));
        proof {
            fraction.lemma_within(794, 1244, 0, 2045);
        }
        Some(fraction.to_bits())
    }
}

/// One line of the daemon's disk usage.
#[derive(Debug, Clone, Copy, PartialEq, Eq, Default)]
pub struct DiskCategory {
    pub total_count: i64,
    pub active_count: i64,
    pub size: i64,
    pub reclaimable: i64,
}

/// Disk usage by category; `None` for one the daemon did not report.
#[derive(Debug, Clone, Copy, PartialEq, Eq, Default)]
pub struct DiskUsage {
    pub images: Option<DiskCategory>,
    pub containers: Option<DiskCategory>,
    pub volumes: Option<DiskCategory>,
    pub build_cache: Option<DiskCategory>,
}

/// The sum of some integers.
pub open spec fn sum(values: Seq<i64>) -> int
    decreases values.len(),
{
    if values.len() == 0 {
        0
    } else {
        sum(values.drop_last()) + values.last()
    }
}

/// Whether adding the integers up from the first to the last never leaves the
/// range of `i64`.
pub open spec fn sum_fits(values: Seq<i64>) -> bool {
    forall|n: int| 0 <= n <= values.len() ==> i64::MIN <= #[trigger] sum(values.take(n)) <= i64::MAX
}

/// One category's figure, when it was reported: its size, or what can be reclaimed.
pub open spec fn reported(category: Option<DiskCategory>, size: bool) -> Seq<i64> {
    match category {
        Some(c) => seq![
            if size {
                c.size
            } else {
                c.reclaimable
            },
        ],
        None => seq![],
    }
}

impl DiskUsage {
    /// The sizes that the daemon reported, images first.
    pub open spec fn sizes(self) -> Seq<i64> {
        reported(self.images, true) + reported(self.containers, true) + reported(self.volumes, true)
            + reported(self.build_cache, true)
    }

    /// What the daemon reported as reclaimable, images first.
    pub open spec fn reclaimables(self) -> Seq<i64> {
        reported(self.images, false) + reported(self.containers, false) + reported(self.volumes, false)
            + reported(self.build_cache, false)
    }

    /// Every category's size together, or `None` when none was reported.
    #[must_use]
    pub fn total_size(&self) -> (total: Option<i64>)
        requires
            sum_fits(self.sizes()),
        ensures
            match total {
                Some(bytes) => self.sizes().len() > 0 && bytes == sum(self.sizes()),
                None => self.sizes().len() == 0,
            },
    {
        let mut figures: Vec<i64> = Vec::new();
        if let Some(c) = self.images {
            figures.push(c.size);
        }
        if let Some(c) = self.containers {
            figures.push(c.size);
        }
        if let Some(c) = self.volumes {
            figures.push(c.size);
        }
        if let Some(c) = self.build_cache {
            figures.push(c.size);
        }
        assert(figures@ =~= self.sizes());
        if figures.len() == 0 {
            None
        } else {
            Some(total(&figures))
        }
    }

    /// What could be reclaimed over every category, or `None` when none was
    /// reported.
    #[must_use]
    pub fn total_reclaimable(&self) -> (total: Option<i64>)
        requires
            sum_fits(self.reclaimables()),
        ensures
            match total {
                Some(bytes) => self.reclaimables().len() > 0 && bytes == sum(self.reclaimables()),
                None => self.reclaimables().len() == 0,
            },
    {
        let mut figures: Vec<i64> = Vec::new();
        if let Some(c) = self.images {
            figures.push(c.reclaimable);
        }
        if let Some(c) = self.containers {
            figures.push(c.reclaimable);
        }
        if let Some(c) = self.volumes {
            figures.push(c.reclaimable);
        }
        if let Some(c) = self.build_cache {
            figures.push(c.reclaimable);
        }
        assert(figures@ =~= self.reclaimables());
        if figures.len() == 0 {
            None
        } else {
            Some(total(&figures))
        }
    }
}

/// Adds the integers up.
pub fn total(values: &Vec<i64>) -> (total: i64)
    requires
        sum_fits(values@),
    ensures
        total == sum(values@),
{
    let mut total: i64 = 0;
    let mut i: usize = 0;
    while i < values.len()
        invariant
            i <= values@.len(),
            sum_fits(values@),
            total == sum(values@.take(i as int)),
        decreases values@.len() - i,
    {
        proof {
            assert(values@.take(i + 1).drop_last() =~= values@.take(i as int));
            assert(values@.take(i + 1).last() == values@[i as int]);
            assert(i64::MIN <= sum(values@.take(i + 1)) <= i64::MAX);
        }
        total = total + values[i];
        i += 1;
    }
    assert(values@.take(i as int) =~= values@);
    total
}

/// The daemon and the machine it runs on.
#[derive(Debug, Clone, PartialEq, Eq, Default)]
pub struct EnvironmentSummary {
    pub name: String,
    pub server_version: String,
    pub api_version: String,
    pub min_api_version: Option<String>,
    pub os_type: String,
    pub architecture: String,
    pub operating_system: String,
    pub kernel_version: String,
    pub storage_driver: String,
    pub logging_driver: String,
    pub cgroup_version: String,
    pub cgroup_driver: String,
    pub rootless: bool,
    pub cpus: i64,
    pub memory_total: i64,
    pub docker_root_dir: String,
    pub containers_total: i64,
    pub containers_running: i64,
    pub containers_paused: i64,
    pub containers_stopped: i64,
    pub images: i64,
    pub security_options: Vec<String>,
    pub warnings: Vec<String>,
}

/// The value of an [`EnvironmentSummary`].
#[verifier::ext_equal]
pub struct EnvironmentView {
    pub name: Seq<char>,
    pub server_version: Seq<char>,
    pub api_version: Seq<char>,
    pub min_api_version: Option<Seq<char>>,
    pub os_type: Seq<char>,
    pub architecture: Seq<char>,
    pub operating_system: Seq<char>,
    pub kernel_version: Seq<char>,
    pub storage_driver: Seq<char>,
    pub logging_driver: Seq<char>,
    pub cgroup_version: Seq<char>,
    pub cgroup_driver: Seq<char>,
    pub rootless: bool,
    pub cpus: i64,
    pub memory_total: i64,
    pub docker_root_dir: Seq<char>,
    pub containers_total: i64,
    pub containers_running: i64,
    pub containers_paused: i64,
    pub containers_stopped: i64,
    pub images: i64,
    pub security_options: Seq<Seq<char>>,
    pub warnings: Seq<Seq<char>>,
}

impl DeepView for EnvironmentSummary {
    type V = EnvironmentView;

    open spec fn deep_view(&self) -> EnvironmentView {
        EnvironmentView {
            name: self.name@,
            server_version: self.server_version@,
            api_version: self.api_version@,
            min_api_version: self.min_api_version.deep_view(),
            os_type: self.os_type@,
            architecture: self.architecture@,
            operating_system: self.operating_system@,
            kernel_version: self.kernel_version@,
            storage_driver: self.storage_driver@,
            logging_driver: self.logging_driver@,
            cgroup_version: self.cgroup_version@,
            cgroup_driver: self.cgroup_driver@,
            rootless: self.rootless,
            cpus: self.cpus,
            memory_total: self.memory_total,
            docker_root_dir: self.docker_root_dir@,
            containers_total: self.containers_total,
            containers_running: self.containers_running,
            containers_paused: self.containers_paused,
            containers_stopped: self.containers_stopped,
            images: self.images,
            security_options: self.security_options.deep_view(),
            warnings: self.warnings.deep_view(),
        }
    }
}

/// Something that happened in the engine.
#[derive(Debug, Clone, PartialEq, Eq, Default)]
pub struct EngineEvent {
    pub kind: String,
    pub action: String,
    pub actor_id: String,
    pub actor_name: Option<String>,
    /// Seconds since the Unix epoch.
    pub time: i64,
}

/// The value of an [`EngineEvent`].
#[verifier::ext_equal]
pub struct EventView {
    pub kind: Seq<char>,
    pub action: Seq<char>,
    pub actor_id: Seq<char>,
    pub actor_name: Option<Seq<char>>,
    pub time: i64,
}

impl DeepView for EngineEvent {
    type V = EventView;

    open spec fn deep_view(&self) -> EventView {
        EventView {
            kind: self.kind@,
            action: self.action@,
            actor_id: self.actor_id@,
            actor_name: self.actor_name.deep_view(),
            time: self.time,
        }
    }
}

impl EngineEvent {
    /// Whether the listing on screen may have gone stale because of this event.
    #[must_use]
    pub fn affects_listing(&self) -> (yes: bool)
        ensures
            yes == (self.kind@ == "container"@ || self.kind@ == "image"@),
    {
        same(self.kind.as_str(), "container") || same(self.kind.as_str(), "image")
    }
}

/// What can be asked of a container's process.
#[derive(Debug, Clone, Copy, PartialEq, Eq, Structural)]
pub enum Lifecycle {
    Start,
    Stop,
    Restart,
    Pause,
    Unpause,
    Kill,
}

/// The verb for a request.
pub open spec fn lifecycle_verb(action: Lifecycle) -> Seq<char> {
    match action {
        Lifecycle::Start => "start"@,
        Lifecycle::Stop => "stop"@,
        Lifecycle::Restart => "restart"@,
        Lifecycle::Pause => "pause"@,
        Lifecycle::Unpause => "unpause"@,
        Lifecycle::Kill => "kill"@,
    }
}

impl Lifecycle {
    /// The verb for this request.
    #[must_use]
    pub fn verb(self) -> (verb: &'static str)
        ensures
            verb@ == lifecycle_verb(self),
    {
        match self {
            Lifecycle::Start => "start",
            Lifecycle::Stop => "stop",
            Lifecycle::Restart => "restart",
            Lifecycle::Pause => "pause",
            Lifecycle::Unpause => "unpause",
            Lifecycle::Kill => "kill",
        }
    }
}

/// A mutating call that an engine was asked to make. Calls that only read are not
/// recorded: they cannot do damage.
#[derive(Debug, Clone, PartialEq, Eq)]
pub enum EngineCall {
    Lifecycle { id: String, action: Lifecycle },
    RemoveContainer { id: String, force: bool },
    RemoveImage { id: String, force: bool },
    PruneContainers,
    PruneImages,
    CreateScratchContainer { image_id: String },
}

/// What a prune removed.
#[derive(Debug, Clone, PartialEq, Eq, Default)]
pub struct PruneOutcome {
    pub removed: Vec<String>,
    pub reclaimed: i64,
}

/// One step of an image's history.
#[derive(Debug, Clone, PartialEq, Eq, Default)]
pub struct HistoryEntry {
    pub id: String,
    /// Seconds since the Unix epoch.
    pub created: i64,
    pub created_by: String,
    pub size: i64,
    pub comment: String,
    pub tags: Vec<String>,
}

/// The value of a [`HistoryEntry`].
#[verifier::ext_equal]
pub struct HistoryView {
    pub id: Seq<char>,
    pub created: i64,
    pub created_by: Seq<char>,
    pub size: i64,
    pub comment: Seq<char>,
    pub tags: Seq<Seq<char>>,
}

impl DeepView for HistoryEntry {
    type V = HistoryView;

    open spec fn deep_view(&self) -> HistoryView {
        HistoryView {
            id: self.id@,
            created: self.created,
            created_by: self.created_by@,
            size: self.size,
            comment: self.comment@,
            tags: self.tags.deep_view(),
        }
    }
}

impl HistoryEntry {
    /// Whether the layer's own image is not on this machine.
    #[must_use]
    pub fn is_missing(&self) -> (yes: bool)
        ensures
            yes == (self.id@.len() == 0 || self.id@ == "<missing>"@),
    {
        self.id.as_str().is_empty() || same(self.id.as_str(), "<missing>")
    }
}

/// What the daemon says of one path in a container.
#[derive(Debug, Clone, PartialEq, Eq, Default)]
pub struct PathStat {
    pub name: String,
    pub size: i64,
    pub mode: u32,
    /// Seconds since the Unix epoch.
    pub mtime: i64,
    pub link_target: String,
}

/// Which of a container's two outputs a line came from.
#[derive(Debug, Clone, Copy, PartialEq, Eq)]
pub enum LogStream {
    Stdout,
    Stderr,
}

/// Some bytes of a container's output, cut anywhere.
#[derive(Debug, Clone, PartialEq, Eq)]
pub struct LogChunk {
    pub stream: LogStream,
    pub bytes: Vec<u8>,
}

/// How many lines of history a log opens with.
pub const TAIL_LINES: usize = 500;

/// How to read a log.
#[derive(Debug, Clone, Copy, PartialEq, Eq)]
pub struct LogOptions {
    pub follow: bool,
    /// `None` reads everything.
    pub tail: Option<usize>,
    pub timestamps: bool,
}

impl Default for LogOptions {
    fn default() -> (options: Self)
        ensures
            options == (LogOptions { follow: false, tail: Some(TAIL_LINES), timestamps: false }),
    {
        Self { follow: false, tail: Some(TAIL_LINES), timestamps: false }
    }
}

/// The label on the containers that are made only to read an image's files.
pub const SCRATCH_LABEL: &'static str = "com.paperstack.lave-station.scratch";

/// What the command of such a container is set to, so that an image with a failing
/// entrypoint cannot be made to run by accident. It is never started regardless.
pub const SCRATCH_ENTRYPOINT: &'static str = "/nonexistent-lave-station-placeholder";

/// A request for a container that is made only to read an image's files.
#[derive(Debug, Clone, PartialEq, Eq)]
pub struct ScratchRequest {
    pub image: String,
    pub labels: TextMap<String>,
    pub entrypoint: Vec<String>,
}

/// The labels of a container that is made only to read an image's files.
pub open spec fn scratch_labels() -> Seq<(Seq<char>, Seq<char>)> {
    seq![(SCRATCH_LABEL@, "1"@)]
}

/// A request for a container that is made only to read an image's files. It carries the
/// scratch label, so that strays can be swept.
#[must_use]
pub fn scratch_request(image_id: &str) -> (request: ScratchRequest)
    ensures
        request.image@ == image_id@,
        request.labels.deep_view() == scratch_labels(),
        request.entrypoint.deep_view() == seq![SCRATCH_ENTRYPOINT@],
{
    let mut labels: TextMap<String> = TextMap::new();
    labels.push_last(SCRATCH_LABEL.to_owned(), "1".to_owned());
    assert(labels.deep_view() =~= scratch_labels());
    let mut entrypoint: Vec<String> = Vec::new();
    put(&mut entrypoint, SCRATCH_ENTRYPOINT.to_owned());
    assert(entrypoint.deep_view() =~= seq![SCRATCH_ENTRYPOINT@]);
    ScratchRequest { image: image_id.to_owned(), labels, entrypoint }
}

/// Which images a prune is limited to: without this filter the daemon removes every
/// image that no container uses, tagged or not.
#[must_use]
pub fn prune_filter() -> (filter: (String, Vec<String>))
    ensures
        filter.deep_view() == ("dangling"@, seq!["true"@]),
{
    let mut values: Vec<String> = Vec::new();
    put(&mut values, "true".to_owned());
    assert(values.deep_view() =~= seq!["true"@]);
    ("dangling".to_owned(), values)
}

/// A container that was made on request only to read an image's files is recognised as
/// one.
pub proof fn law_scratch_containers_are_recognised(container: ContainerView)
    requires
        container.labels == scratch_labels(),
    ensures
        scratch(container),
{
    ordered::lemma_holds(scratch_labels(), 0);
}

/// Whether a container carries the scratch label.
pub open spec fn scratch(container: ContainerView) -> bool {
    ordered::holds(container.labels, SCRATCH_LABEL@)
}

/// Whether a container was made only to read an image's files.
#[must_use]
pub fn is_scratch(container: &ContainerSummary) -> (yes: bool)
    ensures
        yes == scratch(container.deep_view()),
{
    container.labels.contains_key(SCRATCH_LABEL)
}

/// The containers that were made only to read an image's files.
#[must_use]
pub fn scratch_strays(containers: &[ContainerSummary]) -> (strays: Vec<&ContainerSummary>)
    ensures
        strays.deep_view() == containers.deep_view().filter(|c: ContainerView| scratch(c)),
{
    let ghost all = containers.deep_view();
    let ghost p = |c: ContainerView| scratch(c);
    let mut strays: Vec<&ContainerSummary> = Vec::new();
    let mut i: usize = 0;
    proof {
        lists::lemma_filter_ends(all, p);
    }
    while i < containers.len()
        invariant
            i <= containers@.len(),
            all == containers.deep_view(),
            p == (|c: ContainerView| scratch(c)),
            strays.deep_view() == all.take(i as int).filter(p),
        decreases containers@.len() - i,
    {
        proof {
            lists::lemma_filter_step(all, p, i as int);
        }
        if is_scratch(&containers[i]) {
            put(&mut strays, &containers[i]);
        }
        i += 1;
    }
    proof {
        lists::lemma_filter_ends(all, p);
    }
    strays
}

/// A container is one that was made only to read an image's files exactly when it carries
/// the label of those, whatever other labels it carries.
pub proof fn law_scratch_is_told_by_the_label(container: ContainerView)
    requires
        ordered::ascending(container.labels),
    ensures
        scratch(container) <==> exists|i: int|
            0 <= i < container.labels.len() && (#[trigger] container.labels[i]).0
                == "com.paperstack.lave-station.scratch"@,
{
    if scratch(container) {
        let at = ordered::rank(container.labels, SCRATCH_LABEL@) as int;
        assert(container.labels[at].0 == SCRATCH_LABEL@);
    }
    if exists|i: int|
        0 <= i < container.labels.len() && (#[trigger] container.labels[i]).0
            == "com.paperstack.lave-station.scratch"@ {
        let i = choose|i: int|
            0 <= i < container.labels.len() && (#[trigger] container.labels[i]).0
                == "com.paperstack.lave-station.scratch"@;
        ordered::lemma_holds(container.labels, i);
    }
}

/// The bytes of one line of the disk usage, when it was reported.
pub open spec fn figure_of(category: Option<DiskCategory>, size: bool) -> int {
    match category {
        Some(c) => if size {
            c.size as int
        } else {
            c.reclaimable as int
        },
        None => 0,
    }
}

/// The total is that of all four categories, of those that were reported; a size is never
/// taken for what can be reclaimed.
pub proof fn law_disk_totals_add_up(usage: DiskUsage)
    ensures
        sum(usage.sizes()) == figure_of(usage.images, true) + figure_of(usage.containers, true)
            + figure_of(usage.volumes, true) + figure_of(usage.build_cache, true),
        sum(usage.reclaimables()) == figure_of(usage.images, false) + figure_of(
            usage.containers,
            false,
        ) + figure_of(usage.volumes, false) + figure_of(usage.build_cache, false),
        usage.sizes().len() == 0 <==> usage.images is None && usage.containers is None
            && usage.volumes is None && usage.build_cache is None,
        usage.reclaimables().len() == usage.sizes().len(),
{
    lemma_sum_of_joined(reported(usage.images, true), reported(usage.containers, true));
    lemma_sum_of_joined(
        reported(usage.images, true) + reported(usage.containers, true),
        reported(usage.volumes, true),
    );
    lemma_sum_of_joined(
        reported(usage.images, true) + reported(usage.containers, true) + reported(
            usage.volumes,
            true,
        ),
        reported(usage.build_cache, true),
    );
    lemma_sum_of_joined(reported(usage.images, false), reported(usage.containers, false));
    lemma_sum_of_joined(
        reported(usage.images, false) + reported(usage.containers, false),
        reported(usage.volumes, false),
    );
    lemma_sum_of_joined(
        reported(usage.images, false) + reported(usage.containers, false) + reported(
            usage.volumes,
            false,
        ),
        reported(usage.build_cache, false),
    );
    lemma_sum_of_reported(usage.images);
    lemma_sum_of_reported(usage.containers);
    lemma_sum_of_reported(usage.volumes);
    lemma_sum_of_reported(usage.build_cache);
}

proof fn lemma_sum_of_reported(category: Option<DiskCategory>)
    ensures
        sum(reported(category, true)) == figure_of(category, true),
        sum(reported(category, false)) == figure_of(category, false),
{
    if let Some(c) = category {
        assert(reported(category, true).drop_last() =~= Seq::<i64>::empty());
        assert(reported(category, false).drop_last() =~= Seq::<i64>::empty());
        assert(sum(Seq::<i64>::empty()) == 0);
    }
}

proof fn lemma_sum_of_joined(a: Seq<i64>, b: Seq<i64>)
    ensures
        sum(a + b) == sum(a) + sum(b),
    decreases b.len(),
{
    if b.len() == 0 {
        assert(a + b =~= a);
    } else {
        assert((a + b).drop_last() =~= a + b.drop_last());
        lemma_sum_of_joined(a, b.drop_last());
    }
}

/// A sum does not depend on the order, and one figure alone is its own sum.
pub proof fn law_sums_add_up(a: Seq<i64>, b: Seq<i64>, value: i64)
    ensures
        sum(a + b) == sum(a) + sum(b),
        sum(a + b) == sum(b + a),
        sum(seq![value]) == value,
        sum(Seq::empty()) == 0,
{
    lemma_sum_of_joined(a, b);
    lemma_sum_of_joined(b, a);
    assert(seq![value].drop_last() =~= Seq::<i64>::empty());
    assert(sum(Seq::<i64>::empty()) == 0);
}

/// A container holds a process while it runs, restarts or is paused, and each state and
/// each request has its own word.
pub proof fn law_states_and_requests_have_their_own_words(state: ContainerState, action: Lifecycle)
    ensures
        active(state) <==> state is Running || state is Restarting || state is Paused,
        state is Created ==> state_label(state) == "created"@,
        state is Running ==> state_label(state) == "running"@,
        state is Paused ==> state_label(state) == "paused"@,
        state is Restarting ==> state_label(state) == "restarting"@,
        state is Exited ==> state_label(state) == "exited"@,
        state is Removing ==> state_label(state) == "removing"@,
        state is Dead ==> state_label(state) == "dead"@,
        state is Stopping ==> state_label(state) == "stopping"@,
        state is Unknown ==> state_label(state) == "unknown"@,
        action is Start ==> lifecycle_verb(action) == "start"@,
        action is Stop ==> lifecycle_verb(action) == "stop"@,
        action is Restart ==> lifecycle_verb(action) == "restart"@,
        action is Pause ==> lifecycle_verb(action) == "pause"@,
        action is Unpause ==> lifecycle_verb(action) == "unpause"@,
        action is Kill ==> lifecycle_verb(action) == "kill"@,
{
}

} // verus!
