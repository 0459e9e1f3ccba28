//! The daemon's listings, as they come over the wire, turned into the summaries that
//! the rest of the library works on.

use vstd::prelude::*;

use super::{
    ContainerState, ContainerSummary, ContainerView, EngineEvent, EnvironmentSummary,
    EnvironmentView, EventView, ImageSummary, ImageView, LogChunk, LogOptions,
    LogStream, MountSummary, MountView, PortMapping, PortView, PruneOutcome,
};
use crate::arrange;
use crate::arrange::{arrange, SortKey};
use crate::lists::put;
use crate::ordered;
use crate::ordered::TextMap;
use crate::text;
use crate::text::{count_text, same, skip_chars, split_once, trim};

verus! {

/// An image, as the daemon lists it.
#[derive(Debug, Clone, PartialEq, Eq, Default)]
pub struct WireImage {
    pub id: String,
    pub repo_tags: Vec<String>,
    pub repo_digests: Vec<String>,
    pub created: i64,
    pub size: i64,
    pub shared_size: i64,
    pub containers: i64,
    /// In no particular order, no key twice.
    pub labels: Vec<(String, String)>,
}

/// The value of a [`WireImage`].
#[verifier::ext_equal]
pub struct WireImageView {
    pub id: Seq<char>,
    pub repo_tags: Seq<Seq<char>>,
    pub repo_digests: Seq<Seq<char>>,
    pub created: i64,
    pub size: i64,
    pub shared_size: i64,
    pub containers: i64,
    pub labels: Seq<(Seq<char>, Seq<char>)>,
}

impl DeepView for WireImage {
    type V = WireImageView;

    open spec fn deep_view(&self) -> WireImageView {
        WireImageView {
            id: self.id@,
            repo_tags: self.repo_tags.deep_view(),
            repo_digests: self.repo_digests.deep_view(),
            created: self.created,
            size: self.size,
            shared_size: self.shared_size,
            containers: self.containers,
            labels: self.labels.deep_view(),
        }
    }
}

/// A container's state, as the daemon spells it.
#[derive(Debug, Clone, Copy, PartialEq, Eq)]
pub enum WireState {
    Empty,
    Created,
    Running,
    Paused,
    Restarting,
    Exited,
    Removing,
    Dead,
    Stopping,
}

/// A published port, as the daemon lists it.
#[derive(Debug, Clone, PartialEq, Eq, Default)]
pub struct WirePort {
    pub ip: Option<String>,
    pub private_port: u16,
    pub public_port: Option<u16>,
    pub protocol: Option<String>,
}

/// The value of a [`WirePort`].
#[verifier::ext_equal]
pub struct WirePortView {
    pub ip: Option<Seq<char>>,
    pub private_port: u16,
    pub public_port: Option<u16>,
    pub protocol: Option<Seq<char>>,
}

impl DeepView for WirePort {
    type V = WirePortView;

    open spec fn deep_view(&self) -> WirePortView {
        WirePortView {
            ip: self.ip.deep_view(),
            private_port: self.private_port,
            public_port: self.public_port,
            protocol: self.protocol.deep_view(),
        }
    }
}

/// A mount, as the daemon lists it.
#[derive(Debug, Clone, PartialEq, Eq, Default)]
pub struct WireMount {
    pub kind: Option<String>,
    pub name: Option<String>,
    pub source: Option<String>,
    pub destination: Option<String>,
    pub rw: Option<bool>,
}

/// The value of a [`WireMount`].
#[verifier::ext_equal]
pub struct WireMountView {
    pub kind: Option<Seq<char>>,
    pub name: Option<Seq<char>>,
    pub source: Option<Seq<char>>,
    pub destination: Option<Seq<char>>,
    pub rw: Option<bool>,
}

impl DeepView for WireMount {
    type V = WireMountView;

    open spec fn deep_view(&self) -> WireMountView {
        WireMountView {
            kind: self.kind.deep_view(),
            name: self.name.deep_view(),
            source: self.source.deep_view(),
            destination: self.destination.deep_view(),
            rw: self.rw,
        }
    }
}

/// A container, as the daemon lists it.
#[derive(Debug, Clone, PartialEq, Eq, Default)]
pub struct WireContainer {
    pub id: Option<String>,
    pub names: Option<Vec<String>>,
    pub image: Option<String>,
    pub image_id: Option<String>,
    pub command: Option<String>,
    pub created: Option<i64>,
    pub state: Option<WireState>,
    pub status: Option<String>,
    pub ports: Option<Vec<WirePort>>,
    pub mounts: Option<Vec<WireMount>>,
    /// The names of the networks, in no particular order.
    pub networks: Option<Vec<String>>,
    /// In no particular order, no key twice.
    pub labels: Option<Vec<(String, String)>>,
}

/// The value of a [`WireContainer`].
#[verifier::ext_equal]
pub struct WireContainerView {
    pub id: Option<Seq<char>>,
    pub names: Option<Seq<Seq<char>>>,
    pub image: Option<Seq<char>>,
    pub image_id: Option<Seq<char>>,
    pub command: Option<Seq<char>>,
    pub created: Option<i64>,
    pub state: Option<WireState>,
    pub status: Option<Seq<char>>,
    pub ports: Option<Seq<WirePortView>>,
    pub mounts: Option<Seq<WireMountView>>,
    pub networks: Option<Seq<Seq<char>>>,
    pub labels: Option<Seq<(Seq<char>, Seq<char>)>>,
}

impl DeepView for WireContainer {
    type V = WireContainerView;

    open spec fn deep_view(&self) -> WireContainerView {
        WireContainerView {
            id: self.id.deep_view(),
            names: self.names.deep_view(),
            image: self.image.deep_view(),
            image_id: self.image_id.deep_view(),
            command: self.command.deep_view(),
            created: self.created,
            state: self.state,
            status: self.status.deep_view(),
            ports: self.ports.deep_view(),
            mounts: self.mounts.deep_view(),
            networks: self.networks.deep_view(),
            labels: self.labels.deep_view(),
        }
    }
}

/// The object of an event.
#[derive(Debug, Clone, PartialEq, Eq, Default)]
pub struct WireActor {
    pub id: Option<String>,
    /// In no particular order, no key twice.
    pub attributes: Option<Vec<(String, String)>>,
}

/// The value of a [`WireActor`].
#[verifier::ext_equal]
pub struct WireActorView {
    pub id: Option<Seq<char>>,
    pub attributes: Option<Seq<(Seq<char>, Seq<char>)>>,
}

impl DeepView for WireActor {
    type V = WireActorView;

    open spec fn deep_view(&self) -> WireActorView {
        WireActorView {
            id: self.id.deep_view(),
            attributes: self.attributes.deep_view(),
        }
    }
}

/// An event, as the daemon reports it.
#[derive(Debug, Clone, PartialEq, Eq, Default)]
pub struct WireEvent {
    pub kind: Option<String>,
    pub action: Option<String>,
    pub actor: Option<WireActor>,
    pub time: Option<i64>,
}

/// The value of a [`WireEvent`].
#[verifier::ext_equal]
pub struct WireEventView {
    pub kind: Option<Seq<char>>,
    pub action: Option<Seq<char>>,
    pub actor: Option<WireActorView>,
    pub time: Option<i64>,
}

impl DeepView for WireEvent {
    type V = WireEventView;

    open spec fn deep_view(&self) -> WireEventView {
        WireEventView {
            kind: self.kind.deep_view(),
            action: self.action.deep_view(),
            actor: self.actor.deep_view(),
            time: self.time,
        }
    }
}

/// What the daemon says of its version.
#[derive(Debug, Clone, PartialEq, Eq, Default)]
pub struct WireVersion {
    pub version: Option<String>,
    pub api_version: Option<String>,
    pub min_api_version: Option<String>,
    pub os: Option<String>,
    pub arch: Option<String>,
}

/// The value of a [`WireVersion`].
#[verifier::ext_equal]
pub struct WireVersionView {
    pub version: Option<Seq<char>>,
    pub api_version: Option<Seq<char>>,
    pub min_api_version: Option<Seq<char>>,
    pub os: Option<Seq<char>>,
    pub arch: Option<Seq<char>>,
}

impl DeepView for WireVersion {
    type V = WireVersionView;

    open spec fn deep_view(&self) -> WireVersionView {
        WireVersionView {
            version: self.version.deep_view(),
            api_version: self.api_version.deep_view(),
            min_api_version: self.min_api_version.deep_view(),
            os: self.os.deep_view(),
            arch: self.arch.deep_view(),
        }
    }
}

/// What the daemon says of itself and its host.
#[derive(Debug, Clone, PartialEq, Eq, Default)]
pub struct WireInfo {
    pub name: Option<String>,
    pub driver: Option<String>,
    pub logging_driver: Option<String>,
    pub cgroup_version: Option<String>,
    pub cgroup_driver: Option<String>,
    pub operating_system: Option<String>,
    pub kernel_version: Option<String>,
    pub docker_root_dir: Option<String>,
    pub ncpu: Option<i64>,
    pub mem_total: Option<i64>,
    pub containers: Option<i64>,
    pub containers_running: Option<i64>,
    pub containers_paused: Option<i64>,
    pub containers_stopped: Option<i64>,
    pub images: Option<i64>,
    pub security_options: Option<Vec<String>>,
    pub warnings: Option<Vec<String>>,
}

/// The value of a [`WireInfo`].
#[verifier::ext_equal]
pub struct WireInfoView {
    pub name: Option<Seq<char>>,
    pub driver: Option<Seq<char>>,
    pub logging_driver: Option<Seq<char>>,
    pub cgroup_version: Option<Seq<char>>,
    pub cgroup_driver: Option<Seq<char>>,
    pub operating_system: Option<Seq<char>>,
    pub kernel_version: Option<Seq<char>>,
    pub docker_root_dir: Option<Seq<char>>,
    pub ncpu: Option<i64>,
    pub mem_total: Option<i64>,
    pub containers: Option<i64>,
    pub containers_running: Option<i64>,
    pub containers_paused: Option<i64>,
    pub containers_stopped: Option<i64>,
    pub images: Option<i64>,
    pub security_options: Option<Seq<Seq<char>>>,
    pub warnings: Option<Seq<Seq<char>>>,
}

impl DeepView for WireInfo {
    type V = WireInfoView;

    open spec fn deep_view(&self) -> WireInfoView {
        WireInfoView {
            name: self.name.deep_view(),
            driver: self.driver.deep_view(),
            logging_driver: self.logging_driver.deep_view(),
            cgroup_version: self.cgroup_version.deep_view(),
            cgroup_driver: self.cgroup_driver.deep_view(),
            operating_system: self.operating_system.deep_view(),
            kernel_version: self.kernel_version.deep_view(),
            docker_root_dir: self.docker_root_dir.deep_view(),
            ncpu: self.ncpu,
            mem_total: self.mem_total,
            containers: self.containers,
            containers_running: self.containers_running,
            containers_paused: self.containers_paused,
            containers_stopped: self.containers_stopped,
            images: self.images,
            security_options: self.security_options.deep_view(),
            warnings: self.warnings.deep_view(),
        }
    }
}

/// A text, or the empty one.
pub open spec fn or_empty(value: Option<Seq<char>>) -> Seq<char> {
    match value {
        Some(text) => text,
        None => Seq::empty(),
    }
}

/// A list, or the empty one.
pub open spec fn or_none<T>(value: Option<Seq<T>>) -> Seq<T> {
    match value {
        Some(list) => list,
        None => Seq::empty(),
    }
}

/// A number, or zero.
pub open spec fn or_zero(value: Option<i64>) -> i64 {
    match value {
        Some(number) => number,
        None => 0,
    }
}

/// A text that is not empty.
pub open spec fn non_blank(value: Option<Seq<char>>) -> Option<Seq<char>> {
    match value {
        Some(text) => if text.len() > 0 {
            Some(text)
        } else {
            None
        },
        None => None,
    }
}

fn text_or_empty(value: Option<String>) -> (text: String)
    ensures
        text@ == or_empty(value.deep_view()),
{
    match value {
        Some(text) => text,
        None => {
            let empty = String::new();
            assert(empty@ =~= Seq::empty());
            empty
        },
    }
}

fn list_or_empty<T: DeepView>(value: Option<Vec<T>>) -> (list: Vec<T>)
    ensures
        list.deep_view() == or_none(value.deep_view()),
{
    match value {
        Some(list) => list,
        None => {
            let empty: Vec<T> = Vec::new();
            assert(empty.deep_view() =~= Seq::empty());
            empty
        },
    }
}

fn number_or_zero(value: Option<i64>) -> (number: i64)
    ensures
        number == or_zero(value),
{
    match value {
        Some(number) => number,
        None => 0,
    }
}

fn text_unless_empty(value: Option<String>) -> (text: Option<String>)
    ensures
        text.deep_view() == non_blank(value.deep_view()),
{
    match value {
        Some(text) => if text.as_str().is_empty() {
            None
        } else {
            Some(text)
        },
        None => None,
    }
}

/// Pairs put into a map one after the other.
pub open spec fn collected(pairs: Seq<(Seq<char>, Seq<char>)>) -> Seq<(Seq<char>, Seq<char>)>
    decreases pairs.len(),
{
    if pairs.len() == 0 {
        Seq::empty()
    } else {
        ordered::inserted(collected(pairs.drop_last()), pairs.last().0, pairs.last().1)
    }
}

/// Whether no key occurs twice.
pub open spec fn distinct_keys(pairs: Seq<(Seq<char>, Seq<char>)>) -> bool {
    forall|i: int, j: int|
        0 <= i < j < pairs.len() ==> (#[trigger] pairs[i]).0 != (#[trigger] pairs[j]).0
}

proof fn lemma_collected(pairs: Seq<(Seq<char>, Seq<char>)>, key: Seq<char>)
    requires
        distinct_keys(pairs),
    ensures
        ordered::ascending(collected(pairs)),
        ordered::lookup(collected(pairs), key) matches Some(value) ==> pairs.contains((key, value)),
        forall|i: int|
            0 <= i < pairs.len() && (#[trigger] pairs[i]).0 == key ==> ordered::lookup(
                collected(pairs),
                key,
            ) == Some(pairs[i].1),
    decreases pairs.len(),
{
    if pairs.len() > 0 {
        let rest = pairs.drop_last();
        let last = pairs.last();
        lemma_collected(rest, key);
        ordered::law_insert_then_lookup(collected(rest), last.0, last.1, key);
        if key == last.0 {
            assert(pairs[pairs.len() - 1] == last);
            assert(pairs.contains((key, last.1)));
        } else if let Some(value) = ordered::lookup(collected(rest), key) {
            let at = choose|at: int| 0 <= at < rest.len() && rest[at] == (key, value);
            assert(pairs[at] == (key, value));
        }
        assert forall|i: int| 0 <= i < pairs.len() && (#[trigger] pairs[i]).0 == key implies
            ordered::lookup(collected(pairs), key) == Some(pairs[i].1) by {
            if i < pairs.len() - 1 {
                assert(rest[i] == pairs[i]);
                assert(pairs[i].0 != pairs[pairs.len() - 1].0);
            }
        }
    }
}

/// Labels come out in the order of their keys, and each key has the value it came
/// with.
pub proof fn law_labels_are_kept_in_order(pairs: Seq<(Seq<char>, Seq<char>)>, at: int)
    requires
        distinct_keys(pairs),
        0 <= at < pairs.len(),
    ensures
        ordered::ascending(collected(pairs)),
        ordered::lookup(collected(pairs), pairs[at].0) == Some(pairs[at].1),
{
    lemma_collected(pairs, pairs[at].0);
}

/// Two maps in order that give every key the same value are the same.
proof fn lemma_same_lookups(a: Seq<(Seq<char>, Seq<char>)>, b: Seq<(Seq<char>, Seq<char>)>)
    requires
        ordered::ascending(a),
        ordered::ascending(b),
        forall|key: Seq<char>| #[trigger] ordered::lookup(a, key) == ordered::lookup(b, key),
    ensures
        a == b,
    decreases a.len() + b.len(),
{
    if a.len() == 0 {
        if b.len() > 0 {
            ordered::lemma_holds(b, 0);
            assert(ordered::lookup(a, b[0].0) is None);
        }
        assert(a =~= b);
    } else if b.len() == 0 {
        ordered::lemma_holds(a, 0);
        assert(ordered::lookup(b, a[0].0) is None);
    } else {
        let x = a.last();
        let y = b.last();
        ordered::lemma_holds(a, a.len() - 1);
        ordered::lemma_holds(b, b.len() - 1);
        assert(ordered::lookup(b, x.0) == Some(x.1));
        assert(ordered::lookup(a, y.0) == Some(y.1));
        let p = ordered::rank(b, x.0) as int;
        let q = ordered::rank(a, y.0) as int;
        assert(b[p] == x && a[q] == y);
        if x.0 != y.0 {
            assert(text::below(b[p].0, b[b.len() - 1].0));
            assert(text::below(a[q].0, a[a.len() - 1].0));
            text::lemma_at_most_antisymmetric(x.0, y.0);
        }
        let c = a.drop_last();
        let d = b.drop_last();
        assert(c.push(x) =~= a && d.push(y) =~= b);
        assert forall|key: Seq<char>| #[trigger] ordered::lookup(c, key) == ordered::lookup(d, key)
            by {
            lemma_lookup_without_last(a, key);
            lemma_lookup_without_last(b, key);
            assert(ordered::lookup(a, key) == ordered::lookup(b, key));
        }
        lemma_same_lookups(c, d);
    }
}

proof fn lemma_lookup_without_last(entries: Seq<(Seq<char>, Seq<char>)>, key: Seq<char>)
    requires
        ordered::ascending(entries),
        entries.len() > 0,
    ensures
        ordered::lookup(entries.drop_last(), key) == (if key == entries.last().0 {
            None
        } else {
            ordered::lookup(entries, key)
        }),
{
    let rest = entries.drop_last();
    assert(ordered::ascending(rest));
    if ordered::holds(rest, key) {
        let at = ordered::rank(rest, key) as int;
        ordered::lemma_holds(entries, at);
        assert(rest[at] == entries[at]);
        assert(text::below(entries[at].0, entries[entries.len() - 1].0));
    } else if ordered::holds(entries, key) && key != entries.last().0 {
        let at = ordered::rank(entries, key) as int;
        assert(rest[at] == entries[at]);
        ordered::lemma_holds(rest, at);
    }
}

/// The order in which the daemon sends labels makes no difference.
pub proof fn law_label_order_is_irrelevant(
    pairs: Seq<(Seq<char>, Seq<char>)>,
    shuffled: Seq<(Seq<char>, Seq<char>)>,
)
    requires
        distinct_keys(pairs),
        distinct_keys(shuffled),
        forall|pair: (Seq<char>, Seq<char>)|
            #[trigger] pairs.contains(pair) <==> shuffled.contains(pair),
    ensures
        collected(pairs) == collected(shuffled),
{
    let a = collected(pairs);
    let b = collected(shuffled);
    assert forall|key: Seq<char>| #[trigger] ordered::lookup(a, key) == ordered::lookup(b, key) by {
        lemma_collected(pairs, key);
        lemma_collected(shuffled, key);
        if let Some(value) = ordered::lookup(a, key) {
            assert(pairs.contains((key, value)));
            let at = choose|at: int| 0 <= at < shuffled.len() && shuffled[at] == (key, value);
            assert(shuffled[at].0 == key);
        }
        if let Some(value) = ordered::lookup(b, key) {
            assert(pairs.contains((key, value)));
            let at = choose|at: int| 0 <= at < pairs.len() && pairs[at] == (key, value);
            assert(pairs[at].0 == key);
        }
    }
    lemma_collected(pairs, Seq::empty());
    lemma_collected(shuffled, Seq::empty());
    lemma_same_lookups(a, b);
}

/// Puts pairs into a map.
fn label_map(pairs: &Vec<(String, String)>) -> (labels: TextMap<String>)
    ensures
        labels.deep_view() == collected(pairs.deep_view()),
{
    let ghost all = pairs.deep_view();
    let mut labels: TextMap<String> = TextMap::new();
    let mut i: usize = 0;
    assert(all.take(0) =~= Seq::empty());
    while i < pairs.len()
        invariant
            i <= pairs@.len(),
            all == pairs.deep_view(),
            labels.deep_view() == collected(all.take(i as int)),
        decreases pairs@.len() - i,
    {
        proof {
            assert(all.take(i + 1).drop_last() =~= all.take(i as int));
            assert(all.take(i + 1).last() == pairs@[i as int].deep_view());
        }
        labels.insert(pairs[i].0.clone(), pairs[i].1.clone());
        i += 1;
    }
    assert(all.take(all.len() as int) =~= all);
    labels
}

/// An image, from its listing.
pub open spec fn image_from(wire: WireImageView) -> ImageView {
    ImageView {
        id: wire.id,
        repo_tags: wire.repo_tags,
        repo_digests: wire.repo_digests,
        created: wire.created,
        size: wire.size,
        shared_size: wire.shared_size,
        containers: wire.containers,
        labels: collected(wire.labels),
    }
}

impl ImageSummary {
    /// An image, from its listing.
    #[must_use]
    pub fn from_wire(wire: WireImage) -> (image: Self)
        ensures
            image.deep_view() == image_from(wire.deep_view()),
            image.id@ == wire.id@,
            image.created == wire.created,
            image.size == wire.size,
            image.shared_size == wire.shared_size,
            image.containers == wire.containers,
    {
        let labels = label_map(&wire.labels);
        ImageSummary {
            id: wire.id,
            repo_tags: wire.repo_tags,
            repo_digests: wire.repo_digests,
            created: wire.created,
            size: wire.size,
            shared_size: wire.shared_size,
            containers: wire.containers,
            labels,
        }
    }
}

/// A state, from its spelling.
pub open spec fn state_from(wire: Option<WireState>) -> ContainerState {
    match wire {
        Some(WireState::Created) => ContainerState::Created,
        Some(WireState::Running) => ContainerState::Running,
        Some(WireState::Paused) => ContainerState::Paused,
        Some(WireState::Restarting) => ContainerState::Restarting,
        Some(WireState::Exited) => ContainerState::Exited,
        Some(WireState::Removing) => ContainerState::Removing,
        Some(WireState::Dead) => ContainerState::Dead,
        Some(WireState::Stopping) => ContainerState::Stopping,
        Some(WireState::Empty) => ContainerState::Unknown,
        None => ContainerState::Unknown,
    }
}

impl ContainerState {
    /// A state, from its spelling.
    #[must_use]
    pub fn from_wire(wire: WireState) -> (state: Self)
        ensures
            state == state_from(Some(wire)),
    {
        match wire {
            WireState::Created => ContainerState::Created,
            WireState::Running => ContainerState::Running,
            WireState::Paused => ContainerState::Paused,
            WireState::Restarting => ContainerState::Restarting,
            WireState::Exited => ContainerState::Exited,
            WireState::Removing => ContainerState::Removing,
            WireState::Dead => ContainerState::Dead,
            WireState::Stopping => ContainerState::Stopping,
            WireState::Empty => ContainerState::Unknown,
        }
    }
}

/// A port, from its listing: TCP unless it says otherwise.
pub open spec fn port_from(wire: WirePortView) -> PortView {
    PortView {
        ip: non_blank(wire.ip),
        private_port: wire.private_port,
        public_port: wire.public_port,
        protocol: match non_blank(wire.protocol) {
            Some(protocol) => protocol,
            None => "tcp"@,
        },
    }
}

impl PortMapping {
    /// A port, from its listing.
    #[must_use]
    pub fn from_wire(wire: WirePort) -> (port: Self)
        ensures
            port.deep_view() == port_from(wire.deep_view()),
    {
        PortMapping {
            ip: text_unless_empty(wire.ip),
            private_port: wire.private_port,
            public_port: wire.public_port,
            protocol: match text_unless_empty(wire.protocol) {
                Some(protocol) => protocol,
                None => "tcp".to_owned(),
            },
        }
    }
}

/// A mount, from its listing: named volumes have no source of their own.
pub open spec fn mount_from(wire: WireMountView) -> MountView {
    MountView {
        kind: or_empty(wire.kind),
        source: match non_blank(wire.source) {
            Some(source) => source,
            None => or_empty(wire.name),
        },
        destination: or_empty(wire.destination),
        read_write: wire.rw == Some(true),
    }
}

impl MountSummary {
    /// A mount, from its listing.
    #[must_use]
    pub fn from_wire(wire: WireMount) -> (mount: Self)
        ensures
            mount.deep_view() == mount_from(wire.deep_view()),
    {
        MountSummary {
            kind: text_or_empty(wire.kind),
            source: match text_unless_empty(wire.source) {
                Some(source) => source,
                None => text_or_empty(wire.name),
            },
            destination: text_or_empty(wire.destination),
            read_write: match wire.rw {
                Some(rw) => rw,
                None => false,
            },
        }
    }
}

/// A name without the slashes that it starts with.
pub open spec fn without_slashes(name: Seq<char>) -> Seq<char>
    decreases name.len(),
{
    if name.len() > 0 && name[0] == '/' {
        without_slashes(name.skip(1))
    } else {
        name
    }
}

/// A name without the slashes that it starts with.
fn bare_name(name: &str) -> (bare: &str)
    ensures
        bare@ == without_slashes(name@),
{
    let len: usize = name.unicode_len();
    let mut from: usize = 0;
    assert(name@.skip(0) =~= name@);
    while from < len && name.get_char(from) == '/'
        invariant
            len == name@.len(),
            from <= len,
            without_slashes(name@) == without_slashes(name@.skip(from as int)),
        decreases len - from,
    {
        assert(name@.skip(from as int).skip(1) =~= name@.skip(from + 1));
        from += 1;
    }
    skip_chars(name, from)
}

/// What a text is sorted by.
pub open spec fn text_key(text: Seq<char>) -> arrange::Key {
    arrange::Key { major: 0, first: text, second: Seq::empty() }
}

/// Texts in their order.
pub open spec fn sorted_texts(texts: Seq<Seq<char>>) -> Seq<Seq<char>> {
    arrange::arranged(texts, texts.map_values(|t: Seq<char>| text_key(t)))
}

/// Texts in their order.
fn sort_texts(texts: &Vec<String>) -> (sorted: Vec<String>)
    ensures
        sorted.deep_view() == sorted_texts(texts.deep_view()),
{
    let ghost all = texts.deep_view();
    let ghost ranks = all.map_values(|t: Seq<char>| text_key(t));
    let mut keys: Vec<SortKey> = Vec::new();
    let mut i: usize = 0;
    assert(keys.deep_view() =~= ranks.take(0));
    while i < texts.len()
        invariant
            i <= texts@.len(),
            all == texts.deep_view(),
            ranks == all.map_values(|t: Seq<char>| text_key(t)),
            keys.deep_view() == ranks.take(i as int),
        decreases texts@.len() - i,
    {
        let key = SortKey { major: 0, first: texts[i].clone(), second: String::new() };
        assert(key.deep_view() == text_key(all[i as int])) by {
            assert(key.second@ =~= Seq::empty());
        }
        put(&mut keys, key);
        i += 1;
        assert(keys.deep_view() =~= ranks.take(i as int));
    }
    assert(keys.deep_view() =~= ranks);
    let order = arrange(&keys);
    let mut sorted: Vec<String> = Vec::new();
    let mut n: usize = 0;
    assert(sorted.deep_view() =~= arrange::arranged(all, ranks).take(0));
    while n < order.len()
        invariant
            n <= order@.len(),
            order@.len() == texts@.len(),
            all == texts.deep_view(),
            forall|k: int| 0 <= k < order@.len() ==> #[trigger] order@[k] < texts@.len(),
            order@.map_values(|at: usize| at as int) == arrange::arrangement(ranks),
            sorted.deep_view() == arrange::arranged(all, ranks).take(n as int),
        decreases order@.len() - n,
    {
        proof {
            assert(arrange::arrangement(ranks)[n as int] == order@[n as int]);
        }
        put(&mut sorted, texts[order[n]].clone());
        n += 1;
        assert(sorted.deep_view() =~= arrange::arranged(all, ranks).take(n as int));
    }
    assert(sorted.deep_view() =~= arrange::arranged(all, ranks)) by {
        assert(arrange::arrangement(ranks).len() == order@.len());
    }
    sorted
}

/// Networks are listed in their order, each as often as it came.
pub proof fn law_networks_are_sorted(names: Seq<Seq<char>>)
    ensures
        sorted_texts(names).len() == names.len(),
        forall|i: int, j: int|
            0 <= i < j < names.len() ==> text::at_most(
                #[trigger] sorted_texts(names)[i],
                #[trigger] sorted_texts(names)[j],
            ),
        exists|order: Seq<int>|
            #[trigger] arrange::is_permutation(order, names.len()) && sorted_texts(names)
                == order.map_values(|at: int| names[at]),
{
    let keys = names.map_values(|t: Seq<char>| text_key(t));
    arrange::law_arrangement_is_stable_sort(keys);
    let order = arrange::arrangement(keys);
    assert(sorted_texts(names) == order.map_values(|at: int| names[at]));
    assert forall|i: int, j: int| 0 <= i < j < names.len() implies text::at_most(
        #[trigger] sorted_texts(names)[i],
        #[trigger] sorted_texts(names)[j],
    ) by {
        let a = names[order[i]];
        let b = names[order[j]];
        assert(keys[order[i]] == text_key(a) && keys[order[j]] == text_key(b));
        text::lemma_at_most_total(a, b);
    }
}

/// A container, from its listing.
pub open spec fn container_from(wire: WireContainerView) -> ContainerView {
    ContainerView {
        id: or_empty(wire.id),
        names: or_none(wire.names).map_values(|name: Seq<char>| without_slashes(name)),
        image: or_empty(wire.image),
        image_id: or_empty(wire.image_id),
        command: or_empty(wire.command),
        created: or_zero(wire.created),
        state: state_from(wire.state),
        status: or_empty(wire.status),
        ports: or_none(wire.ports).map_values(|port: WirePortView| port_from(port)),
        mounts: or_none(wire.mounts).map_values(|mount: WireMountView| mount_from(mount)),
        networks: sorted_texts(or_none(wire.networks)),
        labels: collected(or_none(wire.labels)),
    }
}

fn bare_names(names: &Vec<String>) -> (bare: Vec<String>)
    ensures
        bare.deep_view() == names.deep_view().map_values(
            |name: Seq<char>| without_slashes(name),
        ),
{
    let ghost to = names.deep_view().map_values(|name: Seq<char>| without_slashes(name));
    let mut bare: Vec<String> = Vec::new();
    let mut i: usize = 0;
    assert(bare.deep_view() =~= to.take(0));
    while i < names.len()
        invariant
            i <= names@.len(),
            to == names.deep_view().map_values(|name: Seq<char>| without_slashes(name)),
            bare.deep_view() == to.take(i as int),
        decreases names@.len() - i,
    {
        put(&mut bare, bare_name(names[i].as_str()).to_owned());
        i += 1;
        assert(bare.deep_view() =~= to.take(i as int));
    }
    assert(bare.deep_view() =~= to);
    bare
}

fn port_mappings(wires: &Vec<WirePort>) -> (ports: Vec<PortMapping>)
    ensures
        ports.deep_view() == wires.deep_view().map_values(|port: WirePortView| port_from(port)),
{
    let ghost to = wires.deep_view().map_values(|port: WirePortView| port_from(port));
    let mut ports: Vec<PortMapping> = Vec::new();
    let mut i: usize = 0;
    assert(ports.deep_view() =~= to.take(0));
    while i < wires.len()
        invariant
            i <= wires@.len(),
            to == wires.deep_view().map_values(|port: WirePortView| port_from(port)),
            ports.deep_view() == to.take(i as int),
        decreases wires@.len() - i,
    {
        let wire = WirePort {
            ip: wires[i].ip.clone(),
            private_port: wires[i].private_port,
            public_port: wires[i].public_port,
            protocol: wires[i].protocol.clone(),
        };
        put(&mut ports, PortMapping::from_wire(wire));
        i += 1;
        assert(ports.deep_view() =~= to.take(i as int));
    }
    assert(ports.deep_view() =~= to);
    ports
}

fn mount_summaries(wires: &Vec<WireMount>) -> (mounts: Vec<MountSummary>)
    ensures
        mounts.deep_view() == wires.deep_view().map_values(
            |mount: WireMountView| mount_from(mount),
        ),
{
    let ghost to = wires.deep_view().map_values(|mount: WireMountView| mount_from(mount));
    let mut mounts: Vec<MountSummary> = Vec::new();
    let mut i: usize = 0;
    assert(mounts.deep_view() =~= to.take(0));
    while i < wires.len()
        invariant
            i <= wires@.len(),
            to == wires.deep_view().map_values(|mount: WireMountView| mount_from(mount)),
            mounts.deep_view() == to.take(i as int),
        decreases wires@.len() - i,
    {
        let wire = WireMount {
            kind: wires[i].kind.clone(),
            name: wires[i].name.clone(),
            source: wires[i].source.clone(),
            destination: wires[i].destination.clone(),
            rw: wires[i].rw,
        };
        put(&mut mounts, MountSummary::from_wire(wire));
        i += 1;
        assert(mounts.deep_view() =~= to.take(i as int));
    }
    assert(mounts.deep_view() =~= to);
    mounts
}

impl ContainerSummary {
    /// A container, from its listing.
    #[must_use]
    pub fn from_wire(wire: WireContainer) -> (container: Self)
        ensures
            container.deep_view() == container_from(wire.deep_view()),
            wire.id matches Some(id) ==> container.id@ == id@,
            wire.image matches Some(reference) ==> container.image@ == reference@,
            wire.image_id matches Some(id) ==> container.image_id@ == id@,
            wire.command matches Some(command) ==> container.command@ == command@,
            wire.status matches Some(status) ==> container.status@ == status@,
            wire.created matches Some(created) ==> container.created == created,
    {
        let networks = sort_texts(&list_or_empty(wire.networks));
        let labels = label_map(&list_or_empty(wire.labels));
        let names = bare_names(&list_or_empty(wire.names));
        let ports = port_mappings(&list_or_empty(wire.ports));
        let mounts = mount_summaries(&list_or_empty(wire.mounts));
        ContainerSummary {
            id: text_or_empty(wire.id),
            names,
            image: text_or_empty(wire.image),
            image_id: text_or_empty(wire.image_id),
            command: text_or_empty(wire.command),
            created: number_or_zero(wire.created),
            state: match wire.state {
                Some(state) => ContainerState::from_wire(state),
                None => ContainerState::Unknown,
            },
            status: text_or_empty(wire.status),
            ports,
            mounts,
            networks,
            labels,
        }
    }
}

/// The attributes of an event's object.
pub open spec fn attributes_of(actor: Option<WireActorView>) -> Seq<(Seq<char>, Seq<char>)> {
    match actor {
        Some(actor) => or_none(actor.attributes),
        None => Seq::empty(),
    }
}

/// An event, from its report.
pub open spec fn event_from(wire: WireEventView) -> EventView {
    EventView {
        kind: or_empty(wire.kind),
        action: or_empty(wire.action),
        actor_id: match wire.actor {
            Some(actor) => or_empty(actor.id),
            None => Seq::empty(),
        },
        actor_name: non_blank(
            ordered::lookup(collected(attributes_of(wire.actor)), "name"@),
        ),
        time: or_zero(wire.time),
    }
}

impl EngineEvent {
    /// An event, from its report.
    #[must_use]
    pub fn from_wire(wire: WireEvent) -> (event: Self)
        ensures
            event.deep_view() == event_from(wire.deep_view()),
    {
        let actor = match wire.actor {
            Some(actor) => actor,
            None => WireActor { id: None, attributes: None },
        };
        let attributes = label_map(&list_or_empty(actor.attributes));
        let name = match attributes.get("name") {
            Some(name) => text_unless_empty(Some(name.clone())),
            None => None,
        };
        EngineEvent {
            kind: text_or_empty(wire.kind),
            action: text_or_empty(wire.action),
            actor_id: text_or_empty(actor.id),
            actor_name: name,
            time: number_or_zero(wire.time),
        }
    }
}

/// Whether one of an option's parts, which commas separate, says that the daemon is
/// rootless.
pub open spec fn says_rootless(option: Seq<char>) -> bool
    decreases option.len(),
{
    match text::split_once_at(option, ',') {
        Some((part, rest)) => text::trimmed(part) == "name=rootless"@ || (rest.len() < option.len()
            && says_rootless(rest)),
        None => text::trimmed(option) == "name=rootless"@,
    }
}

/// Security options arrive as `name=value` pairs, e.g. `name=rootless`.
fn is_rootless_option(option: &str) -> (yes: bool)
    ensures
        yes == says_rootless(option@),
    decreases option@.len(),
{
    match split_once(option, ',') {
        Some((part, rest)) => same(trim(part), "name=rootless") || is_rootless_option(rest),
        None => same(trim(option), "name=rootless"),
    }
}

fn any_rootless(options: &Vec<String>) -> (yes: bool)
    ensures
        yes == exists|i: int|
            0 <= i < options@.len() && says_rootless(#[trigger] options.deep_view()[i]),
{
    let mut i: usize = 0;
    while i < options.len()
        invariant
            i <= options@.len(),
            forall|k: int| 0 <= k < i ==> !says_rootless(#[trigger] options.deep_view()[k]),
        decreases options@.len() - i,
    {
        assert(options.deep_view()[i as int] == options@[i as int]@);
        if is_rootless_option(options[i].as_str()) {
            return true;
        }
        i += 1;
    }
    false
}

/// What is said of the storage driver that copies.
pub const NATIVE_WARNING: &'static str = "The native storage driver is in use. It copies every layer in full, so pulls are slow and disk usage is high.";

/// A value the daemon may leave out.
pub open spec fn or_unknown(value: Option<Seq<char>>) -> Seq<char> {
    match non_blank(value) {
        Some(text) => text,
        None => "unknown"@,
    }
}

fn enum_or_unknown(value: Option<String>) -> (text: String)
    ensures
        text@ == or_unknown(value.deep_view()),
{
    match text_unless_empty(value) {
        Some(text) => text,
        None => "unknown".to_owned(),
    }
}

/// The capability probe: what the daemon says of its version and of itself.
pub open spec fn environment_from(version: WireVersionView, info: WireInfoView) -> EnvironmentView {
    let security_options = or_none(info.security_options);
    let storage_driver = or_empty(info.driver);
    EnvironmentView {
        name: or_empty(info.name),
        server_version: or_empty(version.version),
        api_version: or_empty(version.api_version),
        min_api_version: non_blank(version.min_api_version),
        os_type: or_empty(version.os),
        architecture: or_empty(version.arch),
        operating_system: or_empty(info.operating_system),
        kernel_version: or_empty(info.kernel_version),
        storage_driver,
        logging_driver: or_empty(info.logging_driver),
        cgroup_version: or_unknown(info.cgroup_version),
        cgroup_driver: or_unknown(info.cgroup_driver),
        rootless: exists|i: int|
            0 <= i < security_options.len() && says_rootless(#[trigger] security_options[i]),
        cpus: or_zero(info.ncpu),
        memory_total: or_zero(info.mem_total),
        docker_root_dir: or_empty(info.docker_root_dir),
        containers_total: or_zero(info.containers),
        containers_running: or_zero(info.containers_running),
        containers_paused: or_zero(info.containers_paused),
        containers_stopped: or_zero(info.containers_stopped),
        images: or_zero(info.images),
        security_options,
        warnings: if storage_driver == "native"@ {
            or_none(info.warnings).push(NATIVE_WARNING@)
        } else {
            or_none(info.warnings)
        },
    }
}

/// The capability probe combines what the daemon says of its version and of itself.
#[must_use]
pub fn environment_summary(version: WireVersion, info: WireInfo) -> (summary: EnvironmentSummary)
    ensures
        summary.deep_view() == environment_from(version.deep_view(), info.deep_view()),
{
    let security_options = list_or_empty(info.security_options);
    assert(security_options.deep_view().len() == security_options@.len());
    let rootless = any_rootless(&security_options);
    let storage_driver = text_or_empty(info.driver);
    let mut warnings = list_or_empty(info.warnings);
    if same(storage_driver.as_str(), "native") {
        put(&mut warnings, NATIVE_WARNING.to_owned());
    }
    EnvironmentSummary {
        name: text_or_empty(info.name),
        server_version: text_or_empty(version.version),
        api_version: text_or_empty(version.api_version),
        min_api_version: text_unless_empty(version.min_api_version),
        os_type: text_or_empty(version.os),
        architecture: text_or_empty(version.arch),
        operating_system: text_or_empty(info.operating_system),
        kernel_version: text_or_empty(info.kernel_version),
        storage_driver,
        logging_driver: text_or_empty(info.logging_driver),
        cgroup_version: enum_or_unknown(info.cgroup_version),
        cgroup_driver: enum_or_unknown(info.cgroup_driver),
        rootless,
        cpus: number_or_zero(info.ncpu),
        memory_total: number_or_zero(info.mem_total),
        docker_root_dir: text_or_empty(info.docker_root_dir),
        containers_total: number_or_zero(info.containers),
        containers_running: number_or_zero(info.containers_running),
        containers_paused: number_or_zero(info.containers_paused),
        containers_stopped: number_or_zero(info.containers_stopped),
        images: number_or_zero(info.images),
        security_options,
        warnings,
    }
}

/// The instant that an RFC 3339 text names, in seconds since the Unix epoch, as
/// `chrono` reads it.
pub uninterp spec fn rfc3339_seconds(text: Seq<char>) -> Option<i64>;

/// Reads an RFC 3339 text with `chrono::DateTime::parse_from_rfc3339` and takes the
/// result's `timestamp`. The result depends on the text alone; `None` stands for a text
/// that `chrono` refuses.
#[verifier::external_body]
fn parse_rfc3339(text: &str) -> (seconds: Option<i64>)
    ensures
        seconds == rfc3339_seconds(text@),
{
    chrono::DateTime::parse_from_rfc3339(text).ok().map(|time| time.timestamp())
}

/// A time that is absent or cannot be read counts as the epoch: a file whose time is
/// unknown is still a file worth listing.
#[must_use]
pub fn seconds_or_epoch(parsed: Option<i64>) -> (seconds: i64)
    ensures
        seconds == or_zero(parsed),
{
    number_or_zero(parsed)
}

/// The archive endpoint reports times as RFC 3339, unlike the listings' epoch seconds.
/// A time that is absent or cannot be read becomes 0 rather than an error.
#[must_use]
pub fn epoch_seconds(value: Option<&str>) -> (seconds: i64)
    ensures
        seconds == (match value {
            Some(text) => or_zero(rfc3339_seconds(text@)),
            None => 0,
        }),
{
    match value {
        Some(text) => seconds_or_epoch(parse_rfc3339(text)),
        None => 0,
    }
}

/// Where a piece of a container's output was written.
#[derive(Debug, Clone, Copy, PartialEq, Eq)]
pub enum WireStream {
    StdIn,
    StdOut,
    StdErr,
    /// A terminal, where the daemon does not tell the streams apart.
    Console,
}

impl LogChunk {
    /// A piece of output. Everything but the error stream counts as the ordinary one,
    /// which is the closest true statement about a terminal.
    #[must_use]
    pub fn from_wire(stream: WireStream, bytes: Vec<u8>) -> (chunk: Self)
        ensures
            chunk.bytes@ == bytes@,
            chunk.stream == (if stream is StdErr {
                LogStream::Stderr
            } else {
                LogStream::Stdout
            }),
    {
        let stream = match stream {
            WireStream::StdErr => LogStream::Stderr,
            WireStream::StdOut => LogStream::Stdout,
            WireStream::StdIn => LogStream::Stdout,
            WireStream::Console => LogStream::Stdout,
        };
        LogChunk { stream, bytes }
    }
}

/// How many lines of history to ask the daemon for.
pub open spec fn tail_asked(tail: Option<usize>) -> Seq<char> {
    match tail {
        Some(lines) => text::decimal(lines as nat),
        None => "all"@,
    }
}

impl LogOptions {
    /// How many lines of history to ask the daemon for.
    #[must_use]
    pub fn tail_query(&self) -> (lines: String)
        ensures
            lines@ == tail_asked(self.tail),
    {
        match self.tail {
            Some(lines) => count_text(lines),
            None => "all".to_owned(),
        }
    }
}

/// What was removed, out of the records of a prune: each names the layer it deleted,
/// or else the tag it took off.
pub open spec fn removed_by(items: Seq<(Option<Seq<char>>, Option<Seq<char>>)>) -> Seq<Seq<char>>
    decreases items.len(),
{
    if items.len() == 0 {
        Seq::empty()
    } else {
        let before = removed_by(items.drop_last());
        match items.last() {
            (Some(deleted), _) => before.push(deleted),
            (None, Some(untagged)) => before.push(untagged),
            (None, None) => before,
        }
    }
}

impl PruneOutcome {
    /// What a prune of containers removed.
    #[must_use]
    pub fn of_containers(deleted: Option<Vec<String>>, reclaimed: Option<i64>) -> (outcome: Self)
        ensures
            outcome.removed.deep_view() == or_none(deleted.deep_view()),
            outcome.reclaimed == or_zero(reclaimed),
    {
        PruneOutcome { removed: list_or_empty(deleted), reclaimed: number_or_zero(reclaimed) }
    }

    /// What a prune of images removed.
    #[must_use]
    pub fn of_images(
        items: Option<Vec<(Option<String>, Option<String>)>>,
        reclaimed: Option<i64>,
    ) -> (outcome: Self)
        ensures
            outcome.removed.deep_view() == removed_by(or_none(items.deep_view())),
            outcome.reclaimed == or_zero(reclaimed),
    {
        let items = list_or_empty(items);
        let ghost all = items.deep_view();
        let mut removed: Vec<String> = Vec::new();
        let mut i: usize = 0;
        assert(removed.deep_view() =~= Seq::empty());
        assert(all.take(0) =~= Seq::empty());
        while i < items.len()
            invariant
                i <= items@.len(),
                all == items.deep_view(),
                removed.deep_view() == removed_by(all.take(i as int)),
            decreases items@.len() - i,
        {
            proof {
                assert(all.take(i + 1).drop_last() =~= all.take(i as int));
                assert(all.take(i + 1).last() == items@[i as int].deep_view());
            }
            if let Some(deleted) = &items[i].0 {
                put(&mut removed, deleted.clone());
            } else if let Some(untagged) = &items[i].1 {
                put(&mut removed, untagged.clone());
            }
            i += 1;
        }
        assert(all.take(all.len() as int) =~= all);
        PruneOutcome { removed, reclaimed: number_or_zero(reclaimed) }
    }
}

// ------------------------------------------------------------------------ laws

/// What the daemon gives of an image stands in the same place of its summary.
pub proof fn law_an_image_is_taken_over_field_by_field(wire: WireImageView)
    ensures
        image_from(wire).id == wire.id,
        image_from(wire).repo_tags == wire.repo_tags,
        image_from(wire).repo_digests == wire.repo_digests,
        image_from(wire).created == wire.created,
        image_from(wire).size == wire.size,
        image_from(wire).shared_size == wire.shared_size,
        image_from(wire).containers == wire.containers,
        forall|i: int|
            distinct_keys(wire.labels) && 0 <= i < wire.labels.len() ==> ordered::lookup(
                image_from(wire).labels,
                (#[trigger] wire.labels[i]).0,
            ) == Some(wire.labels[i].1),
{
    if distinct_keys(wire.labels) {
        assert forall|i: int| 0 <= i < wire.labels.len() implies ordered::lookup(
            image_from(wire).labels,
            (#[trigger] wire.labels[i]).0,
        ) == Some(wire.labels[i].1) by {
            law_labels_are_kept_in_order(wire.labels, i);
        }
    }
}

/// What the daemon gives of a container stands in the same place of its summary, the
/// reference that it was made from apart from the image that it runs; what it leaves out is
/// empty there. A container listed with an image's id is among those of that image.
pub proof fn law_a_container_is_taken_over_field_by_field(
    wire: WireContainerView,
    image: WireImageView,
    others: Seq<ContainerView>,
)
    ensures
        ({
            let container = container_from(wire);
            &&& wire.id matches Some(id) ==> container.id == id
            &&& wire.image matches Some(reference) ==> container.image == reference
            &&& wire.image_id matches Some(id) ==> container.image_id == id
            &&& wire.command matches Some(command) ==> container.command == command
            &&& wire.status matches Some(status) ==> container.status == status
            &&& wire.created matches Some(created) ==> container.created == created
            &&& wire.id is None ==> container.id.len() == 0
            &&& wire.image is None ==> container.image.len() == 0
            &&& wire.image_id is None ==> container.image_id.len() == 0
            &&& wire.command is None ==> container.command.len() == 0
            &&& wire.status is None ==> container.status.len() == 0
            &&& wire.created is None ==> container.created == 0
            &&& wire.names is None ==> container.names.len() == 0
            &&& wire.ports is None ==> container.ports.len() == 0
            &&& wire.mounts is None ==> container.mounts.len() == 0
            &&& wire.networks is None ==> container.networks.len() == 0
            &&& wire.labels is None ==> container.labels.len() == 0
            &&& wire.image_id == Some(image.id) && others.contains(container)
                ==> crate::model::relations::users_of(image_from(image), others).contains(container)
        }),
{
    let container = container_from(wire);
    let p = |c: ContainerView| c.image_id == image_from(image).id;
    crate::lists::lemma_filter_keeps(others, p);
    if wire.networks is None {
        arrange::law_sorting_keeps_every_item(
            Seq::<Seq<char>>::empty(),
            Seq::<Seq<char>>::empty().map_values(|t: Seq<char>| text_key(t)),
        );
    }
}

/// Each of the daemon's states has its own, and only what it does not spell is unknown.
pub proof fn law_states_are_taken_over_one_by_one(wire: WireContainerView)
    ensures
        ({
            let state = container_from(wire).state;
            &&& state is Created <==> wire.state == Some(WireState::Created)
            &&& state is Running <==> wire.state == Some(WireState::Running)
            &&& state is Paused <==> wire.state == Some(WireState::Paused)
            &&& state is Restarting <==> wire.state == Some(WireState::Restarting)
            &&& state is Exited <==> wire.state == Some(WireState::Exited)
            &&& state is Removing <==> wire.state == Some(WireState::Removing)
            &&& state is Dead <==> wire.state == Some(WireState::Dead)
            &&& state is Stopping <==> wire.state == Some(WireState::Stopping)
            &&& state is Unknown <==> wire.state is None || wire.state == Some(WireState::Empty)
        }),
{
}

proof fn lemma_without_slashes(slashes: Seq<char>, name: Seq<char>)
    requires
        forall|i: int| 0 <= i < slashes.len() ==> #[trigger] slashes[i] == '/',
        name.len() > 0 ==> name[0] != '/',
    ensures
        without_slashes(slashes + name) == name,
    decreases slashes.len(),
{
    if slashes.len() > 0 {
        assert((slashes + name).skip(1) =~= slashes.skip(1) + name);
        lemma_without_slashes(slashes.skip(1), name);
    } else {
        assert(slashes + name =~= name);
    }
}

/// A container keeps each of its names, in their order, without the slashes before it and
/// with every character behind them.
pub proof fn law_names_lose_only_their_slashes(
    wire: WireContainerView,
    at: int,
    slashes: Seq<char>,
    name: Seq<char>,
)
    requires
        wire.names matches Some(names) && 0 <= at < names.len() && names[at] == slashes + name,
        forall|i: int| 0 <= i < slashes.len() ==> #[trigger] slashes[i] == '/',
        name.len() > 0 ==> name[0] != '/',
    ensures
        container_from(wire).names.len() == wire.names->0.len(),
        container_from(wire).names[at] == name,
{
    lemma_without_slashes(slashes, name);
}

/// A container keeps each of its ports and mounts, in their order: the port inside apart
/// from the one outside, what is mounted apart from where. A port without a protocol is
/// TCP; a mount without a source has its name for one, and is read-only unless it says that
/// it is not.
pub proof fn law_ports_and_mounts_are_taken_over_field_by_field(
    wire: WireContainerView,
    at: int,
)
    ensures
        wire.ports matches Some(ports) ==> 0 <= at < ports.len() ==> {
            let port = container_from(wire).ports[at];
            &&& container_from(wire).ports.len() == ports.len()
            &&& port.private_port == ports[at].private_port
            &&& port.public_port == ports[at].public_port
            &&& ports[at].ip matches Some(ip) ==> ip.len() > 0 ==> port.ip == Some(ip)
            &&& ports[at].ip matches Some(ip) ==> ip.len() == 0 ==> port.ip is None
            &&& ports[at].ip is None ==> port.ip is None
            &&& ports[at].protocol matches Some(protocol) ==> protocol.len() > 0 ==> port.protocol
                == protocol
            &&& ports[at].protocol matches Some(protocol) ==> protocol.len() == 0 ==> port.protocol
                == "tcp"@
            &&& ports[at].protocol is None ==> port.protocol == "tcp"@
        },
        wire.mounts matches Some(mounts) ==> 0 <= at < mounts.len() ==> {
            let mount = container_from(wire).mounts[at];
            &&& container_from(wire).mounts.len() == mounts.len()
            &&& mounts[at].kind matches Some(kind) ==> mount.kind == kind
            &&& mounts[at].destination matches Some(place) ==> mount.destination == place
            &&& mounts[at].source matches Some(source) ==> source.len() > 0 ==> mount.source
                == source
            &&& (mounts[at].source is None || mounts[at].source == Some(Seq::<char>::empty()))
                ==> (mounts[at].name matches Some(name) ==> mount.source == name)
            &&& mount.read_write <==> mounts[at].rw == Some(true)
        },
{
    if let Some(mounts) = wire.mounts {
        if 0 <= at < mounts.len() {
            if let Some(source) = mounts[at].source {
                if source.len() == 0 {
                    assert(source =~= Seq::<char>::empty());
                }
            }
        }
    }
}

/// What the daemon reports of an event stands in the same place of it; its object is called
/// by the attribute `name`, where that is not empty.
pub proof fn law_an_event_is_taken_over_field_by_field(wire: WireEventView, at: int)
    ensures
        ({
            let event = event_from(wire);
            &&& wire.kind matches Some(kind) ==> event.kind == kind
            &&& wire.action matches Some(action) ==> event.action == action
            &&& wire.time matches Some(time) ==> event.time == time
            &&& wire.kind is None ==> event.kind.len() == 0
            &&& wire.action is None ==> event.action.len() == 0
            &&& wire.time is None ==> event.time == 0
            &&& wire.actor is None ==> event.actor_id.len() == 0 && event.actor_name is None
            &&& wire.actor matches Some(actor) ==> {
                &&& actor.id matches Some(id) ==> event.actor_id == id
                &&& actor.id is None ==> event.actor_id.len() == 0
                &&& actor.attributes is None ==> event.actor_name is None
                &&& actor.attributes matches Some(attributes) ==> distinct_keys(attributes) && 0
                    <= at < attributes.len() && attributes[at].0 == "name"@ ==> {
                    &&& attributes[at].1.len() > 0 ==> event.actor_name == Some(attributes[at].1)
                    &&& attributes[at].1.len() == 0 ==> event.actor_name is None
                }
                &&& actor.attributes matches Some(attributes) ==> distinct_keys(attributes) && (
                forall|i: int|
                    0 <= i < attributes.len() ==> (#[trigger] attributes[i]).0 != "name"@)
                    ==> event.actor_name is None
            }
        }),
{
    if let Some(actor) = wire.actor {
        if let Some(attributes) = actor.attributes {
            if distinct_keys(attributes) {
                lemma_collected(attributes, "name"@);
                if let Some(value) = ordered::lookup(collected(attributes), "name"@) {
                    let k = choose|k: int|
                        0 <= k < attributes.len() && attributes[k] == ("name"@, value);
                    assert(attributes[k].0 == "name"@);
                }
            }
        } else {
            assert(ordered::lookup(collected(Seq::empty()), "name"@) is None);
        }
    } else {
        assert(ordered::lookup(collected(Seq::empty()), "name"@) is None);
    }
}

/// What the daemon says of its version and of itself stands in the same place of the
/// summary: what it leaves out is empty or zero there, and the control groups unknown.
pub proof fn law_an_environment_is_taken_over_field_by_field(
    version: WireVersionView,
    info: WireInfoView,
)
    ensures
        ({
            let summary = environment_from(version, info);
            &&& info.name matches Some(name) ==> summary.name == name
            &&& version.version matches Some(value) ==> summary.server_version == value
            &&& version.api_version matches Some(value) ==> summary.api_version == value
            &&& version.min_api_version matches Some(value) ==> value.len() > 0
                ==> summary.min_api_version == Some(value)
            &&& version.min_api_version is None ==> summary.min_api_version is None
            &&& version.os matches Some(value) ==> summary.os_type == value
            &&& version.arch matches Some(value) ==> summary.architecture == value
            &&& info.operating_system matches Some(value) ==> summary.operating_system == value
            &&& info.kernel_version matches Some(value) ==> summary.kernel_version == value
            &&& info.driver matches Some(value) ==> summary.storage_driver == value
            &&& info.logging_driver matches Some(value) ==> summary.logging_driver == value
            &&& info.cgroup_version matches Some(value) ==> value.len() > 0
                ==> summary.cgroup_version == value
            &&& info.cgroup_driver matches Some(value) ==> value.len() > 0
                ==> summary.cgroup_driver == value
            &&& info.cgroup_version is None ==> summary.cgroup_version == "unknown"@
            &&& info.cgroup_driver is None ==> summary.cgroup_driver == "unknown"@
            &&& info.docker_root_dir matches Some(value) ==> summary.docker_root_dir == value
            &&& info.ncpu matches Some(value) ==> summary.cpus == value
            &&& info.mem_total matches Some(value) ==> summary.memory_total == value
            &&& info.containers matches Some(value) ==> summary.containers_total == value
            &&& info.containers_running matches Some(value) ==> summary.containers_running == value
            &&& info.containers_paused matches Some(value) ==> summary.containers_paused == value
            &&& info.containers_stopped matches Some(value) ==> summary.containers_stopped == value
            &&& info.images matches Some(value) ==> summary.images == value
            &&& info.security_options matches Some(value) ==> summary.security_options == value
            &&& info.name is None ==> summary.name.len() == 0
            &&& version.version is None ==> summary.server_version.len() == 0
            &&& version.api_version is None ==> summary.api_version.len() == 0
            &&& info.ncpu is None ==> summary.cpus == 0
            &&& info.mem_total is None ==> summary.memory_total == 0
            &&& info.containers is None ==> summary.containers_total == 0
            &&& info.containers_running is None ==> summary.containers_running == 0
            &&& info.containers_paused is None ==> summary.containers_paused == 0
            &&& info.containers_stopped is None ==> summary.containers_stopped == 0
            &&& info.images is None ==> summary.images == 0
            &&& info.warnings matches Some(warnings) ==> warnings.is_prefix_of(summary.warnings)
            &&& info.warnings matches Some(warnings) ==> info.driver != Some("native"@)
                ==> summary.warnings == warnings
            &&& info.driver == Some("native"@) ==> summary.warnings.len() > 0
                && summary.warnings.last() == NATIVE_WARNING@ && summary.warnings.len()
                == or_none(info.warnings).len() + 1
        }),
{
    let summary = environment_from(version, info);
    if let Some(warnings) = info.warnings {
        assert(summary.warnings.subrange(0, warnings.len() as int) =~= warnings);
    }
    if info.driver is None {
        reveal_strlit("native");
        assert("native"@.len() == 6);
    }
}

/// A daemon is rootless exactly when one of its security options says so in one of the
/// parts that commas separate.
pub proof fn law_a_rootless_daemon_says_so(
    version: WireVersionView,
    info: WireInfoView,
    part: Seq<char>,
    rest: Seq<char>,
)
    requires
        !part.contains(','),
    ensures
        says_rootless("name=rootless"@),
        says_rootless(part) <==> text::trimmed(part) == "name=rootless"@,
        says_rootless(part + seq![','] + rest) <==> text::trimmed(part) == "name=rootless"@
            || says_rootless(rest),
        info.security_options matches Some(options) ==> (environment_from(version, info).rootless
            <==> exists|i: int| 0 <= i < options.len() && says_rootless(#[trigger] options[i])),
        info.security_options is None ==> !environment_from(version, info).rootless,
{
    reveal_strlit("name=rootless");
    let name = "name=rootless"@;
    assert forall|i: int| 0 <= i < name.len() implies name[i] != ',' by {}
    text::lemma_find_is(name, ',', name.len() as int);
    assert(text::trimmed(name) == name);
    assert forall|i: int| 0 <= i < part.len() implies part[i] != ',' by {
        assert(part.contains(part[i]));
    }
    text::lemma_find_is(part, ',', part.len() as int);
    let whole = part + seq![','] + rest;
    assert forall|i: int| 0 <= i < part.len() implies whole[i] != ',' by {
        assert(whole[i] == part[i]);
    }
    assert(whole[part.len() as int] == ',');
    text::lemma_find_is(whole, ',', part.len() as int);
    assert(whole.take(part.len() as int) =~= part);
    assert(whole.skip(part.len() as int + 1) =~= rest);
}

/// A prune of images removed what each record deleted, or else what it took the tag off,
/// in the order of the records; a record of neither removed nothing.
pub proof fn law_pruned_images_are_listed_record_by_record(
    items: Seq<(Option<Seq<char>>, Option<Seq<char>>)>,
    deleted: Seq<char>,
    tag: Option<Seq<char>>,
    untagged: Seq<char>,
)
    ensures
        removed_by(items.push((Some(deleted), tag))) == removed_by(items).push(deleted),
        removed_by(items.push((None, Some(untagged)))) == removed_by(items).push(untagged),
        removed_by(items.push((None, None))) == removed_by(items),
        removed_by(Seq::empty()).len() == 0,
{
    assert(items.push((Some(deleted), tag)).drop_last() =~= items);
    assert(items.push((None, Some(untagged))).drop_last() =~= items);
    assert(items.push((None::<Seq<char>>, None::<Seq<char>>)).drop_last() =~= items);
}

/// So many lines of history are asked for in digits that read back as so many, and all of
/// them in a word.
pub proof fn law_history_is_asked_for_in_digits(lines: usize)
    ensures
        tail_asked(Some(lines)) == text::decimal(lines as nat),
        tail_asked(None) == "all"@,
{
}

} // verus!
