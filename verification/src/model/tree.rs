//! The sidebar: the environment, its images and its containers.

use vstd::prelude::*;

use crate::arrange;
use crate::arrange::{arrange, Key, SortKey};
use crate::engine;
use crate::engine::{
    ContainerState, ContainerSummary, ContainerView, EnvironmentSummary, EnvironmentView,
    ImageSummary, ImageView,
};
use crate::lists;
use crate::lists::put;
use crate::model::format::{container_label, primary_tag, short_id, UNTAGGED};
use crate::text;
use crate::text::{count_text, same, split_once, to_lowercase, trim};

verus! {

/// What a node of the sidebar stands for.
#[derive(Debug, Clone, PartialEq, Eq)]
pub enum NodeId {
    Root,
    Images,
    Containers,
    Image(String),
    Container(String),
}

/// The value of a [`NodeId`].
#[verifier::ext_equal]
pub enum NodeKey {
    Root,
    Images,
    Containers,
    Image(Seq<char>),
    Container(Seq<char>),
}

impl DeepView for NodeId {
    type V = NodeKey;

    open spec fn deep_view(&self) -> NodeKey {
        match self {
            NodeId::Root => NodeKey::Root,
            NodeId::Images => NodeKey::Images,
            NodeId::Containers => NodeKey::Containers,
            NodeId::Image(id) => NodeKey::Image(id@),
            NodeId::Container(id) => NodeKey::Container(id@),
        }
    }
}

/// A node as one text.
pub open spec fn key_text(id: NodeKey) -> Seq<char> {
    match id {
        NodeKey::Root => "root"@,
        NodeKey::Images => "images"@,
        NodeKey::Containers => "containers"@,
        NodeKey::Image(id) => "image:"@ + id,
        NodeKey::Container(id) => "container:"@ + id,
    }
}

/// The node that a text names.
pub open spec fn node_of(key: Seq<char>) -> Option<NodeKey> {
    if key == "root"@ {
        Some(NodeKey::Root)
    } else if key == "images"@ {
        Some(NodeKey::Images)
    } else if key == "containers"@ {
        Some(NodeKey::Containers)
    } else {
        match text::split_once_at(key, ':') {
            Some((kind, id)) => if kind == "image"@ && id.len() > 0 {
                Some(NodeKey::Image(id))
            } else if kind == "container"@ && id.len() > 0 {
                Some(NodeKey::Container(id))
            } else {
                None
            },
            None => None,
        }
    }
}

impl NodeId {
    /// The node as one text, by which a selection survives a rebuild.
    #[must_use]
    pub fn key(&self) -> (key: String)
        ensures
            key@ == key_text(self.deep_view()),
    {
        match self {
            NodeId::Root => "root".to_owned(),
            NodeId::Images => "images".to_owned(),
            NodeId::Containers => "containers".to_owned(),
            NodeId::Image(id) => "image:".to_owned().concat(id.as_str()),
            NodeId::Container(id) => "container:".to_owned().concat(id.as_str()),
        }
    }

    /// The node that a text names, if it names one.
    #[must_use]
    pub fn from_key(key: &str) -> (id: Option<Self>)
        ensures
            id.deep_view() == node_of(key@),
    {
        if same(key, "root") {
            Some(NodeId::Root)
        } else if same(key, "images") {
            Some(NodeId::Images)
        } else if same(key, "containers") {
            Some(NodeId::Containers)
        } else {
            match split_once(key, ':') {
                Some((kind, id)) => if same(kind, "image") && !id.is_empty() {
                    Some(NodeId::Image(id.to_owned()))
                } else if same(kind, "container") && !id.is_empty() {
                    Some(NodeId::Container(id.to_owned()))
                } else {
                    None
                },
                None => None,
            }
        }
    }
}

proof fn lemma_named_by_its_key(key: Seq<char>)
    ensures
        node_of(key) matches Some(id) ==> key_text(id) == key,
{
    reveal_strlit("image:");
    reveal_strlit("container:");
    reveal_strlit("image");
    reveal_strlit("container");
    if let Some((kind, id)) = text::split_once_at(key, ':') {
        text::lemma_find(key, ':');
        assert(key =~= kind.push(':') + id);
        assert("image"@.push(':') =~= "image:"@);
        assert("container"@.push(':') =~= "container:"@);
    }
}

/// A node's text names that node, unless it is an image or a container without
/// an id; and a text that names a node is that node's text.
pub proof fn law_node_keys_round_trip(id: NodeKey, text: Seq<char>)
    requires
        id matches NodeKey::Image(text) ==> text.len() > 0,
        id matches NodeKey::Container(text) ==> text.len() > 0,
    ensures
        node_of(key_text(id)) == Some(id),
        node_of(text) matches Some(named) ==> key_text(named) == text,
{
    lemma_named_by_its_key(text);
    reveal_strlit("root");
    reveal_strlit("images");
    reveal_strlit("containers");
    reveal_strlit("image:");
    reveal_strlit("container:");
    reveal_strlit("image");
    reveal_strlit("container");
    match id {
        NodeKey::Image(text) => {
            let key = key_text(id);
            assert(key[5] == ':');
            text::lemma_find_is(key, ':', 5);
            assert(key.take(5) =~= "image"@);
            assert(key.skip(6) =~= text);
        },
        NodeKey::Container(text) => {
            let key = key_text(id);
            assert(key[9] == ':');
            text::lemma_find_is(key, ':', 9);
            assert(key.take(9) =~= "container"@);
            assert(key.skip(10) =~= text);
        },
        NodeKey::Root => {},
        NodeKey::Images => {
            assert("images"@[0] != "root"@[0]);
        },
        NodeKey::Containers => {
            assert("containers"@[0] != "root"@[0]);
            assert("containers"@[0] != "images"@[0]);
        },
    }
}

/// How a state or an action is coloured.
#[derive(Debug, Clone, Copy, PartialEq, Eq)]
pub enum Tone {
    Good,
    Warn,
    Bad,
    Neutral,
}

/// A node of the sidebar.
#[derive(Debug, PartialEq, Eq)]
pub struct TreeNode {
    pub id: NodeId,
    pub label: String,
    /// Secondary text, dimmed beside the label.
    pub detail: Option<String>,
    /// The name of a symbolic icon.
    pub icon: &'static str,
    pub children: Vec<TreeNode>,
}

/// The value of a [`TreeNode`].
#[verifier::ext_equal]
pub struct NodeView {
    pub id: NodeKey,
    pub label: Seq<char>,
    pub detail: Option<Seq<char>>,
    pub icon: Seq<char>,
    pub children: Seq<NodeView>,
}

/// The value of a node and of everything below it.
pub open spec fn node_view(node: TreeNode) -> NodeView
    decreases node,
{
    NodeView {
        id: node.id.deep_view(),
        label: node.label@,
        detail: node.detail.deep_view(),
        icon: node.icon@,
        children: Seq::new(
            node.children@.len(),
            |i: int|
                if 0 <= i < node.children@.len() {
                    node_view(node.children@[i])
                } else {
                    arbitrary()
                },
        ),
    }
}

/// The values of some nodes.
pub open spec fn node_views(nodes: Seq<TreeNode>) -> Seq<NodeView> {
    nodes.map_values(|node: TreeNode| node_view(node))
}

fn copy_id(id: &NodeId) -> (copy: NodeId)
    ensures
        copy.deep_view() == id.deep_view(),
{
    match id {
        NodeId::Root => NodeId::Root,
        NodeId::Images => NodeId::Images,
        NodeId::Containers => NodeId::Containers,
        NodeId::Image(id) => NodeId::Image(id.clone()),
        NodeId::Container(id) => NodeId::Container(id.clone()),
    }
}

fn copy_node(node: &TreeNode) -> (copy: TreeNode)
    ensures
        node_view(copy) == node_view(*node),
    decreases node,
{
    let mut children: Vec<TreeNode> = Vec::new();
    let mut i: usize = 0;
    while i < node.children.len()
        invariant
            i <= node.children@.len(),
            children@.len() == i,
            forall|k: int|
                0 <= k < i ==> node_view(#[trigger] children@[k]) == node_view(node.children@[k]),
        decreases node.children@.len() - i,
    {
        children.push(copy_node(&node.children[i]));
        i += 1;
    }
    let copy = TreeNode {
        id: copy_id(&node.id),
        label: node.label.clone(),
        detail: node.detail.clone(),
        icon: node.icon,
        children,
    };
    assert(node_view(copy).children =~= node_view(*node).children);
    copy
}

impl Clone for TreeNode {
    fn clone(&self) -> (copy: Self)
        ensures
            node_view(copy) == node_view(*self),
    {
        copy_node(self)
    }
}

pub const ICON_ROOT: &'static str = "network-server-symbolic";

pub const ICON_IMAGES: &'static str = "drive-harddisk-symbolic";

pub const ICON_IMAGE: &'static str = "media-optical-symbolic";

pub const ICON_CONTAINERS: &'static str = "view-list-symbolic";

pub const ICON_RUNNING: &'static str = "media-playback-start-symbolic";

pub const ICON_PAUSED: &'static str = "media-playback-pause-symbolic";

pub const ICON_STOPPED: &'static str = "media-playback-stop-symbolic";

pub const ICON_DEAD: &'static str = "dialog-warning-symbolic";

/// The icon of a state.
pub open spec fn icon_of(state: ContainerState) -> Seq<char> {
    match state {
        ContainerState::Running | ContainerState::Restarting => ICON_RUNNING@,
        ContainerState::Paused => ICON_PAUSED@,
        ContainerState::Dead => ICON_DEAD@,
        _ => ICON_STOPPED@,
    }
}

/// The icon of a state.
#[must_use]
pub fn state_icon(state: &ContainerState) -> (icon: &'static str)
    ensures
        icon@ == icon_of(*state),
{
    match state {
        ContainerState::Running | ContainerState::Restarting => ICON_RUNNING,
        ContainerState::Paused => ICON_PAUSED,
        ContainerState::Dead => ICON_DEAD,
        _ => ICON_STOPPED,
    }
}

/// The tone of a state.
pub open spec fn tone_of(state: ContainerState) -> Tone {
    match state {
        ContainerState::Running | ContainerState::Restarting => Tone::Good,
        ContainerState::Paused => Tone::Warn,
        _ => Tone::Bad,
    }
}

/// The tone of a state: good while it runs, a warning while it is held, and bad
/// otherwise.
#[must_use]
pub fn state_tone(state: &ContainerState) -> (tone: Tone)
    ensures
        tone == tone_of(*state),
{
    match state {
        ContainerState::Running | ContainerState::Restarting => Tone::Good,
        ContainerState::Paused => Tone::Warn,
        _ => Tone::Bad,
    }
}

// ---------------------------------------------------------------------- order

/// What an image is sorted by, given its tag in lower case: tagged ones come first, by
/// their tag; untagged ones by age, the newest first; and then its id decides.
pub open spec fn image_rank_by(image: ImageView, lowered: Option<Seq<char>>) -> Key {
    match lowered {
        Some(tag) => Key { major: 0, first: tag, second: key_text(NodeKey::Image(image.id)) },
        None => Key {
            major: 1 + (i64::MAX - image.created),
            first: Seq::empty(),
            second: key_text(NodeKey::Image(image.id)),
        },
    }
}

/// What an image is sorted by.
#[must_use]
pub fn image_key(image: &ImageSummary, lowered: Option<String>) -> (key: SortKey)
    ensures
        key.deep_view() == image_rank_by(image.deep_view(), lowered.deep_view()),
{
    let second = NodeId::Image(image.id.clone()).key();
    match lowered {
        Some(first) => SortKey { major: 0, first, second },
        None => {
            let first = String::new();
            assert(first@ =~= Seq::<char>::empty());
            SortKey { major: 1 + (i64::MAX as i128 - image.created as i128), first, second }
        },
    }
}

/// What an image is sorted by: its tag without regard to case, tagged ones
/// first; untagged ones by age, the newest first; and then its id.
pub open spec fn image_rank(image: ImageView) -> Key {
    image_rank_by(
        image,
        match crate::model::format::best_tag(image.repo_tags) {
            Some(tag) => Some(text::lowercase(tag)),
            None => None,
        },
    )
}

/// What a container is sorted by, given its label in lower case: that label, and then
/// its id.
pub open spec fn container_rank_by(container: ContainerView, lowered: Seq<char>) -> Key {
    Key { major: 0, first: lowered, second: key_text(NodeKey::Container(container.id)) }
}

/// What a container is sorted by.
#[must_use]
pub fn container_key(container: &ContainerSummary, lowered: String) -> (key: SortKey)
    ensures
        key.deep_view() == container_rank_by(container.deep_view(), lowered@),
{
    SortKey { major: 0, first: lowered, second: NodeId::Container(container.id.clone()).key() }
}

/// What a container is sorted by: its label without regard to case, and then its
/// id.
pub open spec fn container_rank(container: ContainerView) -> Key {
    container_rank_by(
        container,
        text::lowercase(crate::model::format::container_label_text(container)),
    )
}

/// The images in the order of the sidebar.
pub open spec fn images_in_order(images: Seq<ImageView>) -> Seq<ImageView> {
    arrange::arranged(images, images.map_values(|i: ImageView| image_rank(i)))
}

/// The containers in the order of the sidebar.
pub open spec fn containers_in_order(containers: Seq<ContainerView>) -> Seq<ContainerView> {
    arrange::arranged(containers, containers.map_values(|c: ContainerView| container_rank(c)))
}

/// The images in the order of the sidebar: tagged ones first, by tag without
/// regard to case; then untagged ones, the newest first; ids break ties.
#[must_use]
pub fn sorted_images(images: &[ImageSummary]) -> (sorted: Vec<&ImageSummary>)
    ensures
        sorted.deep_view() == images_in_order(images.deep_view()),
        sorted@.len() == images@.len(),
{
    let ghost all = images.deep_view();
    let ghost ranks = all.map_values(|i: ImageView| image_rank(i));
    let mut keys: Vec<SortKey> = Vec::new();
    let mut i: usize = 0;
    while i < images.len()
        invariant
            i <= images@.len(),
            all == images.deep_view(),
            ranks == all.map_values(|i: ImageView| image_rank(i)),
            keys.deep_view() == ranks.take(i as int),
        decreases images@.len() - i,
    {
        let image = &images[i];
        let lowered = match primary_tag(image) {
            Some(tag) => Some(to_lowercase(tag.as_str())),
            None => None,
        };
        put(&mut keys, image_key(image, lowered));
        i += 1;
        assert(keys.deep_view() =~= ranks.take(i as int));
    }
    assert(keys.deep_view() =~= ranks);
    let order = arrange(&keys);
    let mut sorted: Vec<&ImageSummary> = Vec::new();
    let mut n: usize = 0;
    while n < order.len()
        invariant
            n <= order@.len(),
            order@.len() == images@.len(),
            all == images.deep_view(),
            forall|k: int| 0 <= k < order@.len() ==> #[trigger] order@[k] < images@.len(),
            order@.map_values(|at: usize| at as int) == arrange::arrangement(ranks),
            sorted.deep_view() == arrange::arranged(all, ranks).take(n as int),
            sorted@.len() == n,
        decreases order@.len() - n,
    {
        proof {
            assert(arrange::arrangement(ranks)[n as int] == order@[n as int]);
        }
        put(&mut sorted, &images[order[n]]);
        n += 1;
        assert(sorted.deep_view() =~= arrange::arranged(all, ranks).take(n as int));
    }
    assert(sorted.deep_view() =~= arrange::arranged(all, ranks)) by {
        assert(arrange::arrangement(ranks).len() == order@.len());
    }
    sorted
}

/// The containers in the order of the sidebar: by label without regard to case;
/// ids break ties.
#[must_use]
pub fn sorted_containers(containers: &[ContainerSummary]) -> (sorted: Vec<&ContainerSummary>)
    ensures
        sorted.deep_view() == containers_in_order(containers.deep_view()),
        sorted@.len() == containers@.len(),
{
    let ghost all = containers.deep_view();
    let ghost ranks = all.map_values(|c: ContainerView| container_rank(c));
    let mut keys: Vec<SortKey> = Vec::new();
    let mut i: usize = 0;
    while i < containers.len()
        invariant
            i <= containers@.len(),
            all == containers.deep_view(),
            ranks == all.map_values(|c: ContainerView| container_rank(c)),
            keys.deep_view() == ranks.take(i as int),
        decreases containers@.len() - i,
    {
        let container = &containers[i];
        let lowered = to_lowercase(container_label(container).as_str());
        put(&mut keys, container_key(container, lowered));
        i += 1;
        assert(keys.deep_view() =~= ranks.take(i as int));
    }
    assert(keys.deep_view() =~= ranks);
    let order = arrange(&keys);
    let mut sorted: Vec<&ContainerSummary> = Vec::new();
    let mut n: usize = 0;
    while n < order.len()
        invariant
            n <= order@.len(),
            order@.len() == containers@.len(),
            all == containers.deep_view(),
            forall|k: int| 0 <= k < order@.len() ==> #[trigger] order@[k] < containers@.len(),
            order@.map_values(|at: usize| at as int) == arrange::arrangement(ranks),
            sorted.deep_view() == arrange::arranged(all, ranks).take(n as int),
            sorted@.len() == n,
        decreases order@.len() - n,
    {
        proof {
            assert(arrange::arrangement(ranks)[n as int] == order@[n as int]);
        }
        put(&mut sorted, &containers[order[n]]);
        n += 1;
        assert(sorted.deep_view() =~= arrange::arranged(all, ranks).take(n as int));
    }
    assert(sorted.deep_view() =~= arrange::arranged(all, ranks)) by {
        assert(arrange::arrangement(ranks).len() == order@.len());
    }
    sorted
}

// ----------------------------------------------------------------------- tree

/// The name of the environment.
pub open spec fn root_text(environment: Option<EnvironmentView>) -> Seq<char> {
    match environment {
        Some(e) => if text::trimmed(e.name).len() > 0 {
            text::trimmed(e.name)
        } else {
            "Docker"@
        },
        None => "Docker"@,
    }
}

/// The node of one image.
pub open spec fn image_node(image: ImageView) -> NodeView {
    NodeView {
        id: NodeKey::Image(image.id),
        label: match crate::model::format::best_tag(image.repo_tags) {
            Some(tag) => tag,
            None => UNTAGGED@,
        },
        detail: Some(crate::model::format::short_text(image.id)),
        icon: ICON_IMAGE@,
        children: Seq::empty(),
    }
}

/// The node of one container.
pub open spec fn container_node(container: ContainerView) -> NodeView {
    NodeView {
        id: NodeKey::Container(container.id),
        label: crate::model::format::container_label_text(container),
        detail: Some(engine::state_label(container.state)),
        icon: icon_of(container.state),
        children: Seq::empty(),
    }
}

/// The node that holds the images.
pub open spec fn images_view(images: Seq<ImageView>) -> NodeView {
    NodeView {
        id: NodeKey::Images,
        label: "Images"@,
        detail: Some(text::decimal(images.len())),
        icon: ICON_IMAGES@,
        children: images_in_order(images).map_values(|i: ImageView| image_node(i)),
    }
}

/// How many containers hold a process.
pub open spec fn active_count(containers: Seq<ContainerView>) -> nat {
    containers.filter(|c: ContainerView| engine::active(c.state)).len()
}

/// The node that holds the containers.
pub open spec fn containers_view(containers: Seq<ContainerView>) -> NodeView {
    NodeView {
        id: NodeKey::Containers,
        label: "Containers"@,
        detail: Some(
            if active_count(containers) == 0 {
                text::decimal(containers.len())
            } else {
                text::decimal(containers.len()) + " ("@ + text::decimal(active_count(containers)) + " running)"@
            },
        ),
        icon: ICON_CONTAINERS@,
        children: containers_in_order(containers).map_values(|c: ContainerView| container_node(c)),
    }
}

/// The whole sidebar.
pub open spec fn tree_view(
    environment: Option<EnvironmentView>,
    images: Seq<ImageView>,
    containers: Seq<ContainerView>,
) -> NodeView {
    NodeView {
        id: NodeKey::Root,
        label: root_text(environment),
        detail: match environment {
            Some(e) => if e.server_version.len() > 0 {
                Some(e.server_version)
            } else {
                None
            },
            None => None,
        },
        icon: ICON_ROOT@,
        children: seq![images_view(images), containers_view(containers)],
    }
}

/// The sidebar for an environment, named for its daemon once that is known.
#[must_use]
pub fn build(
    environment: Option<&EnvironmentSummary>,
    images: &[ImageSummary],
    containers: &[ContainerSummary],
) -> (root: TreeNode)
    ensures
        node_view(root) == tree_view(
            environment.deep_view(),
            images.deep_view(),
            containers.deep_view(),
        ),
{
    let detail = match environment {
        Some(e) => if e.server_version.as_str().is_empty() {
            None
        } else {
            Some(e.server_version.clone())
        },
        None => None,
    };
    let mut children: Vec<TreeNode> = Vec::new();
    children.push(images_node(images));
    children.push(containers_node(containers));
    let root = TreeNode {
        id: NodeId::Root,
        label: root_label(environment),
        detail,
        icon: ICON_ROOT,
        children,
    };
    proof {
        let want = tree_view(environment.deep_view(), images.deep_view(), containers.deep_view());
        assert(node_view(root).children =~= want.children);
    }
    root
}

fn root_label(environment: Option<&EnvironmentSummary>) -> (label: String)
    ensures
        label@ == root_text(environment.deep_view()),
{
    match environment {
        Some(e) => {
            let name = trim(e.name.as_str());
            if name.is_empty() {
                "Docker".to_owned()
            } else {
                name.to_owned()
            }
        },
        None => "Docker".to_owned(),
    }
}

fn images_node(images: &[ImageSummary]) -> (node: TreeNode)
    ensures
        node_view(node) == images_view(images.deep_view()),
{
    let ghost want = images_view(images.deep_view());
    let sorted = sorted_images(images);
    let mut children: Vec<TreeNode> = Vec::new();
    let mut i: usize = 0;
    while i < sorted.len()
        invariant
            i <= sorted@.len(),
            sorted.deep_view() == images_in_order(images.deep_view()),
            want == images_view(images.deep_view()),
            children@.len() == i,
            node_views(children@) == want.children.take(i as int),
        decreases sorted@.len() - i,
    {
        let image = sorted[i];
        let child = TreeNode {
            id: NodeId::Image(image.id.clone()),
            label: match primary_tag(image) {
                Some(tag) => tag,
                None => UNTAGGED.to_owned(),
            },
            detail: Some(short_id(image.id.as_str())),
            icon: ICON_IMAGE,
            children: Vec::new(),
        };
        proof {
            assert(sorted.deep_view()[i as int] == image.deep_view());
            assert(node_view(child).children =~= Seq::<NodeView>::empty());
            assert(node_view(child) == image_node(image.deep_view()));
        }
        children.push(child);
        i += 1;
        assert(node_views(children@) =~= want.children.take(i as int));
    }
    let node = TreeNode {
        id: NodeId::Images,
        label: "Images".to_owned(),
        detail: Some(count_text(images.len())),
        icon: ICON_IMAGES,
        children,
    };
    proof {
        assert(want.children.len() == sorted@.len());
        assert forall|k: int| 0 <= k < children@.len() implies node_view(children@[k])
            == want.children[k] by {
            assert(node_views(children@)[k] == want.children.take(i as int)[k]);
        }
        assert(node_view(node).children =~= want.children);
    }
    node
}

fn containers_node(containers: &[ContainerSummary]) -> (node: TreeNode)
    ensures
        node_view(node) == containers_view(containers.deep_view()),
{
    let ghost all = containers.deep_view();
    let ghost want = containers_view(all);
    let sorted = sorted_containers(containers);
    let mut children: Vec<TreeNode> = Vec::new();
    let mut i: usize = 0;
    while i < sorted.len()
        invariant
            i <= sorted@.len(),
            sorted.deep_view() == containers_in_order(all),
            want == containers_view(all),
            children@.len() == i,
            node_views(children@) == want.children.take(i as int),
        decreases sorted@.len() - i,
    {
        let container = sorted[i];
        let child = TreeNode {
            id: NodeId::Container(container.id.clone()),
            label: container_label(container),
            detail: Some(container.state.label().to_owned()),
            icon: state_icon(&container.state),
            children: Vec::new(),
        };
        proof {
            assert(sorted.deep_view()[i as int] == container.deep_view());
            assert(node_view(child).children =~= Seq::<NodeView>::empty());
            assert(node_view(child) == container_node(container.deep_view()));
        }
        children.push(child);
        i += 1;
        assert(node_views(children@) =~= want.children.take(i as int));
    }
    let running: usize = count_active(containers);
    let detail = if running == 0 {
        count_text(containers.len())
    } else {
        count_text(containers.len()).concat(" (").concat(count_text(running).as_str()).concat(
            " running)",
        )
    };
    let node = TreeNode {
        id: NodeId::Containers,
        label: "Containers".to_owned(),
        detail: Some(detail),
        icon: ICON_CONTAINERS,
        children,
    };
    proof {
        assert(want.children.len() == sorted@.len());
        assert forall|k: int| 0 <= k < children@.len() implies node_view(children@[k])
            == want.children[k] by {
            assert(node_views(children@)[k] == want.children.take(i as int)[k]);
        }
        assert(node_view(node).children =~= want.children);
    }
    node
}

/// How many containers hold a process.
pub fn count_active(containers: &[ContainerSummary]) -> (count: usize)
    ensures
        count == active_count(containers.deep_view()),
        count <= containers@.len(),
{
    let ghost all = containers.deep_view();
    let ghost p = |c: ContainerView| engine::active(c.state);
    let mut count: usize = 0;
    let mut i: usize = 0;
    proof {
        lists::lemma_filter_ends(all, p);
    }
    while i < containers.len()
        invariant
            i <= containers@.len(),
            all == containers.deep_view(),
            p == (|c: ContainerView| engine::active(c.state)),
            count == all.take(i as int).filter(p).len(),
            count <= i,
        decreases containers@.len() - i,
    {
        proof {
            lists::lemma_filter_step(all, p, i as int);
        }
        if containers[i].state.is_active() {
            count += 1;
        }
        i += 1;
    }
    proof {
        lists::lemma_filter_ends(all, p);
    }
    count
}

// ------------------------------------------------------------------------ laws

/// The sidebar always has its two nodes, and each holds everything that was listed,
/// once.
pub proof fn law_sidebar_lists_everything(
    environment: Option<EnvironmentView>,
    images: Seq<ImageView>,
    containers: Seq<ContainerView>,
)
    ensures
        ({
            let root = tree_view(environment, images, containers);
            &&& root.children.len() == 2
            &&& root.children[0].id == NodeKey::Images
            &&& root.children[1].id == NodeKey::Containers
            &&& root.children[0].children.len() == images.len()
            &&& root.children[1].children.len() == containers.len()
            &&& forall|i: int|
                0 <= i < images.len() ==> root.children[0].children.contains(
                    image_node(#[trigger] images[i]),
                )
            &&& forall|i: int|
                0 <= i < containers.len() ==> root.children[1].children.contains(
                    container_node(#[trigger] containers[i]),
                )
        }),
{
    let ranks = images.map_values(|i: ImageView| image_rank(i));
    arrange::law_sorting_keeps_every_item(images, ranks);
    let sorted = images_in_order(images);
    assert forall|i: int| 0 <= i < images.len() implies images_view(images).children.contains(
        image_node(#[trigger] images[i]),
    ) by {
        assert(images.contains(images[i]));
        assert(sorted.contains(images[i]));
        let at = choose|at: int| 0 <= at < sorted.len() && sorted[at] == images[i];
        assert(images_view(images).children[at] == image_node(images[i]));
    }
    let orders = containers.map_values(|c: ContainerView| container_rank(c));
    arrange::law_sorting_keeps_every_item(containers, orders);
    let listed = containers_in_order(containers);
    assert forall|i: int| 0 <= i < containers.len() implies containers_view(
        containers,
    ).children.contains(container_node(#[trigger] containers[i])) by {
        assert(containers.contains(containers[i]));
        assert(listed.contains(containers[i]));
        let at = choose|at: int| 0 <= at < listed.len() && listed[at] == containers[i];
        assert(containers_view(containers).children[at] == container_node(containers[i]));
    }
}

proof fn lemma_same_rank_same_image(a: ImageView, b: ImageView)
    requires
        image_rank(a) == image_rank(b),
    ensures
        a.id == b.id,
{
    let x = key_text(NodeKey::Image(a.id));
    let y = key_text(NodeKey::Image(b.id));
    assert(x == y);
    assert(x.skip("image:"@.len() as int) =~= a.id);
    assert(y.skip("image:"@.len() as int) =~= b.id);
}

proof fn lemma_same_rank_same_container(a: ContainerView, b: ContainerView)
    requires
        container_rank(a) == container_rank(b),
    ensures
        a.id == b.id,
{
    let x = key_text(NodeKey::Container(a.id));
    let y = key_text(NodeKey::Container(b.id));
    assert(x == y);
    assert(x.skip("container:"@.len() as int) =~= a.id);
    assert(y.skip("container:"@.len() as int) =~= b.id);
}

/// The order in which the daemon lists images makes no difference to the sidebar, as
/// long as no two have the same id.
pub proof fn law_image_listing_order_is_irrelevant(images: Seq<ImageView>, shuffled: Seq<ImageView>)
    requires
        forall|i: int, j: int|
            0 <= i < j < images.len() ==> (#[trigger] images[i]).id != (#[trigger] images[j]).id,
        forall|i: int, j: int|
            0 <= i < j < shuffled.len() ==> (#[trigger] shuffled[i]).id != (
            #[trigger] shuffled[j]).id,
        forall|image: ImageView| #[trigger] images.contains(image) <==> shuffled.contains(image),
    ensures
        images_in_order(images) == images_in_order(shuffled),
{
    let key = |i: ImageView| image_rank(i);
    assert forall|i: int, j: int| 0 <= i < j < images.len() implies key(#[trigger] images[i]) != key(
        #[trigger] images[j],
    ) by {
        if key(images[i]) == key(images[j]) {
            lemma_same_rank_same_image(images[i], images[j]);
        }
    }
    assert forall|i: int, j: int| 0 <= i < j < shuffled.len() implies key(#[trigger] shuffled[i])
        != key(#[trigger] shuffled[j]) by {
        if key(shuffled[i]) == key(shuffled[j]) {
            lemma_same_rank_same_image(shuffled[i], shuffled[j]);
        }
    }
    arrange::law_order_of_arrival_is_irrelevant(images, shuffled, key);
}

/// The order in which the daemon lists containers makes no difference to the sidebar,
/// as long as no two have the same id.
pub proof fn law_container_listing_order_is_irrelevant(
    containers: Seq<ContainerView>,
    shuffled: Seq<ContainerView>,
)
    requires
        forall|i: int, j: int|
            0 <= i < j < containers.len() ==> (#[trigger] containers[i]).id != (
            #[trigger] containers[j]).id,
        forall|i: int, j: int|
            0 <= i < j < shuffled.len() ==> (#[trigger] shuffled[i]).id != (
            #[trigger] shuffled[j]).id,
        forall|container: ContainerView| #[trigger]
            containers.contains(container) <==> shuffled.contains(container),
    ensures
        containers_in_order(containers) == containers_in_order(shuffled),
{
    let key = |c: ContainerView| container_rank(c);
    assert forall|i: int, j: int| 0 <= i < j < containers.len() implies key(
        #[trigger] containers[i],
    ) != key(#[trigger] containers[j]) by {
        if key(containers[i]) == key(containers[j]) {
            lemma_same_rank_same_container(containers[i], containers[j]);
        }
    }
    assert forall|i: int, j: int| 0 <= i < j < shuffled.len() implies key(#[trigger] shuffled[i])
        != key(#[trigger] shuffled[j]) by {
        if key(shuffled[i]) == key(shuffled[j]) {
            lemma_same_rank_same_container(shuffled[i], shuffled[j]);
        }
    }
    arrange::law_order_of_arrival_is_irrelevant(containers, shuffled, key);
}

/// The icon and the tone of a container tell whether it runs, is held, or neither.
pub proof fn law_states_look_different(state: ContainerState)
    ensures
        tone_of(state) == Tone::Good <==> state is Running || state is Restarting,
        tone_of(state) == Tone::Warn <==> state is Paused,
        tone_of(state) == Tone::Bad <==> !(state is Running || state is Restarting || state is Paused),
        icon_of(state) == "media-playback-start-symbolic"@ <==> state is Running
            || state is Restarting,
        icon_of(state) == "media-playback-pause-symbolic"@ <==> state is Paused,
        icon_of(state) == "dialog-warning-symbolic"@ <==> state is Dead,
        icon_of(state) == "media-playback-stop-symbolic"@ <==> state is Created || state is Exited
            || state is Removing || state is Stopping || state is Unknown,
{
    reveal_strlit("media-playback-start-symbolic");
    reveal_strlit("media-playback-pause-symbolic");
    reveal_strlit("dialog-warning-symbolic");
    reveal_strlit("media-playback-stop-symbolic");
    assert("media-playback-start-symbolic"@[15] == 's' && "media-playback-start-symbolic"@[17]
        == 'a');
    assert("media-playback-pause-symbolic"@[15] == 'p');
    assert("media-playback-stop-symbolic"@[15] == 's' && "media-playback-stop-symbolic"@[17]
        == 'o');
    assert("dialog-warning-symbolic"@[0] == 'd' && "media-playback-start-symbolic"@[0] == 'm'
        && "media-playback-pause-symbolic"@[0] == 'm' && "media-playback-stop-symbolic"@[0] == 'm');
}

/// Every entry below the images is one of the images that were listed, under its tag and its
/// short id; every entry below the containers is one of the containers, under its name and
/// its state.
pub proof fn law_entries_stand_for_what_was_listed(
    environment: Option<EnvironmentView>,
    images: Seq<ImageView>,
    containers: Seq<ContainerView>,
)
    ensures
        ({
            let root = tree_view(environment, images, containers);
            &&& forall|i: int|
                0 <= i < root.children[0].children.len() ==> exists|at: int|
                    0 <= at < images.len() && is_entry_of_image(
                        #[trigger] root.children[0].children[i],
                        #[trigger] images[at],
                    )
            &&& forall|i: int|
                0 <= i < root.children[1].children.len() ==> exists|at: int|
                    0 <= at < containers.len() && is_entry_of_container(
                        #[trigger] root.children[1].children[i],
                        #[trigger] containers[at],
                    )
        }),
{
    let ranks = images.map_values(|i: ImageView| image_rank(i));
    let orders = containers.map_values(|c: ContainerView| container_rank(c));
    arrange::law_arrangement_is_stable_sort(ranks);
    arrange::law_arrangement_is_stable_sort(orders);
    let root = tree_view(environment, images, containers);
    assert forall|i: int| 0 <= i < root.children[0].children.len() implies exists|at: int|
        0 <= at < images.len() && is_entry_of_image(
            #[trigger] root.children[0].children[i],
            #[trigger] images[at],
        ) by {
        let at = arrange::arrangement(ranks)[i];
        assert(is_entry_of_image(root.children[0].children[i], images[at]));
    }
    assert forall|i: int| 0 <= i < root.children[1].children.len() implies exists|at: int|
        0 <= at < containers.len() && is_entry_of_container(
            #[trigger] root.children[1].children[i],
            #[trigger] containers[at],
        ) by {
        let at = arrange::arrangement(orders)[i];
        assert(is_entry_of_container(root.children[1].children[i], containers[at]));
    }
}

/// Whether an entry is that of an image.
pub open spec fn is_entry_of_image(entry: NodeView, image: ImageView) -> bool {
    &&& entry.id == NodeKey::Image(image.id)
    &&& crate::model::format::best_tag(image.repo_tags) matches Some(tag) ==> entry.label == tag
    &&& crate::model::format::untagged(image) ==> entry.label == "<none>:<none>"@
    &&& entry.detail == Some(crate::model::format::short_text(image.id))
    &&& entry.icon == "media-optical-symbolic"@
    &&& entry.children.len() == 0
}

/// Whether an entry is that of a container.
pub open spec fn is_entry_of_container(entry: NodeView, container: ContainerView) -> bool {
    &&& entry.id == NodeKey::Container(container.id)
    &&& entry.label == crate::model::format::container_label_text(container)
    &&& entry.detail == Some(engine::state_label(container.state))
    &&& entry.icon == icon_of(container.state)
    &&& entry.children.len() == 0
}

/// Tagged images come before untagged ones and ascend by their tags; the untagged ones
/// follow from the newest to the oldest. Containers ascend by their names.
pub proof fn law_entries_are_in_order(
    images: Seq<ImageView>,
    containers: Seq<ContainerView>,
    i: int,
    j: int,
)
    requires
        0 <= i < j,
    ensures
        j < images.len() ==> ({
            let earlier = images_in_order(images)[i];
            let later = images_in_order(images)[j];
            &&& crate::model::format::untagged(earlier) ==> crate::model::format::untagged(later)
                && earlier.created >= later.created
            &&& !crate::model::format::untagged(earlier) && !crate::model::format::untagged(later)
                ==> text::at_most(
                text::lowercase(crate::model::format::image_label_text(earlier)),
                text::lowercase(crate::model::format::image_label_text(later)),
            )
        }),
        j < containers.len() ==> text::at_most(
            text::lowercase(
                crate::model::format::container_label_text(containers_in_order(containers)[i]),
            ),
            text::lowercase(
                crate::model::format::container_label_text(containers_in_order(containers)[j]),
            ),
        ),
{
    let ranks = images.map_values(|i: ImageView| image_rank(i));
    let orders = containers.map_values(|c: ContainerView| container_rank(c));
    arrange::law_arrangement_is_stable_sort(ranks);
    arrange::law_arrangement_is_stable_sort(orders);
    if j < images.len() {
        let a = images_in_order(images)[i];
        let b = images_in_order(images)[j];
        let p = arrange::arrangement(ranks)[i];
        let q = arrange::arrangement(ranks)[j];
        assert(ranks[p] == image_rank(a) && ranks[q] == image_rank(b));
        text::lemma_at_most_total(image_rank(a).first, image_rank(b).first);
    }
    if j < containers.len() {
        let a = containers_in_order(containers)[i];
        let b = containers_in_order(containers)[j];
        let p = arrange::arrangement(orders)[i];
        let q = arrange::arrangement(orders)[j];
        assert(orders[p] == container_rank(a) && orders[q] == container_rank(b));
        text::lemma_at_most_total(container_rank(a).first, container_rank(b).first);
    }
}

/// The headings count what is below them, and the root is named for its daemon, with the
/// daemon's version beside it.
pub proof fn law_headings_count_what_they_hold(
    environment: EnvironmentView,
    images: Seq<ImageView>,
    containers: Seq<ContainerView>,
)
    ensures
        ({
            let root = tree_view(Some(environment), images, containers);
            let held = root.children[1].children;
            &&& root.children[0].label == "Images"@
            &&& root.children[0].detail == Some(text::decimal(root.children[0].children.len()))
            &&& root.children[1].label == "Containers"@
            &&& text::decimal(held.len()).is_prefix_of(root.children[1].detail->0)
            &&& (forall|i: int|
                0 <= i < containers.len() ==> !engine::active((#[trigger] containers[i]).state))
                ==> root.children[1].detail == Some(text::decimal(held.len()))
            &&& environment.name.len() > 0 && !text::is_space(environment.name[0])
                && !text::is_space(environment.name.last()) ==> root.label == environment.name
            &&& environment.server_version.len() > 0 ==> root.detail == Some(
                environment.server_version,
            )
            &&& environment.server_version.len() == 0 ==> root.detail is None
        }),
        tree_view(None, images, containers).label == "Docker"@,
        tree_view(None, images, containers).detail is None,
        tree_view(None, images, containers).children == tree_view(
            Some(environment),
            images,
            containers,
        ).children,
{
    law_sidebar_lists_everything(Some(environment), images, containers);
    let root = tree_view(Some(environment), images, containers);
    let held = root.children[1].children;
    let said = root.children[1].detail->0;
    let count = text::decimal(held.len());
    assert(said.subrange(0, count.len() as int) =~= count);
    let p = |c: ContainerView| engine::active(c.state);
    lists::lemma_filter_keeps(containers, p);
    if forall|i: int|
        0 <= i < containers.len() ==> !engine::active((#[trigger] containers[i]).state) {
        let kept = containers.filter(p);
        if kept.len() > 0 {
            assert(kept.contains(kept[0]));
            let at = choose|at: int| 0 <= at < containers.len() && containers[at] == kept[0];
            assert(p(containers[at]));
        }
    }
    if environment.name.len() > 0 && !text::is_space(environment.name[0]) && !text::is_space(
        environment.name.last(),
    ) {
        text::law_trimming_takes_off_white_space_alone(
            Seq::empty(),
            environment.name,
            Seq::empty(),
        );
        assert(Seq::<char>::empty() + environment.name + Seq::<char>::empty() =~= environment.name);
    }
}

/// The number of containers with a process is the one that is told, with the number of all.
pub proof fn law_running_containers_are_counted(containers: Seq<ContainerView>, next: ContainerView)
    ensures
        active_count(Seq::empty()) == 0,
        engine::active(next.state) ==> active_count(containers.push(next)) == active_count(
            containers,
        ) + 1,
        !engine::active(next.state) ==> active_count(containers.push(next)) == active_count(
            containers,
        ),
        active_count(containers) > 0 ==> containers_view(containers).detail == Some(
            text::decimal(containers.len()) + " ("@ + text::decimal(active_count(containers))
                + " running)"@,
        ),
{
    reveal(Seq::filter);
    assert(containers.push(next).drop_last() =~= containers);
}

/// The root, the two headings and the images each have their own icon.
pub proof fn law_headings_have_their_own_icons(
    environment: Option<EnvironmentView>,
    images: Seq<ImageView>,
    containers: Seq<ContainerView>,
)
    ensures
        ({
            let root = tree_view(environment, images, containers);
            &&& root.icon == "network-server-symbolic"@
            &&& root.children[0].icon == "drive-harddisk-symbolic"@
            &&& root.children[1].icon == "view-list-symbolic"@
        }),
{
}

/// White space around the daemon's own name is no part of the name at the root.
pub proof fn law_the_root_is_named_without_white_space(
    environment: EnvironmentView,
    images: Seq<ImageView>,
    containers: Seq<ContainerView>,
    before: Seq<char>,
    name: Seq<char>,
    after: Seq<char>,
)
    requires
        forall|i: int| 0 <= i < before.len() ==> text::is_space(#[trigger] before[i]),
        forall|i: int| 0 <= i < after.len() ==> text::is_space(#[trigger] after[i]),
        name.len() > 0 ==> !text::is_space(name[0]) && !text::is_space(name.last()),
        environment.name == before + name + after,
    ensures
        tree_view(Some(environment), images, containers).label == (if name.len() > 0 {
            name
        } else {
            "Docker"@
        }),
{
    text::law_trimming_takes_off_white_space_alone(before, name, after);
}

} // verus!
