//! What the user may do, what they are asked first, and how it went.

use vstd::prelude::*;

use crate::arrange;
use crate::arrange::{arrange, Key, SortKey};
use crate::engine;
use crate::engine::{
    total, ContainerState, ContainerSummary, ContainerView, ImageSummary, ImageView, Lifecycle,
};
use crate::lists;
use crate::lists::{put, slice_of};
use crate::model::format::{bytes, container_label, image_label, is_untagged};
use crate::model::relations;
use crate::model::relations::{containers_of, running_image};
use crate::model::tree::Tone;
use crate::text;
use crate::text::{count_text, join, to_lowercase};

verus! {

/// Something the user can ask for.
#[derive(Debug, Clone, Copy, PartialEq, Eq, Structural)]
pub enum Action {
    /// Reversible: the container survives.
    Lifecycle(Lifecycle),
    /// `force` kills a running container first.
    RemoveContainer { force: bool },
    RemoveImage,
    PruneContainers,
    PruneImages,
    ViewLogs,
    ViewDockerfile,
    BrowseFilesystem,
    OpenInFileManager,
}

/// Whether an action can lose something the user cannot get back.
pub open spec fn destructive(action: Action) -> bool {
    action is RemoveContainer || action is RemoveImage || action is PruneContainers
        || action is PruneImages
}

/// Whether an action halts something that is executing.
pub open spec fn halting(action: Action) -> bool {
    action == Action::Lifecycle(Lifecycle::Stop) || action == Action::Lifecycle(Lifecycle::Kill)
}

/// The tone of an action in a menu.
pub open spec fn action_tone(action: Action) -> Tone {
    if destructive(action) || halting(action) {
        Tone::Bad
    } else {
        Tone::Neutral
    }
}

impl Action {
    /// Whether carrying this out can lose something the user cannot get back.
    #[must_use]
    pub fn is_destructive(self) -> (yes: bool)
        ensures
            yes == destructive(self),
    {
        matches!(self,
            Action::RemoveContainer { .. } | Action::RemoveImage | Action::PruneContainers
                | Action::PruneImages
        )
    }

    /// Whether this halts something that is currently executing.
    ///
    /// Separate from destructive: stopping loses nothing, so it needs no dialog, but it
    /// is still the menu item a misclick regrets, which is why it is marked out.
    #[must_use]
    pub fn is_halting(self) -> (yes: bool)
        ensures
            yes == halting(self),
    {
        matches!(self, Action::Lifecycle(Lifecycle::Stop | Lifecycle::Kill))
    }
}

/// What the user is shown before a destructive action proceeds.
#[derive(Debug, Clone, PartialEq, Eq)]
pub struct Confirmation {
    pub heading: String,
    /// Why this matters, in concrete terms. Never a bare "are you sure?".
    pub body: String,
    /// The affirmative button. Names the act, so the choice is readable without the
    /// heading.
    pub confirm_label: String,
    /// Everything that will be removed, named. Empty for single-object removals, where
    /// the heading already names the one thing.
    pub items: Vec<String>,
}

/// The value of a [`Confirmation`].
#[verifier::ext_equal]
pub struct ConfirmationView {
    pub heading: Seq<char>,
    pub body: Seq<char>,
    pub confirm_label: Seq<char>,
    pub items: Seq<Seq<char>>,
}

impl DeepView for Confirmation {
    type V = ConfirmationView;

    open spec fn deep_view(&self) -> ConfirmationView {
        ConfirmationView {
            heading: self.heading@,
            body: self.body@,
            confirm_label: self.confirm_label@,
            items: self.items.deep_view(),
        }
    }
}

/// An action as offered to the user.
#[derive(Debug, Clone, PartialEq, Eq)]
pub struct Offer {
    pub action: Action,
    pub label: String,
    pub icon: &'static str,
    /// Present exactly when the action is destructive.
    pub confirmation: Option<Confirmation>,
}

/// The value of an [`Offer`].
#[verifier::ext_equal]
pub struct OfferView {
    pub action: Action,
    pub label: Seq<char>,
    pub icon: Seq<char>,
    pub confirmation: Option<ConfirmationView>,
}

impl DeepView for Offer {
    type V = OfferView;

    open spec fn deep_view(&self) -> OfferView {
        OfferView {
            action: self.action,
            label: self.label@,
            icon: self.icon@,
            confirmation: self.confirmation.deep_view(),
        }
    }
}

/// An offer that is carried out without asking.
pub open spec fn plain_offer(action: Action, label: Seq<char>, icon: Seq<char>) -> OfferView {
    OfferView { action, label, icon, confirmation: None }
}

impl Offer {
    /// Whether carrying this out can lose something the user cannot get back.
    #[must_use]
    pub fn is_destructive(&self) -> (yes: bool)
        ensures
            yes == destructive(self.action),
    {
        self.action.is_destructive()
    }

    /// The tone this offer's icon carries in a menu: red for anything that removes
    /// something or halts something that is running, and nothing at all otherwise.
    ///
    /// Colour is reinforcement here, never the signal: the label says what it does, and
    /// destructive items sit in their own section besides.
    #[must_use]
    pub fn tone(&self) -> (tone: Tone)
        ensures
            tone == action_tone(self.action),
    {
        if self.action.is_destructive() || self.action.is_halting() {
            Tone::Bad
        } else {
            Tone::Neutral
        }
    }

    fn plain(action: Action, label: &str, icon: &'static str) -> (offer: Self)
        ensures
            offer.deep_view() == plain_offer(action, label@, icon@),
    {
        Self { action, label: label.to_owned(), icon, confirmation: None }
    }
}

// --------------------------------------------------------------------- wording

/// A count with its noun.
pub open spec fn counted(value: nat, singular: Seq<char>, plural: Seq<char>) -> Seq<char> {
    if value == 1 {
        "1 "@ + singular
    } else {
        text::decimal(value) + " "@ + plural
    }
}

fn count(value: usize, singular: &str, plural: &str) -> (text: String)
    ensures
        text@ == counted(value as nat, singular@, plural@),
{
    if value == 1 {
        "1 ".to_owned().concat(singular)
    } else {
        count_text(value).concat(" ").concat(plural)
    }
}

/// "Stop 2 Containers".
pub open spec fn bulk_label_text(
    verb: Seq<char>,
    targets: nat,
    singular: Seq<char>,
    plural: Seq<char>,
) -> Seq<char> {
    verb + " "@ + text::decimal(targets) + " "@ + (if targets == 1 {
        singular
    } else {
        plural
    })
}

/// "Stop 2 Containers": the count is in the label so it is read before it is chosen.
fn bulk_label(verb: &str, targets: usize, singular: &str, plural: &str) -> (label: String)
    ensures
        label@ == bulk_label_text(verb@, targets as nat, singular@, plural@),
{
    verb.to_owned().concat(" ").concat(count_text(targets).as_str()).concat(" ").concat(
        if targets == 1 {
            singular
        } else {
            plural
        },
    )
}

/// The verb for what could not be done.
pub open spec fn verb_text(action: Action) -> Seq<char> {
    match action {
        Action::Lifecycle(lifecycle) => engine::lifecycle_verb(lifecycle),
        Action::RemoveContainer { .. } | Action::RemoveImage => "remove"@,
        Action::PruneContainers | Action::PruneImages => "prune"@,
        _ => "open"@,
    }
}

/// The infinitive, for saying what could not be done.
#[must_use]
pub fn verb(action: Action) -> (verb: &'static str)
    ensures
        verb@ == verb_text(action),
{
    match action {
        Action::Lifecycle(lifecycle) => lifecycle.verb(),
        Action::RemoveContainer { .. } | Action::RemoveImage => "remove",
        Action::PruneContainers | Action::PruneImages => "prune",
        Action::ViewLogs
        | Action::ViewDockerfile
        | Action::BrowseFilesystem
        | Action::OpenInFileManager => "open",
    }
}

/// The word for what was done.
pub open spec fn participle_text(action: Action) -> Seq<char> {
    match action {
        Action::Lifecycle(Lifecycle::Start) => "Started"@,
        Action::Lifecycle(Lifecycle::Stop) => "Stopped"@,
        Action::Lifecycle(Lifecycle::Restart) => "Restarted"@,
        Action::Lifecycle(Lifecycle::Pause) => "Paused"@,
        Action::Lifecycle(Lifecycle::Unpause) => "Resumed"@,
        Action::Lifecycle(Lifecycle::Kill) => "Killed"@,
        Action::RemoveContainer { .. } | Action::RemoveImage => "Removed"@,
        Action::PruneContainers | Action::PruneImages => "Pruned"@,
        _ => "Opened"@,
    }
}

fn past_participle(action: Action) -> (word: &'static str)
    ensures
        word@ == participle_text(action),
{
    match action {
        Action::Lifecycle(Lifecycle::Start) => "Started",
        Action::Lifecycle(Lifecycle::Stop) => "Stopped",
        Action::Lifecycle(Lifecycle::Restart) => "Restarted",
        Action::Lifecycle(Lifecycle::Pause) => "Paused",
        Action::Lifecycle(Lifecycle::Unpause) => "Resumed",
        Action::Lifecycle(Lifecycle::Kill) => "Killed",
        Action::RemoveContainer { .. } | Action::RemoveImage => "Removed",
        Action::PruneContainers | Action::PruneImages => "Pruned",
        Action::ViewLogs
        | Action::ViewDockerfile
        | Action::BrowseFilesystem
        | Action::OpenInFileManager => "Opened",
    }
}

// ------------------------------------------------------------------ one object

/// The offer of a lifecycle request.
pub open spec fn lifecycle_offer(action: Lifecycle) -> OfferView {
    match action {
        Lifecycle::Start => plain_offer(
            Action::Lifecycle(action),
            "Start"@,
            "media-playback-start-symbolic"@,
        ),
        Lifecycle::Stop => plain_offer(
            Action::Lifecycle(action),
            "Stop"@,
            "media-playback-stop-symbolic"@,
        ),
        Lifecycle::Restart => plain_offer(
            Action::Lifecycle(action),
            "Restart"@,
            "view-refresh-symbolic"@,
        ),
        Lifecycle::Pause => plain_offer(
            Action::Lifecycle(action),
            "Pause"@,
            "media-playback-pause-symbolic"@,
        ),
        Lifecycle::Unpause => plain_offer(
            Action::Lifecycle(action),
            "Resume"@,
            "media-playback-start-symbolic"@,
        ),
        Lifecycle::Kill => plain_offer(
            Action::Lifecycle(action),
            "Kill"@,
            "process-stop-symbolic"@,
        ),
    }
}

fn lifecycle(action: Lifecycle) -> (offer: Offer)
    ensures
        offer.deep_view() == lifecycle_offer(action),
{
    let (label, icon) = match action {
        Lifecycle::Start => ("Start", "media-playback-start-symbolic"),
        Lifecycle::Stop => ("Stop", "media-playback-stop-symbolic"),
        Lifecycle::Restart => ("Restart", "view-refresh-symbolic"),
        Lifecycle::Pause => ("Pause", "media-playback-pause-symbolic"),
        Lifecycle::Unpause => ("Resume", "media-playback-start-symbolic"),
        Lifecycle::Kill => ("Kill", "process-stop-symbolic"),
    };
    Offer::plain(Action::Lifecycle(action), label, icon)
}

/// What the image that a container runs is called: its label, or the reference
/// of the container when the image is gone.
pub open spec fn origin_text(container: ContainerView, images: Seq<ImageView>) -> Seq<char> {
    match relations::running(container, images) {
        Some(image) => crate::model::format::image_label_text(image),
        None => container.image,
    }
}

/// The offer to remove a container.
pub open spec fn removal_of_container(
    container: ContainerView,
    images: Seq<ImageView>,
) -> OfferView {
    let name = crate::model::format::container_label_text(container);
    let image = origin_text(container, images);
    OfferView {
        action: Action::RemoveContainer { force: engine::active(container.state) },
        label: "Remove"@,
        icon: "user-trash-symbolic"@,
        confirmation: Some(
            if engine::active(container.state) {
                ConfirmationView {
                    heading: "Kill and remove "@ + name + "?"@,
                    body: name
                        + " is still running. It will be killed and then removed, and anything written inside it since it started from "@
                        + image + " will be lost. The image itself is not affected."@,
                    confirm_label: "Kill and Remove"@,
                    items: Seq::empty(),
                }
            } else {
                ConfirmationView {
                    heading: "Remove "@ + name + "?"@,
                    body: "Anything written inside "@ + name + " since it started from "@ + image
                        + " will be lost. The image itself is not affected."@,
                    confirm_label: "Remove"@,
                    items: Seq::empty(),
                }
            },
        ),
    }
}

fn remove_container_offer(container: &ContainerSummary, images: &[ImageSummary]) -> (offer: Offer)
    ensures
        offer.deep_view() == removal_of_container(container.deep_view(), images.deep_view()),
{
    let name = container_label(container);
    let running = container.state.is_active();
    let image = match running_image(container, images) {
        Some(image) => image_label(image),
        None => container.image.clone(),
    };
    let body = if running {
        name.clone().concat(
            " is still running. It will be killed and then removed, and anything written inside it since it started from ",
        ).concat(image.as_str()).concat(" will be lost. The image itself is not affected.")
    } else {
        "Anything written inside ".to_owned().concat(name.as_str()).concat(
            " since it started from ",
        ).concat(image.as_str()).concat(" will be lost. The image itself is not affected.")
    };
    let items: Vec<String> = Vec::new();
    assert(items.deep_view() =~= Seq::<Seq<char>>::empty());
    Offer {
        action: Action::RemoveContainer { force: running },
        label: "Remove".to_owned(),
        icon: "user-trash-symbolic",
        confirmation: Some(
            Confirmation {
                heading: if running {
                    "Kill and remove ".to_owned().concat(name.as_str()).concat("?")
                } else {
                    "Remove ".to_owned().concat(name.as_str()).concat("?")
                },
                body,
                confirm_label: if running {
                    "Kill and Remove".to_owned()
                } else {
                    "Remove".to_owned()
                },
                items,
            },
        ),
    }
}

/// The lifecycle requests that suit a state.
pub open spec fn lifecycles_for(state: ContainerState) -> Seq<OfferView> {
    match state {
        ContainerState::Running => seq![
            lifecycle_offer(Lifecycle::Stop),
            lifecycle_offer(Lifecycle::Restart),
            lifecycle_offer(Lifecycle::Pause),
            lifecycle_offer(Lifecycle::Kill),
        ],
        ContainerState::Paused => seq![
            lifecycle_offer(Lifecycle::Unpause),
            lifecycle_offer(Lifecycle::Stop),
            lifecycle_offer(Lifecycle::Kill),
        ],
        ContainerState::Created | ContainerState::Exited => seq![
            lifecycle_offer(Lifecycle::Start),
        ],
        ContainerState::Restarting => seq![lifecycle_offer(Lifecycle::Kill)],
        _ => Seq::empty(),
    }
}

/// What is offered for a container.
pub open spec fn container_offers(container: ContainerView, images: Seq<ImageView>) -> Seq<
    OfferView,
> {
    lifecycles_for(container.state) + seq![
        plain_offer(Action::ViewLogs, "Logs"@, "view-list-symbolic"@),
        plain_offer(Action::BrowseFilesystem, "Files"@, "folder-symbolic"@),
        plain_offer(Action::OpenInFileManager, "Open in Files"@, "external-link-symbolic"@),
    ] + (if container.state is Removing {
        Seq::empty()
    } else {
        seq![removal_of_container(container, images)]
    })
}

/// What is offered for a container in its current state.
#[must_use]
pub fn for_container(container: &ContainerSummary, images: &[ImageSummary]) -> (offers: Vec<Offer>)
    ensures
        offers.deep_view() == container_offers(container.deep_view(), images.deep_view()),
{
    let mut offers: Vec<Offer> = Vec::new();
    match container.state {
        ContainerState::Running => {
            put(&mut offers, lifecycle(Lifecycle::Stop));
            put(&mut offers, lifecycle(Lifecycle::Restart));
            put(&mut offers, lifecycle(Lifecycle::Pause));
        },
        ContainerState::Paused => {
            put(&mut offers, lifecycle(Lifecycle::Unpause));
            put(&mut offers, lifecycle(Lifecycle::Stop));
        },
        ContainerState::Created | ContainerState::Exited => {
            put(&mut offers, lifecycle(Lifecycle::Start));
        },
        ContainerState::Restarting
        | ContainerState::Stopping
        | ContainerState::Dead
        | ContainerState::Removing
        | ContainerState::Unknown => {},
    }
    if container.state.is_active() {
        put(&mut offers, lifecycle(Lifecycle::Kill));
    }
    assert(offers.deep_view() =~= lifecycles_for(container.state));
    put(&mut offers, Offer::plain(Action::ViewLogs, "Logs", "view-list-symbolic"));
    put(&mut offers, Offer::plain(Action::BrowseFilesystem, "Files", "folder-symbolic"));
    put(
        &mut offers,
        Offer::plain(Action::OpenInFileManager, "Open in Files", "external-link-symbolic"),
    );
    if !matches!(container.state, ContainerState::Removing) {
        put(&mut offers, remove_container_offer(container, images));
    }
    assert(offers.deep_view() =~= container_offers(container.deep_view(), images.deep_view()));
    offers
}

/// The labels of some containers.
pub open spec fn container_labels(containers: Seq<ContainerView>) -> Seq<Seq<char>> {
    containers.map_values(|c: ContainerView| crate::model::format::container_label_text(c))
}

/// The labels of some images.
pub open spec fn image_labels(images: Seq<ImageView>) -> Seq<Seq<char>> {
    images.map_values(|i: ImageView| crate::model::format::image_label_text(i))
}

fn labels_of_containers(containers: &Vec<&ContainerSummary>) -> (labels: Vec<String>)
    ensures
        labels.deep_view() == container_labels(containers.deep_view()),
{
    let mut labels: Vec<String> = Vec::new();
    let mut i: usize = 0;
    while i < containers.len()
        invariant
            i <= containers@.len(),
            labels.deep_view() == container_labels(containers.deep_view()).take(i as int),
        decreases containers@.len() - i,
    {
        put(&mut labels, container_label(containers[i]));
        i += 1;
        assert(labels.deep_view() =~= container_labels(containers.deep_view()).take(i as int));
    }
    assert(labels.deep_view() =~= container_labels(containers.deep_view()));
    labels
}

fn labels_of_images(images: &Vec<&ImageSummary>) -> (labels: Vec<String>)
    ensures
        labels.deep_view() == image_labels(images.deep_view()),
{
    let mut labels: Vec<String> = Vec::new();
    let mut i: usize = 0;
    while i < images.len()
        invariant
            i <= images@.len(),
            labels.deep_view() == image_labels(images.deep_view()).take(i as int),
        decreases images@.len() - i,
    {
        put(&mut labels, image_label(images[i]));
        i += 1;
        assert(labels.deep_view() =~= image_labels(images.deep_view()).take(i as int));
    }
    assert(labels.deep_view() =~= image_labels(images.deep_view()));
    labels
}

/// The offer to remove an image.
pub open spec fn removal_of_image(image: ImageView, containers: Seq<ContainerView>) -> OfferView {
    let users = relations::users_of(image, containers);
    OfferView {
        action: Action::RemoveImage,
        label: "Remove"@,
        icon: "user-trash-symbolic"@,
        confirmation: Some(
            ConfirmationView {
                heading: "Remove "@ + crate::model::format::image_label_text(image) + "?"@,
                body: if users.len() == 0 {
                    crate::model::format::bytes_text(image.size as int)
                        + " of disk space will be reclaimed. Any container built from this image later will have to pull or rebuild it."@
                } else {
                    text::decimal(users.len()) + " "@ + (if users.len() == 1 {
                        "container is"@
                    } else {
                        "containers are"@
                    })
                        + " still using this image, so the daemon will refuse to remove it. Remove "@
                        + (if users.len() == 1 {
                        "it"@
                    } else {
                        "them"@
                    }) + " first."@
                },
                confirm_label: "Remove"@,
                items: container_labels(users),
            },
        ),
    }
}

fn remove_image_offer(image: &ImageSummary, containers: &[ContainerSummary]) -> (offer: Offer)
    ensures
        offer.deep_view() == removal_of_image(image.deep_view(), containers.deep_view()),
{
    let users = containers_of(image, containers);
    assert(users.deep_view().len() == users@.len());
    let body = if users.len() == 0 {
        bytes(image.size).concat(
            " of disk space will be reclaimed. Any container built from this image later will have to pull or rebuild it.",
        )
    } else {
        count_text(users.len()).concat(" ").concat(
            if users.len() == 1 {
                "container is"
            } else {
                "containers are"
            },
        ).concat(
            " still using this image, so the daemon will refuse to remove it. Remove ",
        ).concat(
            if users.len() == 1 {
                "it"
            } else {
                "them"
            },
        ).concat(" first.")
    };
    Offer {
        action: Action::RemoveImage,
        label: "Remove".to_owned(),
        icon: "user-trash-symbolic",
        confirmation: Some(
            Confirmation {
                heading: "Remove ".to_owned().concat(image_label(image).as_str()).concat("?"),
                body,
                confirm_label: "Remove".to_owned(),
                items: labels_of_containers(&users),
            },
        ),
    }
}

/// What is offered for an image.
pub open spec fn image_offers(image: ImageView, containers: Seq<ContainerView>) -> Seq<OfferView> {
    seq![
        plain_offer(Action::ViewDockerfile, "Dockerfile"@, "text-x-generic-symbolic"@),
        plain_offer(Action::BrowseFilesystem, "Files"@, "folder-symbolic"@),
        plain_offer(Action::OpenInFileManager, "Open in Files"@, "external-link-symbolic"@),
        removal_of_image(image, containers),
    ]
}

/// What is offered for an image.
#[must_use]
pub fn for_image(image: &ImageSummary, containers: &[ContainerSummary]) -> (offers: Vec<Offer>)
    ensures
        offers.deep_view() == image_offers(image.deep_view(), containers.deep_view()),
{
    let mut offers: Vec<Offer> = Vec::new();
    put(&mut offers, Offer::plain(Action::ViewDockerfile, "Dockerfile", "text-x-generic-symbolic"));
    put(&mut offers, Offer::plain(Action::BrowseFilesystem, "Files", "folder-symbolic"));
    put(
        &mut offers,
        Offer::plain(Action::OpenInFileManager, "Open in Files", "external-link-symbolic"),
    );
    put(&mut offers, remove_image_offer(image, containers));
    assert(offers.deep_view() =~= image_offers(image.deep_view(), containers.deep_view()));
    offers
}

// -------------------------------------------------------------------- the tally

/// How much of a listing is checked, which is what the select-all control shows and what
/// decides whether the cog beside it has anything to act on.
#[derive(Debug, Clone, Copy, PartialEq, Eq)]
pub struct Tally {
    pub rows: usize,
    pub checked: usize,
}

impl Tally {
    /// Some but not all.
    pub open spec fn partial(self) -> bool {
        0 < self.checked < self.rows
    }

    /// Everything there is.
    pub open spec fn complete(self) -> bool {
        self.rows > 0 && self.checked == self.rows
    }

    /// More checked than there are rows cannot happen, but clamping keeps the three
    /// states below mutually exclusive whatever is passed in.
    #[must_use]
    pub fn new(rows: usize, checked: usize) -> (tally: Self)
        ensures
            tally.rows == rows,
            tally.checked == (if checked < rows {
                checked
            } else {
                rows
            }),
            // Exactly one of: nothing checked, some checked, everything checked.
            tally.partial() ==> !tally.complete(),
            tally.checked == 0 <==> !tally.partial() && !tally.complete(),
    {
        Self {
            rows,
            checked: if checked < rows {
                checked
            } else {
                rows
            },
        }
    }

    /// Nothing to check: the listing is empty.
    #[must_use]
    pub fn is_empty(&self) -> (empty: bool)
        ensures
            empty == (self.rows == 0),
    {
        self.rows == 0
    }

    /// Something is checked, so a bulk action has a target.
    #[must_use]
    pub fn any(&self) -> (any: bool)
        ensures
            any == (self.checked > 0),
    {
        self.checked > 0
    }

    /// Some but not all: the mixed state a check button draws as a dash.
    #[must_use]
    pub fn is_partial(&self) -> (partial: bool)
        ensures
            partial == self.partial(),
    {
        self.any() && self.checked < self.rows
    }

    /// Everything present is checked.
    #[must_use]
    pub fn is_complete(&self) -> (complete: bool)
        ensures
            complete == self.complete(),
    {
        !self.is_empty() && self.checked == self.rows
    }

    /// What operating the select-all control would do, said before it is clicked.
    #[must_use]
    pub fn select_all_label(&self) -> (label: &'static str)
        ensures
            label@ == (if self.rows == 0 {
                "There is nothing to check"@
            } else if self.complete() {
                "Uncheck every row"@
            } else {
                "Check every row"@
            }),
    {
        if self.is_empty() {
            "There is nothing to check"
        } else if self.is_complete() {
            "Uncheck every row"
        } else {
            "Check every row"
        }
    }
}

// ----------------------------------------------------------------- several

/// One object a bulk action will be applied to.
#[derive(Debug, Clone, PartialEq, Eq)]
pub struct BulkTarget {
    pub id: String,
    pub label: String,
    /// The action as it applies to **this** object. Removing a running container forces;
    /// removing a stopped one does not, and a selection may hold both.
    pub action: Action,
}

/// The value of a [`BulkTarget`].
#[verifier::ext_equal]
pub struct TargetView {
    pub id: Seq<char>,
    pub label: Seq<char>,
    pub action: Action,
}

impl DeepView for BulkTarget {
    type V = TargetView;

    open spec fn deep_view(&self) -> TargetView {
        TargetView { id: self.id@, label: self.label@, action: self.action }
    }
}

/// An action offered for several checked objects at once.
#[derive(Debug, Clone, PartialEq, Eq)]
pub struct BulkOffer {
    /// The action in summary, for identifying the offer. What is actually carried out is
    /// each target's own action, which may differ in its flags.
    pub action: Action,
    pub label: String,
    pub icon: &'static str,
    pub targets: Vec<BulkTarget>,
    /// Present exactly when the action is destructive, as for a single object.
    pub confirmation: Option<Confirmation>,
}

/// The value of a [`BulkOffer`].
#[verifier::ext_equal]
pub struct BulkView {
    pub action: Action,
    pub label: Seq<char>,
    pub icon: Seq<char>,
    pub targets: Seq<TargetView>,
    pub confirmation: Option<ConfirmationView>,
}

impl DeepView for BulkOffer {
    type V = BulkView;

    open spec fn deep_view(&self) -> BulkView {
        BulkView {
            action: self.action,
            label: self.label@,
            icon: self.icon@,
            targets: self.targets.deep_view(),
            confirmation: self.confirmation.deep_view(),
        }
    }
}

impl BulkOffer {
    /// Whether carrying this out can lose something the user cannot get back.
    #[must_use]
    pub fn is_destructive(&self) -> (yes: bool)
        ensures
            yes == destructive(self.action),
    {
        self.action.is_destructive()
    }

    /// The tone this offer's icon carries in a menu.
    #[must_use]
    pub fn tone(&self) -> (tone: Tone)
        ensures
            tone == action_tone(self.action),
    {
        if self.action.is_destructive() || self.action.is_halting() {
            Tone::Bad
        } else {
            Tone::Neutral
        }
    }
}

/// A container with what is offered for it.
pub type Offered = (ContainerView, Seq<OfferView>);

/// Every selected container with what is offered for it.
pub open spec fn offered_each(selected: Seq<ContainerView>, images: Seq<ImageView>) -> Seq<
    Offered,
> {
    selected.map_values(|c: ContainerView| (c, container_offers(c, images)))
}

/// Whether an action is among some offers.
pub open spec fn has_action(offers: Seq<OfferView>, action: Action) -> bool {
    exists|i: int| 0 <= i < offers.len() && (#[trigger] offers[i]).action == action
}

/// The action by which a container can be removed, when that is offered.
pub open spec fn removal_among(offers: Seq<OfferView>) -> Option<Action>
    decreases offers.len(),
{
    if offers.len() == 0 {
        None
    } else if offers[0].action is RemoveContainer {
        Some(offers[0].action)
    } else {
        removal_among(offers.skip(1))
    }
}

/// A container as the target of an action.
pub open spec fn target_of(container: ContainerView, action: Action) -> TargetView {
    TargetView { id: container.id, label: crate::model::format::container_label_text(container), action }
}

/// The containers that were offered an action, as its targets.
pub open spec fn lifecycle_targets(each: Seq<Offered>, action: Action) -> Seq<TargetView> {
    each.filter(|o: Offered| has_action(o.1, action)).map_values(
        |o: Offered| target_of(o.0, action),
    )
}

/// The order bulk lifecycle actions are listed in: least disruptive first, so the two
/// that halt a running container are furthest from the pointer's resting place.
pub open spec fn bulk_lifecycles() -> Seq<Lifecycle> {
    seq![
        Lifecycle::Start,
        Lifecycle::Unpause,
        Lifecycle::Restart,
        Lifecycle::Pause,
        Lifecycle::Stop,
        Lifecycle::Kill,
    ]
}

/// The bulk offer of a lifecycle request, when anything was offered it.
pub open spec fn bulk_lifecycle_offer(each: Seq<Offered>, action: Lifecycle) -> Option<BulkView> {
    let targets = lifecycle_targets(each, Action::Lifecycle(action));
    let single = lifecycle_offer(action);
    if targets.len() == 0 {
        None
    } else {
        Some(
            BulkView {
                action: Action::Lifecycle(action),
                label: bulk_label_text(
                    single.label,
                    targets.len(),
                    "Container"@,
                    "Containers"@,
                ),
                icon: single.icon,
                targets,
                confirmation: None,
            },
        )
    }
}

/// A list of what is there.
pub open spec fn listed<T>(item: Option<T>) -> Seq<T> {
    match item {
        Some(value) => seq![value],
        None => Seq::empty(),
    }
}

/// The bulk offers of the first `n` lifecycle requests.
pub open spec fn lifecycle_bulks(each: Seq<Offered>, n: int) -> Seq<BulkView>
    decreases n,
{
    if n <= 0 {
        Seq::empty()
    } else {
        lifecycle_bulks(each, n - 1) + listed(
            bulk_lifecycle_offer(each, bulk_lifecycles()[n - 1]),
        )
    }
}

/// What a label is sorted by in a list of what will be removed.
pub open spec fn label_rank(label: Seq<char>) -> Key {
    Key { major: 0, first: text::lowercase(label), second: Seq::empty() }
}

/// Labels in order, without regard to case.
pub open spec fn labels_in_order(labels: Seq<Seq<char>>) -> Seq<Seq<char>> {
    arrange::arranged(labels, labels.map_values(|l: Seq<char>| label_rank(l)))
}

fn sort_labels(labels: &Vec<String>) -> (sorted: Vec<String>)
    ensures
        sorted.deep_view() == labels_in_order(labels.deep_view()),
{
    let ghost all = labels.deep_view();
    let ghost ranks = all.map_values(|l: Seq<char>| label_rank(l));
    let mut keys: Vec<SortKey> = Vec::new();
    let mut i: usize = 0;
    while i < labels.len()
        invariant
            i <= labels@.len(),
            all == labels.deep_view(),
            ranks == all.map_values(|l: Seq<char>| label_rank(l)),
            keys.deep_view() == ranks.take(i as int),
        decreases labels@.len() - i,
    {
        put(
            &mut keys,
            SortKey {
                major: 0,
                first: to_lowercase(labels[i].as_str()),
                second: String::new(),
            },
        );
        i += 1;
        assert(keys.deep_view() =~= ranks.take(i as int));
    }
    assert(keys.deep_view() =~= ranks);
    let order = arrange(&keys);
    let mut sorted: Vec<String> = Vec::new();
    let mut n: usize = 0;
    while n < order.len()
        invariant
            n <= order@.len(),
            order@.len() == labels@.len(),
            all == labels.deep_view(),
            forall|k: int| 0 <= k < order@.len() ==> #[trigger] order@[k] < labels@.len(),
            order@.map_values(|at: usize| at as int) == arrange::arrangement(ranks),
            sorted.deep_view() == arrange::arranged(all, ranks).take(n as int),
        decreases order@.len() - n,
    {
        proof {
            assert(arrange::arrangement(ranks)[n as int] == order@[n as int]);
        }
        put(&mut sorted, labels[order[n]].clone());
        n += 1;
        assert(sorted.deep_view() =~= arrange::arranged(all, ranks).take(n as int));
    }
    assert(sorted.deep_view() =~= arrange::arranged(all, ranks)) by {
        assert(arrange::arrangement(ranks).len() == order@.len());
    }
    sorted
}

/// The labels of some targets.
pub open spec fn target_labels(targets: Seq<TargetView>) -> Seq<Seq<char>> {
    targets.map_values(|t: TargetView| t.label)
}

fn labels_of_targets(targets: &Vec<BulkTarget>) -> (labels: Vec<String>)
    ensures
        labels.deep_view() == target_labels(targets.deep_view()),
{
    let mut labels: Vec<String> = Vec::new();
    let mut i: usize = 0;
    while i < targets.len()
        invariant
            i <= targets@.len(),
            labels.deep_view() == target_labels(targets.deep_view()).take(i as int),
        decreases targets@.len() - i,
    {
        put(&mut labels, targets[i].label.clone());
        i += 1;
        assert(labels.deep_view() =~= target_labels(targets.deep_view()).take(i as int));
    }
    assert(labels.deep_view() =~= target_labels(targets.deep_view()));
    labels
}

/// The containers that can be removed, as targets of their removal.
pub open spec fn removal_targets(each: Seq<Offered>) -> Seq<TargetView> {
    each.filter(|o: Offered| removal_among(o.1) is Some).map_values(
        |o: Offered| target_of(o.0, removal_among(o.1).unwrap()),
    )
}

/// How many targets have to be killed first.
pub open spec fn forced(targets: Seq<TargetView>) -> nat {
    targets.filter(|t: TargetView| t.action == Action::RemoveContainer { force: true }).len()
}

/// The bulk offer to remove containers.
pub open spec fn bulk_container_removal(each: Seq<Offered>) -> Option<BulkView> {
    let targets = removal_targets(each);
    let running = forced(targets);
    if targets.len() == 0 {
        None
    } else {
        Some(
            BulkView {
                action: Action::RemoveContainer { force: running > 0 },
                label: bulk_label_text("Remove"@, targets.len(), "Container"@, "Containers"@),
                icon: "user-trash-symbolic"@,
                targets,
                confirmation: Some(
                    ConfirmationView {
                        heading: "Remove "@ + counted(
                            targets.len(),
                            "container"@,
                            "containers"@,
                        ) + "?"@,
                        body:
                            "Anything written inside them since they started will be lost. The images they came from are not affected."@
                            + (if running == 0 {
                            Seq::empty()
                        } else {
                            " "@ + text::decimal(running) + " of them "@ + (if running == 1 {
                                "is"@
                            } else {
                                "are"@
                            }) + " still running and will be killed first."@
                        }),
                        confirm_label: "Remove All"@,
                        items: labels_in_order(target_labels(targets)),
                    },
                ),
            },
        )
    }
}

fn find_removal(offers: &Vec<Offer>) -> (action: Option<Action>)
    ensures
        action == removal_among(offers.deep_view()),
{
    let ghost all = offers.deep_view();
    let mut i: usize = 0;
    assert(all.skip(0) =~= all);
    while i < offers.len()
        invariant
            i <= offers@.len(),
            all == offers.deep_view(),
            removal_among(all) == removal_among(all.skip(i as int)),
        decreases offers@.len() - i,
    {
        assert(all.skip(i as int).skip(1) =~= all.skip(i + 1));
        if matches!(offers[i].action, Action::RemoveContainer { .. }) {
            return Some(offers[i].action);
        }
        i += 1;
    }
    None
}

fn is_offered(offers: &Vec<Offer>, action: Action) -> (yes: bool)
    ensures
        yes == has_action(offers.deep_view(), action),
{
    let mut i: usize = 0;
    while i < offers.len()
        invariant
            i <= offers@.len(),
            forall|k: int| 0 <= k < i ==> (#[trigger] offers.deep_view()[k]).action != action,
        decreases offers@.len() - i,
    {
        if offers[i].action == action {
            assert(offers.deep_view()[i as int].action == action);
            return true;
        }
        i += 1;
    }
    false
}

fn bulk_remove_containers(each: &Vec<(&ContainerSummary, Vec<Offer>)>) -> (offer: Option<BulkOffer>)
    ensures
        offer.deep_view() == bulk_container_removal(each.deep_view()),
{
    let ghost all = each.deep_view();
    let ghost p = |o: Offered| removal_among(o.1) is Some;
    let ghost f = |o: Offered| target_of(o.0, removal_among(o.1).unwrap());
    let mut targets: Vec<BulkTarget> = Vec::new();
    let mut i: usize = 0;
    proof {
        lists::lemma_filter_ends(all, p);
        assert(targets.deep_view() =~= all.take(0).filter(p).map_values(f));
    }
    while i < each.len()
        invariant
            i <= each@.len(),
            all == each.deep_view(),
            p == (|o: Offered| removal_among(o.1) is Some),
            f == (|o: Offered| target_of(o.0, removal_among(o.1).unwrap())),
            targets.deep_view() == all.take(i as int).filter(p).map_values(f),
        decreases each@.len() - i,
    {
        let ghost kept = all.take(i as int).filter(p);
        let container = each[i].0;
        proof {
            lists::lemma_filter_step(all, p, i as int);
            assert(all[i as int].0 == container.deep_view());
            assert(all[i as int].1 == each@[i as int].1.deep_view());
            assert(kept.push(all[i as int]).map_values(f) =~= kept.map_values(f).push(
                f(all[i as int]),
            ));
        }
        if let Some(action) = find_removal(&each[i].1) {
            put(
                &mut targets,
                BulkTarget { id: container.id.clone(), label: container_label(container), action },
            );
        }
        i += 1;
    }
    proof {
        lists::lemma_filter_ends(all, p);
        assert(targets.deep_view() == removal_targets(all));
        assert(targets.deep_view().len() == targets@.len());
    }
    if targets.len() == 0 {
        return None;
    }
    let running: usize = count_forced(&targets);
    let caveat = if running == 0 {
        String::new()
    } else {
        " ".to_owned().concat(count_text(running).as_str()).concat(" of them ").concat(
            if running == 1 {
                "is"
            } else {
                "are"
            },
        ).concat(" still running and will be killed first.")
    };
    let items = sort_labels(&labels_of_targets(&targets));
    let number: usize = targets.len();
    Some(
        BulkOffer {
            action: Action::RemoveContainer { force: running > 0 },
            label: bulk_label("Remove", number, "Container", "Containers"),
            icon: "user-trash-symbolic",
            targets,
            confirmation: Some(
                Confirmation {
                    heading: "Remove ".to_owned().concat(
                        count(number, "container", "containers").as_str(),
                    ).concat("?"),
                    body:
                        "Anything written inside them since they started will be lost. The images they came from are not affected.".to_owned().concat(
                        caveat.as_str(),
                    ),
                    confirm_label: "Remove All".to_owned(),
                    items,
                },
            ),
        },
    )
}

fn count_forced(targets: &Vec<BulkTarget>) -> (number: usize)
    ensures
        number == forced(targets.deep_view()),
{
    let ghost all = targets.deep_view();
    let ghost p = |t: TargetView| t.action == Action::RemoveContainer { force: true };
    let mut number: usize = 0;
    let mut i: usize = 0;
    proof {
        lists::lemma_filter_ends(all, p);
    }
    while i < targets.len()
        invariant
            i <= targets@.len(),
            all == targets.deep_view(),
            p == (|t: TargetView| t.action == Action::RemoveContainer { force: true }),
            number == all.take(i as int).filter(p).len(),
            number <= i,
        decreases targets@.len() - i,
    {
        proof {
            lists::lemma_filter_step(all, p, i as int);
        }
        if targets[i].action == (Action::RemoveContainer { force: true }) {
            number += 1;
        }
        i += 1;
    }
    proof {
        lists::lemma_filter_ends(all, p);
    }
    number
}

/// The sizes of some images.
pub open spec fn sizes_of(images: Seq<ImageView>) -> Seq<i64> {
    images.map_values(|i: ImageView| i.size)
}

/// How many images some container runs.
pub open spec fn in_use_count(images: Seq<ImageView>, containers: Seq<ContainerView>) -> nat {
    images.filter(|i: ImageView| relations::users_of(i, containers).len() > 0).len()
}

/// The images as targets of their removal.
pub open spec fn image_targets(images: Seq<ImageView>) -> Seq<TargetView> {
    images.map_values(
        |i: ImageView|
            TargetView { id: i.id, label: crate::model::format::image_label_text(i), action: Action::RemoveImage },
    )
}

/// The bulk offer to remove images.
pub open spec fn bulk_image_removal(
    selected: Seq<ImageView>,
    containers: Seq<ContainerView>,
) -> Option<BulkView> {
    let targets = image_targets(selected);
    let in_use = in_use_count(selected, containers);
    if selected.len() == 0 {
        None
    } else {
        Some(
            BulkView {
                action: Action::RemoveImage,
                label: bulk_label_text("Remove"@, targets.len(), "Image"@, "Images"@),
                icon: "user-trash-symbolic"@,
                targets,
                confirmation: Some(
                    ConfirmationView {
                        heading: "Remove "@ + counted(targets.len(), "image"@, "images"@) + "?"@,
                        body: crate::model::format::bytes_text(engine::sum(sizes_of(selected)))
                            + " of disk space would be reclaimed. Anything built from them later will have to pull or rebuild."@
                            + (if in_use == 0 {
                            Seq::empty()
                        } else {
                            " "@ + text::decimal(in_use) + " of them "@ + (if in_use == 1 {
                                "is"@
                            } else {
                                "are"@
                            })
                                + " still in use by a container, and the daemon will refuse to remove "@
                                + (if in_use == 1 {
                                "it"@
                            } else {
                                "them"@
                            }) + "."@
                        }),
                        confirm_label: "Remove All"@,
                        items: labels_in_order(target_labels(targets)),
                    },
                ),
            },
        )
    }
}

fn total_size(images: &[&ImageSummary]) -> (bytes: i64)
    requires
        engine::sum_fits(sizes_of(images.deep_view())),
    ensures
        bytes == engine::sum(sizes_of(images.deep_view())),
{
    let mut sizes: Vec<i64> = Vec::new();
    let mut i: usize = 0;
    while i < images.len()
        invariant
            i <= images@.len(),
            sizes@ == sizes_of(images.deep_view()).take(i as int),
        decreases images@.len() - i,
    {
        sizes.push(images[i].size);
        i += 1;
        assert(sizes@ =~= sizes_of(images.deep_view()).take(i as int));
    }
    assert(sizes@ =~= sizes_of(images.deep_view()));
    total(&sizes)
}

fn count_in_use(images: &[&ImageSummary], containers: &[ContainerSummary]) -> (number: usize)
    ensures
        number == in_use_count(images.deep_view(), containers.deep_view()),
{
    let ghost all = images.deep_view();
    let ghost p = |i: ImageView| relations::users_of(i, containers.deep_view()).len() > 0;
    let mut number: usize = 0;
    let mut i: usize = 0;
    proof {
        lists::lemma_filter_ends(all, p);
    }
    while i < images.len()
        invariant
            i <= images@.len(),
            all == images.deep_view(),
            p == (|i: ImageView| relations::users_of(i, containers.deep_view()).len() > 0),
            number == all.take(i as int).filter(p).len(),
            number <= i,
        decreases images@.len() - i,
    {
        let users = containers_of(images[i], containers);
        proof {
            lists::lemma_filter_step(all, p, i as int);
            assert(all[i as int] == images@[i as int].deep_view());
            assert(users.deep_view().len() == users@.len());
        }
        if users.len() > 0 {
            number += 1;
        }
        i += 1;
    }
    proof {
        lists::lemma_filter_ends(all, p);
    }
    number
}

fn bulk_remove_images(selected: &[&ImageSummary], containers: &[ContainerSummary]) -> (offer: Option<
    BulkOffer,
>)
    requires
        engine::sum_fits(sizes_of(selected.deep_view())),
    ensures
        offer.deep_view() == bulk_image_removal(selected.deep_view(), containers.deep_view()),
{
    assert(selected.deep_view().len() == selected@.len());
    if selected.len() == 0 {
        return None;
    }
    let mut targets: Vec<BulkTarget> = Vec::new();
    let mut i: usize = 0;
    while i < selected.len()
        invariant
            i <= selected@.len(),
            targets.deep_view() == image_targets(selected.deep_view()).take(i as int),
        decreases selected@.len() - i,
    {
        let image = selected[i];
        put(
            &mut targets,
            BulkTarget {
                id: image.id.clone(),
                label: image_label(image),
                action: Action::RemoveImage,
            },
        );
        i += 1;
        assert(targets.deep_view() =~= image_targets(selected.deep_view()).take(i as int));
    }
    assert(targets.deep_view() =~= image_targets(selected.deep_view()));
    let reclaimed: i64 = total_size(selected);
    let in_use: usize = count_in_use(selected, containers);
    let caveat = if in_use == 0 {
        String::new()
    } else {
        " ".to_owned().concat(count_text(in_use).as_str()).concat(" of them ").concat(
            if in_use == 1 {
                "is"
            } else {
                "are"
            },
        ).concat(
            " still in use by a container, and the daemon will refuse to remove ",
        ).concat(
            if in_use == 1 {
                "it"
            } else {
                "them"
            },
        ).concat(".")
    };
    let items = sort_labels(&labels_of_targets(&targets));
    let number: usize = targets.len();
    assert(targets.deep_view().len() == number);
    Some(
        BulkOffer {
            action: Action::RemoveImage,
            label: bulk_label("Remove", number, "Image", "Images"),
            icon: "user-trash-symbolic",
            targets,
            confirmation: Some(
                Confirmation {
                    heading: "Remove ".to_owned().concat(
                        count(number, "image", "images").as_str(),
                    ).concat("?"),
                    body: bytes(reclaimed).concat(
                        " of disk space would be reclaimed. Anything built from them later will have to pull or rebuild.",
                    ).concat(caveat.as_str()),
                    confirm_label: "Remove All".to_owned(),
                    items,
                },
            ),
        },
    )
}

fn bulk_lifecycle(each: &Vec<(&ContainerSummary, Vec<Offer>)>, action: Lifecycle) -> (offer: Option<
    BulkOffer,
>)
    ensures
        offer.deep_view() == bulk_lifecycle_offer(each.deep_view(), action),
{
    let wanted = Action::Lifecycle(action);
    let ghost all = each.deep_view();
    let ghost p = |o: Offered| has_action(o.1, wanted);
    let ghost f = |o: Offered| target_of(o.0, wanted);
    let mut targets: Vec<BulkTarget> = Vec::new();
    let mut i: usize = 0;
    proof {
        lists::lemma_filter_ends(all, p);
        assert(targets.deep_view() =~= all.take(0).filter(p).map_values(f));
    }
    while i < each.len()
        invariant
            i <= each@.len(),
            all == each.deep_view(),
            p == (|o: Offered| has_action(o.1, wanted)),
            f == (|o: Offered| target_of(o.0, wanted)),
            targets.deep_view() == all.take(i as int).filter(p).map_values(f),
        decreases each@.len() - i,
    {
        let ghost kept = all.take(i as int).filter(p);
        let container = each[i].0;
        proof {
            lists::lemma_filter_step(all, p, i as int);
            assert(all[i as int].0 == container.deep_view());
            assert(all[i as int].1 == each@[i as int].1.deep_view());
            assert(kept.push(all[i as int]).map_values(f) =~= kept.map_values(f).push(
                f(all[i as int]),
            ));
        }
        if is_offered(&each[i].1, wanted) {
            put(
                &mut targets,
                BulkTarget {
                    id: container.id.clone(),
                    label: container_label(container),
                    action: wanted,
                },
            );
        }
        i += 1;
    }
    proof {
        lists::lemma_filter_ends(all, p);
        assert(targets.deep_view().len() == targets@.len());
    }
    if targets.len() == 0 {
        return None;
    }
    let single = lifecycle(action);
    Some(
        BulkOffer {
            action: wanted,
            label: bulk_label(single.label.as_str(), targets.len(), "Container", "Containers"),
            icon: single.icon,
            targets,
            confirmation: None,
        },
    )
}

/// What is offered for a selection.
pub open spec fn selection_offers(
    selected_containers: Seq<ContainerView>,
    selected_images: Seq<ImageView>,
    containers: Seq<ContainerView>,
    images: Seq<ImageView>,
) -> Seq<BulkView> {
    let each = offered_each(selected_containers, images);
    lifecycle_bulks(each, 6) + listed(bulk_container_removal(each)) + listed(
        bulk_image_removal(selected_images, containers),
    )
}

/// What is offered for a set of checked objects.
///
/// An action appears when **at least one** of the checked objects would have been offered
/// it on its own, and applies only to those objects: starting a mixed selection starts
/// the stopped ones and leaves the running ones alone. The label says how many it will
/// touch, so the count is never a surprise.
///
/// Only mutations are offered. Logs, Dockerfiles and filesystems open a tab each, and
/// twenty tabs is not a thing anyone asked for.
#[must_use]
pub fn for_selection(
    selected_containers: &[&ContainerSummary],
    selected_images: &[&ImageSummary],
    containers: &[ContainerSummary],
    images: &[ImageSummary],
) -> (offers: Vec<BulkOffer>)
    requires
        engine::sum_fits(sizes_of(selected_images.deep_view())),
    ensures
        offers.deep_view() == selection_offers(
            selected_containers.deep_view(),
            selected_images.deep_view(),
            containers.deep_view(),
            images.deep_view(),
        ),
{
    let ghost chosen = selected_containers.deep_view();
    let ghost goal = offered_each(chosen, images.deep_view());
    let mut each: Vec<(&ContainerSummary, Vec<Offer>)> = Vec::new();
    let mut i: usize = 0;
    while i < selected_containers.len()
        invariant
            i <= selected_containers@.len(),
            chosen == selected_containers.deep_view(),
            goal == offered_each(chosen, images.deep_view()),
            each.deep_view() == goal.take(i as int),
        decreases selected_containers@.len() - i,
    {
        let container = selected_containers[i];
        put(&mut each, (container, for_container(container, images)));
        i += 1;
        assert(each.deep_view() =~= goal.take(i as int));
    }
    assert(each.deep_view() =~= goal);
    let order: [Lifecycle; 6] = [
        Lifecycle::Start,
        Lifecycle::Unpause,
        Lifecycle::Restart,
        Lifecycle::Pause,
        Lifecycle::Stop,
        Lifecycle::Kill,
    ];
    assert(order@ =~= bulk_lifecycles());
    let mut offers: Vec<BulkOffer> = Vec::new();
    let mut n: usize = 0;
    assert(offers.deep_view() =~= lifecycle_bulks(goal, 0));
    while n < 6
        invariant
            n <= 6,
            order@ == bulk_lifecycles(),
            each.deep_view() == goal,
            offers.deep_view() == lifecycle_bulks(goal, n as int),
        decreases 6 - n,
    {
        let ghost before = offers.deep_view();
        if let Some(offer) = bulk_lifecycle(&each, order[n]) {
            put(&mut offers, offer);
        }
        n += 1;
        assert(offers.deep_view() =~= lifecycle_bulks(goal, n as int));
    }
    if let Some(offer) = bulk_remove_containers(&each) {
        put(&mut offers, offer);
    }
    assert(offers.deep_view() =~= lifecycle_bulks(goal, 6) + listed(bulk_container_removal(goal)));
    if let Some(offer) = bulk_remove_images(selected_images, containers) {
        put(&mut offers, offer);
    }
    assert(offers.deep_view() =~= selection_offers(
        chosen,
        selected_images.deep_view(),
        containers.deep_view(),
        images.deep_view(),
    ));
    offers
}

// -------------------------------------------------------------------- outcomes

/// How many failures a message names before it starts counting them instead.
const NAMED_FAILURES: usize = 3;

/// How a bulk action's outcome reads.
pub open spec fn outcome_text(action: Action, succeeded: nat, failures: Seq<Seq<char>>) -> Seq<
    char,
> {
    let done = participle_text(action) + " "@ + (if action is RemoveImage {
        counted(succeeded, "image"@, "images"@)
    } else {
        counted(succeeded, "container"@, "containers"@)
    });
    let named = if failures.len() > 3 {
        failures.take(3)
    } else {
        failures
    };
    let tail = if failures.len() > 3 {
        ", and "@ + text::decimal((failures.len() - 3) as nat) + " more"@
    } else {
        Seq::empty()
    };
    if failures.len() == 0 {
        done
    } else if succeeded == 0 {
        "Could not "@ + verb_text(action) + ": "@ + text::joined(named, "; "@) + tail
    } else {
        done + "; "@ + text::decimal(failures.len()) + " failed: "@ + text::joined(named, "; "@) + tail
    }
}

/// How a bulk action's outcome reads, and whether it counts as a failure.
///
/// Reported whatever happened. A removal that silently did nothing would leave the user
/// believing objects are gone when they are not, which is the worst available outcome,
/// so a partial failure names what went wrong rather than rounding it to "done".
#[must_use]
pub fn bulk_outcome(action: Action, succeeded: usize, failures: &[String]) -> (outcome: (
    String,
    bool,
))
    ensures
        outcome.0@ == outcome_text(action, succeeded as nat, failures.deep_view()),
        outcome.1 == (failures.deep_view().len() > 0),
{
    let number = if matches!(action, Action::RemoveImage) {
        count(succeeded, "image", "images")
    } else {
        count(succeeded, "container", "containers")
    };
    let done = past_participle(action).to_owned().concat(" ").concat(number.as_str());
    assert(failures.deep_view().len() == failures@.len());
    if failures.len() == 0 {
        return (done, false);
    }
    let shown: usize = if failures.len() > NAMED_FAILURES {
        NAMED_FAILURES
    } else {
        failures.len()
    };
    let named = vstd::slice::slice_subrange(failures, 0, shown);
    proof {
        let all = failures.deep_view();
        assert(named.deep_view() =~= (if all.len() > 3 {
            all.take(3)
        } else {
            all
        }));
    }
    let rest: usize = failures.len() - shown;
    let tail = if rest == 0 {
        String::new()
    } else {
        ", and ".to_owned().concat(count_text(rest).as_str()).concat(" more")
    };
    let list = join(named, "; ");
    let message = if succeeded == 0 {
        "Could not ".to_owned().concat(verb(action)).concat(": ").concat(list.as_str()).concat(
            tail.as_str(),
        )
    } else {
        done.concat("; ").concat(count_text(failures.len()).as_str()).concat(" failed: ").concat(
            list.as_str(),
        ).concat(tail.as_str())
    };
    (message, true)
}

// ------------------------------------------------------------------ everything

/// The stopped containers, in the order of their labels.
pub open spec fn stopped_containers(containers: Seq<ContainerView>) -> Seq<ContainerView> {
    let stopped = containers.filter(|c: ContainerView| !engine::active(c.state));
    arrange::arranged(stopped, stopped.map_values(|c: ContainerView| label_rank(crate::model::format::container_label_text(c))))
}

/// What a dangling image is sorted by: the newest comes first.
pub open spec fn age_rank(image: ImageView) -> Key {
    Key { major: -(image.created as int), first: Seq::empty(), second: Seq::empty() }
}

/// The untagged images, the newest first.
pub open spec fn dangling_images(images: Seq<ImageView>) -> Seq<ImageView> {
    let dangling = images.filter(|i: ImageView| crate::model::format::untagged(i));
    arrange::arranged(dangling, dangling.map_values(|i: ImageView| age_rank(i)))
}

/// The stopped containers a prune would remove, in the order the dialog lists them.
#[must_use]
pub fn prunable_containers(containers: &[ContainerSummary]) -> (prunable: Vec<&ContainerSummary>)
    ensures
        prunable.deep_view() == stopped_containers(containers.deep_view()),
{
    let ghost all = containers.deep_view();
    let ghost p = |c: ContainerView| !engine::active(c.state);
    let ghost f = |c: ContainerView| label_rank(crate::model::format::container_label_text(c));
    let mut stopped: Vec<&ContainerSummary> = Vec::new();
    let mut keys: Vec<SortKey> = Vec::new();
    let mut i: usize = 0;
    proof {
        lists::lemma_filter_ends(all, p);
        assert(keys.deep_view() =~= all.take(0).filter(p).map_values(f));
    }
    while i < containers.len()
        invariant
            i <= containers@.len(),
            all == containers.deep_view(),
            p == (|c: ContainerView| !engine::active(c.state)),
            f == (|c: ContainerView| label_rank(crate::model::format::container_label_text(c))),
            stopped.deep_view() == all.take(i as int).filter(p),
            keys.deep_view() == all.take(i as int).filter(p).map_values(f),
        decreases containers@.len() - i,
    {
        let ghost kept = all.take(i as int).filter(p);
        let container = &containers[i];
        proof {
            lists::lemma_filter_step(all, p, i as int);
            assert(kept.push(all[i as int]).map_values(f) =~= kept.map_values(f).push(
                f(all[i as int]),
            ));
        }
        if !container.state.is_active() {
            put(&mut stopped, container);
            put(
                &mut keys,
                SortKey {
                    major: 0,
                    first: to_lowercase(container_label(container).as_str()),
                    second: String::new(),
                },
            );
        }
        i += 1;
    }
    proof {
        lists::lemma_filter_ends(all, p);
    }
    let ghost ranks = all.filter(p).map_values(f);
    let order = arrange(&keys);
    let mut prunable: Vec<&ContainerSummary> = Vec::new();
    let mut n: usize = 0;
    assert(keys.deep_view().len() == keys@.len());
    assert(stopped.deep_view().len() == stopped@.len());
    while n < order.len()
        invariant
            n <= order@.len(),
            order@.len() == stopped@.len(),
            stopped.deep_view() == all.filter(p),
            forall|k: int| 0 <= k < order@.len() ==> #[trigger] order@[k] < stopped@.len(),
            order@.map_values(|at: usize| at as int) == arrange::arrangement(ranks),
            prunable.deep_view() == arrange::arranged(all.filter(p), ranks).take(n as int),
        decreases order@.len() - n,
    {
        proof {
            assert(arrange::arrangement(ranks)[n as int] == order@[n as int]);
        }
        put(&mut prunable, stopped[order[n]]);
        n += 1;
        assert(prunable.deep_view() =~= arrange::arranged(all.filter(p), ranks).take(n as int));
    }
    assert(prunable.deep_view() =~= arrange::arranged(all.filter(p), ranks)) by {
        assert(arrange::arrangement(ranks).len() == order@.len());
    }
    prunable
}

/// The dangling images a prune would remove. Anything still carrying a tag is excluded:
/// the daemon would remove those too without the filter, which is not what the button
/// says.
#[must_use]
pub fn prunable_images(images: &[ImageSummary]) -> (prunable: Vec<&ImageSummary>)
    ensures
        prunable.deep_view() == dangling_images(images.deep_view()),
{
    let ghost all = images.deep_view();
    let ghost p = |i: ImageView| crate::model::format::untagged(i);
    let ghost f = |i: ImageView| age_rank(i);
    let mut dangling: Vec<&ImageSummary> = Vec::new();
    let mut keys: Vec<SortKey> = Vec::new();
    let mut i: usize = 0;
    proof {
        lists::lemma_filter_ends(all, p);
        assert(keys.deep_view() =~= all.take(0).filter(p).map_values(f));
    }
    while i < images.len()
        invariant
            i <= images@.len(),
            all == images.deep_view(),
            p == (|i: ImageView| crate::model::format::untagged(i)),
            f == (|i: ImageView| age_rank(i)),
            dangling.deep_view() == all.take(i as int).filter(p),
            keys.deep_view() == all.take(i as int).filter(p).map_values(f),
        decreases images@.len() - i,
    {
        let ghost kept = all.take(i as int).filter(p);
        let image = &images[i];
        proof {
            lists::lemma_filter_step(all, p, i as int);
            assert(kept.push(all[i as int]).map_values(f) =~= kept.map_values(f).push(
                f(all[i as int]),
            ));
        }
        if is_untagged(image) {
            put(&mut dangling, image);
            put(
                &mut keys,
                SortKey {
                    major: -(image.created as i128),
                    first: String::new(),
                    second: String::new(),
                },
            );
        }
        i += 1;
    }
    proof {
        lists::lemma_filter_ends(all, p);
    }
    let ghost ranks = all.filter(p).map_values(f);
    let order = arrange(&keys);
    let mut prunable: Vec<&ImageSummary> = Vec::new();
    let mut n: usize = 0;
    assert(keys.deep_view().len() == keys@.len());
    assert(dangling.deep_view().len() == dangling@.len());
    while n < order.len()
        invariant
            n <= order@.len(),
            order@.len() == dangling@.len(),
            dangling.deep_view() == all.filter(p),
            forall|k: int| 0 <= k < order@.len() ==> #[trigger] order@[k] < dangling@.len(),
            order@.map_values(|at: usize| at as int) == arrange::arrangement(ranks),
            prunable.deep_view() == arrange::arranged(all.filter(p), ranks).take(n as int),
        decreases order@.len() - n,
    {
        proof {
            assert(arrange::arrangement(ranks)[n as int] == order@[n as int]);
        }
        put(&mut prunable, dangling[order[n]]);
        n += 1;
        assert(prunable.deep_view() =~= arrange::arranged(all.filter(p), ranks).take(n as int));
    }
    assert(prunable.deep_view() =~= arrange::arranged(all.filter(p), ranks)) by {
        assert(arrange::arrangement(ranks).len() == order@.len());
    }
    prunable
}

/// The offer to prune containers.
pub open spec fn container_prune(prunable: Seq<ContainerView>) -> OfferView {
    OfferView {
        action: Action::PruneContainers,
        label: "Prune Containers"@,
        icon: "user-trash-symbolic"@,
        confirmation: Some(
            ConfirmationView {
                heading: "Remove "@ + counted(
                    prunable.len(),
                    "stopped container"@,
                    "stopped containers"@,
                ) + "?"@,
                body:
                    "Each one's writable layer goes with it. Running containers are not affected."@,
                confirm_label: "Remove All"@,
                items: container_labels(prunable),
            },
        ),
    }
}

fn prune_containers_offer(prunable: &Vec<&ContainerSummary>) -> (offer: Offer)
    ensures
        offer.deep_view() == container_prune(prunable.deep_view()),
{
    assert(prunable.deep_view().len() == prunable@.len());
    Offer {
        action: Action::PruneContainers,
        label: "Prune Containers".to_owned(),
        icon: "user-trash-symbolic",
        confirmation: Some(
            Confirmation {
                heading: "Remove ".to_owned().concat(
                    count(prunable.len(), "stopped container", "stopped containers").as_str(),
                ).concat("?"),
                body:
                    "Each one's writable layer goes with it. Running containers are not affected.".to_owned(),
                confirm_label: "Remove All".to_owned(),
                items: labels_of_containers(prunable),
            },
        ),
    }
}

/// The offer to prune images.
pub open spec fn image_prune(prunable: Seq<ImageView>, containers: Seq<ContainerView>) -> OfferView {
    let in_use = in_use_count(prunable, containers);
    OfferView {
        action: Action::PruneImages,
        label: "Prune Images"@,
        icon: "user-trash-symbolic"@,
        confirmation: Some(
            ConfirmationView {
                heading: "Remove "@ + counted(
                    prunable.len(),
                    "untagged image"@,
                    "untagged images"@,
                ) + "?"@,
                body:
                    "These images have no tag, usually because a tag moved to a newer build. "@
                    + crate::model::format::bytes_text(engine::sum(sizes_of(prunable)))
                    + " would be reclaimed. Tagged images are not affected."@ + (if in_use == 0 {
                    Seq::empty()
                } else {
                    " "@ + text::decimal(in_use) + " of them "@ + (if in_use == 1 {
                        "is"@
                    } else {
                        "are"@
                    }) + " still in use by a container and will be kept by the daemon."@
                }),
                confirm_label: "Remove All"@,
                items: image_labels(prunable),
            },
        ),
    }
}

fn prune_images_offer(prunable: &Vec<&ImageSummary>, containers: &[ContainerSummary]) -> (offer:
    Offer)
    requires
        engine::sum_fits(sizes_of(prunable.deep_view())),
    ensures
        offer.deep_view() == image_prune(prunable.deep_view(), containers.deep_view()),
{
    assert(prunable.deep_view().len() == prunable@.len());
    let reclaimed: i64 = total_size(slice_of(prunable));
    let in_use: usize = count_in_use(slice_of(prunable), containers);
    let caveat = if in_use == 0 {
        String::new()
    } else {
        " ".to_owned().concat(count_text(in_use).as_str()).concat(" of them ").concat(
            if in_use == 1 {
                "is"
            } else {
                "are"
            },
        ).concat(" still in use by a container and will be kept by the daemon.")
    };
    Offer {
        action: Action::PruneImages,
        label: "Prune Images".to_owned(),
        icon: "user-trash-symbolic",
        confirmation: Some(
            Confirmation {
                heading: "Remove ".to_owned().concat(
                    count(prunable.len(), "untagged image", "untagged images").as_str(),
                ).concat("?"),
                body:
                    "These images have no tag, usually because a tag moved to a newer build. ".to_owned().concat(
                    bytes(reclaimed).as_str(),
                ).concat(" would be reclaimed. Tagged images are not affected.").concat(
                    caveat.as_str(),
                ),
                confirm_label: "Remove All".to_owned(),
                items: labels_of_images(prunable),
            },
        ),
    }
}

/// What is offered for the daemon as a whole.
pub open spec fn environment_offers(
    containers: Seq<ContainerView>,
    images: Seq<ImageView>,
) -> Seq<OfferView> {
    let stopped = stopped_containers(containers);
    let dangling = dangling_images(images);
    (if stopped.len() == 0 {
        Seq::empty()
    } else {
        seq![container_prune(stopped)]
    }) + (if dangling.len() == 0 {
        Seq::empty()
    } else {
        seq![image_prune(dangling, containers)]
    })
}

/// What is offered for the daemon as a whole. Each prune appears only when it has
/// something to do.
#[must_use]
pub fn for_environment(containers: &[ContainerSummary], images: &[ImageSummary]) -> (offers: Vec<
    Offer,
>)
    requires
        engine::sum_fits(sizes_of(dangling_images(images.deep_view()))),
    ensures
        offers.deep_view() == environment_offers(containers.deep_view(), images.deep_view()),
{
    let mut offers: Vec<Offer> = Vec::new();
    let stopped = prunable_containers(containers);
    assert(stopped.deep_view().len() == stopped@.len());
    if stopped.len() > 0 {
        put(&mut offers, prune_containers_offer(&stopped));
    }
    let dangling = prunable_images(images);
    assert(dangling.deep_view().len() == dangling@.len());
    if dangling.len() > 0 {
        put(&mut offers, prune_images_offer(&dangling, containers));
    }
    assert(offers.deep_view() =~= environment_offers(containers.deep_view(), images.deep_view()));
    offers
}

// ------------------------------------------------------------------------ laws

/// Whether every offer asks first exactly when it is destructive.
pub open spec fn asks_first(offers: Seq<OfferView>) -> bool {
    forall|i: int|
        0 <= i < offers.len() ==> ((#[trigger] offers[i]).confirmation is Some <==> destructive(
            offers[i].action,
        ))
}

/// Whether every bulk offer asks first exactly when it is destructive.
pub open spec fn bulk_asks_first(offers: Seq<BulkView>) -> bool {
    forall|i: int|
        0 <= i < offers.len() ==> ((#[trigger] offers[i]).confirmation is Some <==> destructive(
            offers[i].action,
        ))
}

/// Nothing destructive is ever offered without a question, and nothing else
/// asks one: not for a container, not for an image, not for the daemon.
pub proof fn law_destructive_offers_ask_first(
    container: ContainerView,
    image: ImageView,
    containers: Seq<ContainerView>,
    images: Seq<ImageView>,
)
    ensures
        asks_first(container_offers(container, images)),
        asks_first(image_offers(image, containers)),
        asks_first(environment_offers(containers, images)),
{
}

proof fn lemma_lifecycle_bulks(each: Seq<Offered>, n: int)
    requires
        0 <= n <= 6,
    ensures
        forall|i: int|
            0 <= i < lifecycle_bulks(each, n).len() ==> {
                let offer = #[trigger] lifecycle_bulks(each, n)[i];
                &&& offer.confirmation is None
                &&& offer.action is Lifecycle
                &&& offer.targets == lifecycle_targets(each, offer.action)
                &&& offer.targets.len() > 0
            },
    decreases n,
{
    if n > 0 {
        lemma_lifecycle_bulks(each, n - 1);
        let before = lifecycle_bulks(each, n - 1);
        assert forall|i: int| 0 <= i < lifecycle_bulks(each, n).len() implies {
            let offer = #[trigger] lifecycle_bulks(each, n)[i];
            &&& offer.confirmation is None
            &&& offer.action is Lifecycle
            &&& offer.targets == lifecycle_targets(each, offer.action)
            &&& offer.targets.len() > 0
        } by {
            if i < before.len() {
                assert(lifecycle_bulks(each, n)[i] == before[i]);
            }
        }
    }
}

/// A selection's offers ask first exactly when they are destructive, and every
/// one of them has something to act on.
pub proof fn law_bulk_offers_ask_first(
    selected_containers: Seq<ContainerView>,
    selected_images: Seq<ImageView>,
    containers: Seq<ContainerView>,
    images: Seq<ImageView>,
)
    ensures
        bulk_asks_first(
            selection_offers(selected_containers, selected_images, containers, images),
        ),
        forall|i: int|
            0 <= i < selection_offers(
                selected_containers,
                selected_images,
                containers,
                images,
            ).len() ==> (#[trigger] selection_offers(
                selected_containers,
                selected_images,
                containers,
                images,
            )[i]).targets.len() > 0,
{
    let each = offered_each(selected_containers, images);
    lemma_lifecycle_bulks(each, 6);
    let offers = selection_offers(selected_containers, selected_images, containers, images);
    let bulks = lifecycle_bulks(each, 6);
    assert forall|i: int| 0 <= i < offers.len() implies ((#[trigger] offers[i]).confirmation is Some
        <==> destructive(offers[i].action)) && offers[i].targets.len() > 0 by {
        if i < bulks.len() {
            assert(offers[i] == bulks[i]);
        }
    }
}

/// A bulk lifecycle request acts on a selected container exactly when it would
/// have been offered for that container on its own.
pub proof fn law_bulk_acts_where_offered(
    selected: Seq<ContainerView>,
    images: Seq<ImageView>,
    action: Action,
    target: TargetView,
)
    ensures
        lifecycle_targets(offered_each(selected, images), action).contains(target) <==> exists|
            i: int,
        |
            0 <= i < selected.len() && has_action(
                container_offers(#[trigger] selected[i], images),
                action,
            ) && target == target_of(selected[i], action),
{
    let each = offered_each(selected, images);
    let p = |o: Offered| has_action(o.1, action);
    let f = |o: Offered| target_of(o.0, action);
    lists::lemma_filter_keeps(each, p);
    let kept = each.filter(p);
    let targets = lifecycle_targets(each, action);
    assert(targets =~= kept.map_values(f));
    if targets.contains(target) {
        let k = choose|k: int| 0 <= k < targets.len() && targets[k] == target;
        assert(kept.contains(kept[k]));
        let i = choose|i: int| 0 <= i < each.len() && each[i] == kept[k];
        assert(each[i] == (selected[i], container_offers(selected[i], images)));
        assert(has_action(container_offers(selected[i], images), action));
    }
    if exists|i: int|
        0 <= i < selected.len() && has_action(
            container_offers(#[trigger] selected[i], images),
            action,
        ) && target == target_of(selected[i], action) {
        let i = choose|i: int|
            0 <= i < selected.len() && has_action(
                container_offers(#[trigger] selected[i], images),
                action,
            ) && target == target_of(selected[i], action);
        assert(each[i] == (selected[i], container_offers(selected[i], images)));
        assert(each.contains(each[i]) && p(each[i]));
        assert(kept.contains(each[i]));
        let k = choose|k: int| 0 <= k < kept.len() && kept[k] == each[i];
        assert(targets[k] == target);
    }
}

/// A prune of containers never lists one that holds a process, and a prune of
/// images never lists one that carries a tag.
pub proof fn law_prunes_spare_what_is_in_use(
    containers: Seq<ContainerView>,
    images: Seq<ImageView>,
)
    ensures
        forall|i: int|
            0 <= i < stopped_containers(containers).len() ==> !engine::active(
                (#[trigger] stopped_containers(containers)[i]).state,
            ),
        forall|i: int|
            0 <= i < dangling_images(images).len() ==> crate::model::format::untagged(
                #[trigger] dangling_images(images)[i],
            ),
{
    let p = |c: ContainerView| !engine::active(c.state);
    let stopped = containers.filter(p);
    lists::lemma_filter_keeps(containers, p);
    let ranks = stopped.map_values(|c: ContainerView| label_rank(crate::model::format::container_label_text(c)));
    crate::arrange::law_arrangement_is_stable_sort(ranks);
    assert forall|i: int| 0 <= i < stopped_containers(containers).len() implies !engine::active(
        (#[trigger] stopped_containers(containers)[i]).state,
    ) by {
        let at = arrange::arrangement(ranks)[i];
        assert(stopped_containers(containers)[i] == stopped[at]);
        assert(stopped.contains(stopped[at]));
    }
    let q = |i: ImageView| crate::model::format::untagged(i);
    let dangling = images.filter(q);
    lists::lemma_filter_keeps(images, q);
    let ages = dangling.map_values(|i: ImageView| age_rank(i));
    crate::arrange::law_arrangement_is_stable_sort(ages);
    assert forall|i: int| 0 <= i < dangling_images(images).len() implies crate::model::format::untagged(
        #[trigger] dangling_images(images)[i],
    ) by {
        let at = arrange::arrangement(ages)[i];
        assert(dangling_images(images)[i] == dangling[at]);
        assert(dangling.contains(dangling[at]));
    }
}

/// A prune lists everything that it removes: every container that holds no process, and
/// every image without a tag. It is offered exactly when there is something to remove.
pub proof fn law_prunes_list_all_they_remove(
    containers: Seq<ContainerView>,
    images: Seq<ImageView>,
)
    ensures
        forall|c: ContainerView| #[trigger]
            stopped_containers(containers).contains(c) <==> containers.contains(c)
                && !engine::active(c.state),
        forall|i: ImageView| #[trigger]
            dangling_images(images).contains(i) <==> images.contains(i)
                && crate::model::format::untagged(i),
        has_action(environment_offers(containers, images), Action::PruneContainers) <==> (
        stopped_containers(containers).len() > 0),
        has_action(environment_offers(containers, images), Action::PruneImages) <==> (
        dangling_images(images).len() > 0),
{
    let p = |c: ContainerView| !engine::active(c.state);
    let stopped = containers.filter(p);
    lists::lemma_filter_keeps(containers, p);
    let ranks = stopped.map_values(
        |c: ContainerView| label_rank(crate::model::format::container_label_text(c)),
    );
    crate::arrange::law_sorting_keeps_every_item(stopped, ranks);
    let q = |i: ImageView| crate::model::format::untagged(i);
    let dangling = images.filter(q);
    lists::lemma_filter_keeps(images, q);
    let ages = dangling.map_values(|i: ImageView| age_rank(i));
    crate::arrange::law_sorting_keeps_every_item(dangling, ages);
    let offers = environment_offers(containers, images);
    if stopped_containers(containers).len() > 0 {
        assert(offers[0].action == Action::PruneContainers);
    }
    if dangling_images(images).len() > 0 {
        assert(offers[offers.len() - 1].action == Action::PruneImages);
    }
}

/// A selection is only ever offered requests to its containers and removals, and the
/// removals come last.
pub proof fn law_bulk_removals_come_last(
    selected_containers: Seq<ContainerView>,
    selected_images: Seq<ImageView>,
    containers: Seq<ContainerView>,
    images: Seq<ImageView>,
    i: int,
    j: int,
)
    requires
        0 <= i < j < selection_offers(
            selected_containers,
            selected_images,
            containers,
            images,
        ).len(),
    ensures
        ({
            let offers = selection_offers(selected_containers, selected_images, containers, images);
            &&& destructive(offers[i].action) ==> destructive(offers[j].action)
            &&& offers[i].action is Lifecycle || offers[i].action is RemoveContainer
                || offers[i].action is RemoveImage
            &&& offers[j].action is Lifecycle || offers[j].action is RemoveContainer
                || offers[j].action is RemoveImage
        }),
{
    let each = offered_each(selected_containers, images);
    lemma_lifecycle_bulks(each, 6);
    let offers = selection_offers(selected_containers, selected_images, containers, images);
    let bulks = lifecycle_bulks(each, 6);
    if i < bulks.len() {
        assert(offers[i] == bulks[i]);
    }
    if j < bulks.len() {
        assert(offers[j] == bulks[j]);
    }
}

proof fn lemma_removal_among(container: ContainerView, images: Seq<ImageView>)
    ensures
        removal_among(container_offers(container, images)) == (if container.state is Removing {
            None
        } else {
            Some(Action::RemoveContainer { force: engine::active(container.state) })
        }),
{
    reveal_with_fuel(removal_among, 10);
}

/// A bulk removal kills a container first exactly when that container holds a process,
/// whatever else is selected, and leaves out one that is already being removed.
pub proof fn law_bulk_removal_forces_one_by_one(
    selected: Seq<ContainerView>,
    images: Seq<ImageView>,
    target: TargetView,
)
    ensures
        removal_targets(offered_each(selected, images)).contains(target) <==> exists|i: int|
            0 <= i < selected.len() && !((#[trigger] selected[i]).state is Removing) && target
                == target_of(
                selected[i],
                Action::RemoveContainer { force: engine::active(selected[i].state) },
            ),
{
    let each = offered_each(selected, images);
    let p = |o: Offered| removal_among(o.1) is Some;
    lists::lemma_filter_keeps(each, p);
    let kept = each.filter(p);
    let targets = removal_targets(each);
    if targets.contains(target) {
        let k = choose|k: int| 0 <= k < targets.len() && targets[k] == target;
        assert(kept.contains(kept[k]));
        let i = choose|i: int| 0 <= i < each.len() && each[i] == kept[k];
        lemma_removal_among(selected[i], images);
        assert(!(selected[i].state is Removing));
    }
    if exists|i: int|
        0 <= i < selected.len() && !((#[trigger] selected[i]).state is Removing) && target
            == target_of(
            selected[i],
            Action::RemoveContainer { force: engine::active(selected[i].state) },
        ) {
        let i = choose|i: int|
            0 <= i < selected.len() && !((#[trigger] selected[i]).state is Removing) && target
                == target_of(
                selected[i],
                Action::RemoveContainer { force: engine::active(selected[i].state) },
            );
        lemma_removal_among(selected[i], images);
        assert(each[i] == (selected[i], container_offers(selected[i], images)));
        assert(each.contains(each[i]) && p(each[i]));
        assert(kept.contains(each[i]));
        let k = choose|k: int| 0 <= k < kept.len() && kept[k] == each[i];
        assert(targets[k] == target);
    }
}

/// Which transitions are offered follows from the state alone: a paused container can be
/// resumed, a running one paused and restarted, one that never ran or has exited started;
/// what is running or paused can be stopped, and whatever holds a process killed. The same
/// decides whether a removal has to kill first; one that is already under way is not
/// offered again. What only looks is always offered.
pub proof fn law_transitions_suit_the_state(container: ContainerView, images: Seq<ImageView>)
    ensures
        ({
            let offers = container_offers(container, images);
            let state = container.state;
            &&& has_action(offers, Action::Lifecycle(Lifecycle::Unpause)) <==> state is Paused
            &&& has_action(offers, Action::Lifecycle(Lifecycle::Pause)) <==> state is Running
            &&& has_action(offers, Action::Lifecycle(Lifecycle::Restart)) <==> state is Running
            &&& has_action(offers, Action::Lifecycle(Lifecycle::Start)) <==> state is Created
                || state is Exited
            &&& has_action(offers, Action::Lifecycle(Lifecycle::Stop)) <==> state is Running
                || state is Paused
            &&& has_action(offers, Action::Lifecycle(Lifecycle::Kill)) <==> state is Running
                || state is Paused || state is Restarting
            &&& has_action(offers, Action::RemoveContainer { force: true }) <==> state is Running
                || state is Paused || state is Restarting
            &&& has_action(offers, Action::RemoveContainer { force: false }) <==> state is Created
                || state is Exited || state is Dead || state is Stopping || state is Unknown
            &&& has_action(offers, Action::ViewLogs)
            &&& has_action(offers, Action::BrowseFilesystem)
            &&& has_action(offers, Action::OpenInFileManager)
            &&& !has_action(offers, Action::ViewDockerfile)
            &&& !has_action(offers, Action::RemoveImage)
            &&& !has_action(offers, Action::PruneContainers)
            &&& !has_action(offers, Action::PruneImages)
        }),
{
    let offers = container_offers(container, images);
    let first = lifecycles_for(container.state);
    let n = first.len() as int;
    assert(offers[n].action == Action::ViewLogs);
    assert(offers[n + 1].action == Action::BrowseFilesystem);
    assert(offers[n + 2].action == Action::OpenInFileManager);
    if !(container.state is Removing) {
        assert(offers.len() == n + 4);
        assert(offers[n + 3] == removal_of_container(container, images));
    } else {
        assert(offers.len() == n + 3);
    }
    assert forall|i: int| 0 <= i < n implies offers[i] == first[i] by {}
    if n > 0 {
        assert(offers[0] == first[0]);
    }
    if n > 1 {
        assert(offers[1] == first[1]);
    }
    if n > 2 {
        assert(offers[2] == first[2]);
    }
    if n > 3 {
        assert(offers[3] == first[3]);
    }
}

/// What is offered of an image: to look at it in three ways, and to remove it.
pub proof fn law_images_are_looked_at_or_removed(
    image: ImageView,
    containers: Seq<ContainerView>,
    action: Action,
)
    ensures
        has_action(image_offers(image, containers), action) <==> action is ViewDockerfile || action
            is BrowseFilesystem || action is OpenInFileManager || action is RemoveImage,
        image_offers(image, containers).last().action is RemoveImage,
{
    let offers = image_offers(image, containers);
    assert(offers[0].action == Action::ViewDockerfile);
    assert(offers[1].action == Action::BrowseFilesystem);
    assert(offers[2].action == Action::OpenInFileManager);
    assert(offers[3].action == Action::RemoveImage);
}

/// Every offer for a container or an image is labelled with what it does.
pub proof fn law_offers_are_labelled_with_what_they_do(
    container: ContainerView,
    image: ImageView,
    containers: Seq<ContainerView>,
    images: Seq<ImageView>,
    at: int,
)
    ensures
        ({
            let offers = container_offers(container, images);
            0 <= at < offers.len() ==> says_what_it_does(offers[at])
        }),
        ({
            let offers = image_offers(image, containers);
            0 <= at < offers.len() ==> says_what_it_does(offers[at])
        }),
{
    let offers = container_offers(container, images);
    let first = lifecycles_for(container.state);
    if 0 <= at < first.len() {
        assert(offers[at] == first[at]);
    }
}

/// Whether the label of an offer is that of its action.
pub open spec fn says_what_it_does(offer: OfferView) -> bool {
    match offer.action {
        Action::Lifecycle(Lifecycle::Start) => offer.label == "Start"@,
        Action::Lifecycle(Lifecycle::Stop) => offer.label == "Stop"@,
        Action::Lifecycle(Lifecycle::Restart) => offer.label == "Restart"@,
        Action::Lifecycle(Lifecycle::Pause) => offer.label == "Pause"@,
        Action::Lifecycle(Lifecycle::Unpause) => offer.label == "Resume"@,
        Action::Lifecycle(Lifecycle::Kill) => offer.label == "Kill"@,
        Action::RemoveContainer { .. } => offer.label == "Remove"@,
        Action::RemoveImage => offer.label == "Remove"@,
        Action::PruneContainers => offer.label == "Prune Containers"@,
        Action::PruneImages => offer.label == "Prune Images"@,
        Action::ViewLogs => offer.label == "Logs"@,
        Action::ViewDockerfile => offer.label == "Dockerfile"@,
        Action::BrowseFilesystem => offer.label == "Files"@,
        Action::OpenInFileManager => offer.label == "Open in Files"@,
    }
}

/// Removing and pruning lose something; stopping and killing only halt it. Those are what
/// is marked in red, and nothing else is.
pub proof fn law_red_marks_what_is_lost_or_halted(action: Action)
    ensures
        action_tone(action) is Bad || action_tone(action) is Neutral,
        action_tone(action) is Bad <==> action is RemoveContainer || action is RemoveImage
            || action is PruneContainers || action is PruneImages || action == Action::Lifecycle(
            Lifecycle::Stop,
        ) || action == Action::Lifecycle(Lifecycle::Kill),
        destructive(action) ==> action_tone(action) is Bad && !halting(action),
        action is Lifecycle ==> !destructive(action),
{
}

/// A removal names what it removes and where that came from, and says that it kills where
/// it does.
pub proof fn law_a_removal_names_what_it_removes(container: ContainerView, images: Seq<ImageView>)
    ensures
        ({
            let offer = removal_of_container(container, images);
            let name = crate::model::format::container_label_text(container);
            let asked = offer.confirmation->0;
            &&& offer.confirmation is Some
            &&& (name + "?"@).is_suffix_of(asked.heading)
            &&& (origin_text(container, images)
                + " will be lost. The image itself is not affected."@).is_suffix_of(asked.body)
            &&& engine::active(container.state) ==> asked.confirm_label == "Kill and Remove"@
                && asked.heading == "Kill and remove "@ + name + "?"@ && name.is_prefix_of(asked.body)
            &&& !engine::active(container.state) ==> asked.confirm_label == "Remove"@
                && asked.heading == "Remove "@ + name + "?"@ && ("Anything written inside "@
                + name).is_prefix_of(asked.body)
            &&& asked.items.len() == 0
        }),
        forall|i: int|
            0 <= i < images.len() && (#[trigger] images[i]).id == container.image_id && (forall|
                j: int,
            |
                0 <= j < i ==> (#[trigger] images[j]).id != container.image_id) ==> origin_text(
                container,
                images,
            ) == crate::model::format::image_label_text(images[i]),
        (forall|i: int| 0 <= i < images.len() ==> (#[trigger] images[i]).id != container.image_id)
            ==> origin_text(container, images) == container.image,
{
    let name = crate::model::format::container_label_text(container);
    let asked = removal_of_container(container, images).confirmation->0;
    let heading = asked.heading;
    let end = name + "?"@;
    assert(heading.subrange(heading.len() - end.len(), heading.len() as int) =~= end);
    let image = origin_text(container, images);
    let lost = image + " will be lost. The image itself is not affected."@;
    let body = asked.body;
    assert(body.subrange(body.len() - lost.len(), body.len() as int) =~= lost);
    if engine::active(container.state) {
        assert(body.subrange(0, name.len() as int) =~= name);
    } else {
        let begin = "Anything written inside "@ + name;
        assert(body.subrange(0, begin.len() as int) =~= begin);
    }
    let p = |i: ImageView| i.id == container.image_id;
    assert forall|i: int|
        0 <= i < images.len() && (#[trigger] images[i]).id == container.image_id && (forall|j: int|
            0 <= j < i ==> (#[trigger] images[j]).id != container.image_id) implies origin_text(
        container,
        images,
    ) == crate::model::format::image_label_text(images[i]) by {
        lists::lemma_first_where(images, p, i);
    }
    lists::lemma_first_where_is(images, p);
}

/// A removal of an image lists exactly the containers that were made from it; it promises
/// the space back only where there are none.
pub proof fn law_an_image_is_removed_from_under_its_users(
    image: ImageView,
    containers: Seq<ContainerView>,
    label: Seq<char>,
)
    ensures
        ({
            let asked = removal_of_image(image, containers).confirmation->0;
            &&& removal_of_image(image, containers).confirmation is Some
            &&& asked.items.contains(label) <==> exists|i: int|
                0 <= i < containers.len() && (#[trigger] containers[i]).image_id == image.id
                    && crate::model::format::container_label_text(containers[i]) == label
            &&& asked.heading == "Remove "@ + crate::model::format::image_label_text(image) + "?"@
            &&& asked.items.len() == 0 ==> crate::model::format::bytes_text(
                image.size as int,
            ).is_prefix_of(asked.body)
            &&& asked.items.len() > 0 ==> text::decimal(asked.items.len()).is_prefix_of(asked.body)
        }),
{
    let p = |c: ContainerView| c.image_id == image.id;
    lists::lemma_filter_keeps(containers, p);
    let users = relations::users_of(image, containers);
    assert(users == containers.filter(p));
    let asked = removal_of_image(image, containers).confirmation->0;
    let items = asked.items;
    if items.contains(label) {
        let k = choose|k: int| 0 <= k < items.len() && items[k] == label;
        assert(users.contains(users[k]));
        let i = choose|i: int| 0 <= i < containers.len() && containers[i] == users[k];
        assert(containers[i].image_id == image.id);
    }
    if exists|i: int|
        0 <= i < containers.len() && (#[trigger] containers[i]).image_id == image.id
            && crate::model::format::container_label_text(containers[i]) == label {
        let i = choose|i: int|
            0 <= i < containers.len() && (#[trigger] containers[i]).image_id == image.id
                && crate::model::format::container_label_text(containers[i]) == label;
        assert(containers.contains(containers[i]));
        assert(users.contains(containers[i]));
        let k = choose|k: int| 0 <= k < users.len() && users[k] == containers[i];
        assert(items[k] == label);
    }
    let body = asked.body;
    if users.len() == 0 {
        let begin = crate::model::format::bytes_text(image.size as int);
        assert(body.subrange(0, begin.len() as int) =~= begin);
    } else {
        let begin = text::decimal(users.len());
        assert(body.subrange(0, begin.len() as int) =~= begin);
    }
}

/// A count agrees with its noun.
pub proof fn law_counts_agree_with_their_nouns(
    value: nat,
    singular: Seq<char>,
    plural: Seq<char>,
    verb: Seq<char>,
)
    ensures
        value == 1 ==> counted(value, singular, plural) == seq!['1', ' '] + singular,
        value != 1 ==> counted(value, singular, plural) == text::decimal(value) + seq![' ']
            + plural,
        value == 1 ==> bulk_label_text(verb, value, singular, plural) == verb + seq![' ', '1', ' ']
            + singular,
        value != 1 ==> bulk_label_text(verb, value, singular, plural) == verb + seq![' ']
            + text::decimal(value) + seq![' '] + plural,
{
    reveal_strlit("1 ");
    reveal_strlit(" ");
    text::law_decimal_is_read_back(value);
    assert("1 "@ =~= seq!['1', ' ']);
    assert(" "@ =~= seq![' ']);
    if value == 1 {
        assert(text::decimal(1) =~= seq!['1']);
        assert(bulk_label_text(verb, value, singular, plural) =~= verb + seq![' ', '1', ' ']
            + singular);
    }
}

/// Each action is told in its own words, before and after.
pub proof fn law_actions_are_told_in_their_own_words(action: Action)
    ensures
        action == Action::Lifecycle(Lifecycle::Start) ==> verb_text(action) == "start"@
            && participle_text(action) == "Started"@,
        action == Action::Lifecycle(Lifecycle::Stop) ==> verb_text(action) == "stop"@
            && participle_text(action) == "Stopped"@,
        action == Action::Lifecycle(Lifecycle::Restart) ==> verb_text(action) == "restart"@
            && participle_text(action) == "Restarted"@,
        action == Action::Lifecycle(Lifecycle::Pause) ==> verb_text(action) == "pause"@
            && participle_text(action) == "Paused"@,
        action == Action::Lifecycle(Lifecycle::Unpause) ==> verb_text(action) == "unpause"@
            && participle_text(action) == "Resumed"@,
        action == Action::Lifecycle(Lifecycle::Kill) ==> verb_text(action) == "kill"@
            && participle_text(action) == "Killed"@,
        action is RemoveContainer || action is RemoveImage ==> verb_text(action) == "remove"@
            && participle_text(action) == "Removed"@,
        action is PruneContainers || action is PruneImages ==> verb_text(action) == "prune"@
            && participle_text(action) == "Pruned"@,
        action is ViewLogs || action is ViewDockerfile || action is BrowseFilesystem || action
            is OpenInFileManager ==> verb_text(action) == "open"@ && participle_text(action)
            == "Opened"@,
{
}

/// An outcome says how many came off, counts every failure, and names up to three of them;
/// where nothing came off it says what could not be done.
pub proof fn law_outcomes_name_their_failures(
    action: Action,
    succeeded: nat,
    failures: Seq<Seq<char>>,
)
    ensures
        ({
            let text = outcome_text(action, succeeded, failures);
            let number = if action is RemoveImage {
                counted(succeeded, "image"@, "images"@)
            } else {
                counted(succeeded, "container"@, "containers"@)
            };
            let done = participle_text(action) + " "@ + number;
            &&& failures.len() == 0 ==> text == done
            &&& failures.len() > 0 && succeeded > 0 ==> (done + "; "@ + text::decimal(
                failures.len(),
            ) + " failed: "@ + failures[0]).is_prefix_of(text)
            &&& failures.len() > 0 && succeeded == 0 ==> ("Could not "@ + verb_text(action) + ": "@
                + failures[0]).is_prefix_of(text)
            &&& 0 < failures.len() <= 3 ==> failures.last().is_suffix_of(text)
            &&& failures.len() > 3 ==> (failures[2] + ", and "@ + text::decimal(
                (failures.len() - 3) as nat,
            ) + " more"@).is_suffix_of(text)
        }),
{
    let text = outcome_text(action, succeeded, failures);
    let number = if action is RemoveImage {
        counted(succeeded, "image"@, "images"@)
    } else {
        counted(succeeded, "container"@, "containers"@)
    };
    let done = participle_text(action) + " "@ + number;
    if failures.len() > 0 {
        let named = if failures.len() > 3 {
            failures.take(3)
        } else {
            failures
        };
        let list = text::joined(named, "; "@);
        text::lemma_joined_ends(named, "; "@);
        let head = if succeeded == 0 {
            "Could not "@ + verb_text(action) + ": "@
        } else {
            done + "; "@ + text::decimal(failures.len()) + " failed: "@
        };
        let tail = if failures.len() > 3 {
            ", and "@ + text::decimal((failures.len() - 3) as nat) + " more"@
        } else {
            Seq::empty()
        };
        assert(text =~= head + list + tail);
        let begin = head + failures[0];
        assert forall|i: int| 0 <= i < begin.len() implies text[i] == begin[i] by {
            if i >= head.len() {
                assert(list.subrange(0, failures[0].len() as int)[i - head.len()] == failures[0][i
                    - head.len()]);
            }
        }
        assert(text.subrange(0, begin.len() as int) =~= begin);
        let last = named.last();
        assert(list.subrange(list.len() - last.len(), list.len() as int) == last);
        let end = last + tail;
        assert forall|i: int| 0 <= i < end.len() implies text[text.len() - end.len() + i]
            == end[i] by {
            if i < last.len() {
                assert(list.subrange(list.len() - last.len(), list.len() as int)[i] == last[i]);
            }
        }
        assert(text.subrange(text.len() - end.len(), text.len() as int) =~= end);
        if failures.len() > 3 {
            assert(last == failures[2]);
            assert(end =~= failures[2] + ", and "@ + text::decimal((failures.len() - 3) as nat)
                + " more"@);
        } else {
            assert(end =~= failures.last());
        }
    }
}

/// A bulk removal kills as many first as there are selected containers that hold a
/// process; and of some images as many are in use as some container was made from.
pub proof fn law_bulk_removals_count_what_is_running(
    selected: Seq<ContainerView>,
    images: Seq<ImageView>,
    containers: Seq<ContainerView>,
)
    ensures
        forced(removal_targets(offered_each(selected, images))) == selected.filter(
            |c: ContainerView| c.state is Running || c.state is Paused || c.state is Restarting,
        ).len(),
        removal_targets(offered_each(selected, images)).len() == selected.filter(
            |c: ContainerView| !(c.state is Removing),
        ).len(),
        in_use_count(images, containers) == images.filter(
            |i: ImageView|
                exists|k: int| 0 <= k < containers.len() && (#[trigger] containers[k]).image_id == i.id,
        ).len(),
{
    lemma_forced(selected, images);
    let p = |i: ImageView| relations::users_of(i, containers).len() > 0;
    let q = |i: ImageView|
        exists|k: int| 0 <= k < containers.len() && (#[trigger] containers[k]).image_id == i.id;
    assert forall|n: int| 0 <= n < images.len() implies p(#[trigger] images[n]) == q(
        images[n],
    ) by {
        let image = images[n];
        let used = |c: ContainerView| c.image_id == image.id;
        lists::lemma_filter_keeps(containers, used);
        let users = relations::users_of(image, containers);
        assert(users == containers.filter(used));
        if users.len() > 0 {
            assert(users.contains(users[0]));
            let k = choose|k: int| 0 <= k < containers.len() && containers[k] == users[0];
            assert(containers[k].image_id == image.id);
        }
        if q(image) {
            let k = choose|k: int|
                0 <= k < containers.len() && (#[trigger] containers[k]).image_id == image.id;
            assert(containers.contains(containers[k]));
            assert(users.contains(containers[k]));
        }
    }
    lists::lemma_filters_agree(images, p, q);
}

proof fn lemma_forced(selected: Seq<ContainerView>, images: Seq<ImageView>)
    ensures
        forced(removal_targets(offered_each(selected, images))) == selected.filter(
            |c: ContainerView| c.state is Running || c.state is Paused || c.state is Restarting,
        ).len(),
        removal_targets(offered_each(selected, images)).len() == selected.filter(
            |c: ContainerView| !(c.state is Removing),
        ).len(),
    decreases selected.len(),
{
    reveal(Seq::filter);
    let each = offered_each(selected, images);
    let p = |o: Offered| removal_among(o.1) is Some;
    let f = |o: Offered| target_of(o.0, removal_among(o.1).unwrap());
    let kills = |t: TargetView| t.action == Action::RemoveContainer { force: true };
    if selected.len() > 0 {
        let rest = selected.drop_last();
        let last = selected.last();
        lemma_forced(rest, images);
        let before = offered_each(rest, images);
        assert(each.drop_last() =~= before);
        assert(each.last() == (last, container_offers(last, images)));
        lemma_removal_among(last, images);
        let kept = before.filter(p);
        if !(last.state is Removing) {
            assert(removal_targets(each) =~= removal_targets(before).push(f(each.last())));
            assert(removal_targets(each).drop_last() =~= removal_targets(before));
        } else {
            assert(removal_targets(each) =~= removal_targets(before));
        }
    }
}

/// What a prune or a bulk removal lists stands in the order of the labels without regard
/// to case, and the images that a prune removes the newest first.
pub proof fn law_listed_removals_are_in_order(
    containers: Seq<ContainerView>,
    images: Seq<ImageView>,
    labels: Seq<Seq<char>>,
    i: int,
    j: int,
)
    requires
        0 <= i < j,
    ensures
        j < stopped_containers(containers).len() ==> text::at_most(
            text::lowercase(
                crate::model::format::container_label_text(stopped_containers(containers)[i]),
            ),
            text::lowercase(
                crate::model::format::container_label_text(stopped_containers(containers)[j]),
            ),
        ),
        j < dangling_images(images).len() ==> dangling_images(images)[i].created
            >= dangling_images(images)[j].created,
        labels_in_order(labels).len() == labels.len(),
        j < labels.len() ==> text::at_most(
            text::lowercase(labels_in_order(labels)[i]),
            text::lowercase(labels_in_order(labels)[j]),
        ),
        forall|label: Seq<char>| #[trigger]
            labels_in_order(labels).contains(label) <==> labels.contains(label),
{
    let p = |c: ContainerView| !engine::active(c.state);
    let stopped = containers.filter(p);
    let f = |c: ContainerView| label_rank(crate::model::format::container_label_text(c));
    let ranks = stopped.map_values(f);
    arrange::law_arrangement_is_stable_sort(ranks);
    let order = arrange::arrangement(ranks);
    if j < stopped_containers(containers).len() {
        let a = stopped[order[i]];
        let b = stopped[order[j]];
        assert(ranks[order[i]] == f(a) && ranks[order[j]] == f(b));
        assert(stopped_containers(containers)[i] == a && stopped_containers(containers)[j] == b);
        text::lemma_at_most_total(f(a).first, f(b).first);
    }
    let q = |i: ImageView| crate::model::format::untagged(i);
    let dangling = images.filter(q);
    let g = |i: ImageView| age_rank(i);
    let ages = dangling.map_values(g);
    arrange::law_arrangement_is_stable_sort(ages);
    let by_age = arrange::arrangement(ages);
    if j < dangling_images(images).len() {
        let a = dangling[by_age[i]];
        let b = dangling[by_age[j]];
        assert(ages[by_age[i]] == g(a) && ages[by_age[j]] == g(b));
        assert(dangling_images(images)[i] == a && dangling_images(images)[j] == b);
    }
    let h = |l: Seq<char>| label_rank(l);
    let keys = labels.map_values(h);
    arrange::law_arrangement_is_stable_sort(keys);
    arrange::law_sorting_keeps_every_item(labels, keys);
    let by_label = arrange::arrangement(keys);
    if j < labels.len() {
        let a = labels[by_label[i]];
        let b = labels[by_label[j]];
        assert(keys[by_label[i]] == h(a) && keys[by_label[j]] == h(b));
        assert(labels_in_order(labels)[i] == a && labels_in_order(labels)[j] == b);
        text::lemma_at_most_total(h(a).first, h(b).first);
    }
}

/// A prune counts what it removes and lists it by name; a prune of images says how much space
/// it gives back, and how many of them the daemon will keep.
pub proof fn law_prunes_say_what_they_remove(
    stopped: Seq<ContainerView>,
    dangling: Seq<ImageView>,
    containers: Seq<ContainerView>,
    at: int,
)
    ensures
        ({
            let offer = container_prune(stopped);
            let asked = offer.confirmation->0;
            &&& offer.action is PruneContainers && offer.label == "Prune Containers"@
            &&& stopped.len() == 1 ==> asked.heading == "Remove "@ + counted(
                1,
                "stopped container"@,
                "stopped containers"@,
            ) + "?"@
            &&& asked.heading == "Remove "@ + counted(
                stopped.len(),
                "stopped container"@,
                "stopped containers"@,
            ) + "?"@
            &&& asked.confirm_label == "Remove All"@
            &&& asked.items.len() == stopped.len()
            &&& 0 <= at < stopped.len() ==> asked.items[at]
                == crate::model::format::container_label_text(stopped[at])
        }),
        ({
            let offer = image_prune(dangling, containers);
            let asked = offer.confirmation->0;
            let front =
                "These images have no tag, usually because a tag moved to a newer build. "@
                + crate::model::format::bytes_text(engine::sum(sizes_of(dangling)))
                + " would be reclaimed. Tagged images are not affected."@;
            &&& offer.action is PruneImages && offer.label == "Prune Images"@
            &&& asked.heading == "Remove "@ + counted(
                dangling.len(),
                "untagged image"@,
                "untagged images"@,
            ) + "?"@
            &&& asked.confirm_label == "Remove All"@
            &&& front.is_prefix_of(asked.body)
            &&& in_use_count(dangling, containers) == 0 ==> asked.body == front
            &&& in_use_count(dangling, containers) > 0 ==> (" "@ + text::decimal(
                in_use_count(dangling, containers),
            ) + " of them "@).is_prefix_of(asked.body.skip(front.len() as int))
            &&& asked.items.len() == dangling.len()
            &&& 0 <= at < dangling.len() ==> asked.items[at]
                == crate::model::format::image_label_text(dangling[at])
        }),
{
    let body = (image_prune(dangling, containers).confirmation->0).body;
    let front = "These images have no tag, usually because a tag moved to a newer build. "@
        + crate::model::format::bytes_text(engine::sum(sizes_of(dangling)))
        + " would be reclaimed. Tagged images are not affected."@;
    assert(body.subrange(0, front.len() as int) =~= front);
    let kept = in_use_count(dangling, containers);
    if kept > 0 {
        let tail = " "@ + text::decimal(kept) + " of them "@;
        assert(body.skip(front.len() as int).subrange(0, tail.len() as int) =~= tail);
    } else {
        assert(body =~= front);
    }
}

/// Whether an action is offered for a selection.
pub open spec fn has_bulk(offers: Seq<BulkView>, action: Action) -> bool {
    exists|i: int| 0 <= i < offers.len() && (#[trigger] offers[i]).action == action
}

proof fn lemma_bulk_of_joined(a: Seq<BulkView>, b: Seq<BulkView>, action: Action)
    ensures
        has_bulk(a + b, action) <==> has_bulk(a, action) || has_bulk(b, action),
{
    if has_bulk(a + b, action) {
        let i = choose|i: int| 0 <= i < (a + b).len() && (#[trigger] (a + b)[i]).action == action;
        if i < a.len() {
            assert(a[i].action == action);
        } else {
            assert(b[i - a.len()].action == action);
        }
    }
    if has_bulk(a, action) {
        let i = choose|i: int| 0 <= i < a.len() && (#[trigger] a[i]).action == action;
        assert((a + b)[i].action == action);
    }
    if has_bulk(b, action) {
        let i = choose|i: int| 0 <= i < b.len() && (#[trigger] b[i]).action == action;
        assert((a + b)[a.len() + i].action == action);
    }
}

proof fn lemma_bulks_hold(each: Seq<Offered>, n: int, action: Action)
    requires
        0 <= n <= 6,
    ensures
        has_bulk(lifecycle_bulks(each, n), action) <==> action is Lifecycle && lifecycle_targets(
            each,
            action,
        ).len() > 0 && exists|k: int|
            0 <= k < n && Action::Lifecycle(#[trigger] bulk_lifecycles()[k]) == action,
    decreases n,
{
    if n > 0 {
        lemma_bulks_hold(each, n - 1, action);
        let last = listed(bulk_lifecycle_offer(each, bulk_lifecycles()[n - 1]));
        lemma_bulk_of_joined(lifecycle_bulks(each, n - 1), last, action);
        assert(last.len() > 0 ==> last[0].action == Action::Lifecycle(bulk_lifecycles()[n - 1]));
        assert(has_bulk(last, action) <==> last.len() > 0 && last[0].action == action);
        if has_bulk(last, action) {
            assert(Action::Lifecycle(bulk_lifecycles()[n - 1]) == action);
        }
        if exists|k: int|
            0 <= k < n - 1 && Action::Lifecycle(#[trigger] bulk_lifecycles()[k]) == action {
            let k = choose|k: int|
                0 <= k < n - 1 && Action::Lifecycle(#[trigger] bulk_lifecycles()[k]) == action;
            assert(0 <= k < n);
        }
    }
}

proof fn lemma_every_request_is_listed(action: Lifecycle)
    ensures
        exists|k: int| 0 <= k < 6 && #[trigger] bulk_lifecycles()[k] == action,
{
    let all = bulk_lifecycles();
    match action {
        Lifecycle::Start => assert(all[0] == action),
        Lifecycle::Unpause => assert(all[1] == action),
        Lifecycle::Restart => assert(all[2] == action),
        Lifecycle::Pause => assert(all[3] == action),
        Lifecycle::Stop => assert(all[4] == action),
        Lifecycle::Kill => assert(all[5] == action),
    }
}

/// A request is offered for a selection exactly when it is offered for one of its containers,
/// and a removal of images exactly when an image is selected.
pub proof fn law_a_selection_offers_what_its_members_offer(
    selected: Seq<ContainerView>,
    selected_images: Seq<ImageView>,
    containers: Seq<ContainerView>,
    images: Seq<ImageView>,
    action: Lifecycle,
)
    ensures
        has_bulk(
            selection_offers(selected, selected_images, containers, images),
            Action::Lifecycle(action),
        ) <==> exists|i: int|
            0 <= i < selected.len() && has_action(
                container_offers(#[trigger] selected[i], images),
                Action::Lifecycle(action),
            ),
        has_bulk(
            selection_offers(selected, selected_images, containers, images),
            Action::RemoveImage,
        ) <==> selected_images.len() > 0,
{
    let each = offered_each(selected, images);
    let requests = lifecycle_bulks(each, 6);
    let removals = listed(bulk_container_removal(each));
    let image_removals = listed(bulk_image_removal(selected_images, containers));
    let wanted = Action::Lifecycle(action);
    lemma_bulk_of_joined(requests + removals, image_removals, wanted);
    lemma_bulk_of_joined(requests, removals, wanted);
    lemma_bulk_of_joined(requests + removals, image_removals, Action::RemoveImage);
    lemma_bulk_of_joined(requests, removals, Action::RemoveImage);
    lemma_bulks_hold(each, 6, wanted);
    lemma_bulks_hold(each, 6, Action::RemoveImage);
    lemma_every_request_is_listed(action);
    assert(removals.len() > 0 ==> removals[0].action is RemoveContainer);
    assert(image_removals.len() > 0 ==> image_removals[0].action is RemoveImage);
    let targets = lifecycle_targets(each, wanted);
    if targets.len() > 0 {
        assert(targets.contains(targets[0]));
        law_bulk_acts_where_offered(selected, images, wanted, targets[0]);
    }
    if exists|i: int|
        0 <= i < selected.len() && has_action(
            container_offers(#[trigger] selected[i], images),
            wanted,
        ) {
        let i = choose|i: int|
            0 <= i < selected.len() && has_action(
                container_offers(#[trigger] selected[i], images),
                wanted,
            );
        let target = target_of(selected[i], wanted);
        law_bulk_acts_where_offered(selected, images, wanted, target);
        assert(targets.contains(target));
    }
}

/// A bulk request is labelled with what it does and to how many, and asks nothing.
pub proof fn law_bulk_requests_are_labelled_with_their_count(each: Seq<Offered>, action: Lifecycle)
    ensures
        bulk_lifecycle_offer(each, action) matches Some(offer) ==> {
            let count = lifecycle_targets(each, Action::Lifecycle(action)).len();
            &&& offer.targets == lifecycle_targets(each, Action::Lifecycle(action))
            &&& offer.confirmation is None
            &&& action is Start ==> offer.label == bulk_label_text(
                "Start"@,
                count,
                "Container"@,
                "Containers"@,
            )
            &&& action is Stop ==> offer.label == bulk_label_text(
                "Stop"@,
                count,
                "Container"@,
                "Containers"@,
            )
            &&& action is Restart ==> offer.label == bulk_label_text(
                "Restart"@,
                count,
                "Container"@,
                "Containers"@,
            )
            &&& action is Pause ==> offer.label == bulk_label_text(
                "Pause"@,
                count,
                "Container"@,
                "Containers"@,
            )
            &&& action is Unpause ==> offer.label == bulk_label_text(
                "Resume"@,
                count,
                "Container"@,
                "Containers"@,
            )
            &&& action is Kill ==> offer.label == bulk_label_text(
                "Kill"@,
                count,
                "Container"@,
                "Containers"@,
            )
        },
{
}

/// A bulk removal names everything that it removes and counts it; of containers it says how
/// many are killed first, of images how much space they give back and how many are in use.
pub proof fn law_bulk_removals_say_what_they_remove(
    selected: Seq<ContainerView>,
    selected_images: Seq<ImageView>,
    containers: Seq<ContainerView>,
    images: Seq<ImageView>,
    at: int,
)
    ensures
        bulk_container_removal(offered_each(selected, images)) matches Some(offer) ==> {
            let asked = offer.confirmation->0;
            let lost =
                "Anything written inside them since they started will be lost. The images they came from are not affected."@;
            let killed = forced(offer.targets);
            &&& offer.targets == removal_targets(offered_each(selected, images))
            &&& offer.label == bulk_label_text(
                "Remove"@,
                offer.targets.len(),
                "Container"@,
                "Containers"@,
            )
            &&& asked.heading == "Remove "@ + counted(
                offer.targets.len(),
                "container"@,
                "containers"@,
            ) + "?"@
            &&& killed == 0 ==> asked.body == lost
            &&& killed == 1 ==> asked.body == lost + (" "@ + text::decimal(1) + " of them "@ + "is"@
                + " still running and will be killed first."@)
            &&& killed > 1 ==> asked.body == lost + (" "@ + text::decimal(killed) + " of them "@
                + "are"@ + " still running and will be killed first."@)
            &&& 0 <= at < offer.targets.len() ==> asked.items.contains(offer.targets[at].label)
        },
        bulk_image_removal(selected_images, containers) matches Some(offer) ==> {
            let asked = offer.confirmation->0;
            &&& offer.targets.len() == selected_images.len()
            &&& offer.label == bulk_label_text("Remove"@, selected_images.len(), "Image"@, "Images"@)
            &&& asked.heading == "Remove "@ + counted(
                selected_images.len(),
                "image"@,
                "images"@,
            ) + "?"@
            &&& crate::model::format::bytes_text(
                engine::sum(sizes_of(selected_images)),
            ).is_prefix_of(asked.body)
            &&& 0 <= at < selected_images.len() ==> offer.targets[at].id == selected_images[at].id
                && offer.targets[at].action is RemoveImage && offer.targets[at].label
                == crate::model::format::image_label_text(selected_images[at])
                && asked.items.contains(offer.targets[at].label)
        },
{
    if let Some(offer) = bulk_container_removal(offered_each(selected, images)) {
        let labels = target_labels(offer.targets);
        arrange::law_sorting_keeps_every_item(
            labels,
            labels.map_values(|l: Seq<char>| label_rank(l)),
        );
        if 0 <= at < offer.targets.len() {
            assert(labels[at] == offer.targets[at].label);
            assert(labels.contains(labels[at]));
        }
        let lost =
            "Anything written inside them since they started will be lost. The images they came from are not affected."@;
        assert(lost + Seq::<char>::empty() =~= lost);
    }
    if let Some(offer) = bulk_image_removal(selected_images, containers) {
        let labels = target_labels(offer.targets);
        arrange::law_sorting_keeps_every_item(
            labels,
            labels.map_values(|l: Seq<char>| label_rank(l)),
        );
        if 0 <= at < offer.targets.len() {
            assert(labels[at] == offer.targets[at].label);
            assert(labels.contains(labels[at]));
        }
        let body = (offer.confirmation->0).body;
        let figure = crate::model::format::bytes_text(engine::sum(sizes_of(selected_images)));
        assert(body.subrange(0, figure.len() as int) =~= figure);
    }
}

/// Whether an offer shows the icon of its action.
pub open spec fn shows_its_icon(offer: OfferView) -> bool {
    match offer.action {
        Action::Lifecycle(Lifecycle::Start) => offer.icon == "media-playback-start-symbolic"@,
        Action::Lifecycle(Lifecycle::Stop) => offer.icon == "media-playback-stop-symbolic"@,
        Action::Lifecycle(Lifecycle::Restart) => offer.icon == "view-refresh-symbolic"@,
        Action::Lifecycle(Lifecycle::Pause) => offer.icon == "media-playback-pause-symbolic"@,
        Action::Lifecycle(Lifecycle::Unpause) => offer.icon == "media-playback-start-symbolic"@,
        Action::Lifecycle(Lifecycle::Kill) => offer.icon == "process-stop-symbolic"@,
        Action::ViewLogs => offer.icon == "view-list-symbolic"@,
        Action::ViewDockerfile => offer.icon == "text-x-generic-symbolic"@,
        Action::BrowseFilesystem => offer.icon == "folder-symbolic"@,
        Action::OpenInFileManager => offer.icon == "external-link-symbolic"@,
        _ => offer.icon == "user-trash-symbolic"@,
    }
}

/// Every offer shows the icon of what it does, whatever it is offered for.
pub proof fn law_offers_show_the_icon_of_what_they_do(
    container: ContainerView,
    image: ImageView,
    containers: Seq<ContainerView>,
    images: Seq<ImageView>,
    at: int,
)
    ensures
        ({
            let offers = container_offers(container, images);
            0 <= at < offers.len() ==> shows_its_icon(offers[at])
        }),
        ({
            let offers = image_offers(image, containers);
            0 <= at < offers.len() ==> shows_its_icon(offers[at])
        }),
        ({
            let offers = environment_offers(containers, images);
            0 <= at < offers.len() ==> shows_its_icon(offers[at]) && says_what_it_does(offers[at])
        }),
{
}

/// What can be asked of a container's process comes first, then what only looks, and its
/// removal last.
pub proof fn law_offers_go_from_requests_to_removal(
    container: ContainerView,
    images: Seq<ImageView>,
    i: int,
    j: int,
)
    requires
        0 <= i < j < container_offers(container, images).len(),
    ensures
        ({
            let offers = container_offers(container, images);
            &&& offers[j].action is Lifecycle ==> offers[i].action is Lifecycle
            &&& !(offers[i].action is RemoveContainer)
        }),
{
}

} // verus!
