//! Which containers run which images, and which images are built on which.

use vstd::prelude::*;

use crate::engine::{ContainerSummary, ContainerView, ImageSummary, ImageView};
use crate::lists;
use crate::lists::put;
use crate::ordered;
use crate::ordered::{contains_text, TextMap};
use crate::text;
use crate::text::{
    chars_of, contains_char, is_at_most, last_part_start, same, starts_with, string_of,
};

verus! {

/// Layer digests per image ID, ordered base first.
///
/// The daemon's image list does not carry them, so they arrive by inspecting
/// each image and are cached here across refreshes.
#[derive(Debug, Clone, Default, PartialEq, Eq)]
pub struct LayerIndex {
    stacks: TextMap<Vec<String>>,
}

/// The value of a [`LayerIndex`].
pub type Layers = Seq<(Seq<char>, Seq<Seq<char>>)>;

impl DeepView for LayerIndex {
    type V = Layers;

    closed spec fn deep_view(&self) -> Layers {
        self.stacks.deep_view()
    }
}

/// The ids of some images.
pub open spec fn image_ids(images: Seq<ImageView>) -> Seq<Seq<char>> {
    images.map_values(|i: ImageView| i.id)
}

impl LayerIndex {
    /// An index without entries.
    #[must_use]
    pub fn new() -> (index: Self)
        ensures
            index.deep_view() == Layers::empty(),
    {
        LayerIndex { stacks: TextMap::new() }
    }

    /// Keeps the layers of an image, in place of what was known of it.
    pub fn insert(&mut self, image_id: &str, layers: Vec<String>)
        ensures
            final(self).deep_view() == ordered::inserted(
                old(self).deep_view(),
                image_id@,
                layers.deep_view(),
            ),
    {
        self.stacks.insert(image_id.to_owned(), layers);
    }

    /// The layers of an image, base first.
    #[must_use]
    pub fn get(&self, image_id: &str) -> (layers: Option<&[String]>)
        ensures
            layers.deep_view() == ordered::lookup(self.deep_view(), image_id@),
    {
        match self.stacks.get(image_id) {
            Some(layers) => {
                let slice = layers.as_slice();
                assert(slice.deep_view() =~= layers.deep_view());
                Some(slice)
            },
            None => None,
        }
    }

    /// Whether the layers of an image are known.
    #[must_use]
    pub fn contains(&self, image_id: &str) -> (yes: bool)
        ensures
            yes == ordered::holds(self.deep_view(), image_id@),
    {
        self.stacks.contains_key(image_id)
    }

    /// How many images are known.
    #[must_use]
    pub fn len(&self) -> (len: usize)
        ensures
            len == self.deep_view().len(),
            ordered::ascending(self.deep_view()),
    {
        self.stacks.len()
    }

    /// Whether no image is known.
    #[must_use]
    pub fn is_empty(&self) -> (empty: bool)
        ensures
            empty == (self.deep_view().len() == 0),
    {
        self.stacks.is_empty()
    }

    /// Drop entries for images the daemon no longer has, so a long-running session does
    /// not accumulate the layer stacks of every image ever pulled.
    pub fn retain_known(&mut self, images: &[ImageSummary])
        ensures
            final(self).deep_view() == ordered::retained(
                old(self).deep_view(),
                image_ids(images.deep_view()),
            ),
    {
        let mut ids: Vec<String> = Vec::new();
        let mut i: usize = 0;
        while i < images.len()
            invariant
                i <= images@.len(),
                ids.deep_view() == image_ids(images.deep_view()).take(i as int),
            decreases images@.len() - i,
        {
            put(&mut ids, images[i].id.clone());
            i += 1;
            assert(ids.deep_view() =~= image_ids(images.deep_view()).take(i as int));
        }
        assert(ids.deep_view() =~= image_ids(images.deep_view()));
        self.stacks.retain_keys(&ids);
    }
}

// ------------------------------------------------------- containers and images

/// The containers built from an image.
pub open spec fn users_of(image: ImageView, containers: Seq<ContainerView>) -> Seq<ContainerView> {
    containers.filter(|c: ContainerView| c.image_id == image.id)
}

/// Containers built from this image, matched on the image ID the daemon recorded when
/// each container was created.
#[must_use]
pub fn containers_of<'a>(image: &ImageSummary, containers: &'a [ContainerSummary]) -> (users: Vec<
    &'a ContainerSummary,
>)
    ensures
        users.deep_view() == users_of(image.deep_view(), containers.deep_view()),
        users@.len() <= containers@.len(),
{
    let ghost all = containers.deep_view();
    let ghost p = |c: ContainerView| c.image_id == image.deep_view().id;
    let mut users: Vec<&ContainerSummary> = Vec::new();
    let mut i: usize = 0;
    proof {
        lists::lemma_filter_ends(all, p);
    }
    while i < containers.len()
        invariant
            i <= containers@.len(),
            all == containers.deep_view(),
            p == (|c: ContainerView| c.image_id == image.deep_view().id),
            users.deep_view() == all.take(i as int).filter(p),
            users@.len() <= i,
        decreases containers@.len() - i,
    {
        proof {
            lists::lemma_filter_step(all, p, i as int);
        }
        if same(containers[i].image_id.as_str(), image.id.as_str()) {
            put(&mut users, &containers[i]);
        }
        i += 1;
    }
    proof {
        lists::lemma_filter_ends(all, p);
    }
    users
}

/// The image a container runs.
pub open spec fn running(container: ContainerView, images: Seq<ImageView>) -> Option<ImageView> {
    lists::first_where(images, |i: ImageView| i.id == container.image_id)
}

/// The image a container is actually running.
#[must_use]
pub fn running_image<'a>(container: &ContainerSummary, images: &'a [ImageSummary]) -> (image:
    Option<&'a ImageSummary>)
    ensures
        image.deep_view() == running(container.deep_view(), images.deep_view()),
{
    let ghost all = images.deep_view();
    let ghost p = |i: ImageView| i.id == container.deep_view().image_id;
    let mut i: usize = 0;
    while i < images.len()
        invariant
            i <= images@.len(),
            all == images.deep_view(),
            p == (|i: ImageView| i.id == container.deep_view().image_id),
            forall|k: int| 0 <= k < i ==> !p(#[trigger] all[k]),
        decreases images@.len() - i,
    {
        if same(images[i].id.as_str(), container.image_id.as_str()) {
            proof {
                lists::lemma_first_where(all, p, i as int);
            }
            return Some(&images[i]);
        }
        i += 1;
    }
    proof {
        lists::lemma_first_where(all, p, i as int);
    }
    None
}

/// A reference with the tag that it implies: none for one by digest or id, and
/// for one whose last path segment has a tag.
pub open spec fn normalised(reference: Seq<char>) -> Seq<char> {
    if reference.contains('@') || "sha256:"@.is_prefix_of(reference) || text::after_last(
        reference,
        '/',
    ).contains(':') {
        reference
    } else {
        reference + ":latest"@
    }
}

/// Docker records `nginx` on a container but `nginx:latest` in the image's tags.
/// The colon in `registry:5000/thing` is part of the host, so only the final path
/// segment can carry a tag.
fn normalise_reference(reference: &str) -> (full: String)
    ensures
        full@ == normalised(reference@),
{
    if contains_char(reference, '@') || starts_with(reference, "sha256:") {
        return reference.to_owned();
    }
    let chars = chars_of(reference);
    let from: usize = last_part_start(&chars, '/');
    let segment = string_of(&chars, from, chars.len());
    proof {
        assert(segment@ =~= text::after_last(reference@, '/'));
    }
    if contains_char(segment.as_str(), ':') {
        reference.to_owned()
    } else {
        reference.to_owned().concat(":latest")
    }
}

/// Whether an image answers to a reference.
pub open spec fn answers_to(image: ImageView, reference: Seq<char>) -> bool {
    reference.len() > 0 && (image.id == reference || image.repo_digests.contains(reference)
        || image.repo_tags.contains(normalised(reference)))
}

/// Whether an image answers to a reference: by ID, by tag, or by digest.
#[must_use]
pub fn matches_reference(image: &ImageSummary, reference: &str) -> (yes: bool)
    ensures
        yes == answers_to(image.deep_view(), reference@),
{
    if reference.is_empty() {
        return false;
    }
    if same(image.id.as_str(), reference) {
        return true;
    }
    if contains_text(&image.repo_digests, reference) {
        return true;
    }
    let full = normalise_reference(reference);
    contains_text(&image.repo_tags, full.as_str())
}

/// The image that a container's reference names.
pub open spec fn tagged(container: ContainerView, images: Seq<ImageView>) -> Option<ImageView> {
    if container.image.len() == 0 {
        None
    } else {
        lists::first_where(images, |i: ImageView| answers_to(i, container.image))
    }
}

/// The image the container's reference names *now*.
///
/// A container records both the reference it was created from and the ID it actually
/// runs. Pull the same tag again and the tag moves to the new image while the container
/// keeps the old one, so these stop agreeing — see [`tag_has_moved`].
#[must_use]
pub fn tagged_image<'a>(container: &ContainerSummary, images: &'a [ImageSummary]) -> (image: Option<
    &'a ImageSummary,
>)
    ensures
        image.deep_view() == tagged(container.deep_view(), images.deep_view()),
{
    if container.image.as_str().is_empty() {
        return None;
    }
    let ghost all = images.deep_view();
    let ghost p = |i: ImageView| answers_to(i, container.deep_view().image);
    let mut i: usize = 0;
    while i < images.len()
        invariant
            i <= images@.len(),
            all == images.deep_view(),
            p == (|i: ImageView| answers_to(i, container.deep_view().image)),
            forall|k: int| 0 <= k < i ==> !p(#[trigger] all[k]),
        decreases images@.len() - i,
    {
        if matches_reference(&images[i], container.image.as_str()) {
            proof {
                lists::lemma_first_where(all, p, i as int);
            }
            return Some(&images[i]);
        }
        i += 1;
    }
    proof {
        lists::lemma_first_where(all, p, i as int);
    }
    None
}

/// Whether the reference of a container names another image than it runs.
pub open spec fn moved(container: ContainerView, images: Seq<ImageView>) -> bool {
    match tagged(container, images) {
        Some(image) => image.id != container.image_id,
        None => false,
    }
}

/// True when the reference a container was created from no longer names the image it
/// runs. The image it runs is then usually untagged, which is where those mystery
/// `<none>` entries come from.
#[must_use]
pub fn tag_has_moved(container: &ContainerSummary, images: &[ImageSummary]) -> (yes: bool)
    ensures
        yes == moved(container.deep_view(), images.deep_view()),
{
    match tagged_image(container, images) {
        Some(image) => !same(image.id.as_str(), container.image_id.as_str()),
        None => false,
    }
}

// --------------------------------------------------------------------- layers

/// How many items from the first on two lists have in common.
pub open spec fn common_prefix(left: Seq<Seq<char>>, right: Seq<Seq<char>>) -> nat
    decreases left.len(),
{
    if left.len() == 0 || right.len() == 0 || left[0] != right[0] {
        0
    } else {
        1 + common_prefix(left.skip(1), right.skip(1))
    }
}

/// `common_prefix` counts the items that agree, up to the first that do not.
pub proof fn lemma_common_prefix(left: Seq<Seq<char>>, right: Seq<Seq<char>>, at: int)
    requires
        0 <= at <= left.len(),
        at <= right.len(),
        forall|i: int| 0 <= i < at ==> #[trigger] left[i] == right[i],
        at < left.len() && at < right.len() ==> left[at] != right[at],
    ensures
        common_prefix(left, right) == at,
    decreases left.len(),
{
    if at > 0 {
        assert(left[0] == right[0]);
        assert forall|i: int| 0 <= i < at - 1 implies #[trigger] left.skip(1)[i]
            == right.skip(1)[i] by {
            assert(left[i + 1] == right[i + 1]);
        }
        lemma_common_prefix(left.skip(1), right.skip(1), at - 1);
    }
}

/// Two stacks share all of the lower one exactly when it is a prefix of the
/// other.
pub proof fn lemma_shared_is_prefix(left: Seq<Seq<char>>, right: Seq<Seq<char>>)
    ensures
        common_prefix(left, right) <= left.len(),
        common_prefix(left, right) <= right.len(),
        common_prefix(left, right) == right.len() <==> right.is_prefix_of(left),
    decreases left.len(),
{
    if left.len() > 0 && right.len() > 0 && left[0] == right[0] {
        lemma_shared_is_prefix(left.skip(1), right.skip(1));
        if right.skip(1).is_prefix_of(left.skip(1)) {
            assert forall|i: int| 0 <= i < right.len() implies left[i] == right[i] by {
                if i > 0 {
                    assert(left.skip(1)[i - 1] == left.skip(1).take(right.len() - 1)[i - 1]);
                    assert(right.skip(1)[i - 1] == right[i]);
                }
            }
            assert(right =~= left.subrange(0, right.len() as int));
        }
        if right.is_prefix_of(left) {
            assert forall|i: int| 0 <= i < right.len() implies left[i] == right[i] by {
                assert(left.subrange(0, right.len() as int)[i] == right[i]);
            }
            assert(right.skip(1) =~= left.skip(1).subrange(0, right.len() - 1));
        }
    } else if right.len() == 0 {
        assert(right =~= left.subrange(0, 0));
    } else if left.len() > 0 && right.is_prefix_of(left) {
        assert(left.subrange(0, right.len() as int)[0] == right[0]);
    }
}

/// How many layers, counting up from the base, two images have in common.
#[must_use]
pub fn shared_prefix(left: &[String], right: &[String]) -> (count: usize)
    ensures
        count == common_prefix(left.deep_view(), right.deep_view()),
        count <= left@.len(),
        count <= right@.len(),
{
    let mut i: usize = 0;
    while i < left.len() && i < right.len() && same(left[i].as_str(), right[i].as_str())
        invariant
            i <= left@.len(),
            i <= right@.len(),
            forall|k: int| 0 <= k < i ==> #[trigger] left.deep_view()[k] == right.deep_view()[k],
        decreases left@.len() - i,
    {
        i += 1;
    }
    proof {
        lemma_common_prefix(left.deep_view(), right.deep_view(), i as int);
    }
    i
}

/// Whether an image could be what a stack of layers was built on: its own
/// layers are known, and are a proper part of the stack from the base up.
pub open spec fn underlies(candidate: ImageView, own: Seq<Seq<char>>, layers: Layers) -> bool {
    match ordered::lookup(layers, candidate.id) {
        Some(theirs) => 0 < theirs.len() < own.len() && common_prefix(own, theirs) == theirs.len(),
        None => false,
    }
}

/// How many layers an image has.
pub open spec fn depth(image: ImageView, layers: Layers) -> nat {
    match ordered::lookup(layers, image.id) {
        Some(stack) => stack.len(),
        None => 0,
    }
}

/// Whether `a` has fewer layers than `b`, or as many and an id that does not
/// come after its.
pub open spec fn not_above(a: ImageView, b: ImageView, layers: Layers) -> bool {
    depth(a, layers) < depth(b, layers) || (depth(a, layers) == depth(b, layers) && text::at_most(
        a.id,
        b.id,
    ))
}

/// The deepest of the images that could underlie a stack.
pub open spec fn deepest(
    id: Seq<char>,
    own: Seq<Seq<char>>,
    images: Seq<ImageView>,
    layers: Layers,
) -> Option<ImageView>
    decreases images.len(),
{
    if images.len() == 0 {
        None
    } else {
        let best = deepest(id, own, images.drop_last(), layers);
        let last = images.last();
        if last.id == id || !underlies(last, own, layers) {
            best
        } else {
            match best {
                None => Some(last),
                Some(other) => if not_above(other, last, layers) {
                    Some(last)
                } else {
                    best
                },
            }
        }
    }
}

/// The image that an image was built on.
pub open spec fn base(image: ImageView, images: Seq<ImageView>, layers: Layers) -> Option<
    ImageView,
> {
    match ordered::lookup(layers, image.id) {
        Some(own) => deepest(image.id, own, images, layers),
        None => None,
    }
}

fn is_under(candidate: &ImageSummary, own: &[String], layers: &LayerIndex) -> (yes: bool)
    ensures
        yes == underlies(candidate.deep_view(), own.deep_view(), layers.deep_view()),
{
    match layers.get(candidate.id.as_str()) {
        Some(theirs) => theirs.len() > 0 && theirs.len() < own.len() && shared_prefix(own, theirs)
            == theirs.len(),
        None => false,
    }
}

/// How many layers an image has, as far as is known.
pub(crate) fn depth_of(image: &ImageSummary, layers: &LayerIndex) -> (count: usize)
    ensures
        count == depth(image.deep_view(), layers.deep_view()),
{
    match layers.get(image.id.as_str()) {
        Some(stack) => stack.len(),
        None => 0,
    }
}

/// The image this one was built `FROM`: the local image whose entire layer stack is a
/// proper prefix of this one's. The longest such match wins, so a Node image derived
/// from Alpine is reported against Node rather than against Alpine.
#[must_use]
pub fn base_of<'a>(image: &ImageSummary, images: &'a [ImageSummary], layers: &LayerIndex) -> (found:
    Option<&'a ImageSummary>)
    ensures
        found.deep_view() == base(image.deep_view(), images.deep_view(), layers.deep_view()),
{
    let own = match layers.get(image.id.as_str()) {
        Some(own) => own,
        None => {
            return None;
        },
    };
    let ghost all = images.deep_view();
    let ghost stack = own.deep_view();
    let ghost known = layers.deep_view();
    let mut best: Option<&'a ImageSummary> = None;
    let mut i: usize = 0;
    assert(all.take(0) =~= Seq::<ImageView>::empty());
    while i < images.len()
        invariant
            i <= images@.len(),
            all == images.deep_view(),
            stack == own.deep_view(),
            known == layers.deep_view(),
            best.deep_view() == deepest(image.id@, stack, all.take(i as int), known),
        decreases images@.len() - i,
    {
        proof {
            assert(all.take(i + 1).drop_last() =~= all.take(i as int));
            assert(all.take(i + 1).last() == all[i as int]);
        }
        let candidate = &images[i];
        if !same(candidate.id.as_str(), image.id.as_str()) && is_under(candidate, own, layers) {
            match best {
                None => {
                    best = Some(candidate);
                },
                Some(other) => {
                    let mine: usize = depth_of(candidate, layers);
                    let theirs: usize = depth_of(other, layers);
                    if theirs < mine || (theirs == mine && is_at_most(
                        other.id.as_str(),
                        candidate.id.as_str(),
                    )) {
                        best = Some(candidate);
                    }
                },
            }
        }
        i += 1;
    }
    assert(all.take(i as int) =~= all);
    best
}

/// The images that were built on an image.
pub open spec fn built_on(image: ImageView, images: Seq<ImageView>, layers: Layers) -> Seq<
    ImageView,
> {
    images.filter(
        |c: ImageView|
            c.id != image.id && (base(c, images, layers) matches Some(b) && b.id == image.id),
    )
}

/// Images built directly from this one. Only immediate descendants: an image whose own
/// base is something nearer belongs under that instead, so the relation stays a tree.
#[must_use]
pub fn derived_from<'a>(
    image: &ImageSummary,
    images: &'a [ImageSummary],
    layers: &LayerIndex,
) -> (found: Vec<&'a ImageSummary>)
    ensures
        found.deep_view() == built_on(image.deep_view(), images.deep_view(), layers.deep_view()),
{
    let ghost all = images.deep_view();
    let ghost known = layers.deep_view();
    let ghost p = |c: ImageView|
        c.id != image.deep_view().id && (base(c, all, known) matches Some(b) && b.id
            == image.deep_view().id);
    let mut found: Vec<&ImageSummary> = Vec::new();
    let mut i: usize = 0;
    proof {
        lists::lemma_filter_ends(all, p);
    }
    while i < images.len()
        invariant
            i <= images@.len(),
            all == images.deep_view(),
            known == layers.deep_view(),
            p == (|c: ImageView|
                c.id != image.deep_view().id && (base(c, all, known) matches Some(b) && b.id
                    == image.deep_view().id)),
            found.deep_view() == all.take(i as int).filter(p),
        decreases images@.len() - i,
    {
        proof {
            lists::lemma_filter_step(all, p, i as int);
        }
        let candidate = &images[i];
        if !same(candidate.id.as_str(), image.id.as_str()) {
            if let Some(under) = base_of(candidate, images, layers) {
                if same(under.id.as_str(), image.id.as_str()) {
                    put(&mut found, candidate);
                }
            }
        }
        i += 1;
    }
    proof {
        lists::lemma_filter_ends(all, p);
    }
    found
}

/// The other images with the same layers.
pub open spec fn twins(image: ImageView, images: Seq<ImageView>, layers: Layers) -> Seq<ImageView> {
    match ordered::lookup(layers, image.id) {
        Some(own) => if own.len() == 0 {
            Seq::empty()
        } else {
            images.filter(
                |c: ImageView| c.id != image.id && ordered::lookup(layers, c.id) == Some(own),
            )
        },
        None => Seq::empty(),
    }
}

fn same_texts(left: &[String], right: &[String]) -> (equal: bool)
    ensures
        equal == (left.deep_view() == right.deep_view()),
{
    if left.len() != right.len() {
        assert(left.deep_view().len() != right.deep_view().len());
        return false;
    }
    let mut i: usize = 0;
    while i < left.len()
        invariant
            i <= left@.len(),
            left@.len() == right@.len(),
            forall|k: int| 0 <= k < i ==> #[trigger] left.deep_view()[k] == right.deep_view()[k],
        decreases left@.len() - i,
    {
        if !same(left[i].as_str(), right[i].as_str()) {
            assert(left.deep_view()[i as int] != right.deep_view()[i as int]);
            return false;
        }
        i += 1;
    }
    assert(left.deep_view() =~= right.deep_view());
    true
}

/// Other images sharing this one's exact layer stack. Two configs over identical layers
/// differ only in metadata, so neither is the other's base.
#[must_use]
pub fn same_layers_as<'a>(
    image: &ImageSummary,
    images: &'a [ImageSummary],
    layers: &LayerIndex,
) -> (found: Vec<&'a ImageSummary>)
    ensures
        found.deep_view() == twins(image.deep_view(), images.deep_view(), layers.deep_view()),
{
    let mut found: Vec<&ImageSummary> = Vec::new();
    let own = match layers.get(image.id.as_str()) {
        Some(own) => own,
        None => {
            assert(found.deep_view() =~= Seq::<ImageView>::empty());
            return found;
        },
    };
    if own.len() == 0 {
        assert(found.deep_view() =~= Seq::<ImageView>::empty());
        return found;
    }
    let ghost all = images.deep_view();
    let ghost known = layers.deep_view();
    let ghost stack = own.deep_view();
    let ghost p = |c: ImageView|
        c.id != image.deep_view().id && ordered::lookup(known, c.id) == Some(stack);
    let mut i: usize = 0;
    proof {
        lists::lemma_filter_ends(all, p);
    }
    while i < images.len()
        invariant
            i <= images@.len(),
            all == images.deep_view(),
            known == layers.deep_view(),
            stack == own.deep_view(),
            p == (|c: ImageView|
                c.id != image.deep_view().id && ordered::lookup(known, c.id) == Some(stack)),
            found.deep_view() == all.take(i as int).filter(p),
        decreases images@.len() - i,
    {
        proof {
            lists::lemma_filter_step(all, p, i as int);
        }
        let candidate = &images[i];
        if !same(candidate.id.as_str(), image.id.as_str()) {
            if let Some(theirs) = layers.get(candidate.id.as_str()) {
                if same_texts(theirs, own) {
                    put(&mut found, candidate);
                }
            }
        }
        i += 1;
    }
    proof {
        lists::lemma_filter_ends(all, p);
    }
    found
}

// ----------------------------------------------------------------------- laws

proof fn lemma_not_above_total(a: ImageView, b: ImageView, layers: Layers)
    ensures
        not_above(a, b, layers) || not_above(b, a, layers),
        not_above(a, a, layers),
{
    text::lemma_at_most_total(a.id, b.id);
    text::lemma_at_most_total(a.id, a.id);
}

proof fn lemma_not_above_transitive(a: ImageView, b: ImageView, c: ImageView, layers: Layers)
    requires
        not_above(a, b, layers),
        not_above(b, c, layers),
    ensures
        not_above(a, c, layers),
{
    if depth(a, layers) == depth(b, layers) && depth(b, layers) == depth(c, layers) {
        text::lemma_at_most_transitive(a.id, b.id, c.id);
    }
}

proof fn lemma_deepest(id: Seq<char>, own: Seq<Seq<char>>, images: Seq<ImageView>, layers: Layers)
    ensures
        match deepest(id, own, images, layers) {
            Some(best) => {
                &&& images.contains(best)
                &&& best.id != id
                &&& underlies(best, own, layers)
                &&& forall|i: int|
                    0 <= i < images.len() && (#[trigger] images[i]).id != id && underlies(
                        images[i],
                        own,
                        layers,
                    ) ==> not_above(images[i], best, layers)
            },
            None => forall|i: int|
                0 <= i < images.len() ==> (#[trigger] images[i]).id == id || !underlies(
                    images[i],
                    own,
                    layers,
                ),
        },
    decreases images.len(),
{
    if images.len() > 0 {
        let front = images.drop_last();
        let last = images.last();
        assert(images[images.len() - 1] == last);
        lemma_deepest(id, own, front, layers);
        lemma_not_above_total(last, last, layers);
        if let Some(best) = deepest(id, own, front, layers) {
            let at = choose|at: int| 0 <= at < front.len() && front[at] == best;
            assert(images[at] == best);
            lemma_not_above_total(best, last, layers);
        }
        if let Some(now) = deepest(id, own, images, layers) {
            assert forall|i: int|
                0 <= i < images.len() && (#[trigger] images[i]).id != id && underlies(
                    images[i],
                    own,
                    layers,
                ) implies not_above(images[i], now, layers) by {
                if i < front.len() {
                    assert(front[i] == images[i]);
                    if let Some(best) = deepest(id, own, front, layers) {
                        if now != best {
                            lemma_not_above_transitive(images[i], best, now, layers);
                        }
                    }
                }
            }
        } else {
            assert forall|i: int| 0 <= i < images.len() implies (#[trigger] images[i]).id == id
                || !underlies(images[i], own, layers) by {
                if i < front.len() {
                    assert(front[i] == images[i]);
                }
            }
        }
    }
}

/// The base of an image is another image whose layers are all there and are a
/// proper part of its own from the base up; no other such image has more layers, and
/// none with as many has a greater id; and there is a base whenever there is such an
/// image.
pub proof fn law_base_is_the_longest_proper_prefix(
    image: ImageView,
    images: Seq<ImageView>,
    layers: Layers,
)
    ensures
        match base(image, images, layers) {
            Some(under) => {
                &&& images.contains(under)
                &&& under.id != image.id
                &&& ordered::lookup(layers, image.id) matches Some(own)
                &&& ordered::lookup(layers, under.id) matches Some(theirs)
                &&& 0 < theirs.len() < own.len()
                &&& theirs.is_prefix_of(own)
                &&& forall|i: int|
                    0 <= i < images.len() && (#[trigger] images[i]).id != image.id && underlies(
                        images[i],
                        own,
                        layers,
                    ) ==> depth(images[i], layers) < theirs.len() || (depth(images[i], layers)
                        == theirs.len() && text::at_most(images[i].id, under.id))
            },
            None => forall|i: int|
                0 <= i < images.len() && (#[trigger] images[i]).id != image.id ==> !(ordered::lookup(
                    layers,
                    image.id,
                ) matches Some(own) && underlies(images[i], own, layers)),
        },
{
    if let Some(own) = ordered::lookup(layers, image.id) {
        lemma_deepest(image.id, own, images, layers);
        if let Some(under) = base(image, images, layers) {
            let theirs = ordered::lookup(layers, under.id).unwrap();
            lemma_shared_is_prefix(own, theirs);
        }
    }
}

/// An image is listed among those derived from another exactly when that other
/// is its base, and no image is derived from itself.
pub proof fn law_derived_from_inverts_base_of(
    image: ImageView,
    other: ImageView,
    images: Seq<ImageView>,
    layers: Layers,
)
    requires
        images.contains(other),
    ensures
        built_on(image, images, layers).contains(other) <==> (base(other, images, layers) matches
            Some(under) && under.id == image.id),
        !built_on(image, images, layers).contains(image),
{
    let p = |c: ImageView|
        c.id != image.id && (base(c, images, layers) matches Some(b) && b.id == image.id);
    lists::lemma_filter_keeps(images, p);
    law_base_is_the_longest_proper_prefix(other, images, layers);
}

/// A tag has moved only when some other image than the one a container runs now
/// answers to its reference; a container whose own image still answers first has
/// not lost it.
pub proof fn law_moved_tag_names_another_image(container: ContainerView, images: Seq<ImageView>)
    ensures
        moved(container, images) ==> exists|i: int|
            0 <= i < images.len() && (#[trigger] images[i]).id != container.image_id && answers_to(
                images[i],
                container.image,
            ),
        container.image.len() == 0 ==> !moved(container, images),
{
    let p = |i: ImageView| answers_to(i, container.image);
    lists::lemma_first_where_is(images, p);
    if moved(container, images) {
        let image = tagged(container, images).unwrap();
        let i = choose|i: int| 0 <= i < images.len() && images[i] == image;
        assert(images[i].id != container.image_id);
    }
}

/// Two images over the same layers are twins of each other, and neither is the base of
/// the other.
pub proof fn law_twins_are_mutual(
    image: ImageView,
    twin: ImageView,
    images: Seq<ImageView>,
    layers: Layers,
)
    requires
        images.contains(image),
        twins(image, images, layers).contains(twin),
    ensures
        twins(twin, images, layers).contains(image),
        base(image, images, layers) matches Some(under) ==> under.id != twin.id,
        base(twin, images, layers) matches Some(under) ==> under.id != image.id,
{
    let own = ordered::lookup(layers, image.id)->0;
    let p = |c: ImageView| c.id != image.id && ordered::lookup(layers, c.id) == Some(own);
    lists::lemma_filter_keeps(images, p);
    assert(images.filter(p).contains(twin));
    let q = |c: ImageView| c.id != twin.id && ordered::lookup(layers, c.id) == Some(own);
    lists::lemma_filter_keeps(images, q);
    assert(images.filter(q).contains(image));
    law_base_is_the_longest_proper_prefix(image, images, layers);
    law_base_is_the_longest_proper_prefix(twin, images, layers);
}

/// A name without a tag stands for its latest one, also behind a registry with a port; a
/// name with a tag and one by digest stand for themselves.
pub proof fn law_references_imply_the_latest_tag(front: Seq<char>, name: Seq<char>, tag: Seq<char>)
    requires
        front.len() == 0 || front.last() == '/',
        !front.contains('@'),
        !name.contains('@'),
        !name.contains('/'),
        !name.contains(':'),
        !tag.contains('@'),
        !tag.contains('/'),
        !"sha256:"@.is_prefix_of(front + name),
    ensures
        normalised(front + name) == front + name + ":latest"@,
        normalised(front + name + seq![':'] + tag) == front + name + seq![':'] + tag,
        normalised(front + name + seq!['@'] + tag) == front + name + seq!['@'] + tag,
{
    let bare = front + name;
    lemma_after_front(front, name);
    assert(!bare.contains('@')) by {
        if bare.contains('@') {
            let i = choose|i: int| 0 <= i < bare.len() && bare[i] == '@';
            if i < front.len() {
                assert(front[i] == '@');
            } else {
                assert(name[i - front.len()] == '@');
            }
        }
    }
    let full = front + name + seq![':'] + tag;
    let last = name + seq![':'] + tag;
    assert(!last.contains('/')) by {
        if last.contains('/') {
            let i = choose|i: int| 0 <= i < last.len() && last[i] == '/';
            if i < name.len() {
                assert(name[i] == '/');
            } else {
                assert(tag[i - name.len() - 1] == '/');
            }
        }
    }
    lemma_after_front(front, last);
    assert(front + last =~= full);
    assert(last[name.len() as int] == ':');
    let digest = front + name + seq!['@'] + tag;
    assert(digest[(front.len() + name.len()) as int] == '@');
}

proof fn lemma_after_front(front: Seq<char>, last: Seq<char>)
    requires
        front.len() == 0 || front.last() == '/',
        !last.contains('/'),
    ensures
        text::after_last(front + last, '/') == last,
{
    let whole = front + last;
    text::lemma_after_last(whole, '/');
    assert forall|i: int| front.len() <= i < whole.len() implies whole[i] != '/' by {
        assert(last.contains(last[i - front.len()]));
    }
    let part = text::after_last(whole, '/');
    let from = whole.len() - part.len();
    if from > front.len() {
        assert(whole[from - 1] != '/');
    }
    if from < front.len() {
        assert(whole[front.len() - 1] == '/');
        assert(part[front.len() - 1 - from] == '/');
        assert(part.contains('/'));
    }
    assert(whole.skip(front.len() as int) =~= last);
}

/// An image answers to its id, to its digests and to its tags, and to a name whose latest tag
/// it carries; to nothing else, and never to a blank.
pub proof fn law_images_answer_to_their_own_names(image: ImageView, name: Seq<char>)
    ensures
        !answers_to(image, Seq::empty()),
        name.len() > 0 && image.id == name ==> answers_to(image, name),
        name.len() > 0 && image.repo_digests.contains(name) ==> answers_to(image, name),
        name.len() > 0 && image.repo_tags.contains(name) && normalised(name) == name ==> answers_to(
            image,
            name,
        ),
        name.len() > 0 && image.repo_tags.contains(name + ":latest"@) && normalised(name) == name
            + ":latest"@ ==> answers_to(image, name),
        answers_to(image, name) ==> image.id == name || image.repo_digests.contains(name)
            || image.repo_tags.contains(name) || image.repo_tags.contains(name + ":latest"@),
{
}

/// The containers of an image are those that run it: all of them, in their order, and no
/// others, whatever the name under which they were started.
pub proof fn law_an_image_is_used_by_what_runs_it(
    image: ImageView,
    containers: Seq<ContainerView>,
    next: ContainerView,
)
    ensures
        users_of(image, containers).contains(next) <==> containers.contains(next) && next.image_id
            == image.id,
        next.image_id == image.id ==> users_of(image, containers.push(next)) == users_of(
            image,
            containers,
        ).push(next),
        next.image_id != image.id ==> users_of(image, containers.push(next)) == users_of(
            image,
            containers,
        ),
        users_of(image, Seq::empty()).len() == 0,
{
    let p = |c: ContainerView| c.image_id == image.id;
    lists::lemma_filter_keeps(containers, p);
    reveal(Seq::filter);
    assert(containers.push(next).drop_last() =~= containers);
}

/// A container and the image it runs are found from each other; an image that is no longer
/// there is not found.
pub proof fn law_a_container_runs_the_image_it_is_used_by(
    container: ContainerView,
    images: Seq<ImageView>,
    containers: Seq<ContainerView>,
)
    requires
        containers.contains(container),
    ensures
        match running(container, images) {
            Some(image) => images.contains(image) && image.id == container.image_id && users_of(
                image,
                containers,
            ).contains(container),
            None => forall|i: int|
                0 <= i < images.len() ==> (#[trigger] images[i]).id != container.image_id,
        },
{
    let p = |i: ImageView| i.id == container.image_id;
    lists::lemma_first_where_is(images, p);
    if let Some(image) = running(container, images) {
        law_an_image_is_used_by_what_runs_it(image, containers, container);
    }
}

/// A tag has moved exactly when the first image that answers to a container's reference is
/// another one than it runs.
pub proof fn law_a_tag_moves_with_the_image_that_answers(
    container: ContainerView,
    images: Seq<ImageView>,
    at: int,
)
    requires
        0 <= at < images.len(),
        answers_to(images[at], container.image),
        forall|i: int| 0 <= i < at ==> !answers_to(#[trigger] images[i], container.image),
    ensures
        tagged(container, images) == Some(images[at]),
        moved(container, images) <==> images[at].id != container.image_id,
{
    lists::lemma_first_where(images, |i: ImageView| answers_to(i, container.image), at);
}

/// Layers underlie a stack exactly when they are its beginning and not the whole of it.
pub proof fn law_what_underlies_is_the_beginning(
    candidate: ImageView,
    own: Seq<Seq<char>>,
    layers: Layers,
)
    ensures
        underlies(candidate, own, layers) <==> (ordered::lookup(layers, candidate.id) matches Some(
            theirs,
        ) && 0 < theirs.len() < own.len() && theirs.is_prefix_of(own)),
{
    if let Some(theirs) = ordered::lookup(layers, candidate.id) {
        lemma_shared_is_prefix(own, theirs);
    }
}

/// Twins are the other images with the same layers, of those whose layers are known.
pub proof fn law_twins_have_the_same_layers(
    image: ImageView,
    images: Seq<ImageView>,
    layers: Layers,
    other: ImageView,
)
    ensures
        twins(image, images, layers).contains(other) <==> (ordered::lookup(layers, image.id) matches Some(
            own,
        ) && own.len() > 0 && images.contains(other) && other.id != image.id && ordered::lookup(
            layers,
            other.id,
        ) == Some(own)),
{
    if let Some(own) = ordered::lookup(layers, image.id) {
        let p = |c: ImageView| c.id != image.id && ordered::lookup(layers, c.id) == Some(own);
        lists::lemma_filter_keeps(images, p);
    }
}

/// The layers of the images that are still there are kept as they were, and no others are.
pub proof fn law_layers_are_kept_of_known_images(
    layers: Layers,
    images: Seq<ImageView>,
    id: Seq<char>,
)
    requires
        ordered::ascending(layers),
    ensures
        (exists|i: int| 0 <= i < images.len() && (#[trigger] images[i]).id == id)
            ==> ordered::lookup(ordered::retained(layers, image_ids(images)), id)
            == ordered::lookup(layers, id),
        (forall|i: int| 0 <= i < images.len() ==> (#[trigger] images[i]).id != id)
            ==> ordered::lookup(ordered::retained(layers, image_ids(images)), id) is None,
{
    ordered::law_retain_then_lookup(layers, image_ids(images), id);
    let ids = image_ids(images);
    if exists|i: int| 0 <= i < images.len() && (#[trigger] images[i]).id == id {
        let i = choose|i: int| 0 <= i < images.len() && (#[trigger] images[i]).id == id;
        assert(ids[i] == id);
    }
    if ids.contains(id) {
        let i = choose|i: int| 0 <= i < ids.len() && ids[i] == id;
        assert(images[i].id == id);
    }
}

} // verus!
