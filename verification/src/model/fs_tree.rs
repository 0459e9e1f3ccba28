//! A container's files, indexed from the archive the daemon streams.

use vstd::prelude::*;

use crate::lists;
use crate::lists::put;
use crate::model::format::bytes;
use crate::model::logs;
use crate::model::logs::decoded;
use crate::ordered;
use crate::ordered::TextMap;
use crate::text;
use crate::text::{
    chars_of, contains_char, find_char, last_part_start, parse_number, same, skip_chars,
    starts_with, string_of, strip_prefix, take_chars, trim,
};

verus! {

/// One tar header block.
pub const BLOCK: usize = 512;

/// How much of a subtree to stream before giving up. Generous enough for a
/// configuration directory, small enough that `/usr` on a large image fails fast
/// instead of pulling a gigabyte through the socket.
pub const DEFAULT_BUDGET: u64 = 64 * 1024 * 1024;

/// What a member of the archive is.
#[derive(Debug, Clone, Copy, PartialEq, Eq, Structural)]
pub enum EntryKind {
    File,
    Directory,
    Symlink,
    HardLink,
    /// Devices, fifos, sockets: listed, but nothing can be done with them here.
    Other,
}

/// The kind that a header's type flag stands for: `0`, NUL and `7` are files,
/// `1` a hard link, `2` a symbolic one and `5` a directory.
pub open spec fn kind_of(flag: u8) -> EntryKind {
    if flag == 48 || flag == 0 || flag == 55 {
        EntryKind::File
    } else if flag == 49 {
        EntryKind::HardLink
    } else if flag == 50 {
        EntryKind::Symlink
    } else if flag == 53 {
        EntryKind::Directory
    } else {
        EntryKind::Other
    }
}

impl EntryKind {
    /// Whether this is a directory.
    #[must_use]
    pub fn is_directory(self) -> (yes: bool)
        ensures
            yes == (self is Directory),
    {
        self == EntryKind::Directory
    }

    fn from_typeflag(flag: u8) -> (kind: Self)
        ensures
            kind == kind_of(flag),
    {
        match flag {
            48 | 0 | 55 => EntryKind::File,
            49 => EntryKind::HardLink,
            50 => EntryKind::Symlink,
            53 => EntryKind::Directory,
            _ => EntryKind::Other,
        }
    }
}

/// One member of the archive, as read from its header.
#[derive(Debug, Clone, PartialEq, Eq)]
pub struct Entry {
    /// As named in the tar, before being made absolute.
    pub name: String,
    pub size: u64,
    pub mode: u32,
    /// Seconds since the Unix epoch.
    pub mtime: i64,
    pub kind: EntryKind,
    /// Empty unless this is a link.
    pub link_target: String,
}

/// The value of an [`Entry`].
#[verifier::ext_equal]
pub struct EntryView {
    pub name: Seq<char>,
    pub size: u64,
    pub mode: u32,
    pub mtime: i64,
    pub kind: EntryKind,
    pub link_target: Seq<char>,
}

impl DeepView for Entry {
    type V = EntryView;

    open spec fn deep_view(&self) -> EntryView {
        EntryView {
            name: self.name@,
            size: self.size,
            mode: self.mode,
            mtime: self.mtime,
            kind: self.kind,
            link_target: self.link_target@,
        }
    }
}

/// A node in the indexed tree.
#[derive(Debug, Clone, PartialEq, Eq)]
pub struct Node {
    /// Absolute path within the container.
    pub path: String,
    /// The last component, which is what a browser displays.
    pub name: String,
    pub size: u64,
    pub mode: u32,
    pub mtime: i64,
    pub kind: EntryKind,
    pub link_target: String,
}

/// The value of a [`Node`].
#[verifier::ext_equal]
pub struct FileView {
    pub path: Seq<char>,
    pub name: Seq<char>,
    pub size: u64,
    pub mode: u32,
    pub mtime: i64,
    pub kind: EntryKind,
    pub link_target: Seq<char>,
}

impl DeepView for Node {
    type V = FileView;

    open spec fn deep_view(&self) -> FileView {
        FileView {
            path: self.path@,
            name: self.name@,
            size: self.size,
            mode: self.mode,
            mtime: self.mtime,
            kind: self.kind,
            link_target: self.link_target@,
        }
    }
}

// ----------------------------------------------------------------------- paths

/// A path with every run of slashes made one.
pub open spec fn collapsed(path: Seq<char>) -> Seq<char>
    decreases path.len(),
{
    if path.len() == 0 {
        path
    } else {
        let front = collapsed(path.drop_last());
        if path.last() == '/' && front.len() > 0 && front.last() == '/' {
            front
        } else {
            front.push(path.last())
        }
    }
}

/// A path without the slashes at its end, unless it is only one.
pub open spec fn without_trailing(path: Seq<char>) -> Seq<char>
    decreases path.len(),
{
    if path.len() > 1 && path.last() == '/' {
        without_trailing(path.drop_last())
    } else {
        path
    }
}

/// A path as its own key.
pub open spec fn normal(path: Seq<char>) -> Seq<char> {
    let path = without_trailing(collapsed(path));
    if path.len() == 0 {
        "/"@
    } else {
        path
    }
}

/// Strip trailing slashes and collapse doubled ones, so a path is its own key.
#[must_use]
pub fn normalise(path: &str) -> (key: String)
    ensures
        key@ == normal(path@),
{
    let chars = chars_of(path);
    let mut out: Vec<char> = Vec::new();
    let mut i: usize = 0;
    while i < chars.len()
        invariant
            i <= chars@.len(),
            chars@ == path@,
            out@ == collapsed(path@.take(i as int)),
        decreases chars@.len() - i,
    {
        proof {
            assert(path@.take(i + 1).drop_last() =~= path@.take(i as int));
            assert(path@.take(i + 1).last() == path@[i as int]);
        }
        let repeated = chars[i] == '/' && out.len() > 0 && out[out.len() - 1] == '/';
        if !repeated {
            out.push(chars[i]);
        }
        i += 1;
    }
    assert(path@.take(i as int) =~= path@);
    let mut n: usize = out.len();
    assert(out@.take(n as int) =~= out@);
    while n > 1 && out[n - 1] == '/'
        invariant
            n <= out@.len(),
            without_trailing(out@) == without_trailing(out@.take(n as int)),
        decreases n,
    {
        assert(out@.take(n as int).drop_last() =~= out@.take(n - 1));
        n -= 1;
    }
    if n == 0 {
        "/".to_owned()
    } else {
        assert(out@.take(n as int) =~= out@.subrange(0, n as int));
        string_of(&out, 0, n)
    }
}

/// Whether a path has no two slashes together.
pub open spec fn single_slashes(path: Seq<char>) -> bool {
    forall|i: int, j: int|
        0 <= i && j == i + 1 && j < path.len() && #[trigger] path[i] == '/' ==> #[trigger] path[j]
            != '/'
}

proof fn lemma_collapsed(path: Seq<char>)
    ensures
        single_slashes(collapsed(path)),
        path.len() > 0 ==> collapsed(path).len() > 0,
        collapsed(path).len() <= path.len(),
    decreases path.len(),
{
    if path.len() > 0 {
        lemma_collapsed(path.drop_last());
        let front = collapsed(path.drop_last());
        let all = collapsed(path);
        assert forall|i: int, j: int|
            0 <= i && j == i + 1 && j < all.len() && #[trigger] all[i]
                == '/' implies #[trigger] all[j] != '/' by {
            if j < front.len() {
                assert(front[i] == all[i] && front[j] == all[j]);
            }
        }
    }
}

proof fn lemma_collapsed_kept(path: Seq<char>)
    requires
        single_slashes(path),
    ensures
        collapsed(path) == path,
    decreases path.len(),
{
    if path.len() > 0 {
        let front = path.drop_last();
        assert forall|i: int, j: int|
            0 <= i && j == i + 1 && j < front.len() && #[trigger] front[i]
                == '/' implies #[trigger] front[j] != '/' by {
            assert(front[i] == path[i] && front[j] == path[j]);
        }
        lemma_collapsed_kept(front);
        if front.len() > 0 {
            assert(front.last() == path[path.len() - 2]);
        }
        assert(collapsed(path) =~= path);
    }
}

proof fn lemma_without_trailing(path: Seq<char>)
    requires
        single_slashes(path),
    ensures
        single_slashes(without_trailing(path)),
        without_trailing(path).len() > 1 ==> without_trailing(path).last() != '/',
        path.len() > 0 ==> without_trailing(path).len() > 0,
    decreases path.len(),
{
    if path.len() > 1 && path.last() == '/' {
        let front = path.drop_last();
        assert forall|i: int, j: int|
            0 <= i && j == i + 1 && j < front.len() && #[trigger] front[i]
                == '/' implies #[trigger] front[j] != '/' by {
            assert(front[i] == path[i] && front[j] == path[j]);
        }
        lemma_without_trailing(front);
    }
}

/// The names between the slashes of a path.
pub open spec fn components(path: Seq<char>) -> Seq<Seq<char>>
    decreases path.len(),
{
    if path.len() == 0 {
        Seq::empty()
    } else if path.last() == '/' {
        components(path.drop_last())
    } else {
        let name = text::after_last(path, '/');
        proof {
            text::lemma_after_last(path, '/');
        }
        components(path.take(path.len() - name.len())).push(name)
    }
}

proof fn lemma_collapsed_with_name(front: Seq<char>, name: Seq<char>)
    requires
        !name.contains('/'),
    ensures
        collapsed(front + name) == collapsed(front) + name,
    decreases name.len(),
{
    if name.len() == 0 {
        assert(front + name =~= front);
        assert(collapsed(front) + name =~= collapsed(front));
    } else {
        let rest = name.drop_last();
        assert(name.contains(name.last()));
        assert forall|c: char| rest.contains(c) implies name.contains(c) by {
            let i = choose|i: int| 0 <= i < rest.len() && rest[i] == c;
            assert(name[i] == c);
        }
        lemma_collapsed_with_name(front, rest);
        assert((front + name).drop_last() =~= front + rest);
        assert((collapsed(front) + rest).push(name.last()) =~= collapsed(front) + name);
    }
}

proof fn lemma_only_name(name: Seq<char>)
    requires
        !name.contains('/'),
    ensures
        text::after_last(name, '/') == name,
{
    text::lemma_after_last(name, '/');
    let n = text::after_last(name, '/').len();
    if n < name.len() {
        assert(name.contains(name[name.len() - n - 1]));
    }
    assert(name.skip(0) =~= name);
}

proof fn lemma_components_collapsed(path: Seq<char>)
    ensures
        components(collapsed(path)) == components(path),
    decreases path.len(),
{
    if path.len() > 0 && path.last() == '/' {
        lemma_components_collapsed(path.drop_last());
        let front = collapsed(path.drop_last());
        assert(front.push('/').drop_last() =~= front);
    } else if path.len() > 0 {
        text::lemma_after_last(path, '/');
        let name = text::after_last(path, '/');
        let front = path.take(path.len() - name.len());
        assert(path =~= front + name);
        lemma_collapsed_with_name(front, name);
        lemma_components_collapsed(front);
        let start = collapsed(front);
        let whole = start + name;
        lemma_collapsed(front);
        if front.len() > 0 {
            assert(front.last() == '/');
            assert(start.last() == '/');
            lemma_after_last_of(start.drop_last(), name);
            assert(start.drop_last().push('/') =~= start);
        } else {
            assert(whole =~= name);
            lemma_only_name(name);
        }
        assert(whole.last() == path.last());
        assert(whole.take(whole.len() - name.len()) =~= start);
    }
}

proof fn lemma_components_without_trailing(path: Seq<char>)
    ensures
        components(without_trailing(path)) == components(path),
    decreases path.len(),
{
    if path.len() > 1 && path.last() == '/' {
        lemma_components_without_trailing(path.drop_last());
    }
}

/// A normalised path is never empty, has the names of the path between its slashes, has
/// no two slashes together, does not end in one unless it is the root, and normalising it
/// again changes nothing.
pub proof fn law_normalising_is_final(path: Seq<char>)
    ensures
        normal(path).len() > 0,
        components(normal(path)) == components(path),
        single_slashes(normal(path)),
        normal(path).len() > 1 ==> normal(path).last() != '/',
        normal(normal(path)) == normal(path),
{
    reveal_strlit("/");
    lemma_collapsed(path);
    lemma_without_trailing(collapsed(path));
    lemma_collapsed_kept(normal(path));
    assert(without_trailing(normal(path)) == normal(path));
    lemma_components_collapsed(path);
    lemma_components_without_trailing(collapsed(path));
    assert("/"@.drop_last() =~= Seq::<char>::empty());
    assert(components("/"@) == components("/"@.drop_last()));
}

/// What stands before the last slash of a normalised path.
pub open spec fn parent_text(path: Seq<char>) -> Seq<char> {
    let path = normal(path);
    let name = text::after_last(path, '/');
    if name.len() + 1 >= path.len() {
        "/"@
    } else {
        path.take(path.len() - name.len() - 1)
    }
}

/// The directory that holds a path; the root holds itself.
#[must_use]
pub fn parent_of(path: &str) -> (parent: String)
    ensures
        parent@ == parent_text(path@),
{
    let path = normalise(path);
    let chars = chars_of(path.as_str());
    let from: usize = last_part_start(&chars, '/');
    if from <= 1 {
        "/".to_owned()
    } else {
        assert(path@.take(from - 1) =~= path@.subrange(0, from - 1));
        string_of(&chars, 0, from - 1)
    }
}

/// What stands behind the last slash of a normalised path.
pub open spec fn name_text(path: Seq<char>) -> Seq<char> {
    let path = normal(path);
    let name = text::after_last(path, '/');
    if path.len() > 1 {
        name
    } else {
        path
    }
}

/// The last component of a path; the root is its own.
#[must_use]
pub fn base_name(path: &str) -> (name: String)
    ensures
        name@ == name_text(path@),
{
    let path = normalise(path);
    let chars = chars_of(path.as_str());
    if chars.len() > 1 {
        let from: usize = last_part_start(&chars, '/');
        assert(path@.skip(from as int) =~= path@.subrange(from as int, path@.len() as int));
        string_of(&chars, from, chars.len())
    } else {
        path
    }
}

/// A text without the slashes at its end.
pub open spec fn trimmed_slashes(text: Seq<char>) -> Seq<char>
    decreases text.len(),
{
    if text.len() > 0 && text.last() == '/' {
        trimmed_slashes(text.drop_last())
    } else {
        text
    }
}

/// The absolute path of a member.
pub open spec fn absolute(root: Seq<char>, member: Seq<char>) -> Seq<char> {
    let member = trimmed_slashes(member);
    let parent = parent_text(root);
    if "/"@.is_prefix_of(member) {
        normal(member)
    } else if parent == "/"@ {
        normal("/"@ + member)
    } else {
        normal(parent + "/"@ + member)
    }
}

fn trim_slashes(text: &str) -> (rest: &str)
    ensures
        rest@ == trimmed_slashes(text@),
{
    let chars = chars_of(text);
    let mut n: usize = chars.len();
    assert(text@.take(n as int) =~= text@);
    while n > 0 && chars[n - 1] == '/'
        invariant
            n <= chars@.len(),
            chars@ == text@,
            trimmed_slashes(text@) == trimmed_slashes(text@.take(n as int)),
        decreases n,
    {
        assert(text@.take(n as int).drop_last() =~= text@.take(n - 1));
        n -= 1;
    }
    take_chars(text, n)
}

/// Make a member name absolute.
///
/// Member names are relative to the parent of the requested path, so `/etc` yields
/// `etc/hosts`. Asking for `/` is the exception: those names are already absolute.
#[must_use]
pub fn absolute_path(root: &str, member: &str) -> (path: String)
    ensures
        path@ == absolute(root@, member@),
{
    let member = trim_slashes(member);
    if starts_with(member, "/") {
        return normalise(member);
    }
    let parent = parent_of(root);
    if same(parent.as_str(), "/") {
        normalise("/".to_owned().concat(member).as_str())
    } else {
        normalise(parent.concat("/").concat(member).as_str())
    }
}

/// Whether a path sits directly inside a directory.
pub open spec fn child_of(parent: Seq<char>, candidate: Seq<char>) -> bool {
    candidate != parent && (match text::without_prefix(candidate, parent) {
        Some(rest) => {
            let inner = match text::without_prefix(rest, "/"@) {
                Some(inner) => Some(inner),
                None => if parent == "/"@ {
                    Some(rest)
                } else {
                    None
                },
            };
            inner matches Some(name) && name.len() > 0 && !name.contains('/')
        },
        None => false,
    })
}

/// True when `candidate` sits directly inside `parent`.
fn is_child_of(parent: &str, candidate: &str) -> (yes: bool)
    ensures
        yes == child_of(parent@, candidate@),
{
    if same(candidate, parent) {
        return false;
    }
    match strip_prefix(candidate, parent) {
        Some(rest) => match strip_prefix(rest, "/") {
            Some(inner) => !inner.is_empty() && !contains_char(inner, '/'),
            None => same(parent, "/") && !rest.is_empty() && !contains_char(rest, '/'),
        },
        None => false,
    }
}

// ------------------------------------------------------------------------ tree

/// The value of an [`FsTree`]: its nodes by path, in the order of paths.
pub type Files = Seq<(Seq<char>, FileView)>;

/// The indexed filesystem, keyed by absolute path.
#[derive(Debug, Clone, Default, PartialEq, Eq)]
pub struct FsTree {
    nodes: TextMap<Node>,
}

impl DeepView for FsTree {
    type V = Files;

    closed spec fn deep_view(&self) -> Files {
        self.nodes.deep_view()
    }
}

/// The nodes directly inside a directory, in the order of their paths.
pub open spec fn children_of(files: Files, path: Seq<char>) -> Seq<FileView> {
    files.map_values(|entry: (Seq<char>, FileView)| entry.1).filter(
        |node: FileView| child_of(normal(path), node.path),
    )
}

impl FsTree {
    /// A tree without nodes.
    #[must_use]
    pub fn new() -> (tree: Self)
        ensures
            tree.deep_view() == Files::empty(),
    {
        FsTree { nodes: TextMap::new() }
    }

    /// The node at a path.
    #[must_use]
    pub fn get(&self, path: &str) -> (node: Option<&Node>)
        ensures
            node.deep_view() == ordered::lookup(self.deep_view(), normal(path@)),
    {
        let key = normalise(path);
        self.nodes.get(key.as_str())
    }

    /// How many nodes there are.
    #[must_use]
    pub fn len(&self) -> (len: usize)
        ensures
            len == self.deep_view().len(),
            ordered::ascending(self.deep_view()),
    {
        self.nodes.len()
    }

    /// Whether there is no node.
    #[must_use]
    pub fn is_empty(&self) -> (empty: bool)
        ensures
            empty == (self.deep_view().len() == 0),
    {
        self.nodes.is_empty()
    }

    /// The immediate children of a directory, in name order.
    ///
    /// Ordered by path, so a listing is stable between calls rather than
    /// reshuffling as the index fills in.
    #[must_use]
    pub fn children(&self, path: &str) -> (found: Vec<&Node>)
        ensures
            found.deep_view() == children_of(self.deep_view(), path@),
    {
        let parent = normalise(path);
        let ghost all = self.nodes.deep_view().map_values(|entry: (Seq<char>, FileView)| entry.1);
        let ghost p = |node: FileView| child_of(normal(path@), node.path);
        let mut found: Vec<&Node> = Vec::new();
        let mut i: usize = 0;
        proof {
            lists::lemma_filter_ends(all, p);
        }
        while i < self.nodes.len()
            invariant
                i <= self.nodes@.len(),
                parent@ == normal(path@),
                all == self.nodes.deep_view().map_values(
                    |entry: (Seq<char>, FileView)| entry.1,
                ),
                p == (|node: FileView| child_of(normal(path@), node.path)),
                found.deep_view() == all.take(i as int).filter(p),
            decreases self.nodes@.len() - i,
        {
            let node = self.nodes.value_at(i);
            proof {
                lists::lemma_filter_step(all, p, i as int);
                assert(all[i as int] == node.deep_view());
            }
            if is_child_of(parent.as_str(), node.path.as_str()) {
                put(&mut found, node);
            }
            i += 1;
        }
        proof {
            lists::lemma_filter_ends(all, p);
        }
        found
    }

    /// Puts a node under its path, in place of what was there.
    pub fn insert(&mut self, node: Node)
        ensures
            final(self).deep_view() == ordered::inserted(
                old(self).deep_view(),
                node.path@,
                node.deep_view(),
            ),
    {
        self.nodes.insert(node.path.clone(), node);
    }
}

// --------------------------------------------------------------------- headers

/// Some bytes up to the first that is zero.
pub open spec fn before_zero(bytes: Seq<u8>) -> Seq<u8>
    decreases bytes.len(),
{
    if bytes.len() == 0 || bytes[0] == 0 {
        Seq::empty()
    } else {
        seq![bytes[0]] + before_zero(bytes.skip(1))
    }
}

/// The text of a header field: up to the first zero, without white space at its
/// ends.
pub open spec fn field_text(bytes: Seq<u8>) -> Seq<char> {
    text::trimmed(logs::text_in(before_zero(bytes)))
}

fn zero_at(bytes: &[u8]) -> (at: usize)
    ensures
        at <= bytes@.len(),
        bytes@.take(at as int) == before_zero(bytes@),
{
    let mut i: usize = 0;
    assert(bytes@.skip(0) =~= bytes@);
    assert(bytes@.take(0) + before_zero(bytes@) =~= before_zero(bytes@));
    while i < bytes.len() && bytes[i] != 0
        invariant
            i <= bytes@.len(),
            bytes@.take(i as int) + before_zero(bytes@.skip(i as int)) == before_zero(bytes@),
        decreases bytes@.len() - i,
    {
        proof {
            let rest = bytes@.skip(i as int);
            assert(rest.skip(1) =~= bytes@.skip(i + 1));
            assert(bytes@.take(i as int) + (seq![rest[0]] + before_zero(rest.skip(1)))
                =~= bytes@.take(i + 1) + before_zero(bytes@.skip(i + 1)));
        }
        i += 1;
    }
    assert(bytes@.take(i as int) + Seq::<u8>::empty() =~= bytes@.take(i as int));
    i
}

/// Header fields are NUL-padded ASCII.
fn text_of(bytes: &[u8]) -> (text: String)
    ensures
        text@ == field_text(bytes@),
{
    let end: usize = zero_at(bytes);
    let kept = vstd::slice::slice_subrange(bytes, 0, end);
    assert(kept@ =~= before_zero(bytes@));
    let text = decoded(kept);
    trim(text.as_str()).to_owned()
}

/// The number in an octal field; zero for a text that is not one.
pub open spec fn octal(text: Seq<char>) -> u64 {
    match text::number_in(text::trimmed(text), 8, u64::MAX as nat) {
        Some(n) => n as u64,
        None => 0,
    }
}

/// The number in an octal field; zero for a text that is not one.
#[must_use]
pub fn octal_value(text: &str) -> (value: u64)
    ensures
        value == octal(text@),
{
    match parse_number(trim(text), 8, u64::MAX) {
        Some(n) => n,
        None => 0,
    }
}

/// The low 64 bits of a number in base 256 whose first byte has a flag in its
/// top bit.
pub open spec fn base256(bytes: Seq<u8>) -> nat
    decreases bytes.len(),
{
    if bytes.len() == 0 {
        0
    } else if bytes.len() == 1 {
        (bytes[0] % 128) as nat
    } else {
        (base256(bytes.drop_last()) * 256) % 0x1_0000_0000_0000_0000 + bytes.last() as nat
    }
}

/// The number in a header field.
pub open spec fn field_number(bytes: Seq<u8>) -> u64 {
    if bytes.len() > 0 && bytes[0] >= 128 {
        base256(bytes) as u64
    } else {
        octal(field_text(bytes))
    }
}

/// Numeric fields are octal ASCII, except that GNU uses base 256 with the top bit set
/// for values too large to fit.
fn numeric(bytes: &[u8]) -> (value: u64)
    ensures
        value == field_number(bytes@),
{
    if bytes.len() > 0 && bytes[0] >= 128 {
        let mut total: u64 = (bytes[0] % 128) as u64;
        let mut i: usize = 1;
        assert(bytes@.take(1)[0] == bytes@[0]);
        while i < bytes.len()
            invariant
                1 <= i <= bytes@.len(),
                total == base256(bytes@.take(i as int)),
            decreases bytes@.len() - i,
        {
            proof {
                assert(bytes@.take(i + 1).drop_last() =~= bytes@.take(i as int));
                assert(bytes@.take(i + 1).last() == bytes@[i as int]);
            }
            total = (total % 0x100_0000_0000_0000) * 256 + bytes[i] as u64;
            i += 1;
        }
        assert(bytes@.take(i as int) =~= bytes@);
        return total;
    }
    let digits = text_of(bytes);
    octal_value(digits.as_str())
}

/// Bytes of padding after `size` bytes of content.
pub open spec fn padding_of(size: nat) -> nat {
    if size % 512 == 0 {
        0
    } else {
        (512 - size % 512) as nat
    }
}

/// Bytes of padding after `size` bytes of content.
#[must_use]
pub fn padding(size: u64) -> (bytes: u64)
    ensures
        bytes == padding_of(size as nat),
        bytes < 512,
{
    let remainder: u64 = size % 512;
    if remainder == 0 {
        0
    } else {
        512 - remainder
    }
}

/// What content of this size takes up, padding included, as far as 64 bits can
/// count.
pub open spec fn occupied(size: u64) -> nat {
    let whole = size + padding_of(size as nat);
    if whole > u64::MAX {
        u64::MAX as nat
    } else {
        whole as nat
    }
}

fn occupied_by(size: u64) -> (bytes: u64)
    ensures
        bytes == occupied(size),
{
    size.saturating_add(padding(size))
}

/// The name in a header: `ustar` splits a long one into a prefix and a name.
pub open spec fn header_name(block: Seq<u8>) -> Seq<char> {
    let name = field_text(block.subrange(0, 100));
    let prefix = field_text(block.subrange(345, 500));
    if prefix.len() == 0 {
        name
    } else {
        prefix + "/"@ + name
    }
}

/// `ustar` splits a long name into a prefix and a name field.
fn ustar_name(block: &[u8]) -> (name: String)
    requires
        block@.len() == 512,
    ensures
        name@ == header_name(block@),
{
    let name = text_of(vstd::slice::slice_subrange(block, 0, 100));
    let prefix = text_of(vstd::slice::slice_subrange(block, 345, 500));
    if prefix.as_str().is_empty() {
        name
    } else {
        prefix.concat("/").concat(name.as_str())
    }
}

/// The size that a header gives.
pub open spec fn header_size(block: Seq<u8>) -> u64 {
    field_number(block.subrange(124, 136))
}

/// The member that a header describes, under a name.
pub open spec fn header_entry(block: Seq<u8>, name: Seq<char>) -> EntryView {
    let mode = field_number(block.subrange(100, 108));
    let mtime = field_number(block.subrange(136, 148));
    EntryView {
        name,
        size: header_size(block),
        mode: if mode <= u32::MAX {
            mode as u32
        } else {
            0
        },
        mtime: if mtime <= i64::MAX {
            mtime as i64
        } else {
            0
        },
        kind: kind_of(block[156]),
        link_target: field_text(block.subrange(157, 257)),
    }
}

fn entry_of(block: &[u8], name: String) -> (entry: Entry)
    requires
        block@.len() == 512,
    ensures
        entry.deep_view() == header_entry(block@, name@),
{
    let mode: u64 = numeric(vstd::slice::slice_subrange(block, 100, 108));
    let mtime: u64 = numeric(vstd::slice::slice_subrange(block, 136, 148));
    Entry {
        name,
        size: numeric(vstd::slice::slice_subrange(block, 124, 136)),
        mode: if mode <= u32::MAX as u64 {
            mode as u32
        } else {
            0
        },
        mtime: if mtime <= i64::MAX as u64 {
            mtime as i64
        } else {
            0
        },
        kind: EntryKind::from_typeflag(block[156]),
        link_target: text_of(vstd::slice::slice_subrange(block, 157, 257)),
    }
}

/// Whether every byte is zero.
pub open spec fn blank(block: Seq<u8>) -> bool {
    forall|i: int| 0 <= i < block.len() ==> #[trigger] block[i] == 0
}

fn is_blank(block: &[u8]) -> (yes: bool)
    ensures
        yes == blank(block@),
{
    let mut i: usize = 0;
    while i < block.len()
        invariant
            i <= block@.len(),
            forall|k: int| 0 <= k < i ==> #[trigger] block@[k] == 0,
        decreases block@.len() - i,
    {
        if block[i] != 0 {
            assert(block@[i as int] != 0);
            return false;
        }
        i += 1;
    }
    true
}

// ------------------------------------------------------------ extended headers

/// What an extended header is.
#[derive(Debug, Clone, Copy, PartialEq, Eq, Structural)]
pub enum ExtendedKind {
    /// GNU: the content is the next entry's name.
    LongName,
    /// PAX: the content is `length key=value\n` records.
    Pax,
}

/// How many bytes UTF-8 takes for a character.
pub open spec fn width(c: char) -> nat {
    let code = c as u32;
    if code < 0x80 {
        1
    } else if code < 0x800 {
        2
    } else if code < 0x1_0000 {
        3
    } else {
        4
    }
}

fn width_of(c: char) -> (bytes: usize)
    ensures
        bytes == width(c),
{
    let code: u32 = c as u32;
    if code < 0x80 {
        1
    } else if code < 0x800 {
        2
    } else if code < 0x1_0000 {
        3
    } else {
        4
    }
}

/// How many characters from the first on take exactly so many bytes of UTF-8.
pub open spec fn chars_in(text: Seq<char>, bytes: int) -> Option<nat>
    decreases text.len(),
{
    if bytes == 0 {
        Some(0)
    } else if bytes < 0 || text.len() == 0 {
        None
    } else {
        match chars_in(text.skip(1), bytes - width(text[0])) {
            Some(n) => Some(n + 1),
            None => None,
        }
    }
}

fn chars_within(chars: &Vec<char>, from: usize, bytes: usize) -> (count: Option<usize>)
    requires
        from <= chars@.len(),
    ensures
        match chars_in(chars@.skip(from as int), bytes as int) {
            Some(n) => count == Some(n as usize) && from + n <= chars@.len(),
            None => count is None,
        },
{
    let mut left: usize = bytes;
    let mut i: usize = from;
    let ghost goal = chars_in(chars@.skip(from as int), bytes as int);
    while left > 0 && i < chars.len()
        invariant
            from <= i <= chars@.len(),
            goal == chars_in(chars@.skip(from as int), bytes as int),
            goal == (match chars_in(chars@.skip(i as int), left as int) {
                Some(n) => Some((n + (i - from)) as nat),
                None => None,
            }),
        decreases chars@.len() - i,
    {
        let step: usize = width_of(chars[i]);
        assert(chars@.skip(i as int).skip(1) =~= chars@.skip(i + 1));
        if step > left {
            assert(chars_in(chars@.skip(i + 1), left - step) is None);
            return None;
        }
        left -= step;
        i += 1;
    }
    if left > 0 {
        None
    } else {
        Some(i - from)
    }
}

/// A text without the line feeds at its end.
pub open spec fn trimmed_feeds(text: Seq<char>) -> Seq<char>
    decreases text.len(),
{
    if text.len() > 0 && text.last() == '\n' {
        trimmed_feeds(text.drop_last())
    } else {
        text
    }
}

fn trim_feeds(text: &str) -> (rest: &str)
    ensures
        rest@ == trimmed_feeds(text@),
{
    let chars = chars_of(text);
    let mut n: usize = chars.len();
    assert(text@.take(n as int) =~= text@);
    while n > 0 && chars[n - 1] == '\n'
        invariant
            n <= chars@.len(),
            chars@ == text@,
            trimmed_feeds(text@) == trimmed_feeds(text@.take(n as int)),
        decreases n,
    {
        assert(text@.take(n as int).drop_last() =~= text@.take(n - 1));
        n -= 1;
    }
    take_chars(text, n)
}

/// Where the record that a PAX text begins with ends, in characters: behind as
/// many bytes as its length says, which have to reach beyond the space.
pub open spec fn record_end(text: Seq<char>) -> Option<nat> {
    let space = text::find(text, ' ') as int;
    if space >= text.len() {
        None
    } else {
        match text::number_in(text.take(space), 10, usize::MAX as nat) {
            Some(length) => if length == 0 {
                None
            } else {
                match chars_in(text, length as int) {
                    Some(n) => if n > space {
                        Some(n)
                    } else {
                        None
                    },
                    None => None,
                }
            },
            None => None,
        }
    }
}

/// The path in PAX records, each `<length> <key>=<value>\n`. The first record
/// with one counts, and a record that cannot be read ends the search.
pub open spec fn pax_path(text: Seq<char>) -> Option<Seq<char>>
    decreases text.len(),
{
    match record_end(text) {
        Some(end) => if 0 < end <= text.len() {
            match text::without_prefix(text.subrange(text::find(text, ' ') as int + 1, end as int), "path="@) {
                Some(value) => Some(trimmed_feeds(value)),
                None => pax_path(text.skip(end as int)),
            }
        } else {
            None
        },
        None => None,
    }
}

/// Pull `path=` out of PAX records, each `<length> <key>=<value>\n`.
#[must_use]
pub fn path_in_records(text: &str) -> (path: Option<String>)
    ensures
        path.deep_view() == pax_path(text@),
{
    let chars = chars_of(text);
    let ghost all = text@;
    let mut from: usize = 0;
    assert(all.skip(0) =~= all);
    while from < chars.len()
        invariant
            from <= chars@.len(),
            chars@ == all,
            all == text@,
            pax_path(all) == pax_path(all.skip(from as int)),
        decreases chars@.len() - from,
    {
        let rest = skip_chars(text, from);
        let rest_chars = chars_of(rest);
        let ghost left = all.skip(from as int);
        proof {
            text::lemma_find(left, ' ');
            assert(rest_chars@.skip(0) =~= left);
        }
        let space: usize = find_char(&rest_chars, ' ');
        if space == rest_chars.len() {
            return None;
        }
        let length: usize = match parse_number(take_chars(rest, space), 10, usize::MAX as u64) {
            Some(n) => n as usize,
            None => {
                return None;
            },
        };
        if length == 0 {
            return None;
        }
        let end: usize = match chars_within(&rest_chars, 0, length) {
            Some(n) => n,
            None => {
                return None;
            },
        };
        if end <= space {
            return None;
        }
        let record = string_of(&rest_chars, space + 1, end);
        if let Some(value) = strip_prefix(record.as_str(), "path=") {
            return Some(trim_feeds(value).to_owned());
        }
        proof {
            assert(left.skip(end as int) =~= all.skip(from + end));
        }
        from += end;
    }
    proof {
        let left = all.skip(from as int);
        assert(left.len() == 0);
        text::lemma_find(left, ' ');
    }
    None
}

/// The name that an extended header gives, if any.
#[verifier::opaque]
pub open spec fn extended_text(kind: ExtendedKind, data: Seq<u8>) -> Option<Seq<char>> {
    match kind {
        ExtendedKind::LongName => if field_text(data).len() > 0 {
            Some(field_text(data))
        } else {
            None
        },
        ExtendedKind::Pax => pax_path(logs::text_in(data)),
    }
}

fn extended_name(kind: ExtendedKind, data: &Vec<u8>) -> (name: Option<String>)
    ensures
        name.deep_view() == extended_text(kind, data@),
{
    reveal(extended_text);
    match kind {
        ExtendedKind::LongName => {
            let name = text_of(data.as_slice());
            if name.as_str().is_empty() {
                None
            } else {
                Some(name)
            }
        },
        ExtendedKind::Pax => {
            let text = decoded(data.as_slice());
            path_in_records(text.as_str())
        },
    }
}

// -------------------------------------------------------------------- scanning

/// An extended header whose content is being collected.
#[verifier::ext_equal]
pub struct Collecting {
    pub kind: ExtendedKind,
    pub remaining: nat,
    pub data: Seq<u8>,
}

/// How far an archive has been read.
#[verifier::ext_equal]
pub struct ScanView {
    /// Header bytes so far; never a whole block.
    pub header: Seq<u8>,
    /// Content and padding still to discard.
    pub skipping: nat,
    /// A name from a preceding extended header.
    pub pending: Option<Seq<char>>,
    pub collecting: Option<Collecting>,
}

/// The beginning of an archive.
pub open spec fn scan_start() -> ScanView {
    ScanView { header: Seq::empty(), skipping: 0, pending: None, collecting: None }
}

/// The scan once an extended header that is complete has been taken in.
pub open spec fn settled(scan: ScanView) -> ScanView {
    match scan.collecting {
        Some(c) => if c.remaining == 0 {
            ScanView {
                pending: extended_text(c.kind, c.data),
                skipping: padding_of(c.data.len()),
                collecting: None,
                ..scan
            }
        } else {
            scan
        },
        None => scan,
    }
}

/// The scan once a header block has been interpreted.
#[verifier::opaque]
pub open spec fn after_block(scan: ScanView, block: Seq<u8>) -> ScanView {
    let size = header_size(block);
    let flag = block[156];
    if blank(block) {
        scan
    } else if flag == 76 {
        // `L`
        ScanView {
            collecting: Some(
                Collecting {
                    kind: ExtendedKind::LongName,
                    remaining: size as nat,
                    data: Seq::empty(),
                },
            ),
            ..scan
        }
    } else if flag == 120 || flag == 88 {
        // `x` and `X`
        ScanView {
            collecting: Some(
                Collecting {
                    kind: ExtendedKind::Pax,
                    remaining: size as nat,
                    data: Seq::empty(),
                },
            ),
            ..scan
        }
    } else if flag == 103 || flag == 75 {
        // `g` and `K`
        ScanView { skipping: occupied(size), ..scan }
    } else {
        ScanView { pending: None, skipping: occupied(size), ..scan }
    }
}

/// Whether a header block describes a member, and not what follows it.
pub open spec fn describes_member(block: Seq<u8>) -> bool {
    let flag = block[156];
    !blank(block) && flag != 76 && flag != 120 && flag != 88 && flag != 103 && flag != 75
}

/// The member that a header block gives.
#[verifier::opaque]
pub open spec fn block_entries(scan: ScanView, block: Seq<u8>) -> Seq<EntryView> {
    if describes_member(block) {
        seq![
            header_entry(
                block,
                match scan.pending {
                    Some(name) => name,
                    None => header_name(block),
                },
            ),
        ]
    } else {
        Seq::empty()
    }
}

/// The scan after one more byte.
pub open spec fn step(scan: ScanView, byte: u8) -> ScanView {
    let scan = settled(scan);
    match scan.collecting {
        Some(c) => settled(
            ScanView {
                collecting: Some(
                    Collecting {
                        kind: c.kind,
                        remaining: (c.remaining - 1) as nat,
                        data: c.data.push(byte),
                    },
                ),
                ..scan
            },
        ),
        None => if scan.skipping > 0 {
            ScanView { skipping: (scan.skipping - 1) as nat, ..scan }
        } else if scan.header.len() + 1 < 512 {
            ScanView { header: scan.header.push(byte), ..scan }
        } else {
            after_block(ScanView { header: Seq::empty(), ..scan }, scan.header.push(byte))
        },
    }
}

/// The members that one more byte completes.
pub open spec fn step_entries(scan: ScanView, byte: u8) -> Seq<EntryView> {
    let scan = settled(scan);
    if scan.collecting is None && scan.skipping == 0 && scan.header.len() + 1 >= 512 {
        block_entries(scan, scan.header.push(byte))
    } else {
        Seq::empty()
    }
}

/// The scan after some bytes.
pub open spec fn scanned(scan: ScanView, bytes: Seq<u8>) -> ScanView
    decreases bytes.len(),
{
    if bytes.len() == 0 {
        scan
    } else {
        step(scanned(scan, bytes.drop_last()), bytes.last())
    }
}

/// The members that some bytes complete.
pub open spec fn scanned_entries(scan: ScanView, bytes: Seq<u8>) -> Seq<EntryView>
    decreases bytes.len(),
{
    if bytes.len() == 0 {
        Seq::empty()
    } else {
        scanned_entries(scan, bytes.drop_last()) + step_entries(
            scanned(scan, bytes.drop_last()),
            bytes.last(),
        )
    }
}

/// Scanning some bytes and then more is scanning them joined.
pub proof fn law_scan_may_be_cut_anywhere(scan: ScanView, first: Seq<u8>, second: Seq<u8>)
    ensures
        scanned(scan, first + second) == scanned(scanned(scan, first), second),
        scanned_entries(scan, first + second) == scanned_entries(scan, first) + scanned_entries(
            scanned(scan, first),
            second,
        ),
    decreases second.len(),
{
    if second.len() == 0 {
        assert(first + second =~= first);
        assert(scanned_entries(scan, first) + Seq::<EntryView>::empty() =~= scanned_entries(
            scan,
            first,
        ));
    } else {
        let front = second.drop_last();
        law_scan_may_be_cut_anywhere(scan, first, front);
        assert((first + second).drop_last() =~= first + front);
        assert((first + second).last() == second.last());
        let a = scanned_entries(scan, first);
        let b = scanned_entries(scanned(scan, first), front);
        let c = step_entries(scanned(scanned(scan, first), front), second.last());
        assert((a + b) + c =~= a + (b + c));
    }
}

proof fn lemma_settled_first(scan: ScanView, bytes: Seq<u8>)
    requires
        bytes.len() > 0,
    ensures
        scanned(scan, bytes) == scanned(settled(scan), bytes),
        scanned_entries(scan, bytes) == scanned_entries(settled(scan), bytes),
    decreases bytes.len(),
{
    assert(settled(settled(scan)) == settled(scan));
    if bytes.len() > 1 {
        lemma_settled_first(scan, bytes.drop_last());
    } else {
        assert(scanned(scan, bytes.drop_last()) == scan);
        assert(scanned(settled(scan), bytes.drop_last()) == settled(scan));
        assert(scanned_entries(scan, bytes.drop_last()) == Seq::<EntryView>::empty());
        assert(scanned_entries(settled(scan), bytes.drop_last()) == Seq::<EntryView>::empty());
    }
}

proof fn lemma_skip(scan: ScanView, bytes: Seq<u8>)
    requires
        scan.collecting is None,
        bytes.len() <= scan.skipping,
    ensures
        scanned(scan, bytes) == (ScanView {
            skipping: (scan.skipping - bytes.len()) as nat,
            ..scan
        }),
        scanned_entries(scan, bytes) == Seq::<EntryView>::empty(),
    decreases bytes.len(),
{
    if bytes.len() > 0 {
        lemma_skip(scan, bytes.drop_last());
        assert(scanned_entries(scan, bytes) =~= Seq::<EntryView>::empty());
    }
}

proof fn lemma_collect(scan: ScanView, c: Collecting, bytes: Seq<u8>)
    requires
        scan.collecting == Some(c),
        0 < bytes.len() <= c.remaining,
    ensures
        scanned(scan, bytes) == settled(
            ScanView {
                collecting: Some(
                    Collecting {
                        kind: c.kind,
                        remaining: (c.remaining - bytes.len()) as nat,
                        data: c.data + bytes,
                    },
                ),
                ..scan
            },
        ),
        scanned_entries(scan, bytes) == Seq::<EntryView>::empty(),
    decreases bytes.len(),
{
    let front = bytes.drop_last();
    let mid = ScanView {
        collecting: Some(
            Collecting {
                kind: c.kind,
                remaining: (c.remaining - front.len()) as nat,
                data: c.data + front,
            },
        ),
        ..scan
    };
    assert(settled(mid) == mid);
    if bytes.len() > 1 {
        lemma_collect(scan, c, front);
    } else {
        assert(c.data + front =~= c.data);
        assert(mid == scan);
        assert(scanned_entries(scan, front) == Seq::<EntryView>::empty());
    }
    assert(scanned(scan, front) == mid);
    assert((c.data + front).push(bytes.last()) =~= c.data + bytes);
    assert(step_entries(mid, bytes.last()) == Seq::<EntryView>::empty());
    assert(scanned_entries(scan, bytes) =~= Seq::<EntryView>::empty());
}

proof fn lemma_header(scan: ScanView, bytes: Seq<u8>)
    requires
        scan.collecting is None,
        scan.skipping == 0,
        bytes.len() > 0,
        scan.header.len() + bytes.len() <= 512,
    ensures
        scan.header.len() + bytes.len() < 512 ==> scanned(scan, bytes) == (ScanView {
            header: scan.header + bytes,
            ..scan
        }) && scanned_entries(scan, bytes) == Seq::<EntryView>::empty(),
        scan.header.len() + bytes.len() == 512 ==> scanned(scan, bytes) == after_block(
            ScanView { header: Seq::empty(), ..scan },
            scan.header + bytes,
        ) && scanned_entries(scan, bytes) == block_entries(scan, scan.header + bytes),
    decreases bytes.len(),
{
    let front = bytes.drop_last();
    if bytes.len() > 1 {
        lemma_header(scan, front);
        assert((scan.header + front).push(bytes.last()) =~= scan.header + bytes);
    } else {
        assert(scanned(scan, front) == scan);
        assert(scanned_entries(scan, front) =~= Seq::<EntryView>::empty());
        assert(scan.header.push(bytes.last()) =~= scan.header + bytes);
    }
    if scan.header.len() + bytes.len() < 512 {
        assert(scanned_entries(scan, bytes) =~= Seq::<EntryView>::empty());
    } else {
        reveal(block_entries);
        assert(scanned_entries(scan, bytes) =~= block_entries(scan, scan.header + bytes));
    }
}

#[derive(Debug)]
struct ExtendedHeader {
    kind: ExtendedKind,
    remaining: u64,
    data: Vec<u8>,
}

/// An incremental tar reader that keeps headers and discards content.
///
/// The shape of the problem is unusual: the content must be thrown away as it
/// streams past, and the read abandoned partway through. A reader that wants to
/// own the whole stream could not do that.
#[derive(Debug)]
struct TarScanner {
    /// Header bytes accumulated so far; never grows beyond one block.
    header: Vec<u8>,
    /// Content and padding still to discard.
    skipping: u64,
    /// A GNU long name or PAX path read from a preceding extended header.
    pending_name: Option<String>,
    /// Bytes of an extended header still being collected.
    extended: Option<ExtendedHeader>,
}

impl ExtendedHeader {
    spec fn view(&self) -> Collecting {
        Collecting { kind: self.kind, remaining: self.remaining as nat, data: self.data@ }
    }
}

impl TarScanner {
    spec fn view(&self) -> ScanView {
        ScanView {
            header: self.header@,
            skipping: self.skipping as nat,
            pending: self.pending_name.deep_view(),
            collecting: match self.extended {
                Some(extended) => Some(extended.view()),
                None => None,
            },
        }
    }

    spec fn well_formed(&self) -> bool {
        self.header@.len() < 512
    }

    fn new() -> (scanner: Self)
        ensures
            scanner.well_formed(),
            scanner.view() == scan_start(),
    {
        TarScanner { header: Vec::new(), skipping: 0, pending_name: None, extended: None }
    }

    /// Takes in what an extended header said, once all of it is there.
    fn settle(&mut self)
        requires
            old(self).well_formed(),
        ensures
            final(self).well_formed(),
            final(self).view() == settled(old(self).view()),
    {
        let complete = match &self.extended {
            Some(extended) => extended.remaining == 0,
            None => false,
        };
        if complete {
            let mut taken: Option<ExtendedHeader> = None;
            std::mem::swap(&mut taken, &mut self.extended);
            if let Some(extended) = taken {
                self.pending_name = extended_name(extended.kind, &extended.data);
                self.skipping = padding(extended.data.len() as u64);
            }
        }
    }

    /// Takes bytes of an extended header in, as many as there are and belong to
    /// it.
    fn collect(&mut self, bytes: &[u8], at: usize) -> (taken: usize)
        requires
            old(self).well_formed(),
            at < bytes@.len(),
            old(self).view().collecting is Some,
            settled(old(self).view()) == old(self).view(),
        ensures
            0 < taken <= bytes@.len() - at,
            final(self).well_formed(),
            final(self).view() == scanned(
                old(self).view(),
                bytes@.subrange(at as int, at + taken),
            ),
            scanned_entries(old(self).view(), bytes@.subrange(at as int, at + taken)) == Seq::<
                EntryView,
            >::empty(),
    {
        let ghost ready = self.view();
        let left: usize = bytes.len() - at;
        let mut held: Option<ExtendedHeader> = None;
        std::mem::swap(&mut held, &mut self.extended);
        match held {
            Some(extended) => {
                let ghost c = extended.view();
                let taken: usize = if extended.remaining < left as u64 {
                    extended.remaining as usize
                } else {
                    left
                };
                let mut data = extended.data;
                extend_bytes(&mut data, bytes, at, at + taken);
                self.extended = Some(
                    ExtendedHeader {
                        kind: extended.kind,
                        remaining: extended.remaining - taken as u64,
                        data,
                    },
                );
                proof {
                    lemma_collect(ready, c, bytes@.subrange(at as int, at + taken));
                }
                self.settle();
                taken
            },
            None => 1,
        }
    }

    /// Discards content and padding, as much as there is and belongs to it.
    fn discard(&mut self, bytes: &[u8], at: usize) -> (taken: usize)
        requires
            old(self).well_formed(),
            at < bytes@.len(),
            old(self).view().collecting is None,
            old(self).view().skipping > 0,
        ensures
            0 < taken <= bytes@.len() - at,
            final(self).well_formed(),
            final(self).view() == scanned(
                old(self).view(),
                bytes@.subrange(at as int, at + taken),
            ),
            scanned_entries(old(self).view(), bytes@.subrange(at as int, at + taken)) == Seq::<
                EntryView,
            >::empty(),
    {
        let ghost ready = self.view();
        let left: usize = bytes.len() - at;
        let taken: usize = if self.skipping < left as u64 {
            self.skipping as usize
        } else {
            left
        };
        self.skipping = self.skipping - taken as u64;
        proof {
            lemma_skip(ready, bytes@.subrange(at as int, at + taken));
        }
        taken
    }

    /// Takes bytes of a header in, and interprets it once it is whole.
    fn gather(&mut self, bytes: &[u8], at: usize, entries: &mut Vec<Entry>) -> (taken: usize)
        requires
            old(self).well_formed(),
            at < bytes@.len(),
            old(self).view().collecting is None,
            old(self).view().skipping == 0,
        ensures
            0 < taken <= bytes@.len() - at,
            final(self).well_formed(),
            final(self).view() == scanned(
                old(self).view(),
                bytes@.subrange(at as int, at + taken),
            ),
            final(entries).deep_view() == old(entries).deep_view() + scanned_entries(
                old(self).view(),
                bytes@.subrange(at as int, at + taken),
            ),
    {
        let ghost ready = self.view();
        let ghost had = entries.deep_view();
        let left: usize = bytes.len() - at;
        let want: usize = BLOCK - self.header.len();
        let taken: usize = if want < left {
            want
        } else {
            left
        };
        let ghost chunk = bytes@.subrange(at as int, at + taken);
        let mut block: Vec<u8> = Vec::new();
        std::mem::swap(&mut block, &mut self.header);
        extend_bytes(&mut block, bytes, at, at + taken);
        proof {
            lemma_header(ready, chunk);
        }
        if block.len() < BLOCK {
            self.header = block;
            assert(had + Seq::<EntryView>::empty() =~= had);
        } else {
            proof {
                reveal(block_entries);
                assert(self.view() == ScanView { header: Seq::empty(), ..ready });
            }
            if let Some(entry) = self.interpret(block.as_slice()) {
                put(entries, entry);
            }
            assert(entries.deep_view() =~= had + block_entries(ready, ready.header + chunk));
        }
        taken
    }

    /// Takes in at least one byte.
    fn advance(&mut self, bytes: &[u8], at: usize, entries: &mut Vec<Entry>) -> (taken: usize)
        requires
            old(self).well_formed(),
            at < bytes@.len(),
        ensures
            0 < taken <= bytes@.len() - at,
            final(self).well_formed(),
            final(self).view() == scanned(
                old(self).view(),
                bytes@.subrange(at as int, at + taken),
            ),
            final(entries).deep_view() == old(entries).deep_view() + scanned_entries(
                old(self).view(),
                bytes@.subrange(at as int, at + taken),
            ),
    {
        let ghost before = self.view();
        let ghost had = entries.deep_view();
        self.settle();
        assert(had + Seq::<EntryView>::empty() =~= had);
        let taken: usize = if self.extended.is_some() {
            self.collect(bytes, at)
        } else if self.skipping > 0 {
            self.discard(bytes, at)
        } else {
            self.gather(bytes, at, entries)
        };
        proof {
            lemma_settled_first(before, bytes@.subrange(at as int, at + taken));
        }
        taken
    }

    fn push(&mut self, bytes: &[u8]) -> (entries: Vec<Entry>)
        requires
            old(self).well_formed(),
        ensures
            final(self).well_formed(),
            final(self).view() == scanned(old(self).view(), bytes@),
            entries.deep_view() == scanned_entries(old(self).view(), bytes@),
    {
        let ghost start = self.view();
        let mut entries: Vec<Entry> = Vec::new();
        let mut at: usize = 0;
        assert(bytes@.take(0) =~= Seq::<u8>::empty());
        assert(entries.deep_view() =~= Seq::<EntryView>::empty());
        while at < bytes.len()
            invariant
                at <= bytes@.len(),
                self.well_formed(),
                self.view() == scanned(start, bytes@.take(at as int)),
                entries.deep_view() == scanned_entries(start, bytes@.take(at as int)),
            decreases bytes@.len() - at,
        {
            let taken: usize = self.advance(bytes, at, &mut entries);
            proof {
                let chunk = bytes@.subrange(at as int, at + taken);
                law_scan_may_be_cut_anywhere(start, bytes@.take(at as int), chunk);
                assert(bytes@.take(at as int) + chunk =~= bytes@.take(at + taken));
            }
            at += taken;
        }
        assert(bytes@.take(at as int) =~= bytes@);
        entries
    }

    /// Turn one header block into an entry, or arrange to collect what follows.
    fn interpret(&mut self, block: &[u8]) -> (entry: Option<Entry>)
        requires
            old(self).well_formed(),
            block@.len() == 512,
        ensures
            final(self).well_formed(),
            final(self).view() == after_block(old(self).view(), block@),
            (match entry.deep_view() {
                Some(e) => seq![e],
                None => Seq::<EntryView>::empty(),
            }) == block_entries(old(self).view(), block@),
    {
        reveal(after_block);
        reveal(block_entries);
        if is_blank(block) {
            return None;
        }
        let size: u64 = numeric(vstd::slice::slice_subrange(block, 124, 136));
        let flag: u8 = block[156];
        if flag == 76 {
            self.extended = Some(
                ExtendedHeader { kind: ExtendedKind::LongName, remaining: size, data: Vec::new() },
            );
            return None;
        }
        if flag == 120 || flag == 88 {
            self.extended = Some(
                ExtendedHeader { kind: ExtendedKind::Pax, remaining: size, data: Vec::new() },
            );
            return None;
        }
        if flag == 103 || flag == 75 {
            self.skipping = occupied_by(size);
            return None;
        }
        let name = match self.pending_name.take() {
            Some(name) => name,
            None => ustar_name(block),
        };
        self.skipping = occupied_by(size);
        Some(entry_of(block, name))
    }
}

fn extend_bytes(data: &mut Vec<u8>, bytes: &[u8], from: usize, to: usize)
    requires
        from <= to <= bytes@.len(),
    ensures
        final(data)@ == old(data)@ + bytes@.subrange(from as int, to as int),
{
    let ghost before = data@;
    let mut i: usize = from;
    assert(data@ =~= before + bytes@.subrange(from as int, from as int));
    while i < to
        invariant
            from <= i <= to <= bytes@.len(),
            data@ == before + bytes@.subrange(from as int, i as int),
        decreases to - i,
    {
        data.push(bytes[i]);
        i += 1;
        assert(data@ =~= before + bytes@.subrange(from as int, i as int));
    }
}

// -------------------------------------------------------------------- indexing

/// The node that a member becomes below a root.
pub open spec fn node_for(root: Seq<char>, entry: EntryView) -> FileView {
    let path = absolute(root, entry.name);
    FileView {
        path,
        name: name_text(path),
        size: entry.size,
        mode: entry.mode,
        mtime: entry.mtime,
        kind: entry.kind,
        link_target: entry.link_target,
    }
}

/// The tree once members have been added; a later one replaces an earlier one of
/// the same path.
pub open spec fn with_entries(files: Files, root: Seq<char>, entries: Seq<EntryView>) -> Files
    decreases entries.len(),
{
    if entries.len() == 0 {
        files
    } else {
        let node = node_for(root, entries.last());
        ordered::inserted(with_entries(files, root, entries.drop_last()), node.path, node)
    }
}

proof fn lemma_with_entries(
    files: Files,
    root: Seq<char>,
    first: Seq<EntryView>,
    second: Seq<EntryView>,
)
    ensures
        with_entries(files, root, first + second) == with_entries(
            with_entries(files, root, first),
            root,
            second,
        ),
    decreases second.len(),
{
    if second.len() == 0 {
        assert(first + second =~= first);
    } else {
        lemma_with_entries(files, root, first, second.drop_last());
        assert((first + second).drop_last() =~= first + second.drop_last());
        assert((first + second).last() == second.last());
    }
}

/// The result of indexing one subtree.
#[derive(Debug, Clone, PartialEq, Eq)]
pub struct Index {
    pub tree: FsTree,
    /// True when the budget ran out. The tree is then a prefix of the truth, and must
    /// never be presented as complete.
    pub truncated: bool,
    pub bytes_read: u64,
    /// The path that was asked for.
    pub root: String,
}

/// The value of an [`Index`].
#[verifier::ext_equal]
pub struct IndexView {
    pub tree: Files,
    pub truncated: bool,
    pub bytes_read: u64,
    pub root: Seq<char>,
}

impl DeepView for Index {
    type V = IndexView;

    open spec fn deep_view(&self) -> IndexView {
        IndexView {
            tree: self.tree.deep_view(),
            truncated: self.truncated,
            bytes_read: self.bytes_read,
            root: self.root@,
        }
    }
}

/// Whether an index can answer for a path.
pub open spec fn covered(index: IndexView, path: Seq<char>) -> bool {
    ordered::lookup(index.tree, normal(path)) is Some || !index.truncated
}

/// What to say of an index that stopped early.
pub open spec fn notice_text(index: IndexView) -> Option<Seq<char>> {
    if index.truncated {
        Some(
            index.root + " is too large to list in full: "@ + crate::model::format::bytes_text(
                if index.bytes_read <= i64::MAX {
                    index.bytes_read as int
                } else {
                    i64::MAX as int
                },
            ) + " were read before stopping. Open a subdirectory to index that part instead."@,
        )
    } else {
        None
    }
}

impl Index {
    /// Whether this index can answer for `path` without going back to the daemon.
    ///
    /// A complete index answers for everything, including paths it does not mention:
    /// their absence is the answer. A **truncated** one cannot: a directory missing from
    /// it may simply be past where indexing stopped, so only paths it actually holds can
    /// be trusted.
    #[must_use]
    pub fn covers(&self, path: &str) -> (yes: bool)
        ensures
            yes == covered(self.deep_view(), path@),
    {
        self.tree.get(path).is_some() || !self.truncated
    }

    /// What to tell the user when the index stopped early.
    #[must_use]
    pub fn truncation_notice(&self) -> (notice: Option<String>)
        ensures
            notice.deep_view() == notice_text(self.deep_view()),
    {
        if !self.truncated {
            return None;
        }
        let read: i64 = if self.bytes_read <= i64::MAX as u64 {
            self.bytes_read as i64
        } else {
            i64::MAX
        };
        Some(
            self.root.clone().concat(" is too large to list in full: ").concat(
                bytes(read).as_str(),
            ).concat(
                " were read before stopping. Open a subdirectory to index that part instead.",
            ),
        )
    }
}

/// The value of an [`Indexer`].
#[verifier::ext_equal]
pub struct IndexerView {
    pub scan: ScanView,
    pub tree: Files,
    pub root: Seq<char>,
    pub budget: u64,
    pub bytes_read: u64,
    pub truncated: bool,
}

/// A count with more added, as far as 64 bits can count.
pub open spec fn counted(read: u64, more: nat) -> u64 {
    if read + more > u64::MAX {
        u64::MAX
    } else {
        (read + more) as u64
    }
}

/// The indexer before the first chunk.
pub open spec fn index_start(requested_path: Seq<char>, budget: u64) -> IndexerView {
    IndexerView {
        scan: scan_start(),
        tree: Files::empty(),
        root: normal(requested_path),
        budget,
        bytes_read: 0,
        truncated: false,
    }
}

/// The indexer after a chunk.
pub open spec fn indexed(indexer: IndexerView, bytes: Seq<u8>) -> IndexerView {
    if indexer.truncated {
        indexer
    } else {
        let read = counted(indexer.bytes_read, bytes.len());
        IndexerView {
            scan: scanned(indexer.scan, bytes),
            tree: with_entries(
                indexer.tree,
                indexer.root,
                scanned_entries(indexer.scan, bytes),
            ),
            bytes_read: read,
            truncated: read >= indexer.budget,
            ..indexer
        }
    }
}

/// Feeds bytes in, produces an [`Index`].
#[derive(Debug)]
pub struct Indexer {
    scanner: TarScanner,
    tree: FsTree,
    root: String,
    budget: u64,
    bytes_read: u64,
    truncated: bool,
}

impl View for Indexer {
    type V = IndexerView;

    closed spec fn view(&self) -> IndexerView {
        IndexerView {
            scan: self.scanner.view(),
            tree: self.tree.deep_view(),
            root: self.root@,
            budget: self.budget,
            bytes_read: self.bytes_read,
            truncated: self.truncated,
        }
    }
}

impl Indexer {
    #[verifier::type_invariant]
    spec fn well_formed(self) -> bool {
        self.scanner.well_formed()
    }

    /// An index of a path that reads no more than a budget of bytes.
    #[must_use]
    pub fn new(requested_path: &str, budget: u64) -> (indexer: Self)
        ensures
            indexer@ == index_start(requested_path@, budget),
    {
        Self {
            scanner: TarScanner::new(),
            tree: FsTree::new(),
            root: normalise(requested_path),
            budget,
            bytes_read: 0,
            truncated: false,
        }
    }

    /// Absorb a chunk. Returns false once the budget is spent, at which point the
    /// caller should stop reading and let the stream drop.
    pub fn push(&mut self, bytes: &[u8]) -> (more: bool)
        ensures
            final(self)@ == indexed(old(self)@, bytes@),
            more == !final(self)@.truncated,
    {
        if self.truncated {
            return false;
        }
        proof {
            use_type_invariant(&*self);
        }
        let ghost before = self@;
        let read: u64 = self.bytes_read.saturating_add(bytes.len() as u64);
        let mut scanner = TarScanner::new();
        std::mem::swap(&mut scanner, &mut self.scanner);
        let entries = scanner.push(bytes);
        let mut tree = FsTree::new();
        std::mem::swap(&mut tree, &mut self.tree);
        let ghost files = before.tree;
        let ghost all = entries.deep_view();
        let mut i: usize = 0;
        assert(all.take(0) =~= Seq::<EntryView>::empty());
        while i < entries.len()
            invariant
                i <= entries@.len(),
                all == entries.deep_view(),
                self.root@ == before.root,
                tree.deep_view() == with_entries(files, before.root, all.take(i as int)),
            decreases entries@.len() - i,
        {
            let entry = &entries[i];
            proof {
                assert(all.take(i + 1).drop_last() =~= all.take(i as int));
                assert(all.take(i + 1).last() == entry.deep_view());
            }
            let path = absolute_path(self.root.as_str(), entry.name.as_str());
            let node = Node {
                name: base_name(path.as_str()),
                path,
                size: entry.size,
                mode: entry.mode,
                mtime: entry.mtime,
                kind: entry.kind,
                link_target: entry.link_target.clone(),
            };
            tree.insert(node);
            i += 1;
        }
        assert(all.take(i as int) =~= all);
        self.tree = tree;
        self.scanner = scanner;
        self.bytes_read = read;
        if read >= self.budget {
            self.truncated = true;
            return false;
        }
        true
    }

    /// The files found so far.
    #[must_use]
    pub fn tree(&self) -> (tree: &FsTree)
        ensures
            tree.deep_view() == self@.tree,
    {
        &self.tree
    }

    /// What has been read so far.
    #[must_use]
    pub fn finish(self) -> (index: Index)
        ensures
            index.deep_view() == (IndexView {
                tree: self@.tree,
                truncated: self@.truncated,
                bytes_read: self@.bytes_read,
                root: self@.root,
            }),
    {
        Index {
            tree: self.tree,
            truncated: self.truncated,
            bytes_read: self.bytes_read,
            root: self.root,
        }
    }
}

/// Pushing two chunks leaves what pushing them joined leaves, as long as the
/// first does not exhaust the budget.
pub proof fn law_index_may_be_cut_anywhere(
    indexer: IndexerView,
    first: Seq<u8>,
    second: Seq<u8>,
)
    requires
        !indexed(indexer, first).truncated,
    ensures
        indexed(indexed(indexer, first), second) == indexed(indexer, first + second),
{
    law_scan_may_be_cut_anywhere(indexer.scan, first, second);
    lemma_with_entries(
        indexer.tree,
        indexer.root,
        scanned_entries(indexer.scan, first),
        scanned_entries(scanned(indexer.scan, first), second),
    );
}

/// Once the budget is spent nothing changes any more; and it is spent exactly
/// when as many bytes were read.
pub proof fn law_budget_is_final(indexer: IndexerView, bytes: Seq<u8>)
    ensures
        indexer.truncated ==> indexed(indexer, bytes) == indexer,
        !indexer.truncated ==> (indexed(indexer, bytes).truncated <==> counted(
            indexer.bytes_read,
            bytes.len(),
        ) >= indexer.budget),
        indexed(indexer, bytes).root == indexer.root,
        indexed(indexer, bytes).budget == indexer.budget,
{
}

/// The indexer after some chunks.
pub open spec fn indexed_all(indexer: IndexerView, chunks: Seq<Seq<u8>>) -> IndexerView
    decreases chunks.len(),
{
    if chunks.len() == 0 {
        indexer
    } else {
        indexed(indexed_all(indexer, chunks.drop_last()), chunks.last())
    }
}

/// How many bytes some chunks hold together.
pub open spec fn bytes_in(chunks: Seq<Seq<u8>>) -> nat
    decreases chunks.len(),
{
    if chunks.len() == 0 {
        0
    } else {
        bytes_in(chunks.drop_last()) + chunks.last().len()
    }
}

/// Whether the first `count` chunks, one at least, hold as many bytes as the budget.
pub open spec fn budget_spent(chunks: Seq<Seq<u8>>, count: int, budget: u64) -> bool {
    1 <= count <= chunks.len() && bytes_in(chunks.take(count)) >= budget
}

/// Over a whole run of chunks an index is of the path that was asked for, and is truncated
/// exactly when the chunks up to some one reach the budget. The bytes up to the first such
/// chunk are then what was read, and the chunks after it change nothing; else all of them
/// were read.
pub proof fn law_budget_holds_over_a_run(
    requested_path: Seq<char>,
    budget: u64,
    chunks: Seq<Seq<u8>>,
)
    ensures
        ({
            let start = index_start(requested_path, budget);
            let end = indexed_all(start, chunks);
            &&& end.root == normal(requested_path)
            &&& end.budget == budget
            &&& end.truncated <==> exists|count: int| #[trigger]
                budget_spent(chunks, count, budget)
            &&& forall|count: int| #[trigger]
                budget_spent(chunks, count, budget) && (forall|less: int|
                    less < count ==> !#[trigger] budget_spent(chunks, less, budget)) ==> {
                    &&& end.bytes_read == counted(0, bytes_in(chunks.take(count)))
                    &&& end == indexed_all(start, chunks.take(count))
                }
            &&& !end.truncated ==> end.bytes_read == bytes_in(chunks)
        }),
    decreases chunks.len(),
{
    let start = index_start(requested_path, budget);
    let end = indexed_all(start, chunks);
    let len = chunks.len() as int;
    if len > 0 {
        let front = chunks.drop_last();
        law_budget_holds_over_a_run(requested_path, budget, front);
        let before = indexed_all(start, front);
        assert(chunks.take(len) =~= chunks);
        assert forall|count: int| count < len implies budget_spent(front, count, budget)
            == #[trigger] budget_spent(chunks, count, budget) by {
            if 1 <= count {
                assert(front.take(count) =~= chunks.take(count));
            }
        }
        if before.truncated {
            let count = choose|count: int| budget_spent(front, count, budget);
            assert(budget_spent(chunks, count, budget));
            assert(end == before);
        } else {
            assert forall|count: int| #[trigger] budget_spent(chunks, count, budget) implies count
                == len by {
                if count < len {
                    assert(budget_spent(front, count, budget));
                }
            }
            assert(end.bytes_read == counted(0, bytes_in(chunks)));
            assert(end.truncated <==> budget_spent(chunks, len, budget));
        }
        assert forall|count: int| #[trigger]
            budget_spent(chunks, count, budget) && (forall|less: int|
                less < count ==> !#[trigger] budget_spent(chunks, less, budget)) implies {
            &&& end.bytes_read == counted(0, bytes_in(chunks.take(count)))
            &&& end == indexed_all(start, chunks.take(count))
        } by {
            if count < len {
                assert(budget_spent(front, count, budget));
                assert forall|less: int| less < count implies !#[trigger] budget_spent(
                    front,
                    less,
                    budget,
                ) by {
                    assert(!budget_spent(chunks, less, budget));
                }
                assert(front.take(count) =~= chunks.take(count));
            } else if before.truncated {
                let less = choose|less: int| budget_spent(front, less, budget);
                assert(budget_spent(chunks, less, budget));
            }
        }
    }
}

/// A complete index answers for every path; a truncated one only for those it
/// holds.
pub proof fn law_truncated_index_answers_for_what_it_holds(index: IndexView, path: Seq<char>)
    ensures
        !index.truncated ==> covered(index, path),
        index.truncated ==> (covered(index, path) <==> ordered::lookup(index.tree, normal(path)) is Some),
        notice_text(index) is Some <==> index.truncated,
{
}

// ------------------------------------------------------------------ extraction

/// What content of this size takes up, as far as the machine can address it; a
/// size that it cannot is taken for none.
pub open spec fn addressable(bytes: nat) -> nat {
    if bytes <= usize::MAX {
        bytes
    } else {
        0
    }
}

/// How many bytes there are from an offset on.
pub open spec fn bytes_from(tar: Seq<u8>, offset: int) -> nat {
    if offset <= tar.len() {
        (tar.len() - offset) as nat
    } else {
        0
    }
}

/// The content of the first regular file from an offset on.
pub open spec fn file_from(tar: Seq<u8>, offset: int) -> Option<Seq<u8>>
    decreases bytes_from(tar, offset),
{
    if offset < 0 || offset + 512 > tar.len() {
        None
    } else {
        let block = tar.subrange(offset, offset + 512);
        let start = offset + 512;
        let size = header_size(block);
        if blank(block) {
            None
        } else if kind_of(block[156]) is File {
            let end = start + addressable(size as nat);
            Some(
                tar.subrange(
                    start,
                    if end < tar.len() {
                        end
                    } else {
                        tar.len() as int
                    },
                ),
            )
        } else {
            file_from(tar, start + addressable(occupied(size)))
        }
    }
}

/// Pull one regular file's content out of a tar.
///
/// Asking the archive endpoint for a single file returns a tar with that one member, so
/// this is what a `read` becomes. Extended headers are skipped; the first regular file
/// wins, because that is the only thing a single-file request can contain.
///
/// Returns `None` when the archive holds no regular file: a request for a directory,
/// or for a symlink, which carries its target in the header rather than as content.
#[must_use]
pub fn extract_file(tar: &[u8]) -> (content: Option<Vec<u8>>)
    ensures
        match file_from(tar@, 0) {
            Some(bytes) => content matches Some(c) && c@ == bytes,
            None => content is None,
        },
{
    let len: usize = tar.len();
    let mut offset: usize = 0;
    while offset <= len && len - offset >= BLOCK
        invariant
            len == tar@.len(),
            file_from(tar@, 0) == file_from(tar@, offset as int),
        decreases len - offset,
    {
        let start: usize = offset + BLOCK;
        let block = vstd::slice::slice_subrange(tar, offset, start);
        if is_blank(block) {
            return None;
        }
        let size: u64 = numeric(vstd::slice::slice_subrange(block, 124, 136));
        let kind = EntryKind::from_typeflag(block[156]);
        if kind == EntryKind::File {
            let wanted: usize = if size <= usize::MAX as u64 {
                size as usize
            } else {
                0
            };
            let end: usize = if wanted < len - start {
                start + wanted
            } else {
                len
            };
            let mut content: Vec<u8> = Vec::new();
            extend_bytes(&mut content, tar, start, end);
            assert(content@ =~= tar@.subrange(start as int, end as int));
            return Some(content);
        }
        let whole: u64 = occupied_by(size);
        let step: usize = if whole <= usize::MAX as u64 {
            whole as usize
        } else {
            0
        };
        if step > len - start {
            assert(file_from(tar@, start + step) is None);
            return None;
        }
        offset = start + step;
    }
    None
}

/// A file that stands first in an archive comes out as it went in.
pub proof fn law_first_file_is_read_back(block: Seq<u8>, content: Seq<u8>, rest: Seq<u8>)
    requires
        block.len() == 512,
        !blank(block),
        kind_of(block[156]) is File,
        header_size(block) == content.len(),
        content.len() <= usize::MAX,
    ensures
        file_from(block + content + rest, 0) == Some(content),
{
    let tar = block + content + rest;
    assert(tar.subrange(0, 512) =~= block);
    assert(tar.subrange(512, 512 + content.len() as int) =~= content);
}

/// What is extracted is no longer than some header of the archive says, and
/// stands in the archive as it is.
pub proof fn law_extracted_file_is_in_the_archive(tar: Seq<u8>, offset: int)
    requires
        0 <= offset,
    ensures
        file_from(tar, offset) matches Some(content) ==> exists|start: int, end: int|
            512 <= start <= end <= tar.len() && content == #[trigger] tar.subrange(start, end)
                && content.len() <= header_size(tar.subrange(start - 512, start)),
    decreases bytes_from(tar, offset),
{
    if offset + 512 <= tar.len() {
        let block = tar.subrange(offset, offset + 512);
        let start = offset + 512;
        let size = header_size(block);
        if !blank(block) {
            if kind_of(block[156]) is File {
                let limit = start + addressable(size as nat);
                let end = if limit < tar.len() {
                    limit
                } else {
                    tar.len() as int
                };
                assert(tar.subrange(start - 512, start) == block);
                assert(file_from(tar, offset) == Some(tar.subrange(start, end)));
            } else {
                law_extracted_file_is_in_the_archive(tar, start + addressable(occupied(size)));
            }
        }
    }
}

proof fn lemma_after_last_of(front: Seq<char>, name: Seq<char>)
    requires
        !name.contains('/'),
    ensures
        text::after_last(front.push('/') + name, '/') == name,
    decreases name.len(),
{
    let all = front.push('/') + name;
    if name.len() == 0 {
        assert(all.last() == '/');
        assert(text::after_last(all, '/') =~= name);
    } else {
        let rest = name.drop_last();
        assert(name.contains(name.last()));
        assert forall|c: char| rest.contains(c) implies name.contains(c) by {
            let i = choose|i: int| 0 <= i < rest.len() && rest[i] == c;
            assert(name[i] == c);
        }
        lemma_after_last_of(front, rest);
        assert(all.drop_last() =~= front.push('/') + rest);
        assert(rest.push(name.last()) =~= name);
    }
}

/// What sits directly inside a directory is exactly what has that directory as its
/// parent: nothing deeper, and no sibling that merely starts with the same text.
pub proof fn law_children_have_their_directory_as_parent(parent: Seq<char>, path: Seq<char>)
    requires
        normal(parent) == parent,
        normal(path) == path,
        path[0] == '/',
    ensures
        child_of(parent, path) <==> parent_text(path) == parent && path != "/"@,
{
    reveal_strlit("/");
    law_normalising_is_final(path);
    law_normalising_is_final(parent);
    text::lemma_after_last(path, '/');
    let name = text::after_last(path, '/');
    let slash = "/"@;
    if child_of(parent, path) {
        let rest = path.skip(parent.len() as int);
        assert(parent.is_prefix_of(path));
        if slash.is_prefix_of(rest) {
            let inner = rest.skip(1);
            assert(rest.subrange(0, 1)[0] == slash[0]);
            assert(path =~= parent.push('/') + inner);
            lemma_after_last_of(parent, inner);
            if parent == slash {
                assert(path[0] == '/' && path[1] == '/');
            }
            assert(path.take(path.len() - inner.len() - 1) =~= parent);
        } else {
            assert(parent == slash);
            assert(path =~= Seq::<char>::empty().push('/') + rest);
            lemma_after_last_of(Seq::empty(), rest);
        }
        assert(path.len() > 1);
    }
    if parent_text(path) == parent && path != slash {
        if path.len() == 1 {
            assert(path =~= slash);
        }
        assert(path.last() != '/');
        assert(name.len() > 0);
        if name.len() == path.len() {
            assert(name[0] == '/');
            assert(name.contains('/'));
        }
        let at = path.len() - name.len() - 1;
        assert(path[at] == '/');
        if at == 0 {
            assert(parent =~= slash);
            assert(parent.is_prefix_of(path));
            let rest = path.skip(1);
            assert(rest =~= name);
            if slash.is_prefix_of(rest) {
                assert(rest[0] == '/');
                assert(name.contains(name[0]));
            }
        } else {
            assert(parent =~= path.take(at));
            assert(parent.is_prefix_of(path));
            let rest = path.skip(parent.len() as int);
            assert(rest[0] == '/');
            assert(slash.is_prefix_of(rest));
            assert(rest.skip(1) =~= name);
        }
    }
}

/// Whether a path begins at the root.
pub open spec fn rooted(path: Seq<char>) -> bool {
    path.len() > 0 && path[0] == '/'
}

proof fn lemma_normal_rooted(path: Seq<char>)
    requires
        path.len() == 0 || rooted(path),
    ensures
        rooted(normal(path)),
{
    reveal_strlit("/");
    lemma_collapsed_first(path);
    lemma_trailing_first(collapsed(path));
}

proof fn lemma_collapsed_first(path: Seq<char>)
    ensures
        path.len() > 0 ==> collapsed(path).len() > 0 && collapsed(path)[0] == path[0],
    decreases path.len(),
{
    if path.len() > 0 {
        lemma_collapsed_first(path.drop_last());
        lemma_collapsed(path.drop_last());
    }
}

proof fn lemma_trailing_first(path: Seq<char>)
    ensures
        path.len() > 0 ==> without_trailing(path).len() > 0 && without_trailing(path)[0] == path[0],
    decreases path.len(),
{
    if path.len() > 1 && path.last() == '/' {
        lemma_trailing_first(path.drop_last());
    }
}

proof fn lemma_absolute_rooted(root: Seq<char>, member: Seq<char>)
    requires
        rooted(root),
    ensures
        rooted(absolute(root, member)),
        normal(absolute(root, member)) == absolute(root, member),
{
    reveal_strlit("/");
    let slash = "/"@;
    let rest = trimmed_slashes(member);
    let parent = parent_text(root);
    lemma_normal_rooted(root);
    text::lemma_after_last(normal(root), '/');
    assert(rooted(parent));
    let whole = if slash.is_prefix_of(rest) {
        rest
    } else if parent == slash {
        slash + rest
    } else {
        parent + slash + rest
    };
    if slash.is_prefix_of(rest) {
        assert(rest.take(1)[0] == slash[0]);
    }
    assert(rooted(whole));
    lemma_normal_rooted(whole);
    law_normalising_is_final(whole);
}

/// Whether every node of a tree stands once, under its own path, which begins at the root
/// and is its own key, and is shown by the last name in it.
pub open spec fn is_rooted_tree(files: Files) -> bool {
    &&& ordered::ascending(files)
    &&& forall|i: int|
        0 <= i < files.len() ==> {
            let node = (#[trigger] files[i]).1;
            &&& files[i].0 == node.path
            &&& rooted(node.path)
            &&& normal(node.path) == node.path
            &&& node.name == name_text(node.path)
        }
}

proof fn lemma_entries_keep_rooted(files: Files, root: Seq<char>, entries: Seq<EntryView>)
    requires
        is_rooted_tree(files),
        rooted(root),
    ensures
        is_rooted_tree(with_entries(files, root, entries)),
    decreases entries.len(),
{
    if entries.len() > 0 {
        let before = with_entries(files, root, entries.drop_last());
        lemma_entries_keep_rooted(files, root, entries.drop_last());
        let node = node_for(root, entries.last());
        lemma_absolute_rooted(root, entries.last().name);
        let after = ordered::inserted(before, node.path, node);
        ordered::law_insert_then_lookup(before, node.path, node, node.path);
        ordered::lemma_inserted_items(before, node.path, node);
        assert forall|i: int| 0 <= i < after.len() implies {
            let file = (#[trigger] after[i]).1;
            &&& after[i].0 == file.path
            &&& rooted(file.path)
            &&& normal(file.path) == file.path
            &&& file.name == name_text(file.path)
        } by {
            if after[i] != (node.path, node) {
                let k = choose|k: int| 0 <= k < before.len() && before[k] == after[i];
                assert(before[k].1 == after[i].1);
            }
        }
    }
}

proof fn lemma_run_is_rooted(indexer: IndexerView, chunks: Seq<Seq<u8>>)
    requires
        is_rooted_tree(indexer.tree),
        rooted(indexer.root),
    ensures
        is_rooted_tree(indexed_all(indexer, chunks).tree),
        indexed_all(indexer, chunks).root == indexer.root,
    decreases chunks.len(),
{
    if chunks.len() > 0 {
        lemma_run_is_rooted(indexer, chunks.drop_last());
        let before = indexed_all(indexer, chunks.drop_last());
        lemma_entries_keep_rooted(
            before.tree,
            before.root,
            scanned_entries(before.scan, chunks.last()),
        );
    }
}

/// A directory with the slash that stands before what it holds.
spec fn with_slash(parent: Seq<char>) -> Seq<char> {
    if parent == "/"@ {
        parent
    } else {
        parent.push('/')
    }
}

proof fn lemma_parent_and_name(path: Seq<char>)
    requires
        rooted(path),
        normal(path) == path,
        path != "/"@,
    ensures
        path == with_slash(parent_text(path)) + name_text(path),
{
    reveal_strlit("/");
    let slash = "/"@;
    law_normalising_is_final(path);
    text::lemma_after_last(path, '/');
    let name = text::after_last(path, '/');
    if path.len() == 1 {
        assert(path =~= slash);
    }
    if name.len() == path.len() {
        assert(name[0] == '/');
        assert(name.contains('/'));
    }
    let at = path.len() - name.len() - 1;
    if at == 0 {
        assert(path =~= slash + name);
    } else {
        let parent = path.take(at);
        assert(path[at] == '/');
        if parent == slash {
            assert(parent.len() == at);
            assert(path[0] == '/' && path[1] == '/');
        }
        assert(path =~= parent.push('/') + name);
    }
}

/// In an index of a path that begins at the root, the children of a directory are exactly
/// the nodes with that directory as their parent, the root itself apart: each once, none
/// missing, and in the order of their names.
pub proof fn law_children_are_what_a_directory_holds(
    requested_path: Seq<char>,
    budget: u64,
    chunks: Seq<Seq<u8>>,
    path: Seq<char>,
)
    requires
        rooted(requested_path),
        rooted(path),
    ensures
        ({
            let files = indexed_all(index_start(requested_path, budget), chunks).tree;
            let nodes = files.map_values(|entry: (Seq<char>, FileView)| entry.1);
            let found = children_of(files, path);
            &&& found == nodes.filter(
                |node: FileView| node.path != "/"@ && parent_text(node.path) == normal(path),
            )
            &&& forall|node: FileView| #[trigger]
                found.contains(node) <==> nodes.contains(node) && node.path != "/"@ && parent_text(
                    node.path,
                ) == normal(path)
            &&& forall|i: int, j: int|
                0 <= i < j < found.len() ==> text::below(
                    (#[trigger] found[i]).name,
                    (#[trigger] found[j]).name,
                )
        }),
{
    let start = index_start(requested_path, budget);
    let files = indexed_all(start, chunks).tree;
    let nodes = files.map_values(|entry: (Seq<char>, FileView)| entry.1);
    let found = children_of(files, path);
    let dir = normal(path);
    lemma_normal_rooted(requested_path);
    lemma_run_is_rooted(start, chunks);
    law_normalising_is_final(path);
    let inside = |node: FileView| child_of(dir, node.path);
    let held = |node: FileView| node.path != "/"@ && parent_text(node.path) == normal(path);
    assert forall|i: int| 0 <= i < nodes.len() implies inside(#[trigger] nodes[i]) == held(
        nodes[i],
    ) by {
        assert(nodes[i] == files[i].1);
        law_children_have_their_directory_as_parent(dir, nodes[i].path);
    }
    assert(found == nodes.filter(inside));
    lists::lemma_filters_agree(nodes, inside, held);
    lists::lemma_filter_keeps(nodes, held);
    let before = |a: FileView, b: FileView| text::below(a.path, b.path);
    assert forall|i: int, j: int| 0 <= i < j < nodes.len() implies before(
        #[trigger] nodes[i],
        #[trigger] nodes[j],
    ) by {
        assert(nodes[i] == files[i].1 && nodes[j] == files[j].1);
        assert(text::below(files[i].0, files[j].0));
    }
    lists::lemma_filter_keeps_order(nodes, held, before);
    assert forall|i: int, j: int| 0 <= i < j < found.len() implies text::below(
        (#[trigger] found[i]).name,
        (#[trigger] found[j]).name,
    ) by {
        assert(before(found[i], found[j]));
        assert(found.contains(found[i]) && found.contains(found[j]));
        let a = choose|a: int| 0 <= a < nodes.len() && nodes[a] == found[i];
        let b = choose|b: int| 0 <= b < nodes.len() && nodes[b] == found[j];
        assert(nodes[a] == files[a].1 && nodes[b] == files[b].1);
        lemma_parent_and_name(found[i].path);
        lemma_parent_and_name(found[j].path);
        text::lemma_below_behind(with_slash(dir), found[i].name, found[j].name);
    }
}

// ---------------------------------------------------------------- laws of headers

/// A header field: some bytes, and zeros up to its width.
pub open spec fn field(bytes: Seq<u8>, width: nat) -> Seq<u8> {
    bytes + Seq::new((width - bytes.len()) as nat, |i: int| 0u8)
}

/// So many octal digits of a number, the last of them its lowest.
pub open spec fn octal_digits(n: nat, count: nat) -> Seq<char>
    decreases count,
{
    if count == 0 {
        Seq::empty()
    } else {
        octal_digits(n / 8, (count - 1) as nat).push((48 + n % 8) as char)
    }
}

/// Eight to some power.
pub open spec fn eights(count: nat) -> nat
    decreases count,
{
    if count == 0 {
        1
    } else {
        8 * eights((count - 1) as nat)
    }
}

/// Whether a text can stand in a header field: no zero in it, and no white space at its
/// ends.
pub open spec fn fits_field(text: Seq<char>) -> bool {
    &&& !text.contains('\0')
    &&& text.len() > 0 ==> !text::is_space(text[0]) && !text::is_space(text.last())
}

/// What a header says of a member.
pub struct HeaderView {
    pub name: Seq<char>,
    pub mode: nat,
    pub owners: Seq<u8>,
    pub size: nat,
    pub mtime: nat,
    pub checksum: Seq<u8>,
    pub flag: u8,
    pub target: Seq<char>,
    pub device: Seq<u8>,
    pub prefix: Seq<char>,
    pub tail: Seq<u8>,
}

/// Whether each part of a header fits where it stands.
pub open spec fn fits_header(header: HeaderView) -> bool {
    &&& fits_field(header.name) && vstd::utf8::encode_utf8(header.name).len() <= 100
    &&& header.mode < 0o10_000_000
    &&& header.owners.len() == 16
    &&& header.size < 0o100_000_000_000
    &&& header.mtime < 0o100_000_000_000
    &&& header.checksum.len() == 8
    &&& fits_field(header.target) && vstd::utf8::encode_utf8(header.target).len() <= 100
    &&& header.device.len() == 88
    &&& fits_field(header.prefix) && vstd::utf8::encode_utf8(header.prefix).len() <= 155
    &&& header.tail.len() == 12
}

/// A header as a block of 512 bytes: each field where `ustar` has it.
#[verifier::opaque]
pub open spec fn header_block(header: HeaderView) -> Seq<u8> {
    field(vstd::utf8::encode_utf8(header.name), 100) + field(
        vstd::utf8::encode_utf8(octal_digits(header.mode, 7)),
        8,
    ) + header.owners + field(vstd::utf8::encode_utf8(octal_digits(header.size, 11)), 12) + field(
        vstd::utf8::encode_utf8(octal_digits(header.mtime, 11)),
        12,
    ) + header.checksum + seq![header.flag] + field(vstd::utf8::encode_utf8(header.target), 100)
        + header.device + field(vstd::utf8::encode_utf8(header.prefix), 155) + header.tail
}

proof fn lemma_before_zero(bytes: Seq<u8>, rest: Seq<u8>)
    requires
        !bytes.contains(0),
        rest.len() > 0 ==> rest[0] == 0,
    ensures
        before_zero(bytes + rest) == bytes,
    decreases bytes.len(),
{
    let all = bytes + rest;
    if bytes.len() > 0 {
        let less = bytes.skip(1);
        assert(bytes.contains(bytes[0]));
        assert forall|i: int| 0 <= i < less.len() implies less[i] != 0 by {
            assert(bytes.contains(bytes[i + 1]));
        }
        lemma_before_zero(less, rest);
        assert(all.skip(1) =~= less + rest);
        assert(seq![bytes[0]] + less =~= bytes);
    } else {
        assert(before_zero(all) =~= bytes);
    }
}

proof fn lemma_field_is_read_back(text: Seq<char>, width: nat)
    requires
        fits_field(text),
        vstd::utf8::encode_utf8(text).len() <= width,
    ensures
        field_text(field(vstd::utf8::encode_utf8(text), width)) == text,
        field(vstd::utf8::encode_utf8(text), width).len() == width,
{
    let bytes = vstd::utf8::encode_utf8(text);
    assert(0u8 as char == '\0');
    logs::lemma_plain_bytes(text, 0);
    lemma_before_zero(bytes, Seq::new((width - bytes.len()) as nat, |i: int| 0u8));
    logs::law_text_is_read_back(text);
    assert(text::trimmed(text) == text);
}

proof fn lemma_octal_value(n: nat, count: nat)
    requires
        n < eights(count),
    ensures
        octal_digits(n, count).len() == count,
        text::all_digits(octal_digits(n, count), 8),
        text::value_of(octal_digits(n, count), 8) == n,
        vstd::utf8::is_ascii_chars(octal_digits(n, count)),
        forall|i: int| 0 <= i < count ==> '0' <= #[trigger] octal_digits(n, count)[i] <= '7',
    decreases count,
{
    if count > 0 {
        let less = (count - 1) as nat;
        assert(n / 8 < eights(less));
        lemma_octal_value(n / 8, less);
        let digits = octal_digits(n, count);
        let front = octal_digits(n / 8, less);
        assert(digits.drop_last() =~= front);
        let last: char = (48 + n % 8) as char;
        assert(digits.last() == last);
        assert('0' <= last <= '7');
        assert(text::digit_value(last) == n % 8);
        assert forall|i: int| 0 <= i < count implies '0' <= #[trigger] digits[i] <= '7'
            && text::is_digit_of(digits[i], 8) by {
            if i < less {
                assert(digits[i] == front[i]);
            }
        }
    }
}

proof fn lemma_octal_is_read_back(n: nat, count: nat)
    requires
        0 < count < 20,
        n < eights(count),
        n <= u64::MAX,
    ensures
        field_number(field(vstd::utf8::encode_utf8(octal_digits(n, count)), count + 1)) == n,
        field(vstd::utf8::encode_utf8(octal_digits(n, count)), count + 1).len() == count + 1,
        vstd::utf8::encode_utf8(octal_digits(n, count)).len() == count,
        vstd::utf8::encode_utf8(octal_digits(n, count))[0] != 0,
{
    let digits = octal_digits(n, count);
    lemma_octal_value(n, count);
    vstd::utf8::is_ascii_chars_encode_utf8(digits);
    let bytes = vstd::utf8::encode_utf8(digits);
    assert('0' <= digits[0] <= '7');
    assert(bytes[0] == digits[0] as u8);
    assert(48 <= bytes[0] <= 55);
    assert('0' <= digits[count - 1] <= '7');
    assert forall|i: int| 0 <= i < digits.len() implies digits[i] != '\0' by {
        assert('0' <= digits[i] <= '7');
    }
    lemma_field_is_read_back(digits, count + 1);
    let whole = field(bytes, count + 1);
    assert(whole[0] == bytes[0]);
    assert(text::trimmed(digits) == digits);
    assert(text::without_plus(digits) == digits);
}

proof fn lemma_header_block(header: HeaderView)
    requires
        fits_header(header),
    ensures
        ({
            let block = header_block(header);
            &&& block.len() == 512
            &&& block[156] == header.flag
            &&& !blank(block)
            &&& field_text(block.subrange(0, 100)) == header.name
            &&& field_number(block.subrange(100, 108)) == header.mode
            &&& field_number(block.subrange(124, 136)) == header.size
            &&& field_number(block.subrange(136, 148)) == header.mtime
            &&& field_text(block.subrange(157, 257)) == header.target
            &&& field_text(block.subrange(345, 500)) == header.prefix
        }),
{
    assert(eights(7) == 0o10_000_000 && eights(11) == 0o100_000_000_000) by {
        reveal_with_fuel(eights, 12);
    }
    reveal(header_block);
    let block = header_block(header);
    lemma_field_is_read_back(header.name, 100);
    lemma_field_is_read_back(header.target, 100);
    lemma_field_is_read_back(header.prefix, 155);
    lemma_octal_is_read_back(header.mode, 7);
    lemma_octal_is_read_back(header.size, 11);
    lemma_octal_is_read_back(header.mtime, 11);
    let name = field(vstd::utf8::encode_utf8(header.name), 100);
    let mode = field(vstd::utf8::encode_utf8(octal_digits(header.mode, 7)), 8);
    let size = field(vstd::utf8::encode_utf8(octal_digits(header.size, 11)), 12);
    let mtime = field(vstd::utf8::encode_utf8(octal_digits(header.mtime, 11)), 12);
    let target = field(vstd::utf8::encode_utf8(header.target), 100);
    let prefix = field(vstd::utf8::encode_utf8(header.prefix), 155);
    assert(block.subrange(0, 100) =~= name);
    assert(block.subrange(100, 108) =~= mode);
    assert(block.subrange(124, 136) =~= size);
    assert(block.subrange(136, 148) =~= mtime);
    assert(block.subrange(157, 257) =~= target);
    assert(block.subrange(345, 500) =~= prefix);
    assert(block[100] == mode[0]);
    assert(mode[0] != 0);
}

/// Whether a flag is that of a member, and not of a header that speaks of the next one.
pub open spec fn is_member_flag(flag: u8) -> bool {
    flag != 'L' as u8 && flag != 'x' as u8 && flag != 'X' as u8 && flag != 'g' as u8 && flag
        != 'K' as u8
}

/// Indexing one header finds one node, which is what the header says: its name behind its
/// prefix, its size, its mode, its time, and what it points at, which is nothing where the
/// header names no target. The flag alone says what kind of node it is.
pub proof fn law_a_header_is_read_field_by_field(
    header: HeaderView,
    requested_path: Seq<char>,
    budget: u64,
)
    requires
        fits_header(header),
        is_member_flag(header.flag),
    ensures
        ({
            let found = scanned_entries(scan_start(), header_block(header));
            let files = indexed(index_start(requested_path, budget), header_block(header)).tree;
            let name = if header.prefix.len() == 0 {
                header.name
            } else {
                header.prefix + seq!['/'] + header.name
            };
            &&& found.len() == 1
            &&& found[0].name == name
            &&& found[0].size == header.size
            &&& found[0].mode == header.mode
            &&& found[0].mtime == header.mtime
            &&& found[0].link_target == header.target
            &&& files.len() == 1
            &&& files[0].0 == absolute(normal(requested_path), name)
            &&& files[0].1.path == files[0].0
            &&& files[0].1.name == name_text(files[0].0)
            &&& files[0].1.size == header.size
            &&& files[0].1.mode == header.mode
            &&& files[0].1.mtime == header.mtime
            &&& files[0].1.link_target == header.target
            &&& files[0].1.kind == found[0].kind
            &&& found[0].kind is File <==> header.flag == '0' as u8 || header.flag == 0
                || header.flag == '7' as u8
            &&& found[0].kind is HardLink <==> header.flag == '1' as u8
            &&& found[0].kind is Symlink <==> header.flag == '2' as u8
            &&& found[0].kind is Directory <==> header.flag == '5' as u8
        }),
{
    lemma_header_block(header);
    let block = header_block(header);
    let scan = scan_start();
    lemma_header(scan, block);
    assert(scan.header + block =~= block);
    reveal(block_entries);
    reveal_strlit("/");
    assert("/"@ =~= seq!['/']);
    let found = scanned_entries(scan, block);
    assert(found.len() == 1);
    let root = normal(requested_path);
    let node = node_for(root, found[0]);
    assert(found.drop_last() =~= Seq::<EntryView>::empty());
    assert(with_entries(Files::empty(), root, found.drop_last()) =~= Files::empty());
    assert(ordered::inserted(Files::empty(), node.path, node) =~= seq![(node.path, node)]);
}

proof fn lemma_filler(size: u64, filler: nat)
    requires
        size < 0o100_000_000_000,
        filler < 512,
        (size + filler) % 512 == 0,
    ensures
        padding_of(size as nat) == filler,
        occupied(size) == size + filler,
{
}

/// Whether a block is the header of so many bytes under some flag.
spec fn announces(block: Seq<u8>, flag: u8, size: nat) -> bool {
    block.len() == 512 && !blank(block) && block[156] == flag && header_size(block) == size
}

proof fn lemma_announces(header: HeaderView)
    requires
        fits_header(header),
    ensures
        announces(header_block(header), header.flag, header.size),
{
    lemma_header_block(header);
}

proof fn lemma_after_member_block(
    block: Seq<u8>,
    flag: u8,
    pending: Option<Seq<char>>,
    content: Seq<u8>,
    filler: Seq<u8>,
)
    requires
        announces(block, flag, content.len()),
        is_member_flag(flag),
        content.len() < 0o100_000_000_000,
        filler.len() < 512,
        (content.len() + filler.len()) % 512 == 0,
    ensures
        scanned(ScanView { pending, ..scan_start() }, block + content + filler) == scan_start(),
        scanned_entries(ScanView { pending, ..scan_start() }, block + content + filler)
            == scanned_entries(ScanView { pending, ..scan_start() }, block),
{
    let scan = ScanView { pending, ..scan_start() };
    lemma_header(scan, block);
    assert(scan.header + block =~= block);
    lemma_filler(header_size(block), filler.len());
    let after = scanned(scan, block);
    let behind = content + filler;
    assert(after == ScanView { skipping: behind.len(), ..scan_start() }) by {
        reveal(after_block);
    }
    law_scan_may_be_cut_anywhere(scan, block, behind);
    lemma_skip(after, behind);
    assert(block + behind =~= block + content + filler);
    assert(scanned_entries(scan, block) + Seq::<EntryView>::empty() =~= scanned_entries(
        scan,
        block,
    ));
}

/// What a member holds is passed over, whatever it is: the archive behind it is read as
/// though it began there.
pub proof fn law_content_is_passed_over(
    header: HeaderView,
    content: Seq<u8>,
    filler: Seq<u8>,
    rest: Seq<u8>,
)
    requires
        fits_header(header),
        is_member_flag(header.flag),
        content.len() == header.size,
        filler.len() < 512,
        (content.len() + filler.len()) % 512 == 0,
    ensures
        scanned_entries(scan_start(), header_block(header) + content + filler + rest)
            == scanned_entries(scan_start(), header_block(header)) + scanned_entries(
            scan_start(),
            rest,
        ),
        scanned(scan_start(), header_block(header) + content + filler + rest) == scanned(
            scan_start(),
            rest,
        ),
{
    lemma_announces(header);
    lemma_after_member_block(header_block(header), header.flag, None, content, filler);
    let member = header_block(header) + content + filler;
    assert((ScanView { pending: None, ..scan_start() }) =~= scan_start());
    law_scan_may_be_cut_anywhere(scan_start(), member, rest);
}

proof fn lemma_after_extended(
    block: Seq<u8>,
    flag: u8,
    kind: ExtendedKind,
    data: Seq<u8>,
    filler: Seq<u8>,
)
    requires
        announces(block, flag, data.len()),
        kind is LongName ==> flag == 'L' as u8,
        kind is Pax ==> flag == 'x' as u8 || flag == 'X' as u8,
        0 < data.len() < 0o100_000_000_000,
        filler.len() < 512,
        (data.len() + filler.len()) % 512 == 0,
    ensures
        scanned(scan_start(), block + data + filler) == (ScanView {
            pending: extended_text(kind, data),
            ..scan_start()
        }),
        scanned_entries(scan_start(), block + data + filler) == Seq::<EntryView>::empty(),
{
    let scan = scan_start();
    lemma_header(scan, block);
    assert(scan.header + block =~= block);
    lemma_filler(header_size(block), filler.len());
    let asked = Collecting { kind, remaining: data.len(), data: Seq::empty() };
    let after = ScanView { collecting: Some(asked), ..scan };
    assert(scanned(scan, block) == after) by {
        reveal(after_block);
    }
    assert(scanned_entries(scan, block) == Seq::<EntryView>::empty()) by {
        reveal(block_entries);
    }
    lemma_collect(after, asked, data);
    assert(asked.data + data =~= data);
    let named = ScanView { pending: extended_text(kind, data), ..scan };
    let filled = ScanView { skipping: filler.len(), ..named };
    assert(scanned(after, data) == filled);
    lemma_skip(filled, filler);
    law_scan_may_be_cut_anywhere(scan, block, data);
    law_scan_may_be_cut_anywhere(scan, block + data, filler);
    assert(scanned(scan, block + data + filler) == named);
    assert(scanned_entries(scan, block + data + filler) =~= Seq::<EntryView>::empty());
}

/// A long name that stands in a header of its own is the name of the member behind it,
/// and changes nothing else of it.
pub proof fn law_a_long_name_names_the_member_behind_it(
    long: HeaderView,
    name: Seq<char>,
    filler: Seq<u8>,
    header: HeaderView,
)
    requires
        fits_header(long),
        long.flag == 'L' as u8,
        fits_field(name),
        name.len() > 0,
        long.size == vstd::utf8::encode_utf8(name).len(),
        filler.len() < 512,
        (long.size + filler.len()) % 512 == 0,
        fits_header(header),
        is_member_flag(header.flag),
    ensures
        ({
            let named = scanned_entries(
                scan_start(),
                header_block(long) + vstd::utf8::encode_utf8(name) + filler + header_block(header),
            );
            let plain = scanned_entries(scan_start(), header_block(header));
            named.len() == 1 && named[0] == (EntryView { name, ..plain[0] })
        }),
{
    let data = vstd::utf8::encode_utf8(name);
    vstd::utf8::char_is_scalar(name[0]);
    assert(data.len() > 0);
    lemma_announces(long);
    lemma_after_extended(header_block(long), long.flag, ExtendedKind::LongName, data, filler);
    lemma_field_is_read_back(name, data.len());
    assert(field(data, data.len()) =~= data);
    assert(extended_text(ExtendedKind::LongName, data) == Some(name)) by {
        reveal(extended_text);
    }
    lemma_named_member(
        header_block(long) + data + filler,
        name,
        header,
    );
}

proof fn lemma_named_member(extended: Seq<u8>, name: Seq<char>, header: HeaderView)
    requires
        scanned(scan_start(), extended) == (ScanView { pending: Some(name), ..scan_start() }),
        scanned_entries(scan_start(), extended) == Seq::<EntryView>::empty(),
        fits_header(header),
        is_member_flag(header.flag),
    ensures
        ({
            let named = scanned_entries(scan_start(), extended + header_block(header));
            let plain = scanned_entries(scan_start(), header_block(header));
            named.len() == 1 && named[0] == (EntryView { name, ..plain[0] })
        }),
{
    let block = header_block(header);
    lemma_header_block(header);
    let scan = ScanView { pending: Some(name), ..scan_start() };
    lemma_header(scan, block);
    lemma_header(scan_start(), block);
    assert(scan.header + block =~= block);
    assert(scan_start().header + block =~= block);
    law_scan_may_be_cut_anywhere(scan_start(), extended, block);
    reveal(block_entries);
    assert(Seq::<EntryView>::empty() + scanned_entries(scan, block) =~= scanned_entries(
        scan,
        block,
    ));
}

/// A record of an extended header: its length in bytes, a key and a value.
pub open spec fn pax_record(length: nat, key: Seq<char>, value: Seq<char>) -> Seq<char> {
    text::decimal(length) + (seq![' '] + key + seq!['='] + value + seq!['\n'])
}

proof fn lemma_width(c: char)
    ensures
        vstd::utf8::encode_scalar(c as u32).len() == width(c),
{
    vstd::utf8::char_is_scalar(c);
}

proof fn lemma_chars_in(text: Seq<char>, rest: Seq<char>)
    ensures
        chars_in(text + rest, vstd::utf8::encode_utf8(text).len() as int) == Some(text.len()),
    decreases text.len(),
{
    if text.len() > 0 {
        let less = text.drop_first();
        lemma_chars_in(less, rest);
        lemma_width(text[0]);
        assert((text + rest).skip(1) =~= less + rest);
        assert(vstd::utf8::encode_utf8(text).len() == width(text[0]) + vstd::utf8::encode_utf8(
            less,
        ).len());
    }
}

proof fn lemma_pax_record(length: nat, key: Seq<char>, value: Seq<char>, rest: Seq<char>)
    requires
        length == vstd::utf8::encode_utf8(pax_record(length, key, value)).len(),
        length <= usize::MAX,
    ensures
        record_end(pax_record(length, key, value) + rest) == Some(
            pax_record(length, key, value).len(),
        ),
        text::find(pax_record(length, key, value) + rest, ' ') == text::decimal(length).len(),
        pax_record(length, key, value).len() > text::decimal(length).len() + 1,
{
    let record = pax_record(length, key, value);
    let all = record + rest;
    let digits = text::decimal(length);
    text::lemma_decimal_is_read_back(length);
    assert forall|i: int| 0 <= i < digits.len() implies all[i] != ' ' by {
        assert(all[i] == digits[i]);
        assert(text::is_digit_of(digits[i], 10));
    }
    assert(all[digits.len() as int] == ' ');
    text::lemma_find_is(all, ' ', digits.len() as int);
    assert(all.take(digits.len() as int) =~= digits);
    assert(text::is_digit_of(digits[0], 10));
    assert(text::without_plus(digits) == digits);
    lemma_chars_in(record, rest);
    if length == 0 {
        vstd::utf8::char_is_scalar(record[0]);
    }
}

/// A record of an extended header that has the key `path` gives the path as it stands in
/// it, in whatever characters; a record with another key is passed over.
pub proof fn law_pax_records_are_read_one_by_one(
    length: nat,
    key: Seq<char>,
    value: Seq<char>,
    rest: Seq<char>,
)
    requires
        length == vstd::utf8::encode_utf8(pax_record(length, key, value)).len(),
        length <= usize::MAX,
        !key.contains('='),
        value.len() > 0 ==> value.last() != '\n',
    ensures
        key == seq!['p', 'a', 't', 'h'] ==> pax_path(pax_record(length, key, value) + rest)
            == Some(value),
        key != seq!['p', 'a', 't', 'h'] ==> pax_path(pax_record(length, key, value) + rest)
            == pax_path(rest),
{
    let record = pax_record(length, key, value);
    let all = record + rest;
    let digits = text::decimal(length);
    lemma_pax_record(length, key, value, rest);
    let body = key + seq!['='] + value + seq!['\n'];
    assert(all.subrange(digits.len() as int + 1, record.len() as int) =~= body);
    assert(all.skip(record.len() as int) =~= rest);
    reveal_strlit("path=");
    let wanted = "path="@;
    let path = seq!['p', 'a', 't', 'h'];
    assert(wanted =~= path.push('='));
    if key == path {
        assert(body =~= wanted + (value + seq!['\n']));
        assert(wanted.is_prefix_of(body));
        assert(body.skip(5) =~= value.push('\n'));
        assert(value.push('\n').drop_last() =~= value);
        assert(trimmed_feeds(value) == value);
        assert(trimmed_feeds(value.push('\n')) == value);
    } else if wanted.is_prefix_of(body) {
        assert forall|i: int| 0 <= i < 5 implies body[i] == wanted[i] by {
            assert(body.subrange(0, 5)[i] == wanted[i]);
        }
        assert(body[4] == '=');
        if key.len() > 4 {
            assert(body[4] == key[4]);
            assert(key.contains('='));
        } else if key.len() < 4 {
            assert(body[key.len() as int] == '=');
            assert(wanted[key.len() as int] == '=');
        }
        assert forall|i: int| 0 <= i < 4 implies key[i] == path[i] by {
            assert(body[i] == key[i]);
            assert(wanted[i] == path[i]);
        }
        assert(key =~= path);
    }
}

/// The path in an extended header is the name of the member behind it, and changes nothing
/// else of it.
pub proof fn law_a_pax_path_names_the_member_behind_it(
    extended: HeaderView,
    records: Seq<char>,
    name: Seq<char>,
    filler: Seq<u8>,
    header: HeaderView,
)
    requires
        fits_header(extended),
        extended.flag == 'x' as u8 || extended.flag == 'X' as u8,
        records.len() > 0,
        pax_path(records) == Some(name),
        extended.size == vstd::utf8::encode_utf8(records).len(),
        filler.len() < 512,
        (extended.size + filler.len()) % 512 == 0,
        fits_header(header),
        is_member_flag(header.flag),
    ensures
        ({
            let named = scanned_entries(
                scan_start(),
                header_block(extended) + vstd::utf8::encode_utf8(records) + filler + header_block(
                    header,
                ),
            );
            let plain = scanned_entries(scan_start(), header_block(header));
            named.len() == 1 && named[0] == (EntryView { name, ..plain[0] })
        }),
{
    let data = vstd::utf8::encode_utf8(records);
    vstd::utf8::char_is_scalar(records[0]);
    assert(data.len() > 0);
    lemma_announces(extended);
    lemma_after_extended(header_block(extended), extended.flag, ExtendedKind::Pax, data, filler);
    logs::law_text_is_read_back(records);
    assert(extended_text(ExtendedKind::Pax, data) == Some(name)) by {
        reveal(extended_text);
    }
    lemma_named_member(header_block(extended) + data + filler, name, header);
}

/// A directory's entry, a link or an extended header before a file is passed over when the
/// file is pulled out of the archive; and an archive that ends, or holds a block of zeros,
/// holds nothing more.
pub proof fn law_extraction_passes_over_what_is_no_file(
    header: HeaderView,
    content: Seq<u8>,
    filler: Seq<u8>,
    rest: Seq<u8>,
)
    requires
        fits_header(header),
        header.flag != '0' as u8,
        header.flag != 0,
        header.flag != '7' as u8,
        content.len() == header.size,
        filler.len() < 512,
        (content.len() + filler.len()) % 512 == 0,
        content.len() + filler.len() <= usize::MAX,
    ensures
        file_from(header_block(header) + content + filler + rest, 0) == file_from(rest, 0),
        rest.len() < 512 ==> file_from(rest, 0) is None,
        file_from(field(Seq::empty(), 512) + rest, 0) is None,
{
    lemma_announces(header);
    lemma_extraction_skips(header_block(header), header.flag, content, filler, rest);
    let zeros = field(Seq::empty(), 512);
    assert((zeros + rest).subrange(0, 512) =~= zeros);
}

proof fn lemma_extraction_skips(
    block: Seq<u8>,
    flag: u8,
    content: Seq<u8>,
    filler: Seq<u8>,
    rest: Seq<u8>,
)
    requires
        announces(block, flag, content.len()),
        !(kind_of(flag) is File),
        content.len() < 0o100_000_000_000,
        filler.len() < 512,
        (content.len() + filler.len()) % 512 == 0,
        content.len() + filler.len() <= usize::MAX,
    ensures
        file_from(block + content + filler + rest, 0) == file_from(rest, 0),
{
    let tar = block + content + filler + rest;
    assert(tar.subrange(0, 512) =~= block);
    lemma_filler(header_size(block), filler.len());
    let start = (512 + content.len() + filler.len()) as int;
    assert(file_from(tar, 0) == file_from(tar, start));
    assert(tar.skip(start) =~= rest);
    lemma_file_from_skip(tar, start, 0);
}

proof fn lemma_file_from_skip(tar: Seq<u8>, start: int, offset: int)
    requires
        0 <= start <= tar.len(),
        0 <= offset,
    ensures
        file_from(tar, start + offset) == file_from(tar.skip(start), offset),
    decreases bytes_from(tar, start + offset),
{
    let rest = tar.skip(start);
    if start + offset + 512 <= tar.len() {
        let block = tar.subrange(start + offset, start + offset + 512);
        assert(rest.subrange(offset, offset + 512) =~= block);
        let size = header_size(block);
        if !blank(block) {
            if kind_of(block[156]) is File {
                let from = offset + 512;
                let end = from + addressable(size as nat);
                let low = if end < rest.len() { end } else { rest.len() as int };
                assert(rest.subrange(from, low) =~= tar.subrange(start + from, start + low));
            } else {
                lemma_file_from_skip(tar, start, offset + 512 + addressable(occupied(size)));
            }
        }
    }
}

/// A regular file comes out of its archive byte for byte, whatever stands behind it.
pub proof fn law_a_file_is_extracted_byte_for_byte(
    header: HeaderView,
    content: Seq<u8>,
    rest: Seq<u8>,
)
    requires
        fits_header(header),
        header.flag == '0' as u8 || header.flag == 0 || header.flag == '7' as u8,
        content.len() == header.size,
        content.len() <= usize::MAX,
    ensures
        file_from(header_block(header) + content + rest, 0) == Some(content),
{
    lemma_header_block(header);
    law_first_file_is_read_back(header_block(header), content, rest);
}

proof fn lemma_components_of(front: Seq<char>, name: Seq<char>)
    requires
        name.len() > 0,
        !name.contains('/'),
        front.len() == 0 || front.last() == '/',
    ensures
        components(front + name) == components(front).push(name),
{
    let whole = front + name;
    assert(name.contains(name.last()));
    assert(whole.last() == name.last());
    if front.len() > 0 {
        lemma_after_last_of(front.drop_last(), name);
        assert(front.drop_last().push('/') =~= front);
    } else {
        assert(whole =~= name);
        lemma_only_name(name);
    }
    assert(whole.take(whole.len() - name.len()) =~= front);
}

proof fn lemma_components_joined(front: Seq<char>, rest: Seq<char>)
    requires
        front.len() == 0 || front.last() == '/' || rest.len() == 0 || rest[0] == '/',
    ensures
        components(front + rest) == components(front) + components(rest),
    decreases rest.len(),
{
    let whole = front + rest;
    if rest.len() == 0 {
        assert(whole =~= front);
        assert(components(front) + components(rest) =~= components(front));
    } else if rest.last() == '/' {
        assert(whole.drop_last() =~= front + rest.drop_last());
        if rest.len() > 1 {
            lemma_components_joined(front, rest.drop_last());
        } else {
            assert(rest.drop_last() =~= Seq::<char>::empty());
            assert(whole.drop_last() =~= front);
            assert(components(rest.drop_last()) =~= Seq::<Seq<char>>::empty());
            assert(components(front) + components(rest) =~= components(front));
        }
    } else {
        text::lemma_after_last(rest, '/');
        let name = text::after_last(rest, '/');
        let before = rest.take(rest.len() - name.len());
        assert(rest =~= before + name);
        assert(name.len() > 0);
        if before.len() > 0 {
            assert(before[0] == rest[0]);
            lemma_components_joined(front, before);
            assert(before.last() == '/');
        } else {
            assert(rest =~= name);
            if front.len() > 0 && front.last() != '/' {
                assert(name.contains(name[0]));
            }
            assert(front + before =~= front);
            assert(components(before) =~= Seq::<Seq<char>>::empty());
            assert(components(front) + components(before) =~= components(front));
        }
        assert(whole =~= (front + before) + name);
        lemma_components_of(front + before, name);
        lemma_components_of(before, name);
        assert((components(front) + components(before)).push(name) =~= components(front)
            + components(before).push(name));
    }
}

/// The parent of a path has its names without the last, and the last is the path's own
/// name.
pub proof fn law_a_path_is_its_parent_and_its_name(path: Seq<char>)
    requires
        rooted(path),
        components(path).len() > 0,
    ensures
        components(parent_text(path)) == components(path).drop_last(),
        name_text(path) == components(path).last(),
        rooted(parent_text(path)),
{
    reveal_strlit("/");
    let slash = "/"@;
    law_normalising_is_final(path);
    lemma_normal_rooted(path);
    let whole = normal(path);
    law_normalising_is_final(whole);
    assert(slash.drop_last() =~= Seq::<char>::empty());
    assert(components(slash) == components(slash.drop_last()));
    assert(whole != slash);
    assert(parent_text(whole) == parent_text(path) && name_text(whole) == name_text(path));
    lemma_parent_and_name(whole);
    text::lemma_after_last(whole, '/');
    if whole.len() == 1 {
        assert(whole =~= slash);
    }
    let name = name_text(path);
    let parent = parent_text(path);
    assert(name.len() > 0) by {
        assert(whole.last() != '/');
    }
    let front = with_slash(parent);
    lemma_components_of(front, name);
    assert(components(whole).drop_last() =~= components(front));
    if parent != slash {
        assert(front.drop_last() =~= parent);
        assert(components(front) == components(parent));
    }
    assert(whole[0] == front[0]);
    if parent.len() == 0 {
        assert(front =~= slash);
    }
    assert(rooted(parent)) by {
        if parent != slash {
            assert(front[0] == parent.push('/')[0]);
        }
    }
}

/// The absolute path of a member has the names of the directory that holds the requested
/// path, and behind them the names of the member; a member that is absolute already has
/// its own alone.
pub proof fn law_members_stand_beside_the_requested_path(root: Seq<char>, member: Seq<char>)
    requires
        rooted(root),
    ensures
        rooted(absolute(root, member)),
        rooted(member) && components(member).len() > 0 ==> components(absolute(root, member))
            == components(member),
        !rooted(member) ==> components(absolute(root, member)) == (if components(root).len() > 0 {
            components(root).drop_last() + components(member)
        } else {
            components(member)
        }),
{
    reveal_strlit("/");
    let slash = "/"@;
    lemma_absolute_rooted(root, member);
    lemma_trimmed_slashes(member);
    let rest = trimmed_slashes(member);
    let parent = parent_text(root);
    assert(slash.drop_last() =~= Seq::<char>::empty());
    assert(components(slash) == components(slash.drop_last()));
    assert(components(slash) =~= Seq::<Seq<char>>::empty());
    if components(root).len() > 0 {
        law_a_path_is_its_parent_and_its_name(root);
    } else {
        lemma_no_names(root);
    }
    if slash.is_prefix_of(rest) {
        assert(rest.subrange(0, 1)[0] == slash[0]);
        law_normalising_is_final(rest);
    } else if parent == slash {
        law_normalising_is_final(slash + rest);
        lemma_components_joined(slash, rest);
        assert(components(slash) + components(rest) =~= components(rest));
    } else {
        law_normalising_is_final(parent + slash + rest);
        assert(parent + slash =~= parent.push('/'));
        assert(parent.push('/').drop_last() =~= parent);
        lemma_components_joined(parent + slash, rest);
        assert(components(parent + slash) == components(parent));
    }
    if rooted(rest) {
        assert(rest.subrange(0, 1) =~= slash);
    }
}

proof fn lemma_trimmed_slashes(member: Seq<char>)
    ensures
        components(trimmed_slashes(member)) == components(member),
        trimmed_slashes(member).is_prefix_of(member),
        components(member).len() > 0 ==> trimmed_slashes(member).len() > 0,
    decreases member.len(),
{
    if member.len() > 0 && member.last() == '/' {
        lemma_trimmed_slashes(member.drop_last());
    }
}

proof fn lemma_no_names(path: Seq<char>)
    requires
        rooted(path),
        components(path).len() == 0,
    ensures
        parent_text(path) == "/"@,
{
    reveal_strlit("/");
    let slash = "/"@;
    law_normalising_is_final(path);
    lemma_normal_rooted(path);
    let whole = normal(path);
    if whole.len() > 1 {
        assert(whole.last() != '/');
        text::lemma_after_last(whole, '/');
        assert(components(whole).len() > 0);
    }
    assert(whole.len() == 1);
}

/// So many bytes of a number, the last of them its lowest.
pub open spec fn number_bytes(n: nat, count: nat) -> Seq<u8>
    decreases count,
{
    if count == 0 {
        Seq::empty()
    } else {
        number_bytes(n / 256, (count - 1) as nat).push((n % 256) as u8)
    }
}

proof fn lemma_number_bytes(front: Seq<u8>, n: nat, count: nat, power: nat)
    requires
        front.len() > 0,
        base256(front) == 0,
        power == vstd::arithmetic::power2::pow2(8 * count),
        count <= 8,
        n < power,
    ensures
        base256(front + number_bytes(n, count)) == n,
        number_bytes(n, count).len() == count,
    decreases count,
{
    vstd::arithmetic::power2::lemma2_to64();
    if count == 0 {
        assert(front + number_bytes(n, 0) =~= front);
    } else {
        let less = (count - 1) as nat;
        let lower = vstd::arithmetic::power2::pow2(8 * less);
        vstd::arithmetic::power2::lemma_pow2_adds(8 * less, 8);
        assert(power == lower * 256);
        assert(n / 256 < lower) by (nonlinear_arith)
            requires
                n < lower * 256,
        ;
        lemma_number_bytes(front, n / 256, less, lower);
        let all = front + number_bytes(n, count);
        let rest = front + number_bytes(n / 256, less);
        assert(all.drop_last() =~= rest);
        assert(all.last() == (n % 256) as u8);
        assert(power <= 0x1_0000_0000_0000_0000) by {
            if count < 8 {
                vstd::arithmetic::power2::lemma_pow2_strictly_increases(8 * count, 64);
            }
            vstd::arithmetic::power2::lemma2_to64_rest();
        }
        assert((n / 256) * 256 + n % 256 == n);
        assert((n / 256) * 256 < 0x1_0000_0000_0000_0000);
    }
}

proof fn lemma_flagged_zeros(zeros: nat)
    ensures
        base256(seq![128u8] + Seq::new(zeros, |i: int| 0u8)) == 0,
    decreases zeros,
{
    let bytes = seq![128u8] + Seq::new(zeros, |i: int| 0u8);
    if zeros > 0 {
        let less = (zeros - 1) as nat;
        lemma_flagged_zeros(less);
        assert(bytes.drop_last() =~= seq![128u8] + Seq::new(less, |i: int| 0u8));
        assert(bytes.last() == 0);
    }
}

/// A number that its field has no room for in digits stands in it byte by byte, behind a flag
/// in the first; so a size beyond eight gigabytes is read as it is.
pub proof fn law_large_numbers_are_read_byte_by_byte(n: u64, zeros: nat)
    ensures
        field_number(
            seq![128u8] + Seq::new(zeros, |i: int| 0u8) + number_bytes(n as nat, 8),
        ) == n,
{
    vstd::arithmetic::power2::lemma2_to64();
    vstd::arithmetic::power2::lemma2_to64_rest();
    lemma_flagged_zeros(zeros);
    let front = seq![128u8] + Seq::new(zeros, |i: int| 0u8);
    lemma_number_bytes(front, n as nat, 8, vstd::arithmetic::power2::pow2(64));
}

/// A member is found under its absolute path as it was read; a later one of the same path
/// takes the place of an earlier one, and those of other paths stay as they were.
pub proof fn law_later_members_replace_earlier_ones(
    files: Files,
    root: Seq<char>,
    entries: Seq<EntryView>,
    entry: EntryView,
    other: Seq<char>,
)
    requires
        ordered::ascending(with_entries(files, root, entries)),
    ensures
        ({
            let path = absolute(root, entry.name);
            let after = with_entries(files, root, entries.push(entry));
            &&& ordered::lookup(after, path) matches Some(node)
            &&& node.path == path
            &&& node.name == name_text(path)
            &&& node.size == entry.size
            &&& node.mode == entry.mode
            &&& node.mtime == entry.mtime
            &&& node.kind == entry.kind
            &&& node.link_target == entry.link_target
            &&& other != path ==> ordered::lookup(after, other) == ordered::lookup(
                with_entries(files, root, entries),
                other,
            )
        }),
{
    assert(entries.push(entry).drop_last() =~= entries);
    let node = node_for(root, entry);
    ordered::law_insert_then_lookup(with_entries(files, root, entries), node.path, node, other);
}

/// What is said of an index that stopped early names the path and how much was read.
pub proof fn law_an_early_stop_is_told(index: IndexView)
    requires
        index.truncated,
        index.bytes_read <= i64::MAX,
    ensures
        (index.root + " is too large to list in full: "@ + crate::model::format::bytes_text(
            index.bytes_read as int,
        )).is_prefix_of(notice_text(index)->0),
{
    let front = index.root + " is too large to list in full: "@ + crate::model::format::bytes_text(
        index.bytes_read as int,
    );
    let said = notice_text(index)->0;
    assert(said.subrange(0, front.len() as int) =~= front);
}

/// White space around what stands in a header field is no part of it, and neither is anything
/// behind the first zero; so a number is read whether a space or a zero ends it.
pub proof fn law_fields_end_at_a_zero_or_a_space(
    before: Seq<char>,
    text: Seq<char>,
    after: Seq<char>,
    rest: Seq<u8>,
    n: nat,
    count: nat,
)
    requires
        forall|i: int| 0 <= i < before.len() ==> text::is_space(#[trigger] before[i]),
        forall|i: int| 0 <= i < after.len() ==> text::is_space(#[trigger] after[i]),
        fits_field(text),
        rest.len() > 0 ==> rest[0] == 0,
        0 < count < 20,
        n < eights(count),
        n <= u64::MAX,
    ensures
        field_text(vstd::utf8::encode_utf8(before + text + after) + rest) == text,
        field_number(vstd::utf8::encode_utf8(octal_digits(n, count).push(' ')) + rest) == n,
{
    lemma_blank_field(before, text, after, rest);
    let digits = octal_digits(n, count);
    lemma_octal_value(n, count);
    lemma_octal_is_read_back(n, count);
    assert forall|i: int| 0 <= i < digits.len() implies digits[i] != '\0' by {
        assert('0' <= digits[i] <= '7');
    }
    assert(fits_field(digits)) by {
        assert('0' <= digits[0] <= '7');
        assert('0' <= digits[count - 1] <= '7');
    }
    lemma_field_is_read_back(digits, count + 1);
    assert(octal(digits) == n);
    lemma_blank_field(Seq::empty(), digits, seq![' '], rest);
    let spaced = digits.push(' ');
    assert(Seq::<char>::empty() + digits + seq![' '] =~= spaced);
    assert(vstd::utf8::is_ascii_chars(spaced)) by {
        assert forall|i: int| 0 <= i < spaced.len() implies 0 <= #[trigger] spaced[i] as nat
            && spaced[i] as nat <= 127 by {
            if i < count {
                assert('0' <= digits[i] <= '7');
            }
        }
    }
    vstd::utf8::is_ascii_chars_encode_utf8(spaced);
    let bytes = vstd::utf8::encode_utf8(spaced);
    assert('0' <= digits[0] <= '7');
    assert(spaced[0] == digits[0]);
    assert(bytes[0] == spaced[0] as u8);
    assert((bytes + rest)[0] == bytes[0]);
}

proof fn lemma_blank_field(before: Seq<char>, text: Seq<char>, after: Seq<char>, rest: Seq<u8>)
    requires
        forall|i: int| 0 <= i < before.len() ==> text::is_space(#[trigger] before[i]),
        forall|i: int| 0 <= i < after.len() ==> text::is_space(#[trigger] after[i]),
        fits_field(text),
        rest.len() > 0 ==> rest[0] == 0,
    ensures
        field_text(vstd::utf8::encode_utf8(before + text + after) + rest) == text,
{
    let all = before + text + after;
    let bytes = vstd::utf8::encode_utf8(all);
    assert(0u8 as char == '\0');
    assert(!all.contains('\0')) by {
        if all.contains('\0') {
            let i = choose|i: int| 0 <= i < all.len() && all[i] == '\0';
            if i < before.len() {
                assert(text::is_space(before[i]));
            } else if i < before.len() + text.len() {
                assert(text[i - before.len()] == '\0');
            } else {
                assert(text::is_space(after[i - before.len() - text.len()]));
            }
        }
    }
    logs::lemma_plain_bytes(all, 0);
    lemma_before_zero(bytes, rest);
    logs::law_text_is_read_back(all);
    text::law_trimming_takes_off_white_space_alone(before, text, after);
}

} // verus!
