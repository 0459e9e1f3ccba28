//! Which daemon to talk to, and why that one.

use vstd::prelude::*;

use crate::lists;
use crate::lists::put;
use crate::ordered;
use crate::ordered::TextMap;
use crate::text;
use crate::text::{find_str, join, same, starts_with, strip_prefix, take_chars, trim};

verus! {

/// A daemon address this version knows how to talk to.
#[derive(Debug, Clone, PartialEq, Eq)]
pub enum Endpoint {
    /// The path of a local socket.
    Unix(String),
}

/// The value of an [`Endpoint`].
#[verifier::ext_equal]
pub enum EndpointView {
    Unix(Seq<char>),
}

impl DeepView for Endpoint {
    type V = EndpointView;

    open spec fn deep_view(&self) -> EndpointView {
        match self {
            Endpoint::Unix(path) => EndpointView::Unix(path@),
        }
    }
}

/// An endpoint as a URL.
pub open spec fn endpoint_url(endpoint: EndpointView) -> Seq<char> {
    match endpoint {
        EndpointView::Unix(path) => "unix://"@ + path,
    }
}

impl Endpoint {
    /// The socket's path.
    #[must_use]
    pub fn path(&self) -> (path: &str)
        ensures
            self.deep_view() == EndpointView::Unix(path@),
    {
        match self {
            Endpoint::Unix(path) => path.as_str(),
        }
    }

    /// The address as a URL.
    #[must_use]
    pub fn to_string(&self) -> (url: String)
        ensures
            url@ == endpoint_url(self.deep_view()),
    {
        match self {
            Endpoint::Unix(path) => "unix://".to_owned().concat(path.as_str()),
        }
    }
}

/// How the endpoint was chosen. Shown to the user so a surprising target is explicable.
#[derive(Debug, Clone, PartialEq, Eq)]
pub enum EndpointSource {
    CommandLine,
    DockerHostEnv,
    DockerContext(String),
    RootlessSocket,
    RootfulSocket,
    PodmanSocket,
}

/// The value of an [`EndpointSource`].
#[verifier::ext_equal]
pub enum SourceView {
    CommandLine,
    DockerHostEnv,
    DockerContext(Seq<char>),
    RootlessSocket,
    RootfulSocket,
    PodmanSocket,
}

impl DeepView for EndpointSource {
    type V = SourceView;

    open spec fn deep_view(&self) -> SourceView {
        match self {
            EndpointSource::CommandLine => SourceView::CommandLine,
            EndpointSource::DockerHostEnv => SourceView::DockerHostEnv,
            EndpointSource::DockerContext(name) => SourceView::DockerContext(name@),
            EndpointSource::RootlessSocket => SourceView::RootlessSocket,
            EndpointSource::RootfulSocket => SourceView::RootfulSocket,
            EndpointSource::PodmanSocket => SourceView::PodmanSocket,
        }
    }
}

/// A context as it is named to the user.
pub open spec fn context_label(name: Seq<char>) -> Seq<char> {
    "Docker context \""@ + name + "\""@
}

/// A source as it is named to the user.
pub open spec fn source_label(source: SourceView) -> Seq<char> {
    match source {
        SourceView::CommandLine => "--docker-host option"@,
        SourceView::DockerHostEnv => "DOCKER_HOST environment variable"@,
        SourceView::DockerContext(name) => context_label(name),
        SourceView::RootlessSocket => "rootless socket"@,
        SourceView::RootfulSocket => "rootful socket"@,
        SourceView::PodmanSocket => "Podman socket"@,
    }
}

/// A context as it is named to the user.
fn label_of(name: &str) -> (label: String)
    ensures
        label@ == context_label(name@),
{
    "Docker context \"".to_owned().concat(name).concat("\"")
}

impl EndpointSource {
    /// The source as it is named to the user.
    #[must_use]
    pub fn to_string(&self) -> (label: String)
        ensures
            label@ == source_label(self.deep_view()),
    {
        match self {
            EndpointSource::CommandLine => "--docker-host option".to_owned(),
            EndpointSource::DockerHostEnv => "DOCKER_HOST environment variable".to_owned(),
            EndpointSource::DockerContext(name) => label_of(name.as_str()),
            EndpointSource::RootlessSocket => "rootless socket".to_owned(),
            EndpointSource::RootfulSocket => "rootful socket".to_owned(),
            EndpointSource::PodmanSocket => "Podman socket".to_owned(),
        }
    }
}

/// An endpoint and how it was chosen.
#[derive(Debug, Clone, PartialEq, Eq)]
pub struct Resolved {
    pub endpoint: Endpoint,
    pub source: EndpointSource,
}

/// The value of a [`Resolved`].
#[verifier::ext_equal]
pub struct ResolvedView {
    pub endpoint: EndpointView,
    pub source: SourceView,
}

impl DeepView for Resolved {
    type V = ResolvedView;

    open spec fn deep_view(&self) -> ResolvedView {
        ResolvedView { endpoint: self.endpoint.deep_view(), source: self.source.deep_view() }
    }
}

/// Why no endpoint was chosen.
#[derive(Debug, Clone, PartialEq, Eq)]
pub enum ResolveError {
    UnsupportedScheme { scheme: String, raw: String, origin: String },
    Malformed { raw: String, origin: String },
    ContextUnusable { name: String, reason: String },
    NoDaemonFound { probed: Vec<String> },
}

/// The value of a [`ResolveError`].
#[verifier::ext_equal]
pub enum ResolveErrorView {
    UnsupportedScheme { scheme: Seq<char>, raw: Seq<char>, origin: Seq<char> },
    Malformed { raw: Seq<char>, origin: Seq<char> },
    ContextUnusable { name: Seq<char>, reason: Seq<char> },
    NoDaemonFound { probed: Seq<Seq<char>> },
}

impl DeepView for ResolveError {
    type V = ResolveErrorView;

    open spec fn deep_view(&self) -> ResolveErrorView {
        match self {
            ResolveError::UnsupportedScheme { scheme, raw, origin } => {
                ResolveErrorView::UnsupportedScheme {
                    scheme: scheme@,
                    raw: raw@,
                    origin: origin@,
                }
            },
            ResolveError::Malformed { raw, origin } => ResolveErrorView::Malformed {
                raw: raw@,
                origin: origin@,
            },
            ResolveError::ContextUnusable { name, reason } => ResolveErrorView::ContextUnusable {
                name: name@,
                reason: reason@,
            },
            ResolveError::NoDaemonFound { probed } => ResolveErrorView::NoDaemonFound {
                probed: probed.deep_view(),
            },
        }
    }
}

/// What choosing an endpoint comes to.
pub type Choice = Result<ResolvedView, ResolveErrorView>;

/// The value of a [`Result`] of [`resolve`].
pub open spec fn choice_of(result: Result<Resolved, ResolveError>) -> Choice {
    match result {
        Ok(resolved) => Ok(resolved.deep_view()),
        Err(error) => Err(error.deep_view()),
    }
}

impl ResolveErrorView {
    /// The error in one line.
    pub open spec fn message(self) -> Seq<char> {
        match self {
            ResolveErrorView::UnsupportedScheme { scheme, origin, .. } => origin + " names a "@
                + scheme + ":// endpoint; this version supports local sockets only"@,
            ResolveErrorView::Malformed { raw, origin } => origin
                + " is not a usable daemon address: \""@ + raw + "\""@,
            ResolveErrorView::ContextUnusable { name, reason } => context_label(name) + " "@
                + reason,
            ResolveErrorView::NoDaemonFound { probed } =>
                "no container daemon socket found; looked in "@ + text::joined(probed, ", "@),
        }
    }
}

impl ResolveError {
    /// The error in one line.
    #[must_use]
    pub fn to_string(&self) -> (line: String)
        ensures
            line@ == self.deep_view().message(),
    {
        match self {
            ResolveError::UnsupportedScheme { scheme, origin, .. } => origin.clone().concat(
                " names a ",
            ).concat(scheme.as_str()).concat(
                ":// endpoint; this version supports local sockets only",
            ),
            ResolveError::Malformed { raw, origin } => origin.clone().concat(
                " is not a usable daemon address: \"",
            ).concat(raw.as_str()).concat("\""),
            ResolveError::ContextUnusable { name, reason } => label_of(name.as_str()).concat(
                " ",
            ).concat(reason.as_str()),
            ResolveError::NoDaemonFound { probed } => {
                let list = join(lists::slice_of(probed), ", ");
                "no container daemon socket found; looked in ".to_owned().concat(list.as_str())
            },
        }
    }
}

/// Environment variable lookup, injected so resolution is testable.
pub trait EnvSource {
    fn var(&self, key: &str) -> Option<String>;
}

/// Filesystem inspection, injected so resolution is testable.
pub trait PathProbe {
    fn is_present(&self, path: &str) -> bool;

    fn read_to_string(&self, path: &str) -> Option<String>;

    fn list_dir(&self, path: &str) -> Vec<String>;
}

/// The files in which Docker keeps its contexts, decoded.
pub trait ContextFormat {
    /// The context that `config.json` selects, or why the file makes no sense.
    fn current_context(&self, text: &str) -> Result<Option<String>, String>;

    /// What a context's `meta.json` says.
    fn context_meta(&self, text: &str) -> Option<ContextMeta>;
}

/// One endpoint of a context.
#[derive(Debug, Clone, PartialEq, Eq, Default)]
pub struct ContextEndpoint {
    pub host: Option<String>,
}

impl DeepView for ContextEndpoint {
    type V = Option<Seq<char>>;

    open spec fn deep_view(&self) -> Option<Seq<char>> {
        self.host.deep_view()
    }
}

/// A context, as its `meta.json` records it.
#[derive(Debug, Clone, PartialEq, Eq, Default)]
pub struct ContextMeta {
    pub name: String,
    pub endpoints: TextMap<ContextEndpoint>,
}

/// The value of a [`ContextMeta`].
#[verifier::ext_equal]
pub struct MetaView {
    pub name: Seq<char>,
    pub endpoints: Seq<(Seq<char>, Option<Seq<char>>)>,
}

impl DeepView for ContextMeta {
    type V = MetaView;

    open spec fn deep_view(&self) -> MetaView {
        MetaView { name: self.name@, endpoints: self.endpoints.deep_view() }
    }
}

/// What became of reading `config.json`.
#[derive(Debug, Clone, PartialEq, Eq)]
pub enum ConfigFile {
    /// It is not there, or cannot be read.
    Absent,
    /// It makes no sense, for the given reason.
    Malformed(String),
    /// It selects this context.
    Selects(Option<String>),
}

/// The value of a [`ConfigFile`].
#[verifier::ext_equal]
pub enum ConfigView {
    Absent,
    Malformed(Seq<char>),
    Selects(Option<Seq<char>>),
}

impl DeepView for ConfigFile {
    type V = ConfigView;

    open spec fn deep_view(&self) -> ConfigView {
        match self {
            ConfigFile::Absent => ConfigView::Absent,
            ConfigFile::Malformed(reason) => ConfigView::Malformed(reason@),
            ConfigFile::Selects(name) => ConfigView::Selects(name.deep_view()),
        }
    }
}

/// Everything outside the command line that the choice depends on.
#[derive(Debug, Clone, PartialEq, Eq)]
pub struct Surroundings {
    /// The variable `DOCKER_HOST`.
    pub docker_host: Option<String>,
    /// The variable `HOME`.
    pub home: Option<String>,
    /// The variable `DOCKER_CONTEXT`.
    pub docker_context: Option<String>,
    /// Docker's `config.json`.
    pub config: ConfigFile,
    /// The contexts on record, in the order in which their directories are listed.
    /// `None` stands for one that could not be read or makes no sense.
    pub contexts: Vec<Option<ContextMeta>>,
    /// The variable `XDG_RUNTIME_DIR`.
    pub runtime_dir: Option<String>,
    /// Which of the candidate sockets exist, in their order. A candidate past the
    /// end of the list does not.
    pub present: Vec<bool>,
}

/// The value of [`Surroundings`].
#[verifier::ext_equal]
pub struct SurroundingsView {
    pub docker_host: Option<Seq<char>>,
    pub home: Option<Seq<char>>,
    pub docker_context: Option<Seq<char>>,
    pub config: ConfigView,
    pub contexts: Seq<Option<MetaView>>,
    pub runtime_dir: Option<Seq<char>>,
    pub present: Seq<bool>,
}

impl DeepView for Surroundings {
    type V = SurroundingsView;

    open spec fn deep_view(&self) -> SurroundingsView {
        SurroundingsView {
            docker_host: self.docker_host.deep_view(),
            home: self.home.deep_view(),
            docker_context: self.docker_context.deep_view(),
            config: self.config.deep_view(),
            contexts: self.contexts.deep_view(),
            runtime_dir: self.runtime_dir.deep_view(),
            present: self.present@,
        }
    }
}

/// A path below `base`.
pub open spec fn path_below(base: Seq<char>, name: Seq<char>) -> Seq<char> {
    if base.len() == 0 || base.last() == '/' {
        base + name
    } else {
        base + "/"@ + name
    }
}

/// A value that holds more than white space.
pub open spec fn filled(value: Option<Seq<char>>) -> Option<Seq<char>> {
    match value {
        Some(text) => if text::trimmed(text).len() > 0 {
            Some(text)
        } else {
            None
        },
        None => None,
    }
}

/// The endpoint that an address names.
pub open spec fn address(raw: Seq<char>, origin: Seq<char>) -> Result<
    EndpointView,
    ResolveErrorView,
> {
    let trimmed = text::trimmed(raw);
    let path = if "unix://"@.is_prefix_of(trimmed) {
        Some(trimmed.skip("unix://"@.len() as int))
    } else if "/"@.is_prefix_of(trimmed) {
        Some(trimmed)
    } else {
        None
    };
    match path {
        Some(path) => if path.len() > 0 {
            Ok(EndpointView::Unix(path))
        } else {
            Err(ResolveErrorView::Malformed { raw: trimmed, origin })
        },
        None => match text::find_in(trimmed, "://"@) {
            Some(at) => Err(
                ResolveErrorView::UnsupportedScheme {
                    scheme: trimmed.take(at as int),
                    raw: trimmed,
                    origin,
                },
            ),
            None => Err(ResolveErrorView::Malformed { raw: trimmed, origin }),
        },
    }
}

/// An address that was given outright.
pub open spec fn addressed(raw: Seq<char>, origin: Seq<char>, source: SourceView) -> Choice {
    match address(raw, origin) {
        Ok(endpoint) => Ok(ResolvedView { endpoint, source }),
        Err(error) => Err(error),
    }
}

/// Where Docker keeps its settings.
pub open spec fn docker_dir(home: Seq<char>) -> Seq<char> {
    path_below(home, ".docker"@)
}

/// Where Docker keeps its configuration.
pub open spec fn config_file(home: Seq<char>) -> Seq<char> {
    path_below(docker_dir(home), "config.json"@)
}

/// Where Docker keeps its contexts.
pub open spec fn contexts_dir(home: Seq<char>) -> Seq<char> {
    path_below(path_below(docker_dir(home), "contexts"@), "meta"@)
}

/// The context that is selected, the built-in `default` among them.
pub open spec fn selected(found: SurroundingsView, home: Seq<char>) -> Result<
    Option<Seq<char>>,
    ResolveErrorView,
> {
    match filled(found.docker_context) {
        Some(name) => Ok(Some(name)),
        None => match found.config {
            ConfigView::Absent => Ok(None),
            ConfigView::Malformed(reason) => Err(
                ResolveErrorView::ContextUnusable {
                    name: config_file(home),
                    reason: "could not be parsed: "@ + reason,
                },
            ),
            ConfigView::Selects(name) => Ok(filled(name)),
        },
    }
}

/// Whether a context on record has the given name.
pub open spec fn is_named(context: Option<MetaView>, name: Seq<char>) -> bool {
    context matches Some(meta) && meta.name == name
}

/// The address of a context's Docker endpoint.
pub open spec fn docker_host_of(meta: MetaView) -> Option<Seq<char>> {
    match ordered::lookup(meta.endpoints, "docker"@) {
        Some(host) => filled(host),
        None => None,
    }
}

/// The address of the first context on record with the given name.
pub open spec fn recorded_host(contexts: Seq<Option<MetaView>>, name: Seq<char>) -> Result<
    Seq<char>,
    ResolveErrorView,
> {
    match lists::first_where(contexts, |c: Option<MetaView>| is_named(c, name)) {
        Some(Some(meta)) => match docker_host_of(meta) {
            Some(host) => Ok(host),
            None => Err(
                ResolveErrorView::ContextUnusable {
                    name,
                    reason: "does not define a Docker endpoint"@,
                },
            ),
        },
        _ => Err(
            ResolveErrorView::ContextUnusable { name, reason: "is selected but was not found"@ },
        ),
    }
}

/// The endpoint of the selected context, when one other than `default` is selected.
pub open spec fn by_context(found: SurroundingsView) -> Option<Choice> {
    match filled(found.home) {
        None => None,
        Some(home) => match selected(found, home) {
            Err(error) => Some(Err(error)),
            Ok(None) => None,
            Ok(Some(name)) => if name == "default"@ {
                None
            } else {
                Some(
                    match recorded_host(found.contexts, name) {
                        Ok(host) => addressed(
                            host,
                            context_label(name),
                            SourceView::DockerContext(name),
                        ),
                        Err(error) => Err(error),
                    },
                )
            },
        },
    }
}

/// The sockets to look for, in the order of preference.
pub open spec fn candidates(runtime_dir: Option<Seq<char>>) -> Seq<(Seq<char>, SourceView)> {
    match filled(runtime_dir) {
        Some(dir) => seq![
            (path_below(dir, "docker.sock"@), SourceView::RootlessSocket),
            ("/var/run/docker.sock"@, SourceView::RootfulSocket),
            (path_below(path_below(dir, "podman"@), "podman.sock"@), SourceView::PodmanSocket),
        ],
        None => seq![("/var/run/docker.sock"@, SourceView::RootfulSocket)],
    }
}

/// The first candidate that exists.
pub open spec fn first_present(
    sockets: Seq<(Seq<char>, SourceView)>,
    present: Seq<bool>,
) -> Option<ResolvedView>
    decreases sockets.len(),
{
    if sockets.len() == 0 || present.len() == 0 {
        None
    } else if present[0] {
        Some(
            ResolvedView {
                endpoint: EndpointView::Unix(sockets[0].0),
                source: sockets[0].1,
            },
        )
    } else {
        first_present(sockets.skip(1), present.skip(1))
    }
}

/// The paths of the candidates.
pub open spec fn paths_of(sockets: Seq<(Seq<char>, SourceView)>) -> Seq<Seq<char>> {
    sockets.map_values(|socket: (Seq<char>, SourceView)| socket.0)
}

/// The first socket that exists.
pub open spec fn by_socket(found: SurroundingsView) -> Choice {
    let sockets = candidates(found.runtime_dir);
    match first_present(sockets, found.present) {
        Some(resolved) => Ok(resolved),
        None => Err(ResolveErrorView::NoDaemonFound { probed: paths_of(sockets) }),
    }
}

/// The daemon to talk to: the one that the command line names, else the one that
/// `DOCKER_HOST` names, else that of the selected context, else the first socket
/// that exists.
pub open spec fn chosen(cli_host: Option<Seq<char>>, found: SurroundingsView) -> Choice {
    match cli_host {
        Some(raw) => addressed(raw, "the --docker-host option"@, SourceView::CommandLine),
        None => match filled(found.docker_host) {
            Some(raw) => addressed(raw, "DOCKER_HOST"@, SourceView::DockerHostEnv),
            None => match by_context(found) {
                Some(choice) => choice,
                None => by_socket(found),
            },
        },
    }
}

/// An address on the command line is the only thing that counts.
pub proof fn law_command_line_wins(
    raw: Seq<char>,
    found: SurroundingsView,
    other: SurroundingsView,
)
    ensures
        chosen(Some(raw), found) == chosen(Some(raw), other),
{
}

/// An address in `DOCKER_HOST` outranks contexts and sockets.
pub proof fn law_docker_host_outranks_contexts(found: SurroundingsView, other: SurroundingsView)
    requires
        filled(found.docker_host) is Some,
        found.docker_host == other.docker_host,
    ensures
        chosen(None, found) == chosen(None, other),
{
}

/// A variable that holds only white space counts as one that is not set.
pub proof fn law_blank_variables_are_unset(
    cli_host: Option<Seq<char>>,
    found: SurroundingsView,
    blank: Seq<char>,
)
    requires
        text::trimmed(blank).len() == 0,
    ensures
        chosen(cli_host, SurroundingsView { docker_host: Some(blank), ..found }) == chosen(
            cli_host,
            SurroundingsView { docker_host: None, ..found },
        ),
        chosen(cli_host, SurroundingsView { home: Some(blank), ..found }) == chosen(
            cli_host,
            SurroundingsView { home: None, ..found },
        ),
        chosen(cli_host, SurroundingsView { docker_context: Some(blank), ..found }) == chosen(
            cli_host,
            SurroundingsView { docker_context: None, ..found },
        ),
        chosen(cli_host, SurroundingsView { runtime_dir: Some(blank), ..found }) == chosen(
            cli_host,
            SurroundingsView { runtime_dir: None, ..found },
        ),
{
}

/// A context that is selected by name is used or reported: a socket is never taken
/// in its place.
pub proof fn law_a_selected_context_is_never_passed_over(
    found: SurroundingsView,
    home: Seq<char>,
    name: Seq<char>,
)
    requires
        filled(found.docker_host) is None,
        filled(found.home) == Some(home),
        selected(found, home) == Ok::<Option<Seq<char>>, ResolveErrorView>(Some(name)),
        name != "default"@,
    ensures
        match chosen(None, found) {
            Ok(resolved) => resolved.source == SourceView::DockerContext(name),
            Err(error) => !(error is NoDaemonFound),
        },
{
}

/// The endpoint chosen is always a path that is not empty.
pub proof fn law_chosen_paths_are_not_empty(cli_host: Option<Seq<char>>, found: SurroundingsView)
    ensures
        chosen(cli_host, found) matches Ok(resolved) ==> resolved.endpoint matches EndpointView::Unix(
            path,
        ) && path.len() > 0,
{
    reveal_strlit("/var/run/docker.sock");
    reveal_strlit("docker.sock");
    reveal_strlit("podman.sock");
    let sockets = candidates(found.runtime_dir);
    lemma_first_present_is_a_candidate(sockets, found.present);
    if let Some(resolved) = first_present(sockets, found.present) {
        let at = choose|at: int|
            0 <= at < sockets.len() && resolved == (ResolvedView {
                endpoint: EndpointView::Unix(#[trigger] sockets[at].0),
                source: sockets[at].1,
            });
        assert(sockets[at].0.len() > 0);
    }
}

/// What is found among the sockets is one of them.
proof fn lemma_first_present_is_a_candidate(
    sockets: Seq<(Seq<char>, SourceView)>,
    present: Seq<bool>,
)
    ensures
        first_present(sockets, present) matches Some(resolved) ==> exists|at: int|
            0 <= at < sockets.len() && resolved == (ResolvedView {
                endpoint: EndpointView::Unix(#[trigger] sockets[at].0),
                source: sockets[at].1,
            }),
    decreases sockets.len(),
{
    if sockets.len() > 0 && present.len() > 0 {
        if present[0] {
            assert(sockets[0].0 == sockets[0].0);
        } else {
            lemma_first_present_is_a_candidate(sockets.skip(1), present.skip(1));
            if let Some(resolved) = first_present(sockets.skip(1), present.skip(1)) {
                let at = choose|at: int|
                    0 <= at < sockets.skip(1).len() && resolved == (ResolvedView {
                        endpoint: EndpointView::Unix(#[trigger] sockets.skip(1)[at].0),
                        source: sockets.skip(1)[at].1,
                    });
                assert(sockets.skip(1)[at] == sockets[at + 1]);
                assert(resolved.endpoint == EndpointView::Unix(sockets[at + 1].0));
            }
        }
    }
}

/// A path below `base`.
#[must_use]
pub fn path_join(base: &str, name: &str) -> (path: String)
    ensures
        path@ == path_below(base@, name@),
{
    let len: usize = base.unicode_len();
    if len == 0 || base.get_char(len - 1) == '/' {
        base.to_owned().concat(name)
    } else {
        base.to_owned().concat("/").concat(name)
    }
}

/// A value that holds more than white space.
fn non_empty(value: &Option<String>) -> (text: Option<&str>)
    ensures
        text.deep_view() == filled(value.deep_view()),
{
    match value {
        Some(text) => {
            if trim(text.as_str()).is_empty() {
                None
            } else {
                Some(text.as_str())
            }
        },
        None => None,
    }
}

/// The endpoint that an address names.
///
/// # Errors
///
/// If the address is malformed or names a scheme other than a local socket.
pub fn parse_host(raw: &str, origin: &str) -> (endpoint: Result<Endpoint, ResolveError>)
    ensures
        match endpoint {
            Ok(endpoint) => address(raw@, origin@) == Ok::<EndpointView, ResolveErrorView>(
                endpoint.deep_view(),
            ),
            Err(error) => address(raw@, origin@) == Err::<EndpointView, ResolveErrorView>(
                error.deep_view(),
            ),
        },
{
    let trimmed = trim(raw);
    if let Some(path) = strip_prefix(trimmed, "unix://") {
        return unix_endpoint(path, trimmed, origin);
    }
    if starts_with(trimmed, "/") {
        return unix_endpoint(trimmed, trimmed, origin);
    }
    match find_str(trimmed, "://") {
        Some(at) => Err(
            ResolveError::UnsupportedScheme {
                scheme: take_chars(trimmed, at).to_owned(),
                raw: trimmed.to_owned(),
                origin: origin.to_owned(),
            },
        ),
        None => Err(ResolveError::Malformed { raw: trimmed.to_owned(), origin: origin.to_owned() }),
    }
}

/// The endpoint at a path, which may not be empty.
fn unix_endpoint(path: &str, raw: &str, origin: &str) -> (endpoint: Result<Endpoint, ResolveError>)
    ensures
        match endpoint {
            Ok(endpoint) => path@.len() > 0 && endpoint.deep_view() == EndpointView::Unix(path@),
            Err(error) => path@.len() == 0 && error.deep_view() == (ResolveErrorView::Malformed {
                raw: raw@,
                origin: origin@,
            }),
        },
{
    if path.is_empty() {
        return Err(ResolveError::Malformed { raw: raw.to_owned(), origin: origin.to_owned() });
    }
    Ok(Endpoint::Unix(path.to_owned()))
}

/// An address that was given outright.
fn given(raw: &str, origin: &str, source: EndpointSource) -> (result: Result<
    Resolved,
    ResolveError,
>)
    ensures
        choice_of(result) == addressed(raw@, origin@, source.deep_view()),
{
    match parse_host(raw, origin) {
        Ok(endpoint) => Ok(Resolved { endpoint, source }),
        Err(error) => Err(error),
    }
}

/// Where Docker keeps its configuration.
#[must_use]
pub fn config_path(home: &str) -> (path: String)
    ensures
        path@ == config_file(home@),
{
    path_join(path_join(home, ".docker").as_str(), "config.json")
}

/// Where Docker keeps its contexts, each in a directory of its own.
#[must_use]
pub fn contexts_path(home: &str) -> (path: String)
    ensures
        path@ == contexts_dir(home@),
{
    path_join(path_join(path_join(home, ".docker").as_str(), "contexts").as_str(), "meta")
}

/// The context that is selected, the built-in `default` among them.
fn selected_context(found: &Surroundings, home: &str) -> (name: Result<Option<String>, ResolveError>)
    ensures
        match name {
            Ok(name) => selected(found.deep_view(), home@) == Ok::<
                Option<Seq<char>>,
                ResolveErrorView,
            >(name.deep_view()),
            Err(error) => selected(found.deep_view(), home@) == Err::<
                Option<Seq<char>>,
                ResolveErrorView,
            >(error.deep_view()),
        },
{
    if let Some(name) = non_empty(&found.docker_context) {
        return Ok(Some(name.to_owned()));
    }
    match &found.config {
        ConfigFile::Absent => Ok(None),
        ConfigFile::Malformed(reason) => Err(
            ResolveError::ContextUnusable {
                name: config_path(home),
                reason: "could not be parsed: ".to_owned().concat(reason.as_str()),
            },
        ),
        ConfigFile::Selects(name) => match non_empty(name) {
            Some(name) => Ok(Some(name.to_owned())),
            None => Ok(None),
        },
    }
}

/// The address of the first context on record with the given name. Docker names
/// context directories by a hash of the context name, so the recorded name decides.
fn context_host(name: &str, contexts: &Vec<Option<ContextMeta>>) -> (host: Result<
    String,
    ResolveError,
>)
    ensures
        match host {
            Ok(host) => recorded_host(contexts.deep_view(), name@) == Ok::<
                Seq<char>,
                ResolveErrorView,
            >(host@),
            Err(error) => recorded_host(contexts.deep_view(), name@) == Err::<
                Seq<char>,
                ResolveErrorView,
            >(error.deep_view()),
        },
{
    let ghost all = contexts.deep_view();
    let ghost p = |c: Option<MetaView>| is_named(c, name@);
    let mut i: usize = 0;
    while i < contexts.len()
        invariant
            i <= contexts@.len(),
            all == contexts.deep_view(),
            p == (|c: Option<MetaView>| is_named(c, name@)),
            forall|k: int| 0 <= k < i ==> !p(#[trigger] all[k]),
        decreases contexts@.len() - i,
    {
        assert(all[i as int] == contexts@[i as int].deep_view());
        if let Some(meta) = &contexts[i] {
            if same(meta.name.as_str(), name) {
                proof {
                    lists::lemma_first_where(all, p, i as int);
                }
                if let Some(endpoint) = meta.endpoints.get("docker") {
                    if let Some(host) = non_empty(&endpoint.host) {
                        return Ok(host.to_owned());
                    }
                }
                return Err(
                    ResolveError::ContextUnusable {
                        name: name.to_owned(),
                        reason: "does not define a Docker endpoint".to_owned(),
                    },
                );
            }
        }
        i += 1;
    }
    proof {
        lists::lemma_first_where(all, p, all.len() as int);
    }
    Err(
        ResolveError::ContextUnusable {
            name: name.to_owned(),
            reason: "is selected but was not found".to_owned(),
        },
    )
}

/// The active context, if one is selected and is not the built-in `default`.
fn resolve_context(found: &Surroundings) -> (result: Option<Result<Resolved, ResolveError>>)
    ensures
        match result {
            Some(result) => by_context(found.deep_view()) == Some(choice_of(result)),
            None => by_context(found.deep_view()) is None,
        },
{
    let home = match non_empty(&found.home) {
        Some(home) => home,
        None => {
            return None;
        },
    };
    let name = match selected_context(found, home) {
        Ok(Some(name)) => name,
        Ok(None) => {
            return None;
        },
        Err(error) => {
            return Some(Err(error));
        },
    };
    if same(name.as_str(), "default") {
        return None;
    }
    match context_host(name.as_str(), &found.contexts) {
        Ok(host) => {
            let origin = label_of(name.as_str());
            Some(given(host.as_str(), origin.as_str(), EndpointSource::DockerContext(name)))
        },
        Err(error) => Some(Err(error)),
    }
}

/// The sockets to look for, in the order of preference.
#[must_use]
pub fn socket_candidates(runtime_dir: &Option<String>) -> (sockets: Vec<(String, EndpointSource)>)
    ensures
        sockets.deep_view() == candidates(runtime_dir.deep_view()),
{
    let mut sockets: Vec<(String, EndpointSource)> = Vec::new();
    let dir = non_empty(runtime_dir);
    if let Some(dir) = dir {
        put(&mut sockets, (path_join(dir, "docker.sock"), EndpointSource::RootlessSocket));
    }
    put(&mut sockets, ("/var/run/docker.sock".to_owned(), EndpointSource::RootfulSocket));
    if let Some(dir) = dir {
        put(
            &mut sockets,
            (
                path_join(path_join(dir, "podman").as_str(), "podman.sock"),
                EndpointSource::PodmanSocket,
            ),
        );
    }
    assert(sockets.deep_view() =~= candidates(runtime_dir.deep_view()));
    sockets
}

/// An owned copy of a source.
fn source_copy(source: &EndpointSource) -> (copy: EndpointSource)
    ensures
        copy.deep_view() == source.deep_view(),
{
    match source {
        EndpointSource::CommandLine => EndpointSource::CommandLine,
        EndpointSource::DockerHostEnv => EndpointSource::DockerHostEnv,
        EndpointSource::DockerContext(name) => EndpointSource::DockerContext(name.clone()),
        EndpointSource::RootlessSocket => EndpointSource::RootlessSocket,
        EndpointSource::RootfulSocket => EndpointSource::RootfulSocket,
        EndpointSource::PodmanSocket => EndpointSource::PodmanSocket,
    }
}

/// The first socket that exists.
fn probe_sockets(found: &Surroundings) -> (result: Result<Resolved, ResolveError>)
    ensures
        choice_of(result) == by_socket(found.deep_view()),
{
    let sockets = socket_candidates(&found.runtime_dir);
    let ghost all = sockets.deep_view();
    let ghost present = found.present@;
    let mut i: usize = 0;
    assert(all.skip(0) =~= all && present.skip(0) =~= present);
    while i < sockets.len() && i < found.present.len()
        invariant
            i <= sockets@.len(),
            i <= found.present@.len(),
            all == sockets.deep_view(),
            present == found.present@,
            first_present(all, present) == first_present(all.skip(i as int), present.skip(i as int)),
            all == candidates(found.deep_view().runtime_dir),
        decreases sockets@.len() - i,
    {
        proof {
            let rest = all.skip(i as int);
            let there = present.skip(i as int);
            assert(rest[0] == all[i as int]);
            assert(there[0] == present[i as int]);
            assert(all[i as int] == sockets@[i as int].deep_view());
            assert(rest.skip(1) =~= all.skip(i + 1));
            assert(there.skip(1) =~= present.skip(i + 1));
        }
        if found.present[i] {
            return Ok(
                Resolved {
                    endpoint: Endpoint::Unix(sockets[i].0.clone()),
                    source: source_copy(&sockets[i].1),
                },
            );
        }
        i += 1;
    }
    let mut probed: Vec<String> = Vec::new();
    let mut k: usize = 0;
    assert(probed.deep_view() =~= paths_of(all).take(0));
    while k < sockets.len()
        invariant
            k <= sockets@.len(),
            all == sockets.deep_view(),
            probed.deep_view() == paths_of(all).take(k as int),
        decreases sockets@.len() - k,
    {
        assert(all[k as int] == sockets@[k as int].deep_view());
        put(&mut probed, sockets[k].0.clone());
        assert(probed.deep_view() =~= paths_of(all).take(k + 1));
        k += 1;
    }
    assert(probed.deep_view() =~= paths_of(all));
    Err(ResolveError::NoDaemonFound { probed })
}

/// Picks the daemon to talk to, from what was found.
///
/// # Errors
///
/// If an address is malformed or names an unsupported scheme, if the selected Docker
/// context is missing or unusable, or if no socket was found anywhere.
pub fn resolve_in(cli_host: Option<&str>, found: &Surroundings) -> (result: Result<
    Resolved,
    ResolveError,
>)
    ensures
        choice_of(result) == chosen(cli_host.deep_view(), found.deep_view()),
{
    if let Some(raw) = cli_host {
        return given(raw, "the --docker-host option", EndpointSource::CommandLine);
    }
    if let Some(raw) = non_empty(&found.docker_host) {
        return given(raw, "DOCKER_HOST", EndpointSource::DockerHostEnv);
    }
    match resolve_context(found) {
        Some(result) => result,
        None => probe_sockets(found),
    }
}

/// Whether an environment may answer that a variable holds a value.
pub open spec fn may_hold<E: EnvSource>(env: &E, name: Seq<char>, value: Option<String>) -> bool {
    exists|key: &str| key@ == name && #[trigger] call_ensures(E::var, (env, key), value)
}

/// Whether a probe may answer so when asked if there is something at a path.
pub open spec fn may_be_present<P: PathProbe>(paths: &P, path: Seq<char>, present: bool) -> bool {
    exists|file: &str|
        file@ == path && #[trigger] call_ensures(P::is_present, (paths, file), present)
}

/// Whether a probe may answer that the file at a path holds a text.
pub open spec fn may_read<P: PathProbe>(paths: &P, path: Seq<char>, text: Option<String>) -> bool {
    exists|file: &str|
        file@ == path && #[trigger] call_ensures(P::read_to_string, (paths, file), text)
}

/// Whether a probe may answer that these are the entries of a directory.
pub open spec fn may_list<P: PathProbe>(paths: &P, path: Seq<char>, dirs: Vec<String>) -> bool {
    exists|dir: &str| dir@ == path && #[trigger] call_ensures(P::list_dir, (paths, dir), dirs)
}

/// Whether a format may make this of the text of `config.json`.
pub open spec fn may_select<F: ContextFormat>(
    format: &F,
    config: Seq<char>,
    name: Result<Option<String>, String>,
) -> bool {
    exists|text: &str|
        text@ == config && #[trigger] call_ensures(F::current_context, (format, text), name)
}

/// Whether a format may make this of the text of a `meta.json`.
pub open spec fn may_describe<F: ContextFormat>(
    format: &F,
    record: Seq<char>,
    meta: Option<ContextMeta>,
) -> bool {
    exists|text: &str|
        text@ == record && #[trigger] call_ensures(F::context_meta, (format, text), meta)
}

/// Whether a configuration is what the probe and the format may answer for `config.json`
/// below a home directory: absent where the file cannot be read.
pub open spec fn config_found<P: PathProbe, F: ContextFormat>(
    home: Seq<char>,
    paths: &P,
    format: &F,
    config: ConfigFile,
) -> bool {
    exists|text: Option<String>|
        #[trigger] may_read(paths, config_file(home), text) && match text {
            Some(text) => exists|name: Result<Option<String>, String>|
                #[trigger] may_select(format, text@, name) && match name {
                    Ok(name) => config == ConfigFile::Selects(name),
                    Err(reason) => config == ConfigFile::Malformed(reason),
                },
            None => config is Absent,
        }
}

/// Whether a context is what the probe and the format may answer for a `meta.json`: none
/// where the file cannot be read.
pub open spec fn context_found<P: PathProbe, F: ContextFormat>(
    file: Seq<char>,
    paths: &P,
    format: &F,
    context: Option<ContextMeta>,
) -> bool {
    exists|text: Option<String>|
        #[trigger] may_read(paths, file, text) && match text {
            Some(text) => may_describe(format, text@, context),
            None => context is None,
        }
}

/// Reads Docker's configuration: what the format makes of `config.json`, when the file can
/// be read.
fn read_config<P: PathProbe, F: ContextFormat>(home: &str, paths: &P, format: &F) -> (config:
    ConfigFile)
    ensures
        config_found(home@, paths, format, config),
{
    let file = config_path(home);
    let answer = paths.read_to_string(file.as_str());
    assert(may_read(paths, config_file(home@), answer));
    match &answer {
        Some(text) => {
            let name = format.current_context(text.as_str());
            assert(may_select(format, text@, name));
            match name {
                Ok(name) => ConfigFile::Selects(name),
                Err(reason) => ConfigFile::Malformed(reason),
            }
        },
        None => ConfigFile::Absent,
    }
}

/// Whether contexts are what the probe and the format may answer for the first of the
/// directories, in their order: for all of them, or up to the first context with the name.
pub open spec fn contexts_in<P: PathProbe, F: ContextFormat>(
    dirs: Seq<String>,
    name: Seq<char>,
    paths: &P,
    format: &F,
    contexts: Seq<Option<ContextMeta>>,
) -> bool {
    &&& contexts.len() <= dirs.len()
    &&& forall|i: int|
        0 <= i < contexts.len() ==> context_found(
            path_below(dirs[i]@, "meta.json"@),
            paths,
            format,
            #[trigger] contexts[i],
        )
    &&& forall|i: int|
        0 <= i < contexts.len() - 1 ==> !is_named((#[trigger] contexts[i]).deep_view(), name)
    &&& contexts.len() < dirs.len() ==> contexts.len() > 0 && is_named(
        contexts.last().deep_view(),
        name,
    )
}

/// Whether contexts are what the probe and the format may answer for the directories that
/// the probe may list below a home directory, up to the first context with the name.
pub open spec fn contexts_found<P: PathProbe, F: ContextFormat>(
    home: Seq<char>,
    name: Seq<char>,
    paths: &P,
    format: &F,
    contexts: Seq<Option<ContextMeta>>,
) -> bool {
    exists|dirs: Vec<String>|
        #[trigger] may_list(paths, contexts_dir(home), dirs) && contexts_in(
            dirs@,
            name,
            paths,
            format,
            contexts,
        )
}

/// Reads the contexts on record, up to the first with the given name.
fn read_contexts<P: PathProbe, F: ContextFormat>(
    home: &str,
    name: &str,
    paths: &P,
    format: &F,
) -> (contexts: Vec<Option<ContextMeta>>)
    ensures
        contexts_found(home@, name@, paths, format, contexts@),
{
    let root = contexts_path(home);
    let dirs = paths.list_dir(root.as_str());
    assert(may_list(paths, contexts_dir(home@), dirs));
    let mut contexts: Vec<Option<ContextMeta>> = Vec::new();
    let mut i: usize = 0;
    while i < dirs.len()
        invariant
            i <= dirs@.len(),
            contexts@.len() == i,
            may_list(paths, contexts_dir(home@), dirs),
            forall|k: int|
                0 <= k < i ==> context_found(
                    path_below(dirs@[k]@, "meta.json"@),
                    paths,
                    format,
                    #[trigger] contexts@[k],
                ),
            forall|k: int|
                0 <= k < i ==> !is_named((#[trigger] contexts@[k]).deep_view(), name@),
        decreases dirs@.len() - i,
    {
        let file = path_join(dirs[i].as_str(), "meta.json");
        let answer = paths.read_to_string(file.as_str());
        assert(may_read(paths, path_below(dirs@[i as int]@, "meta.json"@), answer));
        let meta = match &answer {
            Some(text) => {
                let meta = format.context_meta(text.as_str());
                assert(may_describe(format, text@, meta));
                meta
            },
            None => None,
        };
        let last = match &meta {
            Some(meta) => same(meta.name.as_str(), name),
            None => false,
        };
        contexts.push(meta);
        if last {
            return contexts;
        }
        i += 1;
    }
    contexts
}

/// Whether these are answers that the probe may give for the first of the candidates, in
/// their order: for all of them, or up to the first that exists.
pub open spec fn sockets_found<P: PathProbe>(
    sockets: Seq<(Seq<char>, SourceView)>,
    paths: &P,
    present: Seq<bool>,
) -> bool {
    &&& present.len() <= sockets.len()
    &&& forall|i: int|
        0 <= i < present.len() ==> may_be_present(paths, sockets[i].0, #[trigger] present[i])
    &&& forall|i: int| 0 <= i < present.len() - 1 ==> !(#[trigger] present[i])
    &&& present.len() < sockets.len() ==> present.len() > 0 && present.last()
}

/// Looks for the candidate sockets, up to the first that exists.
fn look_for<P: PathProbe>(sockets: &Vec<(String, EndpointSource)>, paths: &P) -> (present: Vec<
    bool,
>)
    ensures
        sockets_found(sockets.deep_view(), paths, present@),
{
    let mut present: Vec<bool> = Vec::new();
    let mut i: usize = 0;
    let ghost all = sockets.deep_view();
    while i < sockets.len()
        invariant
            i <= sockets@.len(),
            all == sockets.deep_view(),
            present@.len() == i,
            forall|k: int|
                0 <= k < i ==> may_be_present(paths, all[k].0, #[trigger] present@[k]),
            forall|k: int| 0 <= k < i ==> !(#[trigger] present@[k]),
        decreases sockets@.len() - i,
    {
        let there = paths.is_present(sockets[i].0.as_str());
        assert(all[i as int] == sockets@[i as int].deep_view());
        assert(may_be_present(paths, all[i as int].0, there));
        present.push(there);
        if there {
            return present;
        }
        i += 1;
    }
    present
}

/// Whether the surroundings hold what the environment, the probe and the format may
/// answer to each question that the choice comes down to without a host on the command
/// line: `DOCKER_HOST` first; where it is blank, `HOME` and the selected context; and where
/// none is selected, the candidate sockets.
pub open spec fn gathered<E: EnvSource, P: PathProbe, F: ContextFormat>(
    env: &E,
    paths: &P,
    format: &F,
    found: Surroundings,
) -> bool {
    let view = found.deep_view();
    &&& may_hold(env, "DOCKER_HOST"@, found.docker_host)
    &&& filled(view.docker_host) is None ==> {
        &&& may_hold(env, "HOME"@, found.home)
        &&& filled(view.home) matches Some(home) ==> context_gathered(
            home,
            env,
            paths,
            format,
            found,
        )
        &&& by_context(view) is None ==> {
            &&& may_hold(env, "XDG_RUNTIME_DIR"@, found.runtime_dir)
            &&& sockets_found(candidates(view.runtime_dir), paths, view.present)
        }
    }
}

/// The part of [`gathered`] that concerns the selected context: `DOCKER_CONTEXT` is asked
/// for its name, `config.json` where that is blank, and the contexts on record are read
/// where the name is not `default`.
pub open spec fn context_gathered<E: EnvSource, P: PathProbe, F: ContextFormat>(
    home: Seq<char>,
    env: &E,
    paths: &P,
    format: &F,
    found: Surroundings,
) -> bool {
    let view = found.deep_view();
    &&& may_hold(env, "DOCKER_CONTEXT"@, found.docker_context)
    &&& filled(view.docker_context) is None ==> config_found(home, paths, format, found.config)
    &&& selected(view, home) matches Ok(Some(name)) ==> name != "default"@ ==> contexts_found(
        home,
        name,
        paths,
        format,
        found.contexts@,
    )
}

/// Picks the daemon to talk to, reporting how the choice was made. Whatever the
/// environment and the file system answer, the choice is the one that the rules make of
/// the answers.
///
/// # Errors
///
/// If an address is malformed or names an unsupported scheme, if the selected Docker
/// context is missing or unusable, or if no socket was found anywhere.
pub fn resolve<E: EnvSource, P: PathProbe, F: ContextFormat>(
    cli_host: Option<&str>,
    env: &E,
    paths: &P,
    format: &F,
) -> (result: Result<Resolved, ResolveError>)
    ensures
        cli_host is None ==> exists|found: Surroundings|
            #[trigger] gathered(env, paths, format, found) && choice_of(result) == chosen(
                None,
                found.deep_view(),
            ),
        cli_host matches Some(raw) ==> choice_of(result) == addressed(
            raw@,
            "the --docker-host option"@,
            SourceView::CommandLine,
        ),
{
    let mut found = Surroundings {
        docker_host: None,
        home: None,
        docker_context: None,
        config: ConfigFile::Absent,
        contexts: Vec::new(),
        runtime_dir: None,
        present: Vec::new(),
    };
    if cli_host.is_some() {
        return resolve_in(cli_host, &found);
    }
    found.docker_host = env.var("DOCKER_HOST");
    assert(may_hold(env, "DOCKER_HOST"@, found.docker_host));
    if non_empty(&found.docker_host).is_some() {
        assert(gathered(env, paths, format, found));
        return resolve_in(cli_host, &found);
    }
    found.home = env.var("HOME");
    assert(may_hold(env, "HOME"@, found.home));
    let home = match non_empty(&found.home) {
        Some(home) => Some(home.to_owned()),
        None => None,
    };
    if let Some(home) = home {
        found.docker_context = env.var("DOCKER_CONTEXT");
        assert(may_hold(env, "DOCKER_CONTEXT"@, found.docker_context));
        if non_empty(&found.docker_context).is_none() {
            found.config = read_config(home.as_str(), paths, format);
        }
        if let Ok(Some(name)) = selected_context(&found, home.as_str()) {
            if !same(name.as_str(), "default") {
                found.contexts = read_contexts(home.as_str(), name.as_str(), paths, format);
            }
        }
        assert(context_gathered(home@, env, paths, format, found));
    }
    if let Some(result) = resolve_context(&found) {
        assert(gathered(env, paths, format, found));
        return result;
    }
    let ghost asked = found;
    found.runtime_dir = env.var("XDG_RUNTIME_DIR");
    assert(may_hold(env, "XDG_RUNTIME_DIR"@, found.runtime_dir));
    let sockets = socket_candidates(&found.runtime_dir);
    found.present = look_for(&sockets, paths);
    proof {
        if let Some(home) = filled(asked.deep_view().home) {
            assert(selected(found.deep_view(), home) == selected(asked.deep_view(), home));
            assert(context_gathered(home, env, paths, format, found));
        }
        assert(by_context(found.deep_view()) == by_context(asked.deep_view()));
        assert(gathered(env, paths, format, found));
    }
    resolve_in(cli_host, &found)
}

/// The URL of a socket is read back as that socket, and so is its bare path, whatever white
/// space is around them.
pub proof fn law_socket_addresses_are_read_back(
    path: Seq<char>,
    before: Seq<char>,
    after: Seq<char>,
    origin: Seq<char>,
)
    requires
        path.len() > 0,
        !text::is_space(path.last()),
        forall|i: int| 0 <= i < before.len() ==> text::is_space(#[trigger] before[i]),
        forall|i: int| 0 <= i < after.len() ==> text::is_space(#[trigger] after[i]),
    ensures
        address(before + endpoint_url(EndpointView::Unix(path)) + after, origin) == Ok::<
            EndpointView,
            ResolveErrorView,
        >(EndpointView::Unix(path)),
        path[0] == '/' ==> address(before + path + after, origin) == Ok::<
            EndpointView,
            ResolveErrorView,
        >(EndpointView::Unix(path)),
{
    reveal_strlit("unix://");
    reveal_strlit("/");
    let url = "unix://"@ + path;
    assert(url[0] == 'u' && url.last() == path.last());
    text::law_trimming_takes_off_white_space_alone(before, url, after);
    assert(url.subrange(0, 7) =~= "unix://"@);
    assert(url.skip(7) =~= path);
    if path[0] == '/' {
        text::law_trimming_takes_off_white_space_alone(before, path, after);
        assert(path.subrange(0, 1) =~= "/"@);
        if "unix://"@.is_prefix_of(path) {
            assert(path.subrange(0, 7)[0] == 'u');
        }
    }
}

/// An address of any other scheme is refused by that scheme, and one without a scheme that
/// is no path is refused as it stands.
pub proof fn law_other_addresses_are_refused(scheme: Seq<char>, rest: Seq<char>, origin: Seq<char>)
    requires
        scheme.len() > 0,
        scheme[0] != '/',
        scheme != "unix"@,
        !scheme.contains(':'),
        !text::is_space(scheme[0]),
        rest.len() > 0,
        !text::is_space(rest.last()),
    ensures
        address(scheme + "://"@ + rest, origin) == Err::<EndpointView, ResolveErrorView>(
            ResolveErrorView::UnsupportedScheme { scheme, raw: scheme + "://"@ + rest, origin },
        ),
        !text::is_space(scheme.last()) ==> address(scheme, origin) == Err::<
            EndpointView,
            ResolveErrorView,
        >(ResolveErrorView::Malformed { raw: scheme, origin }),
{
    reveal_strlit("unix://");
    reveal_strlit("unix");
    reveal_strlit("://");
    reveal_strlit("/");
    let raw = scheme + "://"@ + rest;
    let nothing = Seq::<char>::empty();
    assert(nothing + raw + nothing =~= raw);
    assert(nothing + scheme + nothing =~= scheme);
    assert(raw[0] == scheme[0] && raw.last() == rest.last());
    text::law_trimming_takes_off_white_space_alone(nothing, raw, nothing);
    assert forall|i: int| 0 <= i < scheme.len() implies scheme[i] != ':' by {
        assert(scheme.contains(scheme[i]));
    }
    if "unix://"@.is_prefix_of(raw) {
        let start = raw.subrange(0, 7);
        assert(start[4] == ':' && start[3] == 'x');
        assert(raw[4] == ':');
        assert(raw[0] == start[0] && raw[1] == start[1] && raw[2] == start[2] && raw[3]
            == start[3]);
        assert(raw[scheme.len() as int] == ':');
        if scheme.len() < 4 {
            assert(start[scheme.len() as int] == raw[scheme.len() as int]);
        }
        assert(scheme.len() == 4);
        assert(scheme =~= "unix"@);
    }
    if "/"@.is_prefix_of(raw) {
        assert(raw.subrange(0, 1)[0] == '/');
    }
    text::lemma_find_in(scheme, "://"@, rest);
    assert(raw.take(scheme.len() as int) =~= scheme);
    if !text::is_space(scheme.last()) {
        text::law_trimming_takes_off_white_space_alone(nothing, scheme, nothing);
        if "unix://"@.is_prefix_of(scheme) {
            assert(scheme.subrange(0, 7)[4] == ':');
            assert(scheme[4] == ':');
        }
        if "/"@.is_prefix_of(scheme) {
            assert(scheme.subrange(0, 1)[0] == '/');
        }
        lemma_not_found(scheme, "://"@);
    }
}

proof fn lemma_not_found(text: Seq<char>, needle: Seq<char>)
    requires
        needle.len() > 0,
        forall|i: int| 0 <= i < text.len() ==> #[trigger] text[i] != needle[0],
    ensures
        text::find_in(text, needle) is None,
    decreases text.len(),
{
    if needle.is_prefix_of(text) {
        assert(text.subrange(0, needle.len() as int)[0] == needle[0]);
        assert(text[0] == needle[0]);
    }
    if text.len() > 0 {
        let rest = text.skip(1);
        assert forall|i: int| 0 <= i < rest.len() implies #[trigger] rest[i] != needle[0] by {
            assert(rest[i] == text[i + 1]);
        }
        lemma_not_found(rest, needle);
    }
}

/// The daemon is the one that is named first: on the command line, in `DOCKER_HOST`, or by the
/// selected context; and the choice says who named it.
pub proof fn law_the_named_daemon_is_chosen(
    path: Seq<char>,
    found: SurroundingsView,
    home: Seq<char>,
    name: Seq<char>,
    at: int,
)
    requires
        path.len() > 0,
        !text::is_space(path.last()),
    ensures
        ({
            let url = endpoint_url(EndpointView::Unix(path));
            let endpoint = EndpointView::Unix(path);
            &&& chosen(Some(url), found) == Ok::<ResolvedView, ResolveErrorView>(
                ResolvedView { endpoint, source: SourceView::CommandLine },
            )
            &&& chosen(None, SurroundingsView { docker_host: Some(url), ..found }) == Ok::<
                ResolvedView,
                ResolveErrorView,
            >(ResolvedView { endpoint, source: SourceView::DockerHostEnv })
            &&& {
                &&& found.docker_host is None
                &&& filled(found.home) == Some(home)
                &&& filled(found.docker_context) == Some(name)
                &&& name != "default"@
                &&& 0 <= at < found.contexts.len()
                &&& is_named(found.contexts[at], name)
                &&& forall|i: int| 0 <= i < at ==> !is_named(#[trigger] found.contexts[i], name)
                &&& ordered::lookup((found.contexts[at]->0).endpoints, "docker"@) == Some(Some(url))
            } ==> chosen(None, found) == Ok::<ResolvedView, ResolveErrorView>(
                ResolvedView { endpoint, source: SourceView::DockerContext(name) },
            )
        }),
{
    let url = endpoint_url(EndpointView::Unix(path));
    reveal_strlit("unix://");
    let nothing = Seq::<char>::empty();
    assert(nothing + url + nothing =~= url);
    law_socket_addresses_are_read_back(path, nothing, nothing, "the --docker-host option"@);
    law_socket_addresses_are_read_back(path, nothing, nothing, "DOCKER_HOST"@);
    law_socket_addresses_are_read_back(path, nothing, nothing, context_label(name));
    assert(url[0] == 'u' && url.last() == path.last());
    text::law_trimming_takes_off_white_space_alone(nothing, url, nothing);
    if 0 <= at < found.contexts.len() && is_named(found.contexts[at], name) && (forall|i: int|
        0 <= i < at ==> !is_named(#[trigger] found.contexts[i], name)) {
        lists::lemma_first_where(
            found.contexts,
            |c: Option<MetaView>| is_named(c, name),
            at,
        );
    }
}

/// `DOCKER_CONTEXT` outranks the configuration, which counts where the variable is not set;
/// the context named `default` is that of the sockets.
pub proof fn law_contexts_are_selected_by_variable_first(
    found: SurroundingsView,
    home: Seq<char>,
    name: Seq<char>,
    reason: Seq<char>,
)
    requires
        text::trimmed(name).len() > 0,
        filled(found.home) == Some(home),
    ensures
        selected(SurroundingsView { docker_context: Some(name), ..found }, home) == Ok::<
            Option<Seq<char>>,
            ResolveErrorView,
        >(Some(name)),
        selected(
            SurroundingsView {
                docker_context: None,
                config: ConfigView::Selects(Some(name)),
                ..found
            },
            home,
        ) == Ok::<Option<Seq<char>>, ResolveErrorView>(Some(name)),
        selected(
            SurroundingsView { docker_context: None, config: ConfigView::Absent, ..found },
            home,
        ) == Ok::<Option<Seq<char>>, ResolveErrorView>(None),
        reason.is_suffix_of(
            selected(
                SurroundingsView {
                    docker_context: None,
                    config: ConfigView::Malformed(reason),
                    ..found
                },
                home,
            )->Err_0->reason,
        ),
        found.docker_host is None && selected(found, home) == Ok::<
            Option<Seq<char>>,
            ResolveErrorView,
        >(Some("default"@)) ==> chosen(None, found) == by_socket(found),
        found.docker_host is None && selected(found, home) == Ok::<
            Option<Seq<char>>,
            ResolveErrorView,
        >(None) ==> chosen(None, found) == by_socket(found),
{
    let why = "could not be parsed: "@ + reason;
    assert(why.subrange(why.len() - reason.len(), why.len() as int) =~= reason);
}

/// The sockets are tried in their order: the rootless one in the user's runtime directory,
/// the one of the system, and Podman's; the first that is there is chosen, and where none
/// is, all of their paths are told.
pub proof fn law_sockets_are_tried_in_order(dir: Seq<char>, found: SurroundingsView)
    requires
        text::trimmed(dir).len() > 0,
        dir.last() != '/',
        found.runtime_dir == Some(dir),
        found.present.len() == 3,
    ensures
        found.present[0] ==> by_socket(found) == Ok::<ResolvedView, ResolveErrorView>(
            ResolvedView {
                endpoint: EndpointView::Unix(dir + "/docker.sock"@),
                source: SourceView::RootlessSocket,
            },
        ),
        !found.present[0] && found.present[1] ==> by_socket(found) == Ok::<
            ResolvedView,
            ResolveErrorView,
        >(
            ResolvedView {
                endpoint: EndpointView::Unix("/var/run/docker.sock"@),
                source: SourceView::RootfulSocket,
            },
        ),
        !found.present[0] && !found.present[1] && found.present[2] ==> by_socket(found) == Ok::<
            ResolvedView,
            ResolveErrorView,
        >(
            ResolvedView {
                endpoint: EndpointView::Unix(dir + "/podman/podman.sock"@),
                source: SourceView::PodmanSocket,
            },
        ),
        !found.present[0] && !found.present[1] && !found.present[2] ==> by_socket(found) == Err::<
            ResolvedView,
            ResolveErrorView,
        >(
            ResolveErrorView::NoDaemonFound {
                probed: seq![
                    dir + "/docker.sock"@,
                    "/var/run/docker.sock"@,
                    dir + "/podman/podman.sock"@,
                ],
            },
        ),
        candidates(None).len() == 1,
        candidates(None)[0] == ("/var/run/docker.sock"@, SourceView::RootfulSocket),
{
    reveal_with_fuel(first_present, 4);
    reveal_strlit("/docker.sock");
    reveal_strlit("docker.sock");
    reveal_strlit("podman");
    reveal_strlit("podman.sock");
    reveal_strlit("/podman/podman.sock");
    reveal_strlit("/");
    assert(dir.len() > 0) by {
        if dir.len() == 0 {
            assert(text::trimmed(dir).len() == 0);
        }
    }
    let sockets = candidates(found.runtime_dir);
    assert(path_below(dir, "docker.sock"@) =~= dir + "/docker.sock"@);
    let podman = path_below(dir, "podman"@);
    assert(podman.last() == "podman"@[5]);
    assert(path_below(podman, "podman.sock"@) =~= dir + "/podman/podman.sock"@);
    assert(sockets.skip(1).skip(1) =~= seq![sockets[2]]);
    assert(sockets.skip(1)[0] == sockets[1]);
    assert(found.present.skip(1)[0] == found.present[1]);
    assert(found.present.skip(1).skip(1)[0] == found.present[2]);
    assert(paths_of(sockets) =~= seq![
        dir + "/docker.sock"@,
        "/var/run/docker.sock"@,
        dir + "/podman/podman.sock"@,
    ]);
}

/// Docker's own files are looked for below its directory in the home directory.
pub proof fn law_docker_files_are_below_the_home_directory(home: Seq<char>)
    requires
        home.len() > 0,
        home.last() != '/',
    ensures
        config_file(home) == home + "/.docker/config.json"@,
        contexts_dir(home) == home + "/.docker/contexts/meta"@,
        config_file(home + "/"@) == config_file(home),
        contexts_dir(home + "/"@) == contexts_dir(home),
{
    reveal_strlit("/");
    reveal_strlit(".docker");
    reveal_strlit("config.json");
    reveal_strlit("contexts");
    reveal_strlit("meta");
    reveal_strlit("/.docker/config.json");
    reveal_strlit("/.docker/contexts/meta");
    let dir = docker_dir(home);
    assert(docker_dir(home + "/"@) =~= dir);
    assert(dir.last() == ".docker"@[6]);
    assert(config_file(home) =~= home + "/.docker/config.json"@);
    let contexts = path_below(dir, "contexts"@);
    assert(contexts.last() == "contexts"@[7]);
    assert(contexts_dir(home) =~= home + "/.docker/contexts/meta"@);
}

/// What is said when no daemon can be chosen names who asked for it and what was asked for;
/// every source has its own words.
pub proof fn law_refusals_name_what_was_asked_for(
    scheme: Seq<char>,
    raw: Seq<char>,
    origin: Seq<char>,
    probed: Seq<Seq<char>>,
)
    ensures
        (origin + " names a "@ + scheme).is_prefix_of(
            (ResolveErrorView::UnsupportedScheme { scheme, raw, origin }).message(),
        ),
        (ResolveErrorView::Malformed { raw, origin }).message() == origin
            + " is not a usable daemon address: \""@ + raw + "\""@,
        (ResolveErrorView::ContextUnusable { name: origin, reason: raw }).message()
            == "Docker context \""@ + origin + "\""@ + " "@ + raw,
        text::joined(probed, ", "@).is_suffix_of(
            (ResolveErrorView::NoDaemonFound { probed }).message(),
        ),
        source_label(SourceView::CommandLine) == "--docker-host option"@,
        source_label(SourceView::DockerHostEnv) == "DOCKER_HOST environment variable"@,
        source_label(SourceView::DockerContext(origin)) == "Docker context \""@ + origin + "\""@,
        source_label(SourceView::RootlessSocket) == "rootless socket"@,
        source_label(SourceView::RootfulSocket) == "rootful socket"@,
        source_label(SourceView::PodmanSocket) == "Podman socket"@,
{
    let refusal = (ResolveErrorView::UnsupportedScheme { scheme, raw, origin }).message();
    let front = origin + " names a "@ + scheme;
    assert(refusal.subrange(0, front.len() as int) =~= front);
    let nothing = (ResolveErrorView::NoDaemonFound { probed }).message();
    let paths = text::joined(probed, ", "@);
    assert(nothing.subrange(nothing.len() - paths.len(), nothing.len() as int) =~= paths);
}

} // verus!
