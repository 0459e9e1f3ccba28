//! Choosing a daemon, losing it, and saying why.

use lave_core::activity::{Activity, ActivityState, Effect, MAX_LOG_ENTRIES, Signal, backoff};
use lave_core::cli::{Cli, LogLevel};
use lave_core::endpoint::{
    ConfigFile, ContextEndpoint, ContextFormat, ContextMeta, Endpoint, EndpointSource, EnvSource,
    PathProbe, ResolveError, Surroundings, config_path, contexts_path, parse_host, path_join,
    resolve, resolve_in, socket_candidates,
};
use lave_core::engine::convert::{
    WireContainer, WireImage, WireInfo, WireMount, WirePort, WireState, WireStream, WireVersion,
    environment_summary, epoch_seconds, seconds_or_epoch,
};
use lave_core::engine::error::{Failure, Obstacle};
use lave_core::engine::{
    ContainerState, ContainerSummary, EngineError, EngineEvent, ImageSummary, LogChunk, LogOptions,
    LogStream, PruneOutcome, is_scratch, prune_filter, scratch_request,
};
use lave_core::indicator::{Counts, IndicatorIcon, MenuItem, model};
use lave_core::ordered::TextMap;

/// Surroundings in which nothing is set and nothing exists.
fn nothing() -> Surroundings {
    Surroundings {
        docker_host: None,
        home: None,
        docker_context: None,
        config: ConfigFile::Absent,
        contexts: Vec::new(),
        runtime_dir: None,
        present: Vec::new(),
    }
}

fn context(name: &str, host: Option<&str>) -> Option<ContextMeta> {
    let mut endpoints = TextMap::new();
    endpoints.insert(
        "docker".to_owned(),
        ContextEndpoint {
            host: host.map(str::to_owned),
        },
    );
    Some(ContextMeta {
        name: name.to_owned(),
        endpoints,
    })
}

fn event(time: i64) -> EngineEvent {
    EngineEvent {
        kind: "container".to_owned(),
        action: "start".to_owned(),
        actor_id: "abc".to_owned(),
        actor_name: Some(format!("c{time}")),
        time,
    }
}

fn gone() -> EngineError {
    EngineError::unreachable("/var/run/docker.sock", Obstacle::Other)
}

#[test]
fn paths_are_joined_as_the_language_joins_them() {
    for (base, name) in [("/home/dev", ".docker"), ("/", "x"), ("/a/", "b"), ("", "x")] {
        let joined = std::path::Path::new(base).join(name);
        assert_eq!(path_join(base, name), joined.to_string_lossy());
    }
    assert_eq!(config_path("/home/dev"), "/home/dev/.docker/config.json");
    assert_eq!(contexts_path("/home/dev/"), "/home/dev/.docker/contexts/meta");
}

#[test]
fn addresses_are_trimmed_before_they_are_read() {
    assert_eq!(
        parse_host("  unix:///x.sock\n", "origin"),
        Ok(Endpoint::Unix("/x.sock".to_owned()))
    );
    assert_eq!(
        parse_host(" ssh://host ", "origin"),
        Err(ResolveError::UnsupportedScheme {
            scheme: "ssh".to_owned(),
            raw: "ssh://host".to_owned(),
            origin: "origin".to_owned(),
        })
    );
    assert_eq!(
        parse_host("unix://", "origin"),
        Err(ResolveError::Malformed {
            raw: "unix://".to_owned(),
            origin: "origin".to_owned(),
        })
    );
}

#[test]
fn resolve_errors_explain_themselves() {
    let unsupported = parse_host("tcp://host", "DOCKER_HOST").expect_err("remote");
    assert_eq!(
        unsupported.to_string(),
        "DOCKER_HOST names a tcp:// endpoint; this version supports local sockets only"
    );
    let malformed = parse_host("nonsense", "DOCKER_HOST").expect_err("nonsense");
    assert_eq!(
        malformed.to_string(),
        "DOCKER_HOST is not a usable daemon address: \"nonsense\""
    );
    let unusable = ResolveError::ContextUnusable {
        name: "work".to_owned(),
        reason: "is selected but was not found".to_owned(),
    };
    assert_eq!(
        unusable.to_string(),
        "Docker context \"work\" is selected but was not found"
    );
    let missing = resolve_in(None, &nothing()).expect_err("nothing there");
    assert_eq!(
        missing.to_string(),
        "no container daemon socket found; looked in /var/run/docker.sock"
    );
}

#[test]
fn sources_name_themselves() {
    assert_eq!(EndpointSource::CommandLine.to_string(), "--docker-host option");
    assert_eq!(
        EndpointSource::DockerHostEnv.to_string(),
        "DOCKER_HOST environment variable"
    );
    assert_eq!(
        EndpointSource::DockerContext("work".to_owned()).to_string(),
        "Docker context \"work\""
    );
    assert_eq!(EndpointSource::RootlessSocket.to_string(), "rootless socket");
    assert_eq!(EndpointSource::RootfulSocket.to_string(), "rootful socket");
    assert_eq!(EndpointSource::PodmanSocket.to_string(), "Podman socket");
}

#[test]
fn the_choice_falls_through_in_its_order() {
    let mut found = nothing();
    found.docker_host = Some("unix:///env.sock".to_owned());
    found.home = Some("/home/dev".to_owned());
    found.docker_context = Some("work".to_owned());
    found.contexts = vec![None, context("work", Some("unix:///work.sock"))];
    found.runtime_dir = Some("/run/user/1000".to_owned());
    found.present = vec![true];

    let source = |cli: Option<&str>, found: &Surroundings| {
        resolve_in(cli, found).expect("resolves").source
    };
    assert_eq!(source(Some("/cli.sock"), &found), EndpointSource::CommandLine);
    assert_eq!(source(None, &found), EndpointSource::DockerHostEnv);
    found.docker_host = Some(" ".to_owned());
    assert_eq!(
        source(None, &found),
        EndpointSource::DockerContext("work".to_owned())
    );
    found.docker_context = None;
    assert_eq!(source(None, &found), EndpointSource::RootlessSocket);
    found.present = vec![false, true];
    assert_eq!(source(None, &found), EndpointSource::RootfulSocket);
    found.present = vec![false, false, true];
    assert_eq!(source(None, &found), EndpointSource::PodmanSocket);
}

#[test]
fn a_selected_context_is_used_or_reported_never_passed_over() {
    let mut found = nothing();
    found.home = Some("/home/dev".to_owned());
    found.config = ConfigFile::Selects(Some("work".to_owned()));
    found.present = vec![true];

    let error = resolve_in(None, &found).expect_err("not on record");
    assert!(matches!(error, ResolveError::ContextUnusable { .. }));

    found.contexts = vec![context("work", Some("  "))];
    let error = resolve_in(None, &found).expect_err("no address");
    assert!(error.to_string().contains("does not define a Docker endpoint"));

    found.config = ConfigFile::Malformed("expected value".to_owned());
    let error = resolve_in(None, &found).expect_err("makes no sense");
    assert_eq!(
        error.to_string(),
        "Docker context \"/home/dev/.docker/config.json\" could not be parsed: expected value"
    );
}

#[test]
fn without_a_home_no_context_is_looked_for() {
    let mut found = nothing();
    found.docker_context = Some("work".to_owned());
    found.present = vec![true];

    let resolved = resolve_in(None, &found).expect("a socket is there");
    assert_eq!(resolved.source, EndpointSource::RootfulSocket);
}

#[test]
fn candidates_depend_only_on_the_runtime_directory() {
    assert_eq!(
        socket_candidates(&None),
        vec![(
            "/var/run/docker.sock".to_owned(),
            EndpointSource::RootfulSocket
        )]
    );
    assert_eq!(socket_candidates(&Some("/run/user/7/".to_owned())).len(), 3);
    assert_eq!(
        socket_candidates(&Some("/run/user/7/".to_owned()))[2].0,
        "/run/user/7/podman/podman.sock"
    );
}

#[test]
fn the_wait_doubles_up_to_its_cap() {
    let waits: Vec<u64> = (0..9).map(backoff).collect();

    assert_eq!(waits, vec![1, 1, 2, 4, 8, 16, 30, 30, 30]);
    assert_eq!(backoff(u32::MAX), 30);
}

#[test]
fn a_long_history_leaves_only_the_latest_entries() {
    let mut activity = Activity::new();
    for time in 0..50 {
        activity.apply(Signal::Observed(event(time)));
    }

    assert_eq!(activity.log().len(), MAX_LOG_ENTRIES);
    let times: Vec<i64> = activity.log().iter().map(|entry| entry.time).collect();
    assert_eq!(times, (30..50).rev().collect::<Vec<i64>>());
}

#[test]
fn a_reconnect_resumes_where_the_last_event_was() {
    let mut activity = Activity::new();
    activity.apply(Signal::Connected { at: 5 });
    activity.apply(Signal::Observed(event(9)));
    activity.apply(Signal::Lost(gone()));
    activity.apply(Signal::RetryElapsed);
    activity.apply(Signal::Connected { at: 100 });

    assert_eq!(activity.since(), Some(9));
    assert_eq!(activity.log().len(), 1);
}

#[test]
fn each_failed_attempt_waits_longer_until_one_succeeds() {
    let mut activity = Activity::new();
    for seconds in [1, 2, 4, 8, 16, 30, 30] {
        assert_eq!(
            activity.apply(Signal::Lost(gone())),
            vec![Effect::WaitThen(seconds)]
        );
        assert_eq!(activity.apply(Signal::RetryElapsed), vec![Effect::Connect]);
    }
    activity.apply(Signal::Connected { at: 1 });
    assert_eq!(
        activity.apply(Signal::Lost(gone())),
        vec![Effect::WaitThen(1)]
    );
}

#[test]
fn a_failure_that_cannot_be_retried_keeps_its_reason() {
    let mut activity = Activity::new();
    let effects = activity.apply(Signal::Lost(EngineError::NotFound {
        what: "the stream".to_owned(),
    }));

    assert_eq!(effects, vec![Effect::Stop]);
    assert_eq!(
        *activity.state(),
        ActivityState::Failed {
            reason: "the stream no longer exists".to_owned(),
            hint: None,
        }
    );
    let shown = model(&activity, Counts::default());
    assert_eq!(shown.icon, IndicatorIcon::Failed);
    assert_eq!(
        shown.items[2],
        MenuItem::Info("Disconnected: the stream no longer exists".to_owned())
    );
}

#[test]
fn counts_are_left_out_while_they_cannot_be_known() {
    let activity = Activity::new();
    let some = Counts {
        images: 1,
        containers: 2,
        running: 1,
    };

    assert_eq!(
        model(&activity, some),
        model(&activity, Counts::default()),
        "nothing is known before the connection opens"
    );
    let mut open = Activity::new();
    open.apply(Signal::Connected { at: 1 });
    let shown = model(&open, some);
    assert_eq!(shown.items[3], MenuItem::Info("1 image".to_owned()));
    assert_eq!(
        shown.items[4],
        MenuItem::Info("2 containers (1 running)".to_owned())
    );
}

#[test]
fn every_kind_of_failure_is_explained() {
    let explain = |failure: Failure| EngineError::from_bollard(&failure, "/x.sock");

    assert_eq!(
        explain(Failure::Socket(Obstacle::PermissionDenied)).to_string(),
        "/x.sock exists, but this user may not read it"
    );
    assert_eq!(
        explain(Failure::Undecodable("bad frame".to_owned())).to_string(),
        "the daemon sent something unexpected: bad frame"
    );
    assert_eq!(
        explain(Failure::ConnectionLost("eof".to_owned())).to_string(),
        "lost the connection to /x.sock: eof"
    );
    assert_eq!(
        explain(Failure::NoRequest("refused".to_owned())).to_string(),
        "could not talk to /x.sock: refused"
    );
    let unsupported = explain(Failure::UnsupportedAddress("tcp://h".to_owned()));
    assert_eq!(
        unsupported.to_string(),
        "tcp://h is not an address this version can use"
    );
    assert_eq!(
        unsupported.hint(),
        Some("This version supports local sockets only.")
    );
    assert_eq!(
        explain(Failure::Other("odd".to_owned())).to_string(),
        "odd"
    );
    let forbidden = explain(Failure::Response {
        status: 403,
        message: " no\r\nmore".to_owned(),
    });
    assert_eq!(
        forbidden.to_string(),
        "the daemon refused the request: no"
    );
    assert!(forbidden.is_transient());
}

#[test]
fn a_refusal_is_final_and_an_outage_is_not() {
    let transient = |failure: Failure| EngineError::from_bollard(&failure, "/x").is_transient();
    let response = |status: u16| Failure::Response {
        status,
        message: String::new(),
    };

    assert!(transient(response(500)));
    assert!(transient(response(599)));
    assert!(!transient(response(499)));
    assert!(!transient(response(404)));
    assert!(!transient(Failure::Undecodable(String::new())));
    assert!(transient(Failure::ConnectionLost(String::new())));
}

#[test]
fn archive_times_are_read_as_seconds() {
    assert_eq!(epoch_seconds(Some("2026-06-21T16:17:25Z")), 1_782_058_645);
    assert_eq!(
        epoch_seconds(Some("2026-06-21T18:17:25.5+02:00")),
        1_782_058_645
    );
    assert_eq!(epoch_seconds(Some("yesterday")), 0);
    assert_eq!(epoch_seconds(None), 0);
    assert_eq!(seconds_or_epoch(Some(7)), 7);
    assert_eq!(seconds_or_epoch(None), 0);
}

#[test]
fn a_container_listing_loses_slashes_and_gains_order() {
    let container = ContainerSummary::from_wire(WireContainer {
        id: Some("abc".to_owned()),
        names: Some(vec!["/web".to_owned(), "//deep/er".to_owned()]),
        state: Some(WireState::Running),
        ports: Some(vec![WirePort {
            ip: Some("::".to_owned()),
            private_port: 53,
            public_port: None,
            protocol: Some("udp".to_owned()),
        }]),
        mounts: Some(vec![WireMount {
            kind: Some("bind".to_owned()),
            name: None,
            source: Some("/src".to_owned()),
            destination: Some("/dst".to_owned()),
            rw: None,
        }]),
        networks: Some(vec!["zeta".to_owned(), "alpha".to_owned()]),
        labels: Some(vec![
            ("b".to_owned(), "2".to_owned()),
            ("a".to_owned(), "1".to_owned()),
        ]),
        ..WireContainer::default()
    });

    assert_eq!(container.names, vec!["web", "deep/er"]);
    assert_eq!(container.state, ContainerState::Running);
    assert_eq!(container.ports[0].protocol, "udp");
    assert!(!container.mounts[0].read_write);
    assert_eq!(container.networks, vec!["alpha", "zeta"]);
    assert_eq!(container.labels.key_at(0), "a");
    assert_eq!(container.image, "");
    assert_eq!(container.created, 0);
}

#[test]
fn the_order_of_labels_on_the_wire_makes_no_difference() {
    let labelled = |pairs: [(&str, &str); 3]| {
        ImageSummary::from_wire(WireImage {
            labels: pairs
                .iter()
                .map(|(key, value)| ((*key).to_owned(), (*value).to_owned()))
                .collect(),
            ..WireImage::default()
        })
    };

    assert_eq!(
        labelled([("a", "1"), ("b", "2"), ("c", "3")]),
        labelled([("c", "3"), ("a", "1"), ("b", "2")])
    );
}

#[test]
fn rootless_is_found_in_any_part_of_an_option() {
    let rootless = |option: &str| {
        let info = WireInfo {
            security_options: Some(vec![option.to_owned()]),
            ..WireInfo::default()
        };
        environment_summary(WireVersion::default(), info).rootless
    };

    assert!(rootless("name=seccomp, name=rootless ,profile=x"));
    assert!(!rootless("name=rootless-extra"));
    assert!(!rootless(""));
}

#[test]
fn output_is_sorted_into_two_streams() {
    let stream = |wire| LogChunk::from_wire(wire, vec![1, 2]).stream;

    assert_eq!(stream(WireStream::StdErr), LogStream::Stderr);
    assert_eq!(stream(WireStream::StdOut), LogStream::Stdout);
    assert_eq!(stream(WireStream::StdIn), LogStream::Stdout);
    assert_eq!(stream(WireStream::Console), LogStream::Stdout);
    assert_eq!(LogChunk::from_wire(WireStream::Console, vec![1, 2]).bytes, vec![1, 2]);
}

#[test]
fn a_log_is_asked_for_by_its_tail() {
    let options = LogOptions::default();
    assert_eq!(options.tail_query(), "500");
    let all = LogOptions {
        tail: None,
        ..options
    };
    assert_eq!(all.tail_query(), "all");
}

#[test]
fn a_prune_reports_the_layer_or_else_the_tag() {
    let some = |text: &str| Some(text.to_owned());
    let outcome = PruneOutcome::of_images(
        Some(vec![
            (some("sha256:a"), some("a:1")),
            (None, some("b:1")),
            (None, None),
        ]),
        Some(12),
    );

    assert_eq!(outcome.removed, vec!["sha256:a", "b:1"]);
    assert_eq!(outcome.reclaimed, 12);
    assert_eq!(
        PruneOutcome::of_containers(None, None),
        PruneOutcome::default()
    );
    assert_eq!(
        prune_filter(),
        ("dangling".to_owned(), vec!["true".to_owned()])
    );
}

#[test]
fn a_scratch_container_is_recognised_by_what_it_was_asked_to_carry() {
    let request = scratch_request("sha256:abc");
    let container = ContainerSummary {
        labels: request.labels,
        ..ContainerSummary::default()
    };

    assert_eq!(request.image, "sha256:abc");
    assert_eq!(request.entrypoint.len(), 1);
    assert!(is_scratch(&container));
    assert!(!is_scratch(&ContainerSummary::default()));
}

#[test]
fn levels_are_named_as_the_filter_names_them() {
    let cli = Cli {
        docker_host: None,
        log_level: LogLevel::Warn,
        no_indicator: false,
    };

    assert_eq!(cli.log_level.as_filter(), "warn");
    assert_eq!(LogLevel::Error.as_filter(), "error");
    assert_eq!(LogLevel::Info.as_filter(), "info");
    assert_eq!(LogLevel::Debug.as_filter(), "debug");
    assert_eq!(LogLevel::Trace.as_filter(), "trace");
}

/// A machine that writes down what it is asked.
struct Machine {
    variables: Vec<(&'static str, &'static str)>,
    files: Vec<(&'static str, &'static str)>,
    asked: std::cell::RefCell<Vec<String>>,
}

impl Machine {
    fn new(
        variables: Vec<(&'static str, &'static str)>,
        files: Vec<(&'static str, &'static str)>,
    ) -> Self {
        Self {
            variables,
            files,
            asked: std::cell::RefCell::new(Vec::new()),
        }
    }

    fn ask(&self, question: &str) {
        self.asked.borrow_mut().push(question.to_owned());
    }
}

impl EnvSource for Machine {
    fn var(&self, key: &str) -> Option<String> {
        self.ask(key);
        let found = self.variables.iter().find(|(name, _)| *name == key);
        found.map(|(_, value)| (*value).to_owned())
    }
}

impl PathProbe for Machine {
    fn is_present(&self, path: &str) -> bool {
        self.ask(path);
        self.files.iter().any(|(name, _)| *name == path)
    }

    fn read_to_string(&self, path: &str) -> Option<String> {
        self.ask(path);
        let found = self.files.iter().find(|(name, _)| *name == path);
        found.map(|(_, text)| (*text).to_owned())
    }

    fn list_dir(&self, path: &str) -> Vec<String> {
        self.ask(path);
        vec![format!("{path}/one"), format!("{path}/two"), format!("{path}/three")]
    }
}

/// A configuration holds the name of the context, and a context its name and its host.
struct Words;

impl ContextFormat for Words {
    fn current_context(&self, text: &str) -> Result<Option<String>, String> {
        if text == "broken" {
            Err("no sense".to_owned())
        } else {
            Ok(Some(text.to_owned()))
        }
    }

    fn context_meta(&self, text: &str) -> Option<ContextMeta> {
        let (name, host) = text.split_once(' ')?;
        context(name, Some(host))
    }
}

#[test]
fn each_question_goes_to_the_place_that_answers_it() {
    let machine = Machine::new(
        vec![("HOME", "/home/dev"), ("DOCKER_HOST", " "), ("XDG_RUNTIME_DIR", "/run/user")],
        vec![
            ("/home/dev/.docker/config.json", "work"),
            ("/home/dev/.docker/contexts/meta/one/meta.json", "other unix:///other.sock"),
            ("/home/dev/.docker/contexts/meta/two/meta.json", "work unix:///work.sock"),
        ],
    );
    let found = resolve(None, &machine, &machine, &Words).unwrap();
    assert_eq!(found.endpoint, Endpoint::Unix("/work.sock".to_owned()));
    assert_eq!(found.source, EndpointSource::DockerContext("work".to_owned()));
    assert_eq!(
        *machine.asked.borrow(),
        vec![
            "DOCKER_HOST",
            "HOME",
            "DOCKER_CONTEXT",
            "/home/dev/.docker/config.json",
            "/home/dev/.docker/contexts/meta",
            "/home/dev/.docker/contexts/meta/one/meta.json",
            "/home/dev/.docker/contexts/meta/two/meta.json",
        ]
    );
}

#[test]
fn candidate_sockets_are_looked_for_up_to_the_first() {
    let machine = Machine::new(
        vec![("XDG_RUNTIME_DIR", "/run/user")],
        vec![("/var/run/docker.sock", ""), ("/run/user/podman/podman.sock", "")],
    );
    let found = resolve(None, &machine, &machine, &Words).unwrap();
    assert_eq!(found.endpoint, Endpoint::Unix("/var/run/docker.sock".to_owned()));
    assert_eq!(found.source, EndpointSource::RootfulSocket);
    assert_eq!(
        *machine.asked.borrow(),
        vec![
            "DOCKER_HOST",
            "HOME",
            "XDG_RUNTIME_DIR",
            "/run/user/docker.sock",
            "/var/run/docker.sock",
        ]
    );
}

#[test]
fn a_configuration_that_makes_no_sense_is_named() {
    let machine = Machine::new(
        vec![("HOME", "/home/dev")],
        vec![("/home/dev/.docker/config.json", "broken")],
    );
    assert_eq!(
        resolve(None, &machine, &machine, &Words),
        Err(ResolveError::ContextUnusable {
            name: "/home/dev/.docker/config.json".to_owned(),
            reason: "could not be parsed: no sense".to_owned(),
        })
    );
}

#[test]
fn a_host_in_the_environment_settles_the_matter() {
    let machine = Machine::new(
        vec![("DOCKER_HOST", "unix:///env.sock"), ("DOCKER_CONTEXT", "work"), ("HOME", "/h")],
        Vec::new(),
    );
    let found = resolve(None, &machine, &machine, &Words).unwrap();
    assert_eq!(found.endpoint, Endpoint::Unix("/env.sock".to_owned()));
    assert_eq!(found.source, EndpointSource::DockerHostEnv);
    assert_eq!(*machine.asked.borrow(), vec!["DOCKER_HOST"]);
}
