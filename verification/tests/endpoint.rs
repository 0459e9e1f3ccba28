use std::collections::HashMap;

use lave_core::endpoint::{
    ContextEndpoint, ContextFormat, ContextMeta, Endpoint, EndpointSource, EnvSource, PathProbe,
    ResolveError, resolve,
};
use lave_core::ordered::TextMap;
use serde_json::Value;

#[derive(Default)]
struct FakeEnv(HashMap<String, String>);

impl FakeEnv {
    fn with(mut self, key: &str, value: &str) -> Self {
        self.0.insert(key.to_owned(), value.to_owned());
        self
    }
}

impl EnvSource for FakeEnv {
    fn var(&self, key: &str) -> Option<String> {
        self.0.get(key).cloned()
    }
}

#[derive(Default)]
struct FakePaths {
    files: HashMap<String, String>,
    sockets: Vec<String>,
}

impl FakePaths {
    fn with_file(mut self, path: &str, contents: &str) -> Self {
        self.files.insert(path.to_owned(), contents.to_owned());
        self
    }

    fn with_socket(mut self, path: &str) -> Self {
        self.sockets.push(path.to_owned());
        self
    }
}

impl PathProbe for FakePaths {
    fn is_present(&self, path: &str) -> bool {
        self.sockets.iter().any(|socket| socket == path) || self.files.contains_key(path)
    }

    fn read_to_string(&self, path: &str) -> Option<String> {
        self.files.get(path).cloned()
    }

    fn list_dir(&self, path: &str) -> Vec<String> {
        let mut dirs: Vec<String> = self
            .files
            .keys()
            .filter_map(|file| file.rsplit_once('/'))
            .map(|(parent, _)| parent)
            .filter(|parent| parent.rsplit_once('/').map(|(above, _)| above) == Some(path))
            .map(str::to_owned)
            .collect();
        dirs.sort();
        dirs.dedup();
        dirs
    }
}

/// Reads Docker's files by hand, without a schema.
struct DockerFiles;

impl ContextFormat for DockerFiles {
    fn current_context(&self, text: &str) -> Result<Option<String>, String> {
        let config: Value = serde_json::from_str(text).map_err(|error| error.to_string())?;
        Ok(config["currentContext"].as_str().map(str::to_owned))
    }

    fn context_meta(&self, text: &str) -> Option<ContextMeta> {
        let meta: Value = serde_json::from_str(text).ok()?;
        let mut endpoints = TextMap::new();
        for (name, endpoint) in meta["Endpoints"].as_object()? {
            let host = endpoint["Host"].as_str().map(str::to_owned);
            endpoints.insert(name.clone(), ContextEndpoint { host });
        }
        Some(ContextMeta {
            name: meta["Name"].as_str()?.to_owned(),
            endpoints,
        })
    }
}

fn context_meta(name: &str, host: &str) -> String {
    format!(r#"{{"Name":"{name}","Endpoints":{{"docker":{{"Host":"{host}"}}}}}}"#)
}

#[test]
fn command_line_wins_over_everything() {
    let env = FakeEnv::default().with("DOCKER_HOST", "unix:///from/env.sock");
    let paths = FakePaths::default().with_socket("/var/run/docker.sock");

    let resolved = resolve(Some("unix:///from/cli.sock"), &env, &paths, &DockerFiles).expect("resolves");

    assert_eq!(
        resolved.endpoint,
        Endpoint::Unix("/from/cli.sock".to_owned())
    );
    assert_eq!(resolved.source, EndpointSource::CommandLine);
}

#[test]
fn docker_host_wins_over_context_and_sockets() {
    let env = FakeEnv::default()
        .with("DOCKER_HOST", "unix:///from/env.sock")
        .with("HOME", "/home/dev");
    let paths = FakePaths::default()
        .with_file(
            "/home/dev/.docker/config.json",
            r#"{"currentContext":"remote"}"#,
        )
        .with_socket("/var/run/docker.sock");

    let resolved = resolve(None, &env, &paths, &DockerFiles).expect("resolves");

    assert_eq!(resolved.source, EndpointSource::DockerHostEnv);
    assert_eq!(
        resolved.endpoint,
        Endpoint::Unix("/from/env.sock".to_owned())
    );
}

#[test]
fn active_context_wins_over_sockets() {
    let env = FakeEnv::default().with("HOME", "/home/dev");
    let paths = FakePaths::default()
        .with_file(
            "/home/dev/.docker/config.json",
            r#"{"currentContext":"work"}"#,
        )
        .with_file(
            "/home/dev/.docker/contexts/meta/aa11/meta.json",
            &context_meta("other", "unix:///wrong.sock"),
        )
        .with_file(
            "/home/dev/.docker/contexts/meta/bb22/meta.json",
            &context_meta("work", "unix:///work.sock"),
        )
        .with_socket("/var/run/docker.sock");

    let resolved = resolve(None, &env, &paths, &DockerFiles).expect("resolves");

    assert_eq!(
        resolved.source,
        EndpointSource::DockerContext("work".to_owned())
    );
    assert_eq!(
        resolved.endpoint,
        Endpoint::Unix("/work.sock".to_owned())
    );
}

#[test]
fn docker_context_env_overrides_the_config_file() {
    let env = FakeEnv::default()
        .with("HOME", "/home/dev")
        .with("DOCKER_CONTEXT", "work");
    let paths = FakePaths::default()
        .with_file(
            "/home/dev/.docker/config.json",
            r#"{"currentContext":"idle"}"#,
        )
        .with_file(
            "/home/dev/.docker/contexts/meta/bb22/meta.json",
            &context_meta("work", "unix:///work.sock"),
        );

    let resolved = resolve(None, &env, &paths, &DockerFiles).expect("resolves");

    assert_eq!(
        resolved.source,
        EndpointSource::DockerContext("work".to_owned())
    );
}

#[test]
fn the_default_context_falls_through_to_sockets() {
    let env = FakeEnv::default().with("HOME", "/home/dev");
    let paths = FakePaths::default()
        .with_file(
            "/home/dev/.docker/config.json",
            r#"{"currentContext":"default"}"#,
        )
        .with_socket("/var/run/docker.sock");

    let resolved = resolve(None, &env, &paths, &DockerFiles).expect("resolves");

    assert_eq!(resolved.source, EndpointSource::RootfulSocket);
}

#[test]
fn a_missing_config_file_falls_through_to_sockets() {
    let env = FakeEnv::default().with("HOME", "/home/dev");
    let paths = FakePaths::default().with_socket("/var/run/docker.sock");

    let resolved = resolve(None, &env, &paths, &DockerFiles).expect("resolves");

    assert_eq!(resolved.source, EndpointSource::RootfulSocket);
}

#[test]
fn the_rootless_socket_is_preferred_over_the_rootful_one() {
    let env = FakeEnv::default().with("XDG_RUNTIME_DIR", "/run/user/1000");
    let paths = FakePaths::default()
        .with_socket("/run/user/1000/docker.sock")
        .with_socket("/var/run/docker.sock");

    let resolved = resolve(None, &env, &paths, &DockerFiles).expect("resolves");

    assert_eq!(resolved.source, EndpointSource::RootlessSocket);
    assert_eq!(
        resolved.endpoint,
        Endpoint::Unix("/run/user/1000/docker.sock".to_owned())
    );
}

#[test]
fn podman_is_probed_last() {
    let env = FakeEnv::default().with("XDG_RUNTIME_DIR", "/run/user/1000");
    let paths = FakePaths::default().with_socket("/run/user/1000/podman/podman.sock");

    let resolved = resolve(None, &env, &paths, &DockerFiles).expect("resolves");

    assert_eq!(resolved.source, EndpointSource::PodmanSocket);
}

#[test]
fn no_socket_anywhere_reports_what_was_probed() {
    let env = FakeEnv::default().with("XDG_RUNTIME_DIR", "/run/user/1000");
    let paths = FakePaths::default();

    let error = resolve(None, &env, &paths, &DockerFiles).expect_err("nothing to find");

    let ResolveError::NoDaemonFound { probed } = error else {
        panic!("expected NoDaemonFound, got {error:?}");
    };
    assert_eq!(
        probed,
        vec![
            "/run/user/1000/docker.sock".to_owned(),
            "/var/run/docker.sock".to_owned(),
            "/run/user/1000/podman/podman.sock".to_owned(),
        ]
    );
}

#[test]
fn remote_schemes_are_rejected_with_the_scheme_named() {
    for scheme in ["tcp", "ssh", "http", "https", "npipe"] {
        let raw = format!("{scheme}://elsewhere:2375");
        let error = resolve(Some(&raw), &FakeEnv::default(), &FakePaths::default(), &DockerFiles)
            .expect_err("remote schemes are unsupported");

        let ResolveError::UnsupportedScheme {
            scheme: reported, ..
        } = error
        else {
            panic!("expected UnsupportedScheme, got {error:?}");
        };
        assert_eq!(reported, scheme);
    }
}

#[test]
fn a_bare_absolute_path_is_accepted() {
    let resolved = resolve(
        Some("/var/run/docker.sock"),
        &FakeEnv::default(),
        &FakePaths::default(), &DockerFiles
    )
    .expect("resolves");

    assert_eq!(
        resolved.endpoint,
        Endpoint::Unix("/var/run/docker.sock".to_owned())
    );
}

#[test]
fn nonsense_addresses_are_rejected() {
    for raw in ["", "   ", "unix://", "not-an-address"] {
        let error = resolve(Some(raw), &FakeEnv::default(), &FakePaths::default(), &DockerFiles)
            .expect_err("nonsense is rejected");
        assert!(
            matches!(error, ResolveError::Malformed { .. }),
            "expected Malformed for {raw:?}, got {error:?}"
        );
    }
}

#[test]
fn an_empty_docker_host_is_ignored() {
    let env = FakeEnv::default().with("DOCKER_HOST", "");
    let paths = FakePaths::default().with_socket("/var/run/docker.sock");

    let resolved = resolve(None, &env, &paths, &DockerFiles).expect("resolves");

    assert_eq!(resolved.source, EndpointSource::RootfulSocket);
}

#[test]
fn a_selected_but_missing_context_is_an_error() {
    let env = FakeEnv::default().with("HOME", "/home/dev");
    let paths = FakePaths::default()
        .with_file(
            "/home/dev/.docker/config.json",
            r#"{"currentContext":"gone"}"#,
        )
        .with_socket("/var/run/docker.sock");

    let error = resolve(None, &env, &paths, &DockerFiles).expect_err("missing context is an error");

    assert!(
        matches!(error, ResolveError::ContextUnusable { ref name, .. } if name == "gone"),
        "got {error:?}"
    );
}

#[test]
fn a_malformed_config_file_is_an_error_rather_than_a_silent_fallback() {
    let env = FakeEnv::default().with("HOME", "/home/dev");
    let paths = FakePaths::default()
        .with_file("/home/dev/.docker/config.json", "{ not json")
        .with_socket("/var/run/docker.sock");

    let error = resolve(None, &env, &paths, &DockerFiles).expect_err("malformed config is an error");

    assert!(
        matches!(error, ResolveError::ContextUnusable { .. }),
        "got {error:?}"
    );
}

#[test]
fn a_malformed_meta_file_does_not_hide_a_later_match() {
    let env = FakeEnv::default().with("HOME", "/home/dev");
    let paths = FakePaths::default()
        .with_file(
            "/home/dev/.docker/config.json",
            r#"{"currentContext":"work"}"#,
        )
        .with_file(
            "/home/dev/.docker/contexts/meta/aa11/meta.json",
            "{ not json",
        )
        .with_file(
            "/home/dev/.docker/contexts/meta/bb22/meta.json",
            &context_meta("work", "unix:///work.sock"),
        );

    let resolved = resolve(None, &env, &paths, &DockerFiles).expect("resolves past the bad file");

    assert_eq!(
        resolved.endpoint,
        Endpoint::Unix("/work.sock".to_owned())
    );
}

#[test]
fn a_context_without_a_docker_endpoint_is_an_error() {
    let env = FakeEnv::default().with("HOME", "/home/dev");
    let paths = FakePaths::default()
        .with_file(
            "/home/dev/.docker/config.json",
            r#"{"currentContext":"work"}"#,
        )
        .with_file(
            "/home/dev/.docker/contexts/meta/bb22/meta.json",
            r#"{"Name":"work","Endpoints":{}}"#,
        );

    let error = resolve(None, &env, &paths, &DockerFiles).expect_err("unusable context");

    assert!(
        matches!(error, ResolveError::ContextUnusable { ref reason, .. }
            if reason.contains("does not define")),
        "got {error:?}"
    );
}

#[test]
fn a_remote_context_names_the_context_in_the_error() {
    let env = FakeEnv::default().with("HOME", "/home/dev");
    let paths = FakePaths::default()
        .with_file(
            "/home/dev/.docker/config.json",
            r#"{"currentContext":"cloud"}"#,
        )
        .with_file(
            "/home/dev/.docker/contexts/meta/cc33/meta.json",
            &context_meta("cloud", "ssh://user@host"),
        );

    let error = resolve(None, &env, &paths, &DockerFiles).expect_err("ssh is unsupported");

    assert!(
        error.to_string().contains("cloud"),
        "error should name the context: {error:?}"
    );
}

#[test]
fn endpoints_render_as_urls() {
    let endpoint = Endpoint::Unix("/var/run/docker.sock".to_owned());
    assert_eq!(endpoint.to_string(), "unix:///var/run/docker.sock");
    assert_eq!(endpoint.path(), "/var/run/docker.sock");
}
