use lave_core::engine::HistoryEntry;
use lave_core::model::dockerfile::{Instruction, Reconstruction, reconstruct};

fn entry(created_by: &str) -> HistoryEntry {
    HistoryEntry {
        created_by: created_by.to_owned(),
        ..HistoryEntry::default()
    }
}

/// Newest first, as the daemon reports it.
fn pub_sub_history() -> Vec<HistoryEntry> {
    vec![
        entry(r#"CMD ["pub-sub-monitor"]"#),
        entry("ENTRYPOINT []"),
        entry("COPY /app/target/release/pub-sub-tui /usr/local/bin/pub-sub-tui # buildkit"),
        entry("RUN /bin/sh -c apt-get update && apt-get install -y ca-certificates # buildkit"),
        entry("# debian.sh --arch 'amd64' out/ 'bookworm' '@1781049600'"),
    ]
}

fn rendered(reconstruction: &Reconstruction) -> Vec<String> {
    reconstruction
        .instructions
        .iter()
        .map(Instruction::render)
        .collect()
}

#[test]
fn the_base_image_supplies_the_from_line_history_cannot() {
    let base = vec![entry("# debian.sh --arch 'amd64' out/ 'bookworm'")];

    let result = reconstruct(&pub_sub_history(), Some("node:22-alpine"), &base);

    assert_eq!(
        rendered(&result).first().map(String::as_str),
        Some("FROM node:22-alpine")
    );
}

#[test]
fn the_bases_own_records_are_not_repeated_as_ours() {
    let base = vec![entry("# debian.sh --arch 'amd64' out/ 'bookworm'")];

    let result = reconstruct(&pub_sub_history(), Some("debian:bookworm"), &base);

    assert!(
        !rendered(&result)
            .iter()
            .any(|line| line.contains("debian.sh")),
        "the base's build machinery belongs to the base: {:?}",
        rendered(&result)
    );
}

#[test]
fn instructions_come_out_in_dockerfile_order_not_daemon_order() {
    let result = reconstruct(&pub_sub_history(), Some("debian:bookworm"), &[entry("#x")]);
    let lines = rendered(&result);

    let run = lines.iter().position(|line| line.starts_with("RUN"));
    let cmd = lines.iter().position(|line| line.starts_with("CMD"));

    assert!(run < cmd, "RUN should precede CMD: {lines:?}");
}

#[test]
fn a_legacy_nop_instruction_loses_its_shell_wrapper() {
    let history = vec![entry(
        r#"/bin/sh -c #(nop)  CMD ["/etc/confluent/docker/run"]"#,
    )];

    let result = reconstruct(&history, None, &[]);

    assert_eq!(
        rendered(&result),
        vec![r#"CMD ["/etc/confluent/docker/run"]"#.to_owned()]
    );
}

#[test]
fn a_legacy_shell_command_becomes_a_run() {
    let history = vec![entry(
        "/bin/sh -c apt-get update && apt-get install -y curl",
    )];

    let result = reconstruct(&history, None, &[]);

    assert_eq!(
        rendered(&result),
        vec!["RUN apt-get update && apt-get install -y curl".to_owned()]
    );
}

#[test]
fn baked_build_arguments_are_stripped_and_confessed() {
    let history = vec![entry(
        "|6 ARTIFACT_ID=cp-kafka BUILD_NUMBER=349ed81f /bin/sh -c echo installing",
    )];

    let result = reconstruct(&history, None, &[]);

    assert_eq!(rendered(&result), vec!["RUN echo installing".to_owned()]);
    assert!(
        result.caveats.iter().any(|caveat| caveat.contains("ARG")),
        "{:?}",
        result.caveats
    );
}

#[test]
fn a_buildkit_marker_is_not_rendered() {
    let history = vec![entry("WORKDIR /app # buildkit")];

    let result = reconstruct(&history, None, &[]);

    assert_eq!(rendered(&result), vec!["WORKDIR /app".to_owned()]);
}

#[test]
fn every_reconstruction_says_it_is_one() {
    let result = reconstruct(&pub_sub_history(), Some("debian:bookworm"), &[entry("#x")]);

    assert!(
        result.caveats[0].contains("not the original"),
        "the first thing a reader sees must be the disclaimer: {:?}",
        result.caveats
    );
    assert!(result.render().starts_with("# Reconstructed"));
}

#[test]
fn a_copy_warns_that_its_source_stage_is_gone() {
    let result = reconstruct(&pub_sub_history(), Some("debian:bookworm"), &[entry("#x")]);

    assert!(
        result.caveats.iter().any(|caveat| caveat.contains("COPY")),
        "{:?}",
        result.caveats
    );
}

#[test]
fn an_unresolved_base_is_admitted_rather_than_guessed() {
    let result = reconstruct(&pub_sub_history(), None, &[]);

    assert_eq!(result.base, None);
    assert!(
        !rendered(&result)
            .iter()
            .any(|line| line.starts_with("FROM"))
    );
    assert!(
        result.caveats.iter().any(|caveat| caveat.contains("FROM")),
        "{:?}",
        result.caveats
    );
}

#[test]
fn a_squashed_image_is_reported_as_such() {
    let history = vec![entry("/bin/sh -c #(nop)  CMD [\"/bin/sh\"]")];

    let result = reconstruct(&history, None, &[]);

    assert!(
        result
            .caveats
            .iter()
            .any(|caveat| caveat.contains("squashed")),
        "{:?}",
        result.caveats
    );
}

// The four below were all found on real images; fixtures alone missed every one.

#[test]
fn a_buildkit_run_loses_its_shell_wrapper() {
    let history = vec![entry(
        "RUN /bin/sh -c apt-get update && apt-get install -y ca-certificates # buildkit",
    )];

    let result = reconstruct(&history, None, &[]);

    assert_eq!(
        rendered(&result),
        vec!["RUN apt-get update && apt-get install -y ca-certificates".to_owned()]
    );
}

#[test]
fn an_argument_vector_regains_the_commas_that_make_it_json() {
    let history = vec![entry(r#"CMD ["node" "dist/server/index.js"]"#)];

    let result = reconstruct(&history, None, &[]);

    assert_eq!(
        rendered(&result),
        vec![r#"CMD ["node", "dist/server/index.js"]"#.to_owned()]
    );
}

#[test]
fn a_single_element_vector_is_left_alone() {
    let history = vec![entry(r#"CMD ["pub-sub-monitor"]"#)];

    let result = reconstruct(&history, None, &[]);

    assert_eq!(
        rendered(&result),
        vec![r#"CMD ["pub-sub-monitor"]"#.to_owned()]
    );
}

#[test]
fn ports_and_volumes_shed_their_go_brackets() {
    let history = vec![
        entry("VOLUME [/var/lib/kafka/data /etc/kafka/secrets]"),
        entry("EXPOSE [8080/tcp]"),
    ];

    let result = reconstruct(&history, None, &[]);

    assert_eq!(
        rendered(&result),
        vec![
            "EXPOSE 8080/tcp".to_owned(),
            "VOLUME /var/lib/kafka/data /etc/kafka/secrets".to_owned(),
        ]
    );
}

#[test]
fn a_healthcheck_struct_becomes_flags_and_a_command() {
    let history = vec![entry(
        "HEALTHCHECK {Test:[CMD-SHELL curl -f localhost/healthz] Interval:15s \
         Timeout:3s StartPeriod:5s StartInterval:0s Retries:3}",
    )];

    let result = reconstruct(&history, None, &[]);

    assert_eq!(
        rendered(&result),
        vec![
            "HEALTHCHECK --interval=15s --timeout=3s --start-period=5s --retries=3 \
             CMD curl -f localhost/healthz"
                .to_owned()
        ]
    );
}

#[test]
fn a_healthcheck_shape_we_do_not_recognise_is_left_untouched_rather_than_mangled() {
    let history = vec![entry("HEALTHCHECK something-else-entirely")];

    let result = reconstruct(&history, None, &[]);

    assert_eq!(
        rendered(&result),
        vec!["HEALTHCHECK something-else-entirely".to_owned()]
    );
}

#[test]
fn an_unrecognised_leading_word_becomes_a_comment_rather_than_a_fake_keyword() {
    let history = vec![entry("some-tool --did-something")];

    let result = reconstruct(&history, None, &[]);

    assert_eq!(
        rendered(&result),
        vec!["# some-tool --did-something".to_owned()]
    );
}

#[test]
fn a_base_with_more_history_than_the_image_does_not_underflow() {
    let base = vec![
        entry("a"),
        entry("b"),
        entry("c"),
        entry("d"),
        entry("e"),
        entry("f"),
    ];

    // Must not panic, and must not silently drop everything.
    let result = reconstruct(&pub_sub_history(), Some("weird:base"), &base);

    assert!(result.instructions.len() > 1);
}
