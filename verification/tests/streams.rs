//! Bytes that arrive in pieces: logs, archives and histories.

use lave_core::engine::{HistoryEntry, LogChunk, LogStream};
use lave_core::model::dockerfile::{DISCLAIMER, NO_BASE, SQUASHED, parse, reconstruct, summary};
use lave_core::model::fs_tree::{
    BLOCK, EntryKind, FsTree, Indexer, Node, absolute_path, base_name, extract_file, normalise,
    octal_value, padding, parent_of, path_in_records,
};
use lave_core::model::logs::{
    Token, Transcript, clean_text, highlight, highlight_as, scan, strip_ansi,
};

fn lines(transcript: &Transcript) -> Vec<(LogStream, &str)> {
    transcript
        .lines()
        .iter()
        .map(|line| (line.stream, line.text.as_str()))
        .collect()
}

fn chunk(stream: LogStream, bytes: &[u8]) -> LogChunk {
    LogChunk {
        stream,
        bytes: bytes.to_vec(),
    }
}

/// One member of an archive: its header, its content and the padding behind it.
fn member(name: &str, flag: u8, content: &[u8]) -> Vec<u8> {
    let mut block = vec![0u8; BLOCK];
    block[..name.len()].copy_from_slice(name.as_bytes());
    block[100..107].copy_from_slice(b"0000644");
    block[124..135].copy_from_slice(format!("{:011o}", content.len()).as_bytes());
    block[156] = flag;
    block.extend_from_slice(content);
    block.resize(block.len() + padding(content.len() as u64) as usize, 0);
    block
}

fn archive() -> Vec<u8> {
    let long = format!("etc/{}", "n".repeat(120));
    let mut tar = member("etc/", b'5', b"");
    tar.extend(member("etc/hosts", b'0', b"127.0.0.1 x\n"));
    tar.extend(member("././@LongLink", b'L', long.as_bytes()));
    tar.extend(member("etc/short", b'0', &[7; 700]));
    tar.extend(member("PaxHeader", b'x', b"21 path=etc/pax-name\n"));
    tar.extend(member("etc/cut", b'0', b"y"));
    tar.extend(vec![0; 2 * BLOCK]);
    tar
}

fn step(created_by: &str, size: i64) -> HistoryEntry {
    HistoryEntry {
        created_by: created_by.to_owned(),
        size,
        ..HistoryEntry::default()
    }
}

#[test]
fn output_may_be_cut_anywhere() {
    let bytes = "one\r\n\u{1b}[31mt\u{e9}o\u{1b}[0m\nthree\n\nlast".as_bytes();
    let mut whole = Transcript::new(100);
    whole.push(&chunk(LogStream::Stdout, bytes));

    for at in 0..=bytes.len() {
        let mut pieces = Transcript::new(100);
        pieces.push(&chunk(LogStream::Stdout, &bytes[..at]));
        pieces.push(&chunk(LogStream::Stdout, &bytes[at..]));
        assert_eq!(lines(&pieces), lines(&whole), "cut at {at}");
    }
}

#[test]
fn a_transcript_holds_the_latest_lines_and_no_more() {
    let mut transcript = Transcript::new(3);
    for n in 0..10 {
        transcript.push(&chunk(LogStream::Stdout, format!("{n}\n").as_bytes()));
    }

    let kept: Vec<&str> = lines(&transcript).iter().map(|(_, text)| *text).collect();
    assert_eq!(kept, vec!["7", "8", "9"]);
}

#[test]
fn finishing_twice_adds_nothing_more() {
    let mut transcript = Transcript::new(10);
    transcript.push(&chunk(LogStream::Stdout, b"a"));
    transcript.push(&chunk(LogStream::Stderr, b"b"));

    assert_eq!(transcript.finish().lines.len(), 2);
    assert!(transcript.finish().lines.is_empty());
    assert_eq!(
        lines(&transcript),
        vec![(LogStream::Stdout, "a"), (LogStream::Stderr, "b")]
    );
}

#[test]
fn stripping_escapes_is_final() {
    for text in ["\u{1b}[1;31mred\u{1b}[0m", "\u{1b}]0;title\u{7}x", "plain", "\u{1b}\u{1b}[mx"] {
        let once = strip_ansi(text);
        assert_eq!(strip_ansi(&once), once, "{text:?}");
    }
    assert_eq!(strip_ansi("\u{1b}[1;31mred\u{1b}[0m"), "red");
    assert_eq!(clean_text("\u{1b}[31mx\u{1b}[0m\r"), "x");
}

#[test]
fn bytes_that_are_not_text_are_replaced() {
    let mut transcript = Transcript::new(10);
    transcript.push(&chunk(LogStream::Stdout, b"a\xffb\n"));

    assert_eq!(
        lines(&transcript),
        vec![(LogStream::Stdout, "a\u{fffd}b")]
    );
}

#[test]
fn spans_run_from_left_to_right_without_overlap() {
    let line = r#"{"k":"v","n":-1.5e3,"t":true,"l":[null,"\"x"]}"#;
    let spans = highlight(line);

    assert_eq!(spans, scan(line));
    assert_eq!(spans[1].token, Token::Key);
    for pair in spans.windows(2) {
        assert!(pair[0].start < pair[0].end && pair[0].end <= pair[1].start);
    }
    assert!(highlight_as(line, false).is_empty());
    assert!(highlight(r#"{"k":}"#).is_empty());
}

#[test]
fn an_archive_may_be_cut_anywhere() {
    let tar = archive();
    let mut whole = Indexer::new("/etc", u64::MAX);
    whole.push(&tar);
    let whole = whole.finish();
    assert_eq!(whole.tree.len(), 4);

    for at in (0..=tar.len()).step_by(37) {
        let mut pieces = Indexer::new("/etc", u64::MAX);
        pieces.push(&tar[..at]);
        pieces.push(&tar[at..]);
        assert_eq!(pieces.finish(), whole, "cut at {at}");
    }
}

#[test]
fn extended_headers_rename_what_follows_them() {
    let mut indexer = Indexer::new("/etc", u64::MAX);
    indexer.push(&archive());
    let index = indexer.finish();

    let long = format!("/etc/{}", "n".repeat(120));
    assert_eq!(index.tree.get(&long).map(|node| node.size), Some(700));
    assert!(index.tree.get("/etc/pax-name").is_some());
    assert!(index.tree.get("/etc/cut").is_none());
    assert!(index.covers("/etc/anything"));
}

#[test]
fn a_spent_budget_stays_spent() {
    let tar = archive();
    let mut indexer = Indexer::new("/etc", 600);

    assert!(!indexer.push(&tar));
    let held = indexer.tree().len();
    assert!(!indexer.push(&tar));
    let index = indexer.finish();
    assert_eq!(index.tree.len(), held);
    assert!(index.truncated);
    assert!(index.truncation_notice().is_some());
    assert!(!index.covers("/etc/never-reached"));
}

#[test]
fn normalising_is_final_and_parents_hold_their_children() {
    for path in ["/", "//", "", "/a//b/", "/a/b", "a", "///x///y///"] {
        let once = normalise(path);
        assert_eq!(normalise(&once), once, "{path:?}");
    }
    let mut tree = FsTree::new();
    for path in ["/a", "/a/b", "/a/bc", "/a/b/c", "/ab"] {
        tree.insert(Node {
            path: path.to_owned(),
            name: base_name(path),
            size: 0,
            mode: 0,
            mtime: 0,
            kind: EntryKind::Directory,
            link_target: String::new(),
        });
    }
    for directory in ["/", "/a", "/a/b", "/ab"] {
        let children: Vec<&str> = tree
            .children(directory)
            .iter()
            .map(|node| node.path.as_str())
            .collect();
        let expected: Vec<&str> = ["/a", "/a/b", "/a/b/c", "/a/bc", "/ab"]
            .into_iter()
            .filter(|path| parent_of(path) == directory)
            .collect();
        assert_eq!(children, expected, "{directory}");
    }
}

#[test]
fn member_names_become_absolute_paths() {
    assert_eq!(absolute_path("/etc", "etc/hosts"), "/etc/hosts");
    assert_eq!(absolute_path("/var/log", "log/syslog"), "/var/log/syslog");
    assert_eq!(absolute_path("/", "/etc/"), "/etc");
}

#[test]
fn a_file_comes_out_of_its_archive_as_it_went_in() {
    for content in [&b""[..], b"x", &[9; 512], &[3; 1_500]] {
        let tar = member("etc/file", b'0', content);
        assert_eq!(extract_file(&tar).as_deref(), Some(content));
    }
    assert_eq!(extract_file(&member("etc/", b'5', b"")), None);
    assert_eq!(extract_file(&[]), None);
}

#[test]
fn numbers_in_headers_are_octal() {
    assert_eq!(octal_value("0000644"), 0o644);
    assert_eq!(octal_value(" 17 "), 0o17);
    assert_eq!(octal_value("x"), 0);
    assert_eq!(padding(0), 0);
    assert_eq!(padding(1), 511);
    assert_eq!(padding(512), 0);
}

#[test]
fn a_path_is_found_among_the_records() {
    assert_eq!(
        path_in_records("13 mtime=1.5\n19 path=etc/renamed\n"),
        Some("etc/renamed".to_owned())
    );
    assert_eq!(path_in_records("13 mtime=1.5\n"), None);
    assert_eq!(path_in_records("nonsense"), None);
}

#[test]
fn a_reconstruction_begins_with_what_it_is_not() {
    let history = [step("CMD [\"x\"]", 0), step("RUN /bin/sh -c make # buildkit", 10)];

    let known = reconstruct(&history, Some("alpine:3.20"), &[]);
    assert_eq!(known.caveats[0], DISCLAIMER);
    assert_eq!(known.instructions[0].render(), "FROM alpine:3.20");
    let unknown = reconstruct(&history, None, &[]);
    assert_eq!(unknown.caveats[1], NO_BASE);
    assert_eq!(unknown.instructions.len(), 2);
    assert_eq!(unknown.instructions[0].render(), "RUN make");
    assert_eq!(summary(&unknown, &history), "2 instructions, 10 B");
    let single = reconstruct(&history[..1], None, &[]);
    assert!(single.caveats.iter().any(|caveat| caveat == SQUASHED));
}

#[test]
fn each_instruction_is_what_its_step_recorded() {
    let history = [step("ENV A=b", 0), step("/bin/sh -c #(nop)  CMD [\"sh\"]", 0)];
    let result = reconstruct(&history, None, &[]);

    let parsed: Vec<String> = history
        .iter()
        .rev()
        .map(|entry| parse(&entry.created_by).instruction.render())
        .collect();
    let rendered: Vec<String> = result
        .instructions
        .iter()
        .map(|instruction| instruction.render())
        .collect();
    assert_eq!(rendered, parsed);
}

#[test]
fn children_are_the_nodes_with_that_parent_in_the_order_of_names() {
    let mut tar = member("etc/", b'5', b"");
    for name in ["etc/ssl/", "etc/ssl/certs/", "etc/ssl!", "etc/hosts", "etc/a", "/etcetera"] {
        let flag = if name.ends_with('/') { b'5' } else { b'0' };
        tar.extend(member(name, flag, b""));
    }
    let mut indexer = Indexer::new("/etc", u64::MAX);
    indexer.push(&tar);
    let index = indexer.finish();

    let names = |path: &str| -> Vec<String> {
        index.tree.children(path).iter().map(|node| node.name.clone()).collect()
    };
    assert_eq!(names("/etc"), vec!["a", "hosts", "ssl", "ssl!"]);
    assert_eq!(names("/etc/ssl/"), vec!["certs"]);
    assert_eq!(names("/"), vec!["etc", "etcetera"]);
    assert!(names("/etc/hosts").is_empty());
    for path in ["/", "/etc", "/etc/ssl"] {
        for node in index.tree.children(path) {
            assert_eq!(parent_of(&node.path), path);
        }
    }
}

#[test]
fn the_first_chunk_that_reaches_the_budget_is_the_last_that_counts() {
    let tar = archive();
    let sizes = [100, 900, 24, 500];
    for budget in [0_u64, 1, 100, 101, 1_000, 1_024, 1_025, 1_524, 1_525, u64::MAX] {
        let mut indexer = Indexer::new("//etc/", budget);
        let mut total = 0;
        let mut expected = None;
        for size in sizes {
            indexer.push(&tar[total..total + size]);
            total += size;
            if expected.is_none() && total as u64 >= budget {
                expected = Some(total as u64);
            }
        }
        let index = indexer.finish();
        assert_eq!(index.root, "/etc");
        assert_eq!(index.truncated, expected.is_some(), "{budget}");
        assert_eq!(index.bytes_read, expected.unwrap_or(total as u64), "{budget}");

        let kept = index.bytes_read as usize;
        let mut again = Indexer::new("/etc", u64::MAX);
        again.push(&tar[..kept]);
        assert_eq!(index.tree, again.finish().tree, "{budget}");
    }
}

#[test]
fn normalising_keeps_the_names_of_a_path() {
    for path in ["/", "//a//b/", "a///b", "", "/x"] {
        let names = |text: &str| -> Vec<String> {
            text.split('/').filter(|name| !name.is_empty()).map(str::to_owned).collect()
        };
        assert_eq!(names(&normalise(path)), names(path), "{path:?}");
    }
}
