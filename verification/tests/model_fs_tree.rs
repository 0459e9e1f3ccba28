use lave_core::model::fs_tree::{
    BLOCK, DEFAULT_BUDGET, EntryKind, Index, Indexer, Node, absolute_path, base_name, extract_file,
    normalise, padding, parent_of,
};

/// Build one ustar header block.
fn header(name: &str, size: u64, flag: u8, mode: u32, mtime: i64) -> Vec<u8> {
    let mut block = vec![0u8; BLOCK];
    block[..name.len()].copy_from_slice(name.as_bytes());
    write_octal(&mut block[100..108], u64::from(mode));
    write_octal(&mut block[124..136], size);
    write_octal(&mut block[136..148], u64::try_from(mtime).unwrap_or(0));
    block[156] = flag;
    block[257..262].copy_from_slice(b"ustar");
    block
}

fn write_octal(field: &mut [u8], value: u64) {
    let text = format!("{:0width$o}", value, width = field.len() - 1);
    field[..text.len()].copy_from_slice(text.as_bytes());
}

fn content(bytes: &[u8]) -> Vec<u8> {
    let mut out = bytes.to_vec();
    out.resize(
        out.len() + usize::try_from(padding(bytes.len() as u64)).unwrap_or(0),
        0,
    );
    out
}

/// A tar of `/etc` as the daemon would produce it.
fn etc_archive() -> Vec<u8> {
    let mut tar = Vec::new();
    tar.extend(header("etc/", 0, b'5', 0o755, 1_700_000_000));
    tar.extend(header("etc/hosts", 12, b'0', 0o644, 1_700_000_001));
    tar.extend(content(b"127.0.0.1 x"));
    tar.extend(header("etc/mtab", 0, b'2', 0o777, 1_700_000_002));
    tar.extend(header("etc/ssl/", 0, b'5', 0o755, 1_700_000_003));
    tar.extend(header("etc/ssl/cert.pem", 4, b'0', 0o644, 1_700_000_004));
    tar.extend(content(b"abcd"));
    tar.extend(vec![0u8; BLOCK * 2]);
    tar
}

fn index_of(root: &str, tar: &[u8]) -> Index {
    let mut indexer = Indexer::new(root, DEFAULT_BUDGET);
    indexer.push(tar);
    indexer.finish()
}

#[test]
fn a_directory_tar_becomes_a_tree_of_absolute_paths() {
    let index = index_of("/etc", &etc_archive());

    let mut paths: Vec<&str> = index
        .tree
        .children("/etc")
        .iter()
        .map(|n| n.path.as_str())
        .collect();
    paths.sort_unstable();

    assert_eq!(paths, vec!["/etc/hosts", "/etc/mtab", "/etc/ssl"]);
}

#[test]
fn children_are_the_immediate_ones_only() {
    let index = index_of("/etc", &etc_archive());

    // cert.pem is under /etc/ssl, not directly under /etc.
    assert!(
        !index
            .tree
            .children("/etc")
            .iter()
            .any(|node| node.name == "cert.pem")
    );
    assert_eq!(index.tree.children("/etc/ssl").len(), 1);
}

#[test]
fn a_sibling_with_a_shared_prefix_is_not_mistaken_for_a_child() {
    let mut tar = Vec::new();
    tar.extend(header("etc/", 0, b'5', 0o755, 0));
    tar.extend(header("etc/hosts", 0, b'0', 0o644, 0));
    let mut indexer = Indexer::new("/etc", DEFAULT_BUDGET);
    indexer.push(&tar);
    let mut index = indexer.finish();
    // Force the awkward case directly.
    index.tree.insert(Node {
        path: "/etcetera".to_owned(),
        name: "etcetera".to_owned(),
        size: 0,
        mode: 0,
        mtime: 0,
        kind: EntryKind::Directory,
        link_target: String::new(),
    });

    assert!(
        !index
            .tree
            .children("/etc")
            .iter()
            .any(|node| node.name == "etcetera")
    );
}

#[test]
fn kinds_and_modes_survive_the_header() {
    let index = index_of("/etc", &etc_archive());

    let hosts = index.tree.get("/etc/hosts").expect("hosts is indexed");
    assert_eq!(hosts.kind, EntryKind::File);
    assert_eq!(hosts.mode, 0o644);
    assert_eq!(hosts.size, 12);
    assert_eq!(hosts.mtime, 1_700_000_001);

    assert_eq!(
        index.tree.get("/etc/mtab").expect("mtab").kind,
        EntryKind::Symlink
    );
    assert!(index.tree.get("/etc/ssl").expect("ssl").kind.is_directory());
}

#[test]
fn content_is_discarded_rather_than_mistaken_for_headers() {
    // The file's content is 512 bytes of plausible-looking rubbish.
    let mut tar = Vec::new();
    tar.extend(header("etc/", 0, b'5', 0o755, 0));
    tar.extend(header("etc/trap", BLOCK as u64, b'0', 0o644, 0));
    tar.extend(header("etc/not-real", 0, b'0', 0o644, 0));
    tar.extend(header("etc/after", 0, b'0', 0o644, 0));

    let index = index_of("/etc", &tar);

    assert!(index.tree.get("/etc/after").is_some());
    assert!(
        index.tree.get("/etc/not-real").is_none(),
        "a header-shaped payload must be skipped as content"
    );
}

#[test]
fn a_member_split_across_chunks_is_read_correctly() {
    let tar = etc_archive();
    let mut indexer = Indexer::new("/etc", DEFAULT_BUDGET);

    // Deliberately unaligned pieces, as a socket would deliver them.
    for piece in tar.chunks(37) {
        indexer.push(piece);
    }
    let index = indexer.finish();

    assert_eq!(
        index.tree.get("/etc/ssl/cert.pem").expect("indexed").size,
        4
    );
}

#[test]
fn indexing_stops_and_says_so_once_the_budget_is_spent() {
    let tar = etc_archive();
    let mut indexer = Indexer::new("/etc", 100);

    let keep_going = indexer.push(&tar);
    let index = indexer.finish();

    assert!(!keep_going, "the caller must be told to stop");
    assert!(index.truncated);
    assert!(
        index
            .truncation_notice()
            .is_some_and(|notice| notice.contains("/etc"))
    );
}

#[test]
fn a_complete_index_answers_for_paths_it_does_not_hold() {
    let index = index_of("/etc", &etc_archive());

    assert!(index.covers("/etc/hosts"));
    // Absence is itself the answer when nothing was missed.
    assert!(index.covers("/etc/nothing-here"));
}

#[test]
fn a_truncated_index_only_answers_for_what_it_actually_reached() {
    let mut indexer = Indexer::new("/etc", 100);
    indexer.push(&etc_archive());
    let index = indexer.finish();

    assert!(
        !index.covers("/etc/never-reached"),
        "a path past the cut-off may still exist, so this must be refetched"
    );
}

#[test]
fn a_complete_index_carries_no_notice() {
    let index = index_of("/etc", &etc_archive());

    assert!(!index.truncated);
    assert_eq!(index.truncation_notice(), None);
}

#[test]
fn pushing_after_the_budget_is_spent_changes_nothing() {
    let mut indexer = Indexer::new("/etc", 1);
    indexer.push(&etc_archive());
    let before = indexer.tree().len();

    assert!(!indexer.push(&etc_archive()));
    assert_eq!(indexer.tree().len(), before);
}

#[test]
fn a_gnu_long_name_is_applied_to_the_entry_that_follows() {
    let long = format!("etc/{}", "a".repeat(150));
    let mut tar = Vec::new();
    tar.extend(header("././@LongLink", long.len() as u64, b'L', 0, 0));
    tar.extend(content(long.as_bytes()));
    tar.extend(header("etc/truncated-name", 0, b'0', 0o644, 0));

    let index = index_of("/etc", &tar);

    assert!(
        index.tree.get(&format!("/{long}")).is_some(),
        "indexed: {:?}",
        index
            .tree
            .children("/etc")
            .iter()
            .map(|n| &n.path)
            .collect::<Vec<_>>()
    );
}

#[test]
fn a_pax_path_record_is_applied_to_the_entry_that_follows() {
    let long = format!("etc/{}", "b".repeat(150));
    let record = format!("{} path={long}\n", 0);
    // Length is the whole record including the length field itself.
    let body = {
        let mut length = record.len();
        loop {
            let candidate = format!("{length} path={long}\n");
            if candidate.len() == length {
                break candidate;
            }
            length = candidate.len();
        }
    };

    let mut tar = Vec::new();
    tar.extend(header("PaxHeaders/0", body.len() as u64, b'x', 0, 0));
    tar.extend(content(body.as_bytes()));
    tar.extend(header("etc/short", 0, b'0', 0o644, 0));

    let index = index_of("/etc", &tar);

    assert!(index.tree.get(&format!("/{long}")).is_some());
    assert!(
        index.tree.get("/etc/short").is_none(),
        "the PAX name replaces the header's own"
    );
}

#[test]
fn a_ustar_prefix_is_joined_to_the_name() {
    let mut block = header("hosts", 0, b'0', 0o644, 0);
    let prefix = b"etc/deeply/nested";
    block[345..345 + prefix.len()].copy_from_slice(prefix);

    let index = index_of("/etc", &block);

    assert!(index.tree.get("/etc/deeply/nested/hosts").is_some());
}

#[test]
fn a_root_archive_keeps_its_absolute_names() {
    let mut tar = Vec::new();
    tar.extend(header("/", 0, b'5', 0o755, 0));
    tar.extend(header("/.dockerenv", 0, b'0', 0o644, 0));
    tar.extend(header("/etc/", 0, b'5', 0o755, 0));

    let index = index_of("/", &tar);

    assert!(index.tree.get("/.dockerenv").is_some());
    assert!(index.tree.get("/etc").is_some());
    assert_eq!(index.tree.children("/").len(), 2);
}

#[test]
fn a_large_size_in_base_256_is_read_rather_than_overflowing() {
    let mut block = header("etc/huge", 0, b'0', 0o644, 0);
    // GNU base-256: high bit set, then big-endian bytes.
    block[124] = 0x80;
    block[125..136].copy_from_slice(&[0, 0, 0, 0, 0, 0, 0, 0, 0, 0x40, 0]);

    let mut indexer = Indexer::new("/etc", DEFAULT_BUDGET);
    indexer.push(&block);
    let index = indexer.finish();

    assert_eq!(index.tree.get("/etc/huge").expect("indexed").size, 0x40_00);
}

#[test]
fn the_trailing_zero_blocks_do_not_become_an_entry() {
    let index = index_of("/etc", &etc_archive());

    assert!(
        !index
            .tree
            .children("/etc")
            .iter()
            .any(|node| node.name.is_empty())
    );
}

#[test]
fn paths_are_normalised_so_a_lookup_does_not_depend_on_trailing_slashes() {
    assert_eq!(normalise("/etc/"), "/etc");
    assert_eq!(normalise("/etc//ssl/"), "/etc/ssl");
    assert_eq!(normalise("/"), "/");
    assert_eq!(normalise(""), "/");

    let index = index_of("/etc", &etc_archive());
    assert!(index.tree.get("/etc/ssl/").is_some());
}

#[test]
fn parents_and_basenames_behave_at_the_root() {
    assert_eq!(parent_of("/etc/ssl"), "/etc");
    assert_eq!(parent_of("/etc"), "/");
    assert_eq!(parent_of("/"), "/");

    assert_eq!(base_name("/etc/ssl"), "ssl");
    assert_eq!(base_name("/etc"), "etc");
    assert_eq!(base_name("/"), "/");
}

#[test]
fn a_single_file_archive_yields_its_content() {
    let mut tar = Vec::new();
    tar.extend(header("hosts", 11, b'0', 0o644, 0));
    tar.extend(content(b"127.0.0.1 x"));
    tar.extend(vec![0u8; BLOCK * 2]);

    assert_eq!(extract_file(&tar).as_deref(), Some(&b"127.0.0.1 x"[..]));
}

#[test]
fn extraction_stops_at_the_declared_size_rather_than_the_block_boundary() {
    let mut tar = Vec::new();
    tar.extend(header("short", 3, b'0', 0o644, 0));
    tar.extend(content(b"abc"));

    assert_eq!(extract_file(&tar).as_deref(), Some(&b"abc"[..]));
}

#[test]
fn extraction_skips_an_extended_header_to_reach_the_file() {
    let name = "x".repeat(120);
    let mut tar = Vec::new();
    tar.extend(header("././@LongLink", name.len() as u64, b'L', 0, 0));
    tar.extend(content(name.as_bytes()));
    tar.extend(header("placeholder", 5, b'0', 0o644, 0));
    tar.extend(content(b"found"));

    assert_eq!(extract_file(&tar).as_deref(), Some(&b"found"[..]));
}

#[test]
fn a_directory_or_symlink_archive_has_no_content_to_extract() {
    let directory = header("etc/", 0, b'5', 0o755, 0);
    assert_eq!(extract_file(&directory), None);

    let symlink = header("etc/mtab", 0, b'2', 0o777, 0);
    assert_eq!(extract_file(&symlink), None);
}

#[test]
fn a_truncated_archive_does_not_read_past_its_end() {
    let mut tar = Vec::new();
    tar.extend(header("cut", 4096, b'0', 0o644, 0));
    tar.extend(b"only a few bytes".to_vec());

    // Must return what is there rather than panicking on the missing remainder.
    let extracted = extract_file(&tar).expect("some content");
    assert!(extracted.len() <= 16);
}

#[test]
fn member_names_are_made_absolute_against_the_requested_paths_parent() {
    assert_eq!(absolute_path("/etc", "etc/hosts"), "/etc/hosts");
    assert_eq!(
        absolute_path("/etc/ssl", "ssl/cert.pem"),
        "/etc/ssl/cert.pem"
    );
    assert_eq!(absolute_path("/", "/.dockerenv"), "/.dockerenv");
    assert_eq!(absolute_path("/etc", "etc/"), "/etc");
}
