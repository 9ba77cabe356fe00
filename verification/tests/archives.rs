use flate2::write::GzEncoder;
use flate2::Compression;
use npm_utils::extract::{
    count_written, is_root_entry, plan_entries, read_limit, remaining_budget, tar_gz, zip, Action,
    ArchiveEntry, EntryKind, ExtractError, Plan, Select, MAX_ENTRIES, MAX_TOTAL_BYTES,
};
use npm_utils::install::{package_dir, strip_top_dir, verify_and_plan, InstallError};
use npm_utils::integrity::{verify, verify_integrity, IntegrityError};
use npm_utils::path_safety::{contained_target, ensure_within, safe_join, PathError};
use std::io::Cursor;

type NoMatching = fn(&str) -> Option<String>;

fn make_tar_gz(entries: &[(&str, &[u8])]) -> Vec<u8> {
    let mut builder = tar::Builder::new(GzEncoder::new(Vec::new(), Compression::fast()));
    for (path, contents) in entries {
        let mut header = tar::Header::new_gnu();
        header.set_size(contents.len() as u64);
        header.set_mode(0o644);
        header.set_entry_type(tar::EntryType::Regular);
        builder
            .append_data(&mut header, *path, Cursor::new(*contents))
            .unwrap();
    }
    builder.finish().unwrap();
    builder.into_inner().unwrap().finish().unwrap()
}

fn written(plan: &Plan) -> Vec<String> {
    plan.actions
        .iter()
        .filter_map(|a| match a {
            Action::WriteFile { path, .. } => Some(path.clone()),
            Action::MakeDirectory { .. } => None,
        })
        .collect()
}

#[test]
fn tar_gz_all_strips_prefix() {
    let tgz = make_tar_gz(&[("package/index.js", b"a"), ("package/sub/util.js", b"b")]);
    let plan = tar_gz(&tgz, Some("package/"), &Select::<NoMatching>::All);
    assert!(plan.failure.is_none());
    assert_eq!(written(&plan), ["index.js", "sub/util.js"]);
}

#[test]
fn tar_gz_files_picks_named_entries() {
    let tgz = make_tar_gz(&[
        ("package/dist/sprite.svg", b"<svg/>"),
        ("package/readme.md", b"x"),
    ]);
    let files = [(
        "dist/sprite.svg".to_string(),
        "icons/sprite.svg".to_string(),
    )];
    let plan = tar_gz(&tgz, Some("package/"), &Select::<NoMatching>::Files(&files));
    assert!(plan.failure.is_none());
    assert_eq!(written(&plan), ["icons/sprite.svg"]);
}

#[test]
fn tar_gz_matching_predicate_and_prefix() {
    let tgz = make_tar_gz(&[
        ("package/a.js", b"x"),
        ("package/b.css", b"y"),
        ("package/c.mjs", b"z"),
    ]);
    let keep_js = |rel: &str| -> Option<String> {
        if rel.ends_with(".js") || rel.ends_with(".mjs") {
            Some(format!("lit/{rel}"))
        } else {
            None
        }
    };
    let plan = tar_gz(&tgz, Some("package/"), &Select::Matching(keep_js));
    assert!(plan.failure.is_none());
    assert_eq!(written(&plan), ["lit/a.js", "lit/c.mjs"]);
}

#[test]
fn tar_gz_errors_when_selection_escapes_dest() {
    let tgz = make_tar_gz(&[("package/x.js", b"x")]);
    let escape = |_rel: &str| -> Option<String> { Some("../escape.js".to_string()) };
    let plan = tar_gz(&tgz, Some("package/"), &Select::Matching(escape));
    assert!(
        plan.failure.is_some(),
        "extraction must error when a dest escapes"
    );
    assert!(plan.actions.is_empty());
}

#[test]
fn rejects_writing_through_a_preexisting_symlink() {
    // Where a link in the destination leads outside, the directory of the file really lies
    // there, and the write is refused.
    let tgz = make_tar_gz(&[("package/evil/pwned", b"owned")]);
    let plan = tar_gz(&tgz, Some("package/"), &Select::<NoMatching>::All);
    assert_eq!(written(&plan), ["evil/pwned"]);
    let out = safe_join("/tmp/x/dest", &written(&plan)[0]).unwrap();
    let refused = contained_target("/tmp/x/dest", "/tmp/x/outside", &out);
    assert!(
        refused.is_err(),
        "must refuse to write through an escaping symlink"
    );
    // A sibling whose name only begins the same is outside too.
    assert!(contained_target("/tmp/x/dest", "/tmp/x/destiny", "/tmp/x/dest/a").is_err());
}

#[test]
fn odd_but_legal_entry_names_stay_contained() {
    let tgz = make_tar_gz(&[
        (".../flag.txt", b"a"),
        ("~/flag.txt", b"b"),
        ("file:///tmp/flag.txt", b"c"),
    ]);
    let plan = tar_gz(&tgz, None, &Select::<NoMatching>::All);
    assert!(plan.failure.is_none());
    let paths = written(&plan);
    assert_eq!(paths.len(), 3);
    for path in &paths {
        assert!(ensure_within(path).is_ok(), "{path}");
    }
    assert_eq!(paths[0], ".../flag.txt");
    assert_eq!(paths[1], "~/flag.txt");
    assert!(paths[2].starts_with("file:/"), "{}", paths[2]);
}

fn tar_with_links() -> Vec<u8> {
    let mut b = tar::Builder::new(GzEncoder::new(Vec::new(), Compression::fast()));
    let mut reg = tar::Header::new_gnu();
    reg.set_size(4);
    reg.set_mode(0o644);
    reg.set_entry_type(tar::EntryType::Regular);
    b.append_data(&mut reg, "real.txt", Cursor::new(&b"data"[..]))
        .unwrap();

    let mut sym = tar::Header::new_gnu();
    sym.set_size(0);
    sym.set_mode(0o777);
    sym.set_entry_type(tar::EntryType::Symlink);
    b.append_link(&mut sym, "evil-symlink", "real.txt").unwrap();

    let mut hard = tar::Header::new_gnu();
    hard.set_size(0);
    hard.set_mode(0o644);
    hard.set_entry_type(tar::EntryType::Link);
    b.append_link(&mut hard, "evil-hardlink", "real.txt")
        .unwrap();

    b.finish().unwrap();
    b.into_inner().unwrap().finish().unwrap()
}

#[test]
fn skips_symlink_and_hardlink_entries() {
    let plan = tar_gz(&tar_with_links(), None, &Select::<NoMatching>::All);
    assert!(plan.failure.is_none());
    assert_eq!(
        written(&plan),
        ["real.txt"],
        "only the regular file is written"
    );
    assert_eq!(plan.actions.len(), 1);
}

#[test]
fn directories_are_made_for_everything_only() {
    let mut b = tar::Builder::new(GzEncoder::new(Vec::new(), Compression::fast()));
    let mut dir = tar::Header::new_gnu();
    dir.set_size(0);
    dir.set_mode(0o755);
    dir.set_entry_type(tar::EntryType::Directory);
    b.append_data(&mut dir, "sub/", Cursor::new(&b""[..]))
        .unwrap();
    b.finish().unwrap();
    let tgz = b.into_inner().unwrap().finish().unwrap();

    let plan = tar_gz(&tgz, None, &Select::<NoMatching>::All);
    assert_eq!(plan.actions.len(), 1);
    assert!(matches!(
        &plan.actions[0],
        Action::MakeDirectory { entry: 0, .. }
    ));
    let plan = tar_gz(&tgz, None, &Select::<NoMatching>::Files(&[]));
    assert!(plan.actions.is_empty() && plan.failure.is_none());
}

#[test]
fn what_is_no_archive_is_an_error() {
    let plan = tar_gz(b"not gzip", None, &Select::<NoMatching>::All);
    assert!(plan.actions.is_empty());
    assert!(matches!(plan.failure, Some(ExtractError::Archive(_))));
    let plan = zip(b"not a zip", None, &Select::<NoMatching>::All);
    assert!(plan.actions.is_empty());
    assert!(matches!(plan.failure, Some(ExtractError::Archive(_))));
}

fn make_zip(entries: &[(&str, &[u8])]) -> Vec<u8> {
    let mut writer = zip::ZipWriter::new(Cursor::new(Vec::new()));
    for (path, contents) in entries {
        writer
            .start_file(*path, zip::write::SimpleFileOptions::default())
            .unwrap();
        std::io::Write::write_all(&mut writer, contents).unwrap();
    }
    writer.finish().unwrap().into_inner()
}

#[test]
fn zip_files_are_planned_like_tarballs() {
    let bytes = make_zip(&[("top/a.js", b"x"), ("top/sub/", b""), ("top/sub/b.js", b"y")]);
    let plan = zip(&bytes, Some("top/"), &Select::<NoMatching>::All);
    assert!(plan.failure.is_none(), "{:?}", plan.failure);
    assert_eq!(written(&plan), ["a.js", "sub/b.js"]);
    assert!(matches!(
        &plan.actions[1],
        Action::MakeDirectory { entry: 1, path } if path == "sub/"
    ));

    let evil = make_zip(&[("../evil.js", b"x")]);
    let plan = zip(&evil, None, &Select::<NoMatching>::All);
    match plan.failure {
        Some(e) => assert_eq!(e.message(), "unsafe zip entry name (escapes destination)"),
        None => panic!("an escaping name was planned"),
    }
}

#[test]
fn zip_directories_are_made_for_everything_only() {
    let bytes = make_zip(&[("d/", b"")]);
    let plan = zip(&bytes, None, &Select::<NoMatching>::All);
    assert!(plan.failure.is_none());
    assert_eq!(
        plan.actions,
        [Action::MakeDirectory {
            entry: 0,
            path: "d/".to_string()
        }]
    );
    let plan = zip(&bytes, Some("d/"), &Select::<NoMatching>::All);
    assert!(plan.actions.is_empty() && plan.failure.is_none());
    // Where no directory is made, none is looked at.
    let evil = make_zip(&[("../d/", b""), ("a.js", b"x")]);
    let files = [("a.js".to_string(), "a.js".to_string())];
    let plan = zip(&evil, None, &Select::<NoMatching>::Files(&files));
    assert!(plan.failure.is_none());
    assert_eq!(written(&plan), ["a.js"]);
    assert!(zip(&evil, None, &Select::<NoMatching>::All).failure.is_some());
}

/// A size near the end of what 64 bits can count.
const NEAR_THE_END: [u8; 12] = [0x80, 0, 0, 0, 255, 255, 255, 255, 255, 255, 252, 0];

/// A GNU header for a sparse file that says that more headers follow.
fn sparse_header(size: &[u8; 12]) -> Vec<u8> {
    let mut header = tar::Header::new_gnu();
    header.set_path("sparse").unwrap();
    header.set_mode(0o644);
    header.set_entry_type(tar::EntryType::GNUSparse);
    {
        let gnu = header.as_gnu_mut().unwrap();
        gnu.size.copy_from_slice(size);
        gnu.realsize.copy_from_slice(b"00000000000\0");
        gnu.isextended[0] = 1;
    }
    header.set_cksum();
    header.as_bytes().to_vec()
}

fn gzipped(tar: &[u8]) -> Vec<u8> {
    let mut gz = GzEncoder::new(Vec::new(), Compression::fast());
    std::io::Write::write_all(&mut gz, tar).unwrap();
    gz.finish().unwrap()
}

/// A tarball with a sparse file of which more headers follow.
fn sparse_tar(size: &[u8; 12], before: &[u8], after: &[u8]) -> Vec<u8> {
    gzipped(&[before, &sparse_header(size), after].concat())
}

fn cut_short() -> Option<ExtractError> {
    Some(ExtractError::Archive("failed to read entire block".to_string()))
}

/// An extended header that gives a size.
fn pax_size(record: &str) -> Vec<u8> {
    let mut header = tar::Header::new_ustar();
    header.set_path("pax").unwrap();
    header.set_size(record.len() as u64);
    header.set_mode(0o644);
    header.set_entry_type(tar::EntryType::XHeader);
    header.set_cksum();
    let mut out = header.as_bytes().to_vec();
    out.extend_from_slice(record.as_bytes());
    out.resize(1024, 0);
    out
}

#[test]
fn a_sparse_file_of_impossible_size_is_refused() {
    let tgz = sparse_tar(&NEAR_THE_END, &[], &[0; 512]);
    let plan = tar_gz(&tgz, None, &Select::<NoMatching>::All);
    assert!(plan.actions.is_empty());
    assert_eq!(plan.failure, cut_short());

    // The same size in an extended header.
    let pax = pax_size("29 size=18446744073709550592\n");
    let tgz = sparse_tar(b"00000000000\0", &pax, &[0; 512]);
    let plan = tar_gz(&tgz, None, &Select::<NoMatching>::All);
    assert_eq!(plan.failure, cut_short());

    // Far from the beginning, and across the parts in which an archive is looked at: what stands
    // before it is extracted.
    for shift in [512, 1024, 1_048_064, 1_048_576] {
        let mut before = make_plain(shift);
        before.extend_from_slice(&pax);
        let tgz = sparse_tar(b"00000000000\0", &before, &[0; 512]);
        let plan = tar_gz(&tgz, None, &Select::<NoMatching>::All);
        assert_eq!(written(&plan), ["plain"]);
        assert_eq!(plan.failure, cut_short(), "{shift}");

        let tgz = sparse_tar(&NEAR_THE_END, &make_plain(shift), &[0; 512]);
        let plan = tar_gz(&tgz, None, &Select::<NoMatching>::All);
        assert_eq!(written(&plan), ["plain"]);
        assert_eq!(plan.failure, cut_short(), "{shift}");
    }
}

/// A header for a regular file, and its data.
fn file_of(path: &str, data: &[u8]) -> Vec<u8> {
    let mut header = tar::Header::new_gnu();
    header.set_path(path).unwrap();
    header.set_size(data.len() as u64);
    header.set_mode(0o644);
    header.set_entry_type(tar::EntryType::Regular);
    header.set_cksum();
    let mut out = header.as_bytes().to_vec();
    out.extend_from_slice(data);
    out.resize(out.len().next_multiple_of(512), 0);
    out
}

#[test]
fn what_only_looks_like_an_impossible_size_is_extracted() {
    let sparse = sparse_header(&NEAR_THE_END);
    let end = [0; 1024];
    // Such a header in the data of a file, also more than once, and across parts.
    for lead in [0, 512, 1_048_064, 1_048_576, 2_097_152] {
        let mut data = vec![b'x'; lead];
        data.extend_from_slice(&sparse);
        data.extend_from_slice(&sparse);
        data.extend_from_slice(b"the rest");
        let tar = [file_of("a", &data), file_of("b", &data), end.to_vec()].concat();
        let plan = tar_gz(&gzipped(&tar), None, &Select::<NoMatching>::All);
        assert_eq!(written(&plan), ["a", "b"]);
        assert!(plan.failure.is_none(), "{lead}: {:?}", plan.failure);
    }
    // Behind the end of the archive.
    let tar = [file_of("a", b"x"), end.to_vec(), sparse.clone(), sparse.clone()].concat();
    let plan = tar_gz(&gzipped(&tar), None, &Select::<NoMatching>::All);
    assert_eq!(written(&plan), ["a"]);
    assert!(plan.failure.is_none(), "{:?}", plan.failure);
    // A size in binary that is none too large.
    let small = [0x80, 0, 0, 0, 0, 0, 0, 0, 0, 0, 0, 0];
    let tgz = sparse_tar(&small, &file_of("a", b"x"), &[0; 1536]);
    let plan = tar_gz(&tgz, None, &Select::<NoMatching>::All);
    assert_eq!(written(&plan), ["a"]);
    assert!(plan.failure.is_none(), "{:?}", plan.failure);
    // A size of many digits that is the text of a file, before a sparse file and behind it.
    let text = b"24 size=18446744073709550592\n";
    let zero = b"00000000000\0";
    let pax = pax_size("30 mtime=1500000000.000000000\n");
    for between in [Vec::new(), pax] {
        let before = [file_of("a", text), between].concat();
        let after = [vec![0; 512], file_of("b", text), end.to_vec()].concat();
        let tgz = sparse_tar(zero, &before, &after);
        let plan = tar_gz(&tgz, None, &Select::<NoMatching>::All);
        assert_eq!(written(&plan), ["a", "b"]);
        assert!(plan.failure.is_none(), "{:?}", plan.failure);
    }
    // The first of these is right behind the other.
    let tar = [
        sparse_header(zero),
        vec![0; 512],
        sparse_header(zero),
        vec![0; 512],
        file_of("a", text),
        end.to_vec(),
    ]
    .concat();
    let plan = tar_gz(&gzipped(&tar), None, &Select::<NoMatching>::All);
    assert_eq!(written(&plan), ["a"]);
    assert!(plan.failure.is_none(), "{:?}", plan.failure);
}

/// A regular file of so many bytes, header included.
fn make_plain(len: usize) -> Vec<u8> {
    if len == 0 {
        return Vec::new();
    }
    let mut header = tar::Header::new_gnu();
    header.set_path("plain").unwrap();
    header.set_size((len - 512) as u64);
    header.set_mode(0o644);
    header.set_entry_type(tar::EntryType::Regular);
    header.set_cksum();
    let mut out = header.as_bytes().to_vec();
    out.resize(len, b'x');
    out
}

#[test]
fn other_sparse_files_are_skipped() {
    // No block follows that holds more, and the file is empty.
    let tgz = sparse_tar(b"00000000000\0", &make_plain(1024), &[0; 1536]);
    let plan = tar_gz(&tgz, None, &Select::<NoMatching>::All);
    assert_eq!(written(&plan), ["plain"]);
    assert!(plan.failure.is_none(), "{:?}", plan.failure);
    // A long size without a sparse file is a size.
    let text = make_tar_gz(&[("a.txt", b"24 size=18446744073709550592\n")]);
    let plan = tar_gz(&text, None, &Select::<NoMatching>::All);
    assert_eq!(written(&plan), ["a.txt"]);
    assert!(plan.failure.is_none());
}

#[test]
fn what_stands_before_a_broken_end_is_listed() {
    let whole = make_tar_gz(&[("a.js", b"x"), ("b.js", b"y")]);
    // The tarball ends before the checksum of the compressed bytes is read.
    let mut spoiled = whole.clone();
    let n = spoiled.len();
    spoiled[n - 8] ^= 1;
    let plan = tar_gz(&spoiled, None, &Select::<NoMatching>::All);
    assert!(plan.failure.is_none(), "{:?}", plan.failure);
    assert_eq!(written(&plan), ["a.js", "b.js"]);
    // A tarball that is cut off fails.
    let plan = tar_gz(&whole[..whole.len() / 2], None, &Select::<NoMatching>::All);
    assert!(matches!(plan.failure, Some(ExtractError::Archive(_))));
}

#[test]
fn copy_capped_streams_within_budget_and_rejects_a_bomb() {
    assert_eq!(count_written(0, 1000).unwrap(), 1000);
    assert_eq!(
        count_written(MAX_TOTAL_BYTES - 2000, 1000).unwrap(),
        MAX_TOTAL_BYTES - 1000
    );
    assert_eq!(read_limit(remaining_budget(MAX_TOTAL_BYTES - 100)), 101);
    assert!(count_written(MAX_TOTAL_BYTES - 100, 101).is_err());
    assert_eq!(
        count_written(MAX_TOTAL_BYTES - 10, 11),
        Err(ExtractError::TooLarge)
    );
    assert_eq!(
        count_written(MAX_TOTAL_BYTES - 10, 10).unwrap(),
        MAX_TOTAL_BYTES
    );
    assert_eq!(remaining_budget(MAX_TOTAL_BYTES), 0);
    assert_eq!(remaining_budget(100), MAX_TOTAL_BYTES - 100);
    assert_eq!(read_limit(100), 101);
    assert_eq!(read_limit(u64::MAX), u64::MAX);
}

#[test]
fn too_many_entries_end_a_plan() {
    let entry = || {
        Ok(ArchiveEntry {
            kind: EntryKind::Other,
            path: Ok("x".to_string()),
        })
    };
    let mut entries: Vec<Result<ArchiveEntry, String>> = Vec::new();
    let mut dests: Vec<Option<String>> = Vec::new();
    for _ in 0..=MAX_ENTRIES {
        entries.push(entry());
        dests.push(None);
    }
    let plan = plan_entries(&entries, None, &dests, true);
    match plan.failure {
        Some(e) => {
            assert_eq!(e, ExtractError::TooManyEntries);
            assert_eq!(
                e.message(),
                "archive has more than 200000 entries (possible archive bomb)"
            );
        }
        None => panic!("too many entries were planned"),
    }
}

#[test]
fn is_root_entry_flags_dot_and_empty() {
    assert!(is_root_entry("."));
    assert!(is_root_entry(""));
    assert!(!is_root_entry("index.js"));
    assert!(!is_root_entry("./index.js"));
    assert!(!is_root_entry("..."));
}

#[test]
fn refuses_to_write_at_the_destination_root() {
    let tgz = make_tar_gz(&[("package/x.js", b"x")]);
    let onto_root = |_rel: &str| -> Option<String> { Some(".".to_string()) };
    let plan = tar_gz(&tgz, Some("package/"), &Select::Matching(onto_root));
    // The plan names the root, and the containment of the write refuses it: the directory that
    // the root lies in is above it.
    assert_eq!(written(&plan), ["."]);
    let result = contained_target("/tmp/x/dest", "/tmp/x", "/tmp/x/dest/.");
    assert!(result.is_err(), "writing onto the root must be refused");
}

#[test]
fn package_dir_handles_scoped_and_rejects_escapes() {
    let nm = "/tmp/nm";
    assert_eq!(package_dir(nm, "react").unwrap(), "/tmp/nm/react");
    assert_eq!(
        package_dir(nm, "@preact/signals").unwrap(),
        "/tmp/nm/@preact/signals"
    );
    assert!(package_dir(nm, "../escape").is_err());
    assert!(package_dir(nm, "a/../b").is_err());
    assert!(package_dir(nm, "/abs").is_err());
}

#[test]
fn install_strip_top_dir_drops_first_component_regardless_of_name() {
    assert_eq!(
        strip_top_dir("package/index.js").as_deref(),
        Some("index.js")
    );
    assert_eq!(
        strip_top_dir("react v18.3/index.d.ts").as_deref(),
        Some("index.d.ts")
    );
    assert_eq!(
        strip_top_dir("root/sub/file.d.ts").as_deref(),
        Some("sub/file.d.ts")
    );
    assert_eq!(strip_top_dir("toplevel"), None);
}

#[test]
fn mod_strip_top_dir_drops_first_component_regardless_of_name() {
    assert_eq!(
        strip_top_dir("package/index.js").as_deref(),
        Some("index.js")
    );
    assert_eq!(
        strip_top_dir("react v18.3/index.d.ts").as_deref(),
        Some("index.d.ts")
    );
    assert_eq!(
        strip_top_dir("root/sub/file.d.ts").as_deref(),
        Some("sub/file.d.ts")
    );
    assert_eq!(strip_top_dir("toplevel"), None);
    assert_eq!(strip_top_dir("package/"), None);
}

fn package_layout() {
    let tgz = make_tar_gz(&[
        (
            "package/package.json",
            br#"{"name":"@scope/pkg","version":"1.0.0"}"#,
        ),
        ("package/index.js", b"export default 1;"),
    ]);
    let dir = package_dir("node_modules", "@scope/pkg").unwrap();
    assert_eq!(dir, "node_modules/@scope/pkg");
    let plan = tar_gz(&tgz, Some("package/"), &Select::<NoMatching>::All);
    assert!(plan.failure.is_none());
    let placed: Vec<String> = written(&plan)
        .iter()
        .map(|p| safe_join(&dir, p).unwrap())
        .collect();
    assert_eq!(
        placed,
        [
            "node_modules/@scope/pkg/package.json",
            "node_modules/@scope/pkg/index.js"
        ]
    );
}

#[test]
fn install_extracts_a_package_into_the_node_modules_layout() {
    package_layout();
}

#[test]
fn mod_extracts_a_package_into_the_node_modules_layout() {
    package_layout();
}

fn odd_root() {
    let tgz = make_tar_gz(&[
        ("react v18.3/index.d.ts", b"export {};"),
        ("react v18.3/package.json", br#"{"name":"@types/react"}"#),
    ]);
    let plan = tar_gz(&tgz, None, &Select::Matching(strip_top_dir));
    assert!(plan.failure.is_none());
    assert_eq!(
        written(&plan),
        ["index.d.ts", "package.json"],
        "top dir stripped by position"
    );
}

#[test]
fn install_extracts_tarballs_whose_root_is_not_named_package() {
    odd_root();
}

#[test]
fn mod_extracts_tarballs_whose_root_is_not_named_package() {
    odd_root();
}

fn sri(bytes: &[u8]) -> String {
    let digest = <sha2::Sha512 as sha2::Digest>::digest(bytes);
    format!(
        "sha512-{}",
        base64::Engine::encode(&base64::engine::general_purpose::STANDARD, digest)
    )
}

#[test]
fn verify_integrity_checks_sha512_and_rejects_tampering() {
    let tgz = make_tar_gz(&[("package/index.js", b"export default 1;")]);
    let good = sri(&tgz);
    verify_integrity("p", &tgz, &good).expect("matching sha512 passes");

    let mut tampered = tgz.clone();
    tampered[0] ^= 0xff;
    assert!(
        verify_integrity("p", &tampered, &good).is_err(),
        "flipped byte fails"
    );
    assert!(verify_integrity("p", &tgz, "sha1-deadbeef").is_err());
}

#[test]
fn verify_checks_sha512_and_rejects_tampering() {
    let bytes = b"a downloaded tarball's bytes";
    let good = sri(bytes);
    verify("p", bytes, &good).expect("matching sha512 passes");

    let mut tampered = bytes.to_vec();
    tampered[0] ^= 0xff;
    assert!(verify("p", &tampered, &good).is_err(), "flipped byte fails");
    assert!(verify("p", bytes, "sha1-deadbeef").is_err());
}

#[test]
fn verify_rejects_malformed_base64() {
    assert!(verify("p", b"x", "sha512-@@@@").is_err());
}

#[test]
fn verify_finds_sha512_among_algorithms_and_tolerates_whitespace() {
    let bytes = b"multi-algorithm payload";
    let integrity = format!("  sha1-deadbeef   {}  ", sri(bytes));
    verify("p", bytes, &integrity).expect("sha512 is found among the listed algorithms");
}

#[test]
fn verify_rejects_a_short_digest() {
    let short = base64::Engine::encode(&base64::engine::general_purpose::STANDARD, b"only nine");
    let integrity = format!("sha512-{short}");
    assert!(
        verify("p", b"a downloaded tarball's bytes", &integrity).is_err(),
        "a sub-64-byte digest cannot match"
    );
}

#[test]
fn verify_accepts_exactly_the_pinned_bytes_and_nothing_else() {
    for payload in [b"".as_slice(), b"x", b"a slightly longer tarball payload"] {
        let good = sri(payload);
        verify("p", payload, &good).expect("the exact payload verifies");
        for i in 0..payload.len() {
            let mut tampered = payload.to_vec();
            tampered[i] ^= 0xff;
            assert!(
                verify("p", &tampered, &good).is_err(),
                "flipping byte {i} must fail"
            );
        }
    }
}

#[test]
fn integrity_errors_name_the_package() {
    let missing = verify("left-pad", b"x", "").unwrap_err();
    assert!(matches!(missing, IntegrityError::Missing { .. }));
    assert_eq!(
        missing.message(),
        "package `left-pad`: no sha512 integrity to verify against"
    );
    let malformed = verify("p", b"x", "sha512-@@@@").unwrap_err();
    assert!(matches!(malformed, IntegrityError::Malformed { .. }));
    assert!(malformed
        .message()
        .starts_with("package `p`: malformed sha512 integrity: "));
    let mismatch = verify("p", b"x", &sri(b"y")).unwrap_err();
    assert!(matches!(mismatch, IntegrityError::Mismatch { .. }));
    assert!(mismatch.message().contains("integrity mismatch"));
}

#[test]
fn nothing_is_planned_for_bytes_that_were_not_checked() {
    let tgz = make_tar_gz(&[("package/index.js", b"1")]);
    let plan = verify_and_plan("p", &tgz, Some(&sri(&tgz))).unwrap();
    assert_eq!(written(&plan), ["index.js"]);
    assert!(matches!(
        verify_and_plan("p", &tgz, None),
        Err(InstallError::Integrity(IntegrityError::Missing { .. }))
    ));
    assert!(matches!(
        verify_and_plan("p", &tgz, Some(&sri(b"other"))),
        Err(InstallError::Integrity(IntegrityError::Mismatch { .. }))
    ));
}

#[test]
fn ensure_within_rejects_traversal() {
    for bad in [
        "../flag.txt",
        "./../flag.txt",
        "a/../../flag.txt",
        "/etc/passwd",
        "..",
        "",
        "..\\flag.txt",
        "a/..\\..\\b",
    ] {
        assert!(ensure_within(bad).is_err(), "{bad:?} must be rejected");
    }
}

#[test]
fn ensure_within_allows_legal_but_unusual_names() {
    for ok in [
        "flag.txt",
        "a/b/c.js",
        "@scope/pkg/index.js",
        ".../flag.txt",
        "~/flag.txt",
        "file:///tmp/flag.txt",
        "a..b/c",
        "./flag.txt",
    ] {
        assert!(
            ensure_within(ok).is_ok(),
            "{ok:?} is a normal name, must be contained"
        );
    }
}

#[test]
fn safe_join_stays_under_base() {
    let base = "/srv/node_modules";
    assert_eq!(
        safe_join(base, "@scope/pkg/index.js").unwrap(),
        "/srv/node_modules/@scope/pkg/index.js"
    );
    assert!(safe_join(base, "../escape").is_err());
    assert!(safe_join(base, "a/../b").is_err());
    assert!(safe_join(base, "/abs").is_err());
    assert!(safe_join(base, "").is_err());
}

#[test]
fn contained_target_refuses_the_root_itself() {
    assert!(contained_target("/tmp/x/pkg", "/tmp/x", "/tmp/x/pkg").is_err());
    assert_eq!(
        contained_target("/tmp/x/pkg", "/tmp/x/pkg", "/tmp/x/pkg/file.js").unwrap(),
        "/tmp/x/pkg/file.js"
    );
}

#[test]
fn path_errors_quote_the_path() {
    let escapes = ensure_within("../x").unwrap_err();
    assert_eq!(escapes, PathError::Escapes("../x".to_string()));
    assert_eq!(
        escapes.message(),
        "unsafe path \"../x\": refuses to escape the destination"
    );
    let outside = contained_target("/a/b", "/a", "/a/b").unwrap_err();
    assert_eq!(outside, PathError::OutsideParent("/a/b".to_string()));
    assert_eq!(
        outside.message(),
        "unsafe path \"/a/b\": parent resolves outside the destination (symlink traversal?)"
    );
    let nameless = contained_target("/a", "/a", "..").unwrap_err();
    assert_eq!(nameless, PathError::NoName);
    assert_eq!(nameless.message(), "path has no file name");
}
