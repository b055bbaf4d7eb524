use lrgex_compress::extract::{zip_entry_action, ZipEntryAction};
use lrgex_compress::archive::{
    archive_path, build_path_index, build_sidecar, detect_format, parse_path_index,
    parse_sidecar, path_index_len, path_index_raw, read_path_index, sidecar_lookup,
    sidecar_path, v3_header, zgx_layout, zgx_stream_start, Format, SidecarRecord,
    StreamStartError, ZgxHeaderError, ZgxLayout,
};
use lrgex_compress::extract::{
    batch_full, entry_action, has_conflicts, pax_attrs, pax_ctime, pax_fields, pax_meta,
    sidecar_key, trim_link_target, zip_link_is_dir, zip_mtime_to_epoch, zip_read_only,
    ArchiveEntry, Elevation, EntryAction, EntryKind,
};
use lrgex_compress::extract::{
    counter_growth, extract_archive, extract_temp_path, orphan_name, rar_staging_name, rar_totals,
    PartialFile, StagingDir,
};
use lrgex_compress::metaattr::MetaSnapshot;
use lrgex_compress::winpath::{is_safe_entry_path, is_safe_link_target, lexical_normalize};

#[test]
fn symlink_absolute_target_rejected() {
    let dest = "C:\\some\\dest";
    let link = format!("{}\\link.txt", dest);
    // The destination does not exist, so it has no canonical form.
    let root: Option<String> = None;
    assert!(!is_safe_link_target("C:\\Windows\\System32\\evil.dll", &link, root.as_deref()));
    assert!(!is_safe_link_target("/etc/passwd", &link, root.as_deref()));
}

#[test]
fn symlink_drive_prefix_rejected() {
    let dest = "C:\\dest";
    let link = format!("{}\\link.txt", dest);
    let root: Option<String> = None;
    assert!(!is_safe_link_target("C:evil", &link, root.as_deref()));
}

#[test]
fn lexical_normalize_resolves_parent() {
    let s = lexical_normalize("C:\\dest\\sub\\..\\file.txt");
    assert!(s.ends_with("file.txt"), "got: {}", s);
    assert!(!s.contains("sub"), "'..' did not pop 'sub': {}", s);
    let s2 = lexical_normalize("C:\\dest\\.\\a\\b.txt");
    assert!(s2.ends_with("a\\b.txt"), "got: {}", s2);
}

// ─── further cases ────────────────────────────────────────────────────────

#[test]
fn symlink_parent_escape_rejected() {
    let root = Some("/tmp/lrgex-link-test");
    let link = "/tmp/lrgex-link-test/subdir/link.txt";
    assert!(!is_safe_link_target("../../escape", link, root));
    assert!(is_safe_link_target("../inside.txt", link, root));
}

#[test]
fn link_targets_resolve_against_the_link_folder() {
    let root = Some("C:\\d");
    assert!(is_safe_link_target("sub\\x", "C:\\d\\link", root));
    assert!(is_safe_link_target("..\\d\\x", "C:\\d\\link", root));
    assert!(!is_safe_link_target("..\\x", "C:\\d\\link", root));
    assert!(!is_safe_link_target("", "C:\\d\\link", root));
    assert!(!is_safe_link_target("\\\\server\\share\\x", "C:\\d\\link", root));
    // A verbatim root (as canonicalizing gives it) names the same drive as a plain one.
    assert!(is_safe_link_target("sub\\x", "C:\\d\\link", Some("\\\\?\\C:\\d")));
    assert!(is_safe_link_target("sub\\x", "c:\\d\\link", Some("C:\\d")));
}

#[test]
fn normalization_rebuilds_like_pathbuf() {
    assert_eq!(lexical_normalize("C:\\dest\\sub\\..\\file.txt"), "C:dest\\file.txt");
    assert_eq!(lexical_normalize("\\\\?\\C:\\dest\\x"), "\\\\?\\C:\\dest\\x");
    assert_eq!(lexical_normalize("a/b/../../../c"), "c");
    assert_eq!(lexical_normalize("/x/y"), "x\\y");
}

#[test]
fn entry_paths_are_guarded() {
    assert!(is_safe_entry_path("a/b.txt"));
    assert!(is_safe_entry_path("./a"));
    assert!(!is_safe_entry_path("../evil.txt"));
    assert!(!is_safe_entry_path("a/../../evil"));
    assert!(!is_safe_entry_path("/etc/passwd"));
    assert!(!is_safe_entry_path("C:evil"));
    assert!(!is_safe_entry_path("\\\\srv\\share\\x"));
}

#[test]
fn stream_offsets() {
    let mut v3 = b"LRGEX\x03".to_vec();
    v3.extend_from_slice(&100u64.to_le_bytes());
    v3.extend_from_slice(&40u64.to_le_bytes());
    assert_eq!(zgx_stream_start(&v3), Ok(62));
    assert_eq!(zgx_stream_start(&v3[..21]), Err(StreamStartError::TruncatedV3));
    assert_eq!(zgx_stream_start(b"LRGEX\x01\0\0"), Ok(14));
    assert_eq!(zgx_stream_start(b"LRGEX\x02"), Err(StreamStartError::SplitArchive));
    assert_eq!(zgx_stream_start(b"LRGEX\x09"), Err(StreamStartError::UnsupportedVersion(9)));
    let mut legacy = 5u64.to_le_bytes().to_vec();
    legacy.extend_from_slice(&[0x28, 0xb5, 0x2f, 0xfd]);
    assert_eq!(zgx_stream_start(&legacy), Ok(8));
    assert_eq!(zgx_stream_start(&[0x28, 0xb5, 0x2f, 0xfd, 1, 2]), Ok(0));
    assert_eq!(zgx_stream_start(b"PK\x03\x04"), Err(StreamStartError::NotAnArchive));
}

#[test]
fn extraction_layouts() {
    let mut v1 = b"LRGEX\x01".to_vec();
    v1.extend_from_slice(&5000u64.to_le_bytes());
    assert_eq!(zgx_layout(&v1, 100), Ok(ZgxLayout { total: 5000, stream_start: 14 }));
    assert_eq!(zgx_layout(&v1, 10), Ok(ZgxLayout { total: 10, stream_start: 14 }));
    assert_eq!(zgx_layout(&v1[..10], 100), Err(ZgxHeaderError::Truncated));
    let mut v3 = b"LRGEX\x03".to_vec();
    v3.extend_from_slice(&700u64.to_le_bytes());
    v3.extend_from_slice(&9u64.to_le_bytes());
    assert_eq!(zgx_layout(&v3, 100), Ok(ZgxLayout { total: 700, stream_start: 31 }));
    assert_eq!(zgx_layout(b"LRGEX\x02abcdefgh", 100), Err(ZgxHeaderError::NewerVersion));
    let mut legacy = 0u64.to_le_bytes().to_vec();
    legacy.extend_from_slice(&[0x28, 0xb5, 0x2f, 0xfd]);
    assert_eq!(zgx_layout(&legacy, 77), Ok(ZgxLayout { total: 77, stream_start: 8 }));
    assert_eq!(zgx_layout(&[0x28, 0xb5, 0x2f, 0xfd], 3), Ok(ZgxLayout { total: 3, stream_start: 0 }));
    assert_eq!(zgx_layout(b"junk", 3), Err(ZgxHeaderError::NotValid));
}

#[test]
fn formats_by_magic_then_extension() {
    assert_eq!(detect_format(b"PK\x03\x04rest", "x.bin"), Some(Format::Zip));
    assert_eq!(detect_format(b"Rar!\x1a\x07\x01\x00", "x"), Some(Format::Rar));
    assert_eq!(detect_format(&[0x28, 0xb5, 0x2f, 0xfd], "x"), Some(Format::Zgx));
    assert_eq!(detect_format(b"LRGEX\x03\0\0", "x"), Some(Format::Zgx));
    assert_eq!(detect_format(&[0x37, 0x7a, 0xbc, 0xaf, 0x27, 0x1c, 0, 4], "probe.bin"), Some(Format::SevenZ));
    assert_eq!(detect_format(b"", "C:\\a\\probe.7Z"), Some(Format::SevenZ));
    assert_eq!(detect_format(b"", "C:\\a\\b.ZIP"), Some(Format::Zip));
    assert_eq!(detect_format(b"abcd", "a.tar.zst"), Some(Format::Zgx));
    assert_eq!(detect_format(b"", "x.rar"), Some(Format::Rar));
    assert_eq!(detect_format(b"", ".zgx"), None);
    assert_eq!(detect_format(b"", "noext"), None);
    assert_eq!(detect_format(b"", "x.7z"), Some(Format::SevenZ));
    assert_eq!(detect_format(b"", "x.7z.001"), None);
}

#[test]
fn path_index_roundtrip() {
    let paths: Vec<String> = vec!["has/a.txt".into(), "empty_sub".into(), "ü/ß.txt".into()];
    let raw = path_index_raw(&paths);
    assert_eq!(parse_path_index(&raw), paths);
    let blob = build_path_index(&paths).unwrap();
    assert_eq!(read_path_index(&blob), Some(paths.clone()));
    let head = v3_header(1234, &blob);
    assert_eq!(path_index_len(&head[..22]), Some(blob.len() as u64));
    assert_eq!(zgx_stream_start(&head[..22]), Ok(22 + blob.len() as u64));
    assert_eq!(read_path_index(b"not zstd"), None);
    assert_eq!(archive_path("a\\b\\c.txt"), "a/b/c.txt");
    assert_eq!(parse_path_index(b"\0\0a\0\0b"), vec!["a".to_string(), "b".to_string()]);
}

#[test]
fn sidecar_roundtrip() {
    let recs = vec![
        SidecarRecord { path: "dir\\a.txt".into(), ctime: 1_560_600_000, attrs: 0x21 },
        SidecarRecord { path: "b".into(), ctime: 0, attrs: 0 },
        SidecarRecord { path: "x".repeat(70000), ctime: 5, attrs: 6 },
    ];
    let body = build_sidecar(&recs);
    let back = parse_sidecar(&body);
    assert_eq!(
        back,
        vec![
            SidecarRecord { path: "dir/a.txt".into(), ctime: 1_560_600_000, attrs: 0x21 },
            SidecarRecord { path: "b".into(), ctime: 0, attrs: 0 },
        ]
    );
    assert_eq!(sidecar_lookup(&back, "dir/a.txt"), (1_560_600_000, 0x21));
    assert_eq!(sidecar_lookup(&back, "missing"), (0, 0));
    // Paths compare component by component, as map keys of paths do.
    assert_eq!(sidecar_lookup(&back, "dir\\a.txt"), (1_560_600_000, 0x21));
    assert_eq!(sidecar_lookup(&back, "dir//a.txt"), (1_560_600_000, 0x21));
    assert_eq!(parse_sidecar(&body[..body.len() - 3]).len(), 1);
    assert_eq!(parse_sidecar(&[1, 0]), vec![]);
    assert_eq!(sidecar_path(), ".lrgex/meta.bin");
    assert_eq!(sidecar_key("./a/b"), "a/b");
    assert_eq!(sidecar_key("a/b"), "a/b");
}

#[test]
fn zip_metadata() {
    assert_eq!(zip_mtime_to_epoch(2020, 1, 1, 0, 0, 0), Some(1_577_836_800));
    assert_eq!(zip_mtime_to_epoch(1980, 1, 1, 0, 0, 0), Some(315_532_800));
    assert_eq!(zip_mtime_to_epoch(2024, 2, 29, 12, 30, 58), Some(1_709_209_858));
    assert!(zip_link_is_dir(Some(0o040755)));
    assert!(!zip_link_is_dir(Some(0o120777)));
    assert!(!zip_link_is_dir(None));
    assert!(zip_read_only(Some(0o100444)));
    assert!(!zip_read_only(Some(0o100644)));
    assert!(!zip_read_only(None));
    assert_eq!(trim_link_target("target/x\r\n\0"), "target/x");
}

#[test]
fn pax_metadata() {
    assert_eq!(pax_ctime("1234567890.123"), 1234567890);
    assert_eq!(pax_ctime("abc"), 0);
    assert_eq!(pax_attrs("33"), 33);
    assert_eq!(pax_attrs("-1"), 0);
    let m = MetaSnapshot { mtime: 1, ctime: 1_560_600_000, attrs: 0x2021 };
    let f = pax_fields(m);
    assert_eq!(
        f,
        vec![
            ("SCHILY.creationtime".to_string(), "1560600000".to_string()),
            ("LRGEX.fileattr".to_string(), "33".to_string())
        ]
    );
    assert_eq!(pax_meta(&f), (1_560_600_000, 0x21));
    assert!(pax_fields(MetaSnapshot { mtime: 9, ctime: 0, attrs: 0x10 }).is_empty());
    let mixed = vec![
        ("LRGEX.fileattr".to_string(), "2".to_string()),
        ("other".to_string(), "x".to_string()),
        ("LRGEX.fileattr".to_string(), "4".to_string()),
    ];
    assert_eq!(pax_meta(&mixed), (0, 4));
}

#[test]
fn entry_plan() {
    assert_eq!(entry_action(true, ".lrgex/meta.bin", EntryKind::File, 10, false, false), EntryAction::ReadSidecar);
    assert_eq!(entry_action(false, ".lrgex/meta.bin", EntryKind::File, 10, false, false), EntryAction::Batch);
    assert_eq!(entry_action(false, "../x", EntryKind::File, 10, false, false), EntryAction::SkipUnsafe);
    assert_eq!(entry_action(false, "d", EntryKind::Directory, 0, false, false), EntryAction::MakeDirectory);
    assert_eq!(entry_action(false, "h", EntryKind::HardLink, 0, false, false), EntryAction::SkipHardLink);
    assert_eq!(entry_action(false, "l", EntryKind::Symlink, 0, false, false), EntryAction::Link);
    assert_eq!(entry_action(false, "f", EntryKind::File, 1048577, false, false), EntryAction::Stream);
    assert_eq!(entry_action(false, "f", EntryKind::File, 1048576, false, false), EntryAction::Batch);
    assert_eq!(entry_action(false, "f", EntryKind::File, 5, true, true), EntryAction::SkipExisting);
    assert!(batch_full(2048, 0));
    assert!(batch_full(1, 64 * 1024 * 1024));
    assert!(!batch_full(2047, 64 * 1024 * 1024 - 1));
}

#[test]
fn elevation_is_asked_once() {
    let mut e = Elevation::new();
    assert!(e.should_ask());
    assert!(e.write_stub());
    e.answer(true);
    assert!(!e.should_ask());
    assert!(e.relaunch());
    assert!(!e.write_stub());
    let mut n = Elevation::new();
    n.answer(false);
    assert!(!n.should_ask());
    assert!(!n.relaunch());
}

#[test]
fn conflicts_probe_files_under_dest() {
    let entries = vec![
        ArchiveEntry { path: "dir".into(), is_dir: true },
        ArchiveEntry { path: "../up.txt".into(), is_dir: false },
        ArchiveEntry { path: "a.txt".into(), is_dir: false },
    ];
    assert!(has_conflicts("C:\\out", &entries, true, |p: &str| p == "C:\\out\\a.txt"));
    assert!(!has_conflicts("C:\\out", &entries, true, |p: &str| p == "C:\\out\\dir" || p == "C:\\out\\../up.txt"));
    assert!(has_conflicts("C:\\out\\", &entries, false, |p: &str| p == "C:\\out\\../up.txt"));
    assert!(!has_conflicts("C:\\out", &entries, true, |_p: &str| false));
}

#[test]
fn dispatch_by_format() {
    let zip_head = [0x50u8, 0x4b, 0x03, 0x04, 0, 0, 0, 0];
    let r = extract_archive(&zip_head, "a.bin", |f: Format| (f == Format::Zip, format!("{:?}", f)));
    assert_eq!(r, (true, "Zip".to_string()));
    let r = extract_archive(&[], "a.txt", |_f: Format| (true, String::new()));
    assert_eq!(r, (false, "Unrecognized archive format".to_string()));
}

#[test]
fn temp_paths_never_collide() {
    assert_eq!(extract_temp_path("C:\\out\\data.txt", 77, 0), "C:\\out\\data.txt.lrgex-tmp-77-0");
    assert_ne!(extract_temp_path("C:\\out\\data.txt", 77, 0), extract_temp_path("C:\\out\\data.bin", 77, 1));
    assert_ne!(extract_temp_path("x", 5, 12), extract_temp_path("x", 5, 1));
}

#[test]
fn write_guards() {
    let mut g = PartialFile::new("C:\\out\\a.tmp".to_string(), false);
    assert_eq!(g.to_remove(), Some("C:\\out\\a.tmp"));
    g.disarm();
    assert_eq!(g.to_remove(), None);
    let kept = PartialFile::new("C:\\out\\b".to_string(), true);
    assert_eq!(kept.to_remove(), None);
    let mut s = StagingDir::new("C:\\out\\.stage".to_string());
    assert_eq!(s.to_remove(), Some("C:\\out\\.stage"));
    s.disarm();
    assert_eq!(s.to_remove(), None);
}

#[test]
fn conflicts_empty_dest_is_false() {
    // An archive holding `a.txt`, extracted into an empty folder.
    let entries = vec![ArchiveEntry { path: "a.txt".into(), is_dir: false }];
    assert!(!has_conflicts("C:\\tmp\\out", &entries, true, |_p: &str| false));
}

#[test]
fn conflicts_existing_file_is_true() {
    // The same archive, extracted into a folder that already holds `a.txt`.
    let entries = vec![ArchiveEntry { path: "a.txt".into(), is_dir: false }];
    assert!(has_conflicts("C:\\tmp\\out", &entries, true, |p: &str| p == "C:\\tmp\\out\\a.txt"));
}

#[test]
fn rar_bookkeeping() {
    assert_eq!(rar_totals(&vec![(true, 0), (false, 10), (false, 5)]), (2, 15));
    assert_eq!(rar_totals(&vec![]), (0, 0));
    assert_eq!(rar_totals(&vec![(false, u64::MAX), (false, 2)]), (2, 1));
    assert_eq!(rar_staging_name(Some("out"), 42), ".out.lrgex-rar-staging-42");
    assert_eq!(rar_staging_name(None, 7), ".archive.lrgex-rar-staging-7");
    assert_eq!(orphan_name(".out.lrgex-rar-staging-42", 9, 1700), ".out.lrgex-rar-staging-42.ORPHAN-9-1700");
    assert_eq!(counter_growth(10, 25), Some(15));
    assert_eq!(counter_growth(25, 25), None);
    assert_eq!(counter_growth(30, 25), None);
}

#[test]
fn link_inside_a_canonicalized_destination_is_safe() {
    // `canonicalize` hands back the destination with a verbatim drive prefix.
    let root = Some("\\\\?\\C:\\D");
    assert!(is_safe_link_target("real_target.txt", "C:\\D\\a_link.txt", root));
    assert!(is_safe_link_target("sub\\..\\x.txt", "c:\\D\\a_link.txt", root));
    assert!(!is_safe_link_target("..\\outside.txt", "C:\\D\\a_link.txt", root));
    assert!(!is_safe_link_target("real_target.txt", "E:\\D\\a_link.txt", root));
    assert!(!is_safe_link_target("real_target.txt", "C:\\Other\\a_link.txt", root));
}

#[test]
fn zip_entry_decisions() {
    assert_eq!(zip_entry_action(true, true, true, true), ZipEntryAction::Link);
    assert_eq!(zip_entry_action(false, true, true, true), ZipEntryAction::Directory);
    assert_eq!(zip_entry_action(false, false, true, true), ZipEntryAction::SkipExisting);
    assert_eq!(zip_entry_action(false, false, false, true), ZipEntryAction::File);
    assert_eq!(zip_entry_action(false, false, true, false), ZipEntryAction::File);
}
