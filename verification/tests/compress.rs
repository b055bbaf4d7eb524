use lrgex_compress::compress::{
    loads_whole, member_rel, partial_archive_path, skip_report, skipped_list_path, split_refusal,
    tar_header_kind, walk_entry, CompressTally, EntKind, FileEnt, SkipReport, TarType, WalkItem,
    WalkStep,
};
use lrgex_compress::metaattr::MetaSnapshot;

fn meta() -> MetaSnapshot {
    MetaSnapshot { mtime: 1, ctime: 2, attrs: 0x20 }
}

fn names(v: &[&str]) -> Vec<String> {
    v.iter().map(|s| s.to_string()).collect()
}

#[test]
fn walk_decisions() {
    let ex = names(&["node_modules", ".git"]);
    let r = walk_entry(".git", &ex, "C:\\p\\.git".into(), ".git".into(), WalkItem::Dir, meta());
    assert!(matches!(r, WalkStep::Skip));
    let r = walk_entry("src", &ex, "C:\\p\\src".into(), "src".into(), WalkItem::Dir, meta());
    match r {
        WalkStep::Descend(e) => {
            assert_eq!(e.rel, "src");
            assert_eq!(e.kind, EntKind::Dir);
            assert_eq!(e.size, 0);
        }
        _ => panic!("a folder is archived and walked into"),
    }
    let r = walk_entry("a.txt", &ex, "C:\\p\\a.txt".into(), "a.txt".into(), WalkItem::File { size: Some(12) }, meta());
    match r {
        WalkStep::Add(e) => {
            assert_eq!(e.size, 12);
            assert_eq!(e.kind, EntKind::File);
            assert_eq!(e.path, "C:\\p\\a.txt");
        }
        _ => panic!("a file is archived"),
    }
    let r = walk_entry("b", &ex, "p".into(), "b".into(), WalkItem::File { size: None }, meta());
    assert!(matches!(r, WalkStep::Add(FileEnt { size: 0, .. })));
    let r = walk_entry("l", &ex, "p".into(), "l".into(), WalkItem::Symlink { target: Some("t".into()) }, meta());
    match r {
        WalkStep::Add(e) => assert_eq!(e.kind, EntKind::Symlink { target: "t".into() }),
        _ => panic!("a readable link is archived"),
    }
    let r = walk_entry("l", &ex, "p".into(), "l".into(), WalkItem::Symlink { target: None }, meta());
    assert!(matches!(r, WalkStep::Skip));
    let r = walk_entry("u", &ex, "p".into(), "u".into(), WalkItem::Unknown, meta());
    assert!(matches!(r, WalkStep::Skip));
    assert_eq!(member_rel("Docs", "a\\b.txt"), "Docs\\a\\b.txt");
}

#[test]
fn entry_headers() {
    assert_eq!(tar_header_kind(&EntKind::File), (TarType::Regular, 0o644));
    assert_eq!(tar_header_kind(&EntKind::Dir), (TarType::Directory, 0o755));
    assert_eq!(tar_header_kind(&EntKind::Symlink { target: "x".into() }), (TarType::Symlink, 0o777));
    let small = FileEnt { path: "a".into(), rel: "a".into(), size: 64 * 1024 * 1024, kind: EntKind::File, meta: meta() };
    let big = FileEnt { size: 64 * 1024 * 1024 + 1, ..small.clone() };
    let dir = FileEnt { kind: EntKind::Dir, size: 0, ..small.clone() };
    assert!(loads_whole(&small));
    assert!(!loads_whole(&big));
    assert!(!loads_whole(&dir));
}

#[test]
fn failures_against_cancel() {
    let mut t = CompressTally::new();
    assert!(!t.stop_for_cancel(false));
    t.entry_failed("C:\\locked.db", false);
    t.entry_failed("C:\\other", true);
    assert!(t.is_cancelled());
    let (ok, skipped) = t.outcome(true);
    assert!(!ok);
    assert_eq!(skipped, names(&["C:\\locked.db"]));

    let mut t = CompressTally::new();
    t.entry_failed("a", false);
    t.entry_failed("b", false);
    let (ok, skipped) = t.outcome(true);
    assert!(ok);
    assert_eq!(skipped, names(&["a", "b"]));
    let (ok, _) = CompressTally::new().outcome(false);
    assert!(!ok);
}

#[test]
fn end_reports() {
    assert_eq!(skip_report(true, &names(&[])), SkipReport::Remove);
    assert_eq!(skip_report(true, &names(&["a", "b"])), SkipReport::Write("a\r\nb".to_string()));
    assert_eq!(skip_report(false, &names(&["a"])), SkipReport::Keep);
    assert_eq!(partial_archive_path("C:\\x.zgx"), "C:\\x.zgx.part");
    assert_eq!(skipped_list_path("C:\\x.zgx"), "C:\\x.zgx.skipped.txt");
}

#[test]
fn split_part_limit() {
    assert_eq!(split_refusal(1024 * 1024, 1, false), None);
    let total = 20_000u64 * 1024 * 1024;
    assert_eq!(
        split_refusal(total, 1, false),
        Some("Folder too large for 1 MB parts (~20001 parts needed; max 9999). Use a larger size.".to_string())
    );
    assert_eq!(
        split_refusal(total, 1, true),
        Some("Too large for 1 MB parts (~20001 needed; max 9999).".to_string())
    );
}
