use lrgex_compress::metaattr::{
    classify_link_failure, relaunch_params, secs_to_100ns_i64, secs_to_filetime, MetaSnapshot,
    SymlinkResult, PRESERVED_ATTRS,
};
use lrgex_compress::progress::{compress_final_phase, ByteReader, Progress};

#[test]
fn progress_counters() {
    let mut p = Progress::new("Docs");
    assert_eq!(p.phase(), 0);
    assert_eq!(p.label(), "Docs");
    p.set_phase(1);
    p.set_totals(3, 300);
    p.tick_bytes(100);
    p.tick_bytes(50);
    assert_eq!(p.bytes_done(), 150);
    p.set_skipped(2);
    assert_eq!(p.counters(), (0, 3, 150, 300, 2));
    assert!(!p.is_stopped());
    p.finish(3);
    assert_eq!(p.phase(), 3);
    assert!(p.is_stopped());
}

#[test]
fn progress_tick_wraps() {
    let mut p = Progress::new("");
    p.tick_bytes(u64::MAX);
    p.tick_bytes(2);
    assert_eq!(p.bytes_done(), 1);
}

#[test]
fn final_phases() {
    assert_eq!(compress_final_phase(true, true), 3);
    assert_eq!(compress_final_phase(false, true), 5);
    assert_eq!(compress_final_phase(false, false), 4);
}

#[test]
fn restorable_attrs_mask() {
    let m = MetaSnapshot { mtime: 1, ctime: 2, attrs: 0x10 | 0x2 | 0x1 | 0x400 };
    assert_eq!(m.restorable_attrs(), 0x3);
    assert_eq!(PRESERVED_ATTRS, 0x27);
}

#[test]
fn filetime_conversions() {
    assert_eq!(secs_to_100ns_i64(0), 0);
    assert_eq!(secs_to_100ns_i64(1), (11_644_473_600i64 + 1) * 10_000_000);
    let (lo, hi) = secs_to_filetime(1_577_836_800);
    let v = ((hi as u64) << 32) | lo as u64;
    assert_eq!(v, (1_577_836_800u64 + 11_644_473_600) * 10_000_000);
    assert_eq!(secs_to_filetime(u64::MAX), (u32::MAX, u32::MAX));
}

#[test]
fn link_failures() {
    assert!(matches!(classify_link_failure(5), SymlinkResult::NeedsElevation));
    assert!(matches!(classify_link_failure(1314), SymlinkResult::NeedsElevation));
    match classify_link_failure(183) {
        SymlinkResult::Skipped(why) => assert_eq!(why, "CreateSymbolicLinkW error 183"),
        _ => panic!("expected a skip"),
    }
}

#[test]
fn relaunch_line_quotes_spaced_args() {
    let args: Vec<String> = vec!["C:\\app.exe".into(), "-x".into(), "C:\\My Files\\a.zgx".into(), "--elevated-rerun".into()];
    assert_eq!(relaunch_params(&args), "-x \"C:\\My Files\\a.zgx\" --elevated-rerun");
    assert_eq!(relaunch_params(&vec!["exe".to_string()]), "");
    assert_eq!(relaunch_params(&vec![]), "");
}

#[test]
fn byte_reader_counts_and_cancels() {
    let mut r = ByteReader::new(vec![1u8, 2, 3], Progress::new("x"));
    assert!(r.may_read(true));
    r.record(3);
    r.record(0);
    assert_eq!(r.progress().bytes_done(), 3);
    assert_eq!(r.inner_mut().len(), 3);
    let c = ByteReader::with_cancel((), Progress::new("y"));
    assert!(c.may_read(false));
    assert!(!c.may_read(true));
}
