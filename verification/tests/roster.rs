use lrgex_compress::roster::{
    coordinator_alive, filetime_value, forward_line, forwarder_plan, lock_text, parse_lock,
    roster_line_count, roster_paths, single_item, Debounce, ForwarderPlan,
};

#[test]
fn roster_lines_are_counted_when_not_blank() {
    assert_eq!(roster_line_count(""), 0);
    assert_eq!(roster_line_count("C:\\a\n"), 1);
    assert_eq!(roster_line_count("C:\\a\n  \nC:\\b\r\n"), 2);
    assert!(single_item(1));
    assert!(!single_item(2));
}

#[test]
fn roster_paths_keep_order_and_drop_duplicates() {
    let text = "C:\\own\n  C:\\b  \r\n\nC:\\c\nc:\\b\nC:\\x\0y\nC:\\own\\\n";
    assert_eq!(roster_paths("C:\\own", text), vec!["C:\\own", "C:\\b", "C:\\c"]);
    // The own path comes first even when the roster is empty.
    assert_eq!(roster_paths("C:\\solo", ""), vec!["C:\\solo"]);
    // Separators of either kind, and repeated ones, name the same path.
    assert_eq!(roster_paths("C:\\a\\b", "C:/a//b\nC:\\a\\c\n"), vec!["C:\\a\\b", "C:\\a\\c"]);
    assert_eq!(forward_line("C:\\x"), "C:\\x\n");
}

#[test]
fn lockfile_roundtrip() {
    let t = lock_text(4242, 133_000_000_000_000_000);
    assert_eq!(t, "4242:133000000000000000");
    assert_eq!(parse_lock(&t), Some((4242, 133_000_000_000_000_000)));
    assert_eq!(parse_lock("  17:5\r\n"), Some((17, 5)));
    assert_eq!(parse_lock("17"), Some((17, 0)));
    assert_eq!(parse_lock("17:junk"), Some((17, 0)));
    assert_eq!(parse_lock("0:5"), None);
    assert_eq!(parse_lock(""), None);
    assert_eq!(parse_lock("x:5"), None);
}

#[test]
fn coordinator_liveness() {
    assert!(!coordinator_alive(false, Some(5), 5));
    assert!(coordinator_alive(true, None, 5));
    assert!(coordinator_alive(true, Some(5), 5));
    assert!(!coordinator_alive(true, Some(6), 5));
    assert_eq!(filetime_value(1, 2), (1u64 << 32) | 2);
    assert_eq!(
        forwarder_plan(Some((9, 1)), true),
        ForwarderPlan { retry_as_coordinator: false, forward_to: Some(9) }
    );
    assert_eq!(
        forwarder_plan(Some((9, 1)), false),
        ForwarderPlan { retry_as_coordinator: true, forward_to: Some(9) }
    );
    assert_eq!(forwarder_plan(None, false), ForwarderPlan { retry_as_coordinator: true, forward_to: None });
}

#[test]
fn waiting_for_siblings() {
    let mut d = Debounce::new(1000, 2);
    assert!(d.keep_waiting(1200));
    assert!(!d.keep_waiting(1400));
    d.observe(3, 1300);
    assert!(d.keep_waiting(1600));
    d.observe(3, 1650);
    assert!(!d.keep_waiting(1700));
    // The hard cap ends the wait even while paths keep arriving.
    let mut e = Debounce::new(0, 2);
    for t in (100..3000).step_by(100) {
        e.observe((t / 100) as usize + 2, t);
        assert!(e.keep_waiting(t + 50));
    }
    e.observe(99, 3000);
    assert!(!e.keep_waiting(3000));
    // A clock that went back counts as no time passed.
    assert!(Debounce::new(500, 1).keep_waiting(100));
}
