use lrgex_compress::cli::{
    archive_name_for, exit_failed, extract_dest, extract_replace_question, replace_question, is_stale_part, items_detail, multi_label, parse_command,
    path_too_long, result_text, skipped_message, strip_rerun_flag, zgx_file_name, Command,
};

fn argv(items: &[&str]) -> Vec<String> {
    items.iter().map(|s| s.to_string()).collect()
}

#[test]
fn help_forms() {
    assert_eq!(parse_command(&argv(&["prog", "--help"])), Command::Help);
    assert_eq!(parse_command(&argv(&["prog", "-h"])), Command::Help);
    assert_eq!(parse_command(&argv(&["prog", "/?"])), Command::Help);
    assert_eq!(parse_command(&argv(&["prog"])), Command::Help);
}

#[test]
fn split_options() {
    assert_eq!(
        parse_command(&argv(&["prog", "--split", "C:\\data"])),
        Command::Split { size_mb: 30, size_given: false, target: Some("C:\\data".to_string()) }
    );
    assert_eq!(
        parse_command(&argv(&["prog", "--split", "--size", "100", "C:\\data"])),
        Command::Split { size_mb: 100, size_given: true, target: Some("C:\\data".to_string()) }
    );
    // An unreadable size falls back to 30, a zero size is raised to 1.
    assert_eq!(
        parse_command(&argv(&["prog", "--split", "--size", "abc", "x"])),
        Command::Split { size_mb: 30, size_given: true, target: Some("x".to_string()) }
    );
    assert_eq!(
        parse_command(&argv(&["prog", "--split", "--size", "0", "x"])),
        Command::Split { size_mb: 1, size_given: true, target: Some("x".to_string()) }
    );
    // The last path named wins; a trailing `--size` is a path.
    assert_eq!(
        parse_command(&argv(&["prog", "--split", "a", "b", "--size"])),
        Command::Split { size_mb: 30, size_given: false, target: Some("--size".to_string()) }
    );
    assert_eq!(
        parse_command(&argv(&["prog", "--split"])),
        Command::Split { size_mb: 30, size_given: false, target: None }
    );
}

#[test]
fn extract_forms() {
    assert_eq!(
        parse_command(&argv(&["prog", "-x", "a.zgx"])),
        Command::Extract { archive: "a.zgx".to_string(), here: false }
    );
    assert_eq!(
        parse_command(&argv(&["prog", "-x", "-h", "a.zgx"])),
        Command::Extract { archive: "a.zgx".to_string(), here: true }
    );
    // `-x -h` alone extracts an archive named `-h`.
    assert_eq!(
        parse_command(&argv(&["prog", "-x", "-h"])),
        Command::Extract { archive: "-h".to_string(), here: false }
    );
    // `-x` with nothing after it is a path to compress.
    assert_eq!(
        parse_command(&argv(&["prog", "-x"])),
        Command::Compress { target: "-x".to_string() }
    );
    assert_eq!(
        parse_command(&argv(&["prog", "C:\\folder"])),
        Command::Compress { target: "C:\\folder".to_string() }
    );
}

#[test]
fn rerun_marker_is_removed() {
    let (found, rest) = strip_rerun_flag(&argv(&["prog", "--elevated-rerun", "-x", "a.zgx"]));
    assert!(found);
    assert_eq!(rest, argv(&["prog", "-x", "a.zgx"]));
    let (found, rest) = strip_rerun_flag(&argv(&["prog", "a"]));
    assert!(!found);
    assert_eq!(rest, argv(&["prog", "a"]));
}

#[test]
fn path_length_guard() {
    assert!(!path_too_long(&"a".repeat(247)));
    assert!(path_too_long(&"a".repeat(248)));
    // Counted in bytes: 124 two-byte characters are 248 bytes.
    assert!(path_too_long(&"é".repeat(124)));
}

#[test]
fn archive_names() {
    assert_eq!(archive_name_for("x.md"), "x");
    assert_eq!(archive_name_for("a.b.c"), "a.b");
    assert_eq!(archive_name_for(".config"), ".config");
    assert_eq!(archive_name_for(".a.b"), ".a.b");
    assert_eq!(archive_name_for("video.mp4"), "video");
    assert_eq!(archive_name_for("plain"), "plain");
    assert_eq!(zgx_file_name("x"), "x.zgx");
    assert_eq!(multi_label(Some("Docs")), "Docs");
    assert_eq!(multi_label(Some("")), "Archive");
    assert_eq!(multi_label(None), "Archive");
    assert_eq!(items_detail("Docs", 3), "Docs (3 items)");
}

#[test]
fn stale_parts() {
    assert!(is_stale_part("data.part001.zgx", "data"));
    assert!(is_stale_part("data.part12.zgx", "data"));
    assert!(!is_stale_part("data.part001.zip", "data"));
    assert!(!is_stale_part("other.part001.zgx", "data"));
    assert!(!is_stale_part("data.zgx", "data"));
}

#[test]
fn end_of_run_texts() {
    assert_eq!(skipped_message(&argv(&[])), "");
    assert_eq!(skipped_message(&argv(&["a.txt"])), "a.txt");
    assert_eq!(skipped_message(&argv(&["a.txt", "b.txt", "c"])), "a.txt, b.txt, c");
    assert_eq!(result_text(3, 0, ""), Some("Done".to_string()));
    assert_eq!(result_text(3, 2, ""), Some("Done - 2 skipped".to_string()));
    assert_eq!(result_text(4, 0, "disk full"), Some("disk full".to_string()));
    assert_eq!(result_text(4, 0, ""), Some("Failed".to_string()));
    assert_eq!(result_text(5, 0, ""), Some("Cancelled".to_string()));
    assert_eq!(result_text(1, 0, ""), None);
    assert!(exit_failed(4));
    assert!(exit_failed(5));
    assert!(!exit_failed(3));
}

#[test]
fn extraction_destinations() {
    assert_eq!(extract_dest("C:\\d\\a.zgx", false), "C:\\d\\a");
    assert_eq!(extract_dest("C:\\d\\a.tar.zgx", false), "C:\\d\\a.tar");
    assert_eq!(extract_dest("C:\\d\\.hidden", false), "C:\\d\\.hidden");
    assert_eq!(extract_dest("C:\\d\\src.part002.zgx", false), "C:\\d\\src");
    assert_eq!(extract_dest("C:\\d\\a.zip", true), "C:\\d");
    assert_eq!(extract_dest("C:\\a.zip", true), "C:\\");
    assert_eq!(extract_dest("a.zip", true), "");
    assert_eq!(extract_dest("a.zip", false), "a");
}

#[test]
fn replace_questions() {
    assert_eq!(replace_question("a.zgx"), "a.zgx already exists.\n\nDo you want to replace it?");
    assert_eq!(
        extract_replace_question("out"),
        "One or more files in 'out' already exist.\n\nDo you want to replace them?"
    );
}
