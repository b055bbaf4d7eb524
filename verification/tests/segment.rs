use lrgex_compress::segment::{
    estimated_parts, parse_split_header, parse_split_part, part001_path, part_name,
    resolve_to_part001, segment_size_for, split_fits, split_header, SplitHeaderError,
    SPLIT_VERSION,
};

#[test]
fn split_header_roundtrip() {
    let header = split_header(123456789, 30 * 1024 * 1024);
    assert_eq!(&header[0..5], b"LRGEX");
    assert_eq!(header[5], SPLIT_VERSION);
    let total = u64::from_le_bytes(header[6..14].try_into().unwrap());
    assert_eq!(total, 123456789);
    let seg = u64::from_le_bytes(header[14..22].try_into().unwrap());
    assert_eq!(seg, 30 * 1024 * 1024);
}

#[test]
fn parse_split_part_filenames() {
    let p = "C:\\output\\MyFolder.part001.zgx";
    let (_base, num) = parse_split_part(p).unwrap();
    assert_eq!(num, 1);

    let p = "C:\\output\\MyFolder.part042.zgx";
    let (_, num) = parse_split_part(p).unwrap();
    assert_eq!(num, 42);

    let p = "C:\\output\\Big.part1000.zgx";
    let (_, num) = parse_split_part(p).unwrap();
    assert_eq!(num, 1000);

    let p = "C:\\output\\MyFolder.zgx";
    assert!(parse_split_part(p).is_none());

    let p = "C:\\output\\MyFolder.part000.zgx";
    assert!(parse_split_part(p).is_none());
}

// ─── further cases ────────────────────────────────────────────────────────

#[test]
fn split_header_reads_back() {
    let h = split_header(987654321, 1048576);
    assert_eq!(parse_split_header(&h), Ok(987654321));
}

#[test]
fn split_header_errors() {
    let h = split_header(5, 6);
    assert_eq!(parse_split_header(&h[..21]), Err(SplitHeaderError::Truncated));
    let mut bad = h;
    bad[0] = b'X';
    assert_eq!(parse_split_header(&bad), Err(SplitHeaderError::NotSplitArchive));
    let mut v = h;
    v[5] = 0x07;
    assert_eq!(parse_split_header(&v), Err(SplitHeaderError::UnsupportedVersion(0x07)));
}

#[test]
fn split_part_base_path_and_edge_numbers() {
    assert_eq!(
        parse_split_part("C:\\output\\MyFolder.part001.zgx"),
        Some(("C:\\output\\MyFolder".to_string(), 1))
    );
    assert_eq!(parse_split_part("a/b/x.part7.zgx"), Some(("a/b\\x".to_string(), 7)));
    assert_eq!(parse_split_part("x.part9999.zgx"), Some(("x".to_string(), 9999)));
    assert_eq!(parse_split_part("x.part+12.zgx"), None);
    assert_eq!(parse_split_part("A.part+7.zgx"), None);
    assert_eq!(parse_split_part("x.part12345.zgx"), None);
    assert_eq!(parse_split_part("x.part.zgx"), None);
    assert_eq!(parse_split_part("x.partab.zgx"), None);
    assert_eq!(parse_split_part("x.part001.ZGX"), None);
    assert_eq!(parse_split_part("\\x.part003.zgx"), Some(("\\x".to_string(), 3)));
    assert_eq!(parse_split_part("a.part1.b.part2.zgx"), Some(("a.part1.b".to_string(), 2)));
}

#[test]
fn part_names_pad_to_three_digits() {
    assert_eq!(part_name("Arc", 1), "Arc.part001.zgx");
    assert_eq!(part_name("Arc", 42), "Arc.part042.zgx");
    assert_eq!(part_name("Arc", 1000), "Arc.part1000.zgx");
}

#[test]
fn part001_resolution() {
    assert_eq!(
        part001_path("C:\\out\\Src.part007.zgx"),
        Some("C:\\out\\Src.part001.zgx".to_string())
    );
    assert_eq!(part001_path("C:\\out\\Src.zgx"), None);
    let found = resolve_to_part001("C:\\out\\Src.part007.zgx", |p: &str| p == "C:\\out\\Src.part001.zgx");
    assert_eq!(found, Some("C:\\out\\Src.part001.zgx".to_string()));
    let missing = resolve_to_part001("C:\\out\\Src.part007.zgx", |_p: &str| false);
    assert_eq!(missing, None);
}

#[test]
fn segment_sizes_and_part_estimates() {
    assert_eq!(segment_size_for(0), 1048576);
    assert_eq!(segment_size_for(30), 30 * 1048576);
    assert_eq!(estimated_parts(0, 1), 1);
    assert_eq!(estimated_parts(1048576 - 32, 1), 1);
    assert_eq!(estimated_parts(1048576 - 31, 1), 2);
    assert_eq!(estimated_parts(2_500_000, 1), 3);
    assert!(split_fits(9999 * (1048576 - 32), 1));
    assert!(!split_fits(9999 * (1048576 - 32) + 1, 1));
}

#[test]
fn part_names_read_back() {
    for n in [1u32, 7, 42, 999, 1000, 9999] {
        let path = format!("C:\\out\\My.Data\\{}", part_name("x.part5", n));
        assert_eq!(parse_split_part(&path), Some(("C:\\out\\My.Data\\x.part5".to_string(), n)));
    }
    // Without a folder the base is the stem itself.
    assert_eq!(parse_split_part(&part_name("data", 12)), Some(("data".to_string(), 12)));
}
