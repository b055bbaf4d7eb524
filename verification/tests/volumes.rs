use lrgex_compress::segment::parse_split_header;
use lrgex_compress::segment::SplitHeaderError;
use lrgex_compress::volumes::{
    is_leftover_tmp, part_tmp_name, parts_error_text, ConcatReader, ConcatStep, PartProbe, PartsError,
    SegmentStep, SegmentWriter, TrailerCheck, PartHasher, hash_part, trailer_check,
};
use sha2::{Digest, Sha256};

/// Runs one write of `len` bytes through the writer and returns the steps it took.
fn place(w: &mut SegmentWriter, len: usize) -> Vec<SegmentStep> {
    let mut steps = Vec::new();
    let mut written = 0usize;
    loop {
        let s = w.step(len - written);
        steps.push(s);
        match s {
            SegmentStep::Done | SegmentStep::TooManyParts { .. } => break,
            SegmentStep::Data { n, .. } => written += n,
            _ => {}
        }
    }
    steps
}

#[test]
fn writer_sizes_and_header() {
    let w = SegmentWriter::new(30, 123);
    assert_eq!(w.segment_size(), 30 * 1024 * 1024);
    assert_eq!(parse_split_header(&w.header()), Ok(123));
    // A zero size counts as one MiB.
    assert_eq!(SegmentWriter::new(0, 0).segment_size(), 1024 * 1024);
}

#[test]
fn writer_cuts_parts_at_the_budget() {
    let mut w = SegmentWriter::new(1, 0);
    let budget = (1024 * 1024 - 32) as usize;
    assert_eq!(w.current_part(), None);
    let steps = place(&mut w, 10);
    assert_eq!(steps, vec![SegmentStep::OpenFirst, SegmentStep::Data { part: 1, n: 10 }, SegmentStep::Done]);
    assert_eq!(w.room_left(), (budget - 10) as u64);
    // A write larger than what is left fills part 1, rotates, and goes on in part 2.
    let steps = place(&mut w, budget + 5);
    assert_eq!(
        steps,
        vec![
            SegmentStep::Data { part: 1, n: budget - 10 },
            SegmentStep::Rotate { closed: 1 },
            SegmentStep::Data { part: 2, n: 15 },
            SegmentStep::Done,
        ]
    );
    assert_eq!(w.current_part(), Some(2));
    // An empty write only opens (already open here) and is done.
    assert_eq!(place(&mut w, 0), vec![SegmentStep::Done]);
    w.part_published(1);
    assert_eq!(w.leftovers(), vec![1]);
    assert_eq!(w.finish(), Some(2));
    assert_eq!(w.leftovers(), Vec::<u32>::new());
    assert_eq!(w.current_part(), None);
}

#[test]
fn writer_rotates_only_when_full() {
    let mut w = SegmentWriter::new(1, 0);
    let budget = (1024 * 1024 - 32) as usize;
    let steps = place(&mut w, budget);
    assert_eq!(steps, vec![SegmentStep::OpenFirst, SegmentStep::Data { part: 1, n: budget }, SegmentStep::Done]);
    assert_eq!(w.room_left(), 0);
    let steps = place(&mut w, 1);
    assert_eq!(steps, vec![SegmentStep::Rotate { closed: 1 }, SegmentStep::Data { part: 2, n: 1 }, SegmentStep::Done]);
}

#[test]
fn writer_refuses_part_ten_thousand() {
    let mut w = SegmentWriter::new(1, 0);
    let budget = (1024 * 1024 - 32) as usize;
    let mut last = Vec::new();
    for _ in 0..9999 {
        last = place(&mut w, budget);
    }
    assert_eq!(w.current_part(), Some(9999));
    assert_eq!(*last.last().unwrap(), SegmentStep::Done);
    let steps = place(&mut w, 1);
    assert_eq!(steps, vec![SegmentStep::TooManyParts { closed: 9999 }]);
    assert_eq!(w.current_part(), None);
}

#[test]
fn tmp_names_and_leftovers() {
    assert_eq!(part_tmp_name("data", 1), "data.part001.zgx.tmp");
    assert_eq!(part_tmp_name("data", 1234), "data.part1234.zgx.tmp");
    assert!(is_leftover_tmp("data.part001.zgx.tmp", "data"));
    assert!(!is_leftover_tmp("data.part001.zgx", "data"));
    assert!(!is_leftover_tmp("other.part001.zgx.tmp", "data"));
}

fn sizes(list: &'static [u64]) -> impl Fn(u32) -> PartProbe {
    move |i: u32| {
        let k = i as usize;
        if k >= 1 && k <= list.len() {
            PartProbe::Size(list[k - 1])
        } else {
            PartProbe::Missing
        }
    }
}

/// Reads the whole stream the way the archive reader does, with a buffer of `buf`
/// bytes, and returns (part, offset-in-part, length) for each read.
fn drain(r: &mut ConcatReader, buf: usize) -> Vec<(usize, u64, u64)> {
    let mut reads = Vec::new();
    loop {
        match r.next_step(buf) {
            ConcatStep::End => break,
            ConcatStep::SkipHeader => r.header_skipped(),
            ConcatStep::Read { part, max } => {
                let (_, pos) = r.position();
                reads.push((part, pos, max));
                r.consumed(max as usize).unwrap();
            }
        }
    }
    reads
}

#[test]
fn reader_skips_header_and_trailers() {
    // Part 1: header 22 + 10 data + 32 trailer; part 2: 5 data + trailer.
    let mut r = ConcatReader::open_no_verify(sizes(&[64, 37])).unwrap();
    assert_eq!(r.data_lens(), &vec![32, 5]);
    assert_eq!(drain(&mut r, 4), vec![(0, 22, 4), (0, 26, 4), (0, 30, 2), (1, 0, 4), (1, 4, 1)]);
    assert_eq!(r.next_step(4), ConcatStep::End);
}

#[test]
fn reader_passes_empty_parts() {
    let mut r = ConcatReader::open_no_verify(sizes(&[54, 32, 40])).unwrap();
    assert_eq!(drain(&mut r, 100), vec![(2, 0, 8)]);
}

#[test]
fn a_part_that_ends_early_is_an_error() {
    let mut r = ConcatReader::open_no_verify(sizes(&[64])).unwrap();
    assert_eq!(r.next_step(8), ConcatStep::SkipHeader);
    r.header_skipped();
    assert_eq!(r.next_step(8), ConcatStep::Read { part: 0, max: 8 });
    assert_eq!(r.consumed(0), Err(1));
}

#[test]
fn opening_errors() {
    assert_eq!(ConcatReader::open_no_verify(sizes(&[])).err(), Some(PartsError::Part001Missing));
    assert_eq!(ConcatReader::open_no_verify(sizes(&[64, 10])).err(), Some(PartsError::TooSmall(2)));
    let unreadable = |i: u32| if i == 1 { PartProbe::Size(64) } else { PartProbe::Unreadable };
    assert_eq!(ConcatReader::open_no_verify(unreadable).err(), Some(PartsError::Unreadable(2)));
}

/// Reads `n` bytes at `off` of in-memory part `i` (numbered from 1).
fn reader(parts: &[Vec<u8>]) -> impl Fn(u32, u64, usize) -> Option<Vec<u8>> + '_ {
    move |i: u32, off: u64, n: usize| {
        let p = parts.get((i as usize).checked_sub(1)?)?;
        let from = off as usize;
        p.get(from..from + n).map(|s| s.to_vec())
    }
}

fn probe_of(parts: &[Vec<u8>]) -> impl Fn(u32) -> PartProbe + '_ {
    move |i: u32| match (i as usize).checked_sub(1).and_then(|k| parts.get(k)) {
        Some(p) => PartProbe::Size(p.len() as u64),
        None => PartProbe::Missing,
    }
}

/// Part 001 with the given header and 10 data bytes, then a 5-byte part 002; sealed.
fn two_parts(header: &[u8]) -> Vec<Vec<u8>> {
    let mut p1 = header.to_vec();
    p1.extend_from_slice(&[1u8; 10]);
    seal(&mut p1);
    let mut p2 = vec![2u8; 5];
    seal(&mut p2);
    vec![p1, p2]
}

#[test]
fn verified_opening() {
    let header = lrgex_compress::segment::split_header(777, 1024 * 1024);
    let parts = two_parts(&header);
    assert_eq!(parts[0].len(), 64);
    assert_eq!(parts[1].len(), 37);
    let head = || Some(parts[0][..22].to_vec());
    let (r, total, sum) = ConcatReader::open_and_verify(probe_of(&parts), reader(&parts), head).unwrap();
    assert_eq!(total, 777);
    assert_eq!(sum, 37);
    assert_eq!(r.data_lens(), &vec![32, 5]);

    // A flipped byte in part 002's data: its trailer no longer matches.
    let mut bad = parts.clone();
    bad[1][2] ^= 0xFF;
    let head = || Some(bad[0][..22].to_vec());
    assert_eq!(
        ConcatReader::open_and_verify(probe_of(&bad), reader(&bad), head).err(),
        Some(PartsError::Corrupt(2))
    );
    // A part that cannot be read back.
    let short = |i: u32, off: u64, n: usize| if i == 2 { None } else { reader(&parts)(i, off, n) };
    let head = || Some(parts[0][..22].to_vec());
    assert_eq!(
        ConcatReader::open_and_verify(probe_of(&parts), short, head).err(),
        Some(PartsError::Unreadable(2))
    );
    let zeros = two_parts(&[0u8; 22]);
    let head = || Some(zeros[0][..22].to_vec());
    assert_eq!(
        ConcatReader::open_and_verify(probe_of(&zeros), reader(&zeros), head).err(),
        Some(PartsError::Header(lrgex_compress::segment::SplitHeaderError::NotSplitArchive))
    );
    let no_header = || None;
    assert_eq!(
        ConcatReader::open_and_verify(probe_of(&parts), reader(&parts), no_header).err(),
        Some(PartsError::Unreadable(1))
    );
}

#[test]
fn part_digests() {
    let mut h = PartHasher::new();
    h.update(b"ab");
    h.update(b"c");
    let d = h.finish();
    let want: [u8; 32] = [
        0xba, 0x78, 0x16, 0xbf, 0x8f, 0x01, 0xcf, 0xea, 0x41, 0x41, 0x40, 0xde, 0x5d, 0xae, 0x22, 0x23,
        0xb0, 0x03, 0x61, 0xa3, 0x96, 0x17, 0x7a, 0x9c, 0xb4, 0x10, 0xff, 0x61, 0xf2, 0x00, 0x15, 0xad,
    ];
    assert_eq!(d, want);
    assert_eq!(trailer_check(d, &want), TrailerCheck::Matches);
    let mut off = want;
    off[31] ^= 1;
    assert_eq!(trailer_check(d, &off), TrailerCheck::Mismatch);
    assert_eq!(trailer_check(d, &want[..31]), TrailerCheck::Mismatch);

    // A whole part: "abc" and its trailer, then the same with one byte flipped.
    let mut part = b"abc".to_vec();
    part.extend_from_slice(&want);
    let parts = vec![part];
    assert_eq!(hash_part(&reader(&parts), 1, 3), TrailerCheck::Matches);
    let mut flipped = parts.clone();
    flipped[0][1] ^= 0x20;
    assert_eq!(hash_part(&reader(&flipped), 1, 3), TrailerCheck::Mismatch);
    assert_eq!(hash_part(&reader(&parts), 1, 4), TrailerCheck::Unreadable);
}

// ─── whole runs, with the parts held in memory ───────────────────────────────

/// Appends the SHA-256 of a part's bytes as its trailer.
fn seal(part: &mut Vec<u8>) {
    let h = Sha256::digest(&part[..]);
    part.extend_from_slice(&h);
}

/// Does the file work each step of the writer names, into in-memory parts.
fn write_into(w: &mut SegmentWriter, parts: &mut Vec<Vec<u8>>, buf: &[u8]) {
    let mut written = 0usize;
    loop {
        match w.step(buf.len() - written) {
            SegmentStep::OpenFirst => parts.push(w.header().to_vec()),
            SegmentStep::Done => break,
            SegmentStep::Rotate { closed } => {
                seal(&mut parts[closed as usize - 1]);
                w.part_published(closed);
                parts.push(Vec::new());
            }
            SegmentStep::TooManyParts { .. } => panic!("too many parts"),
            SegmentStep::Data { part, n } => {
                parts[part as usize - 1].extend_from_slice(&buf[written..written + n]);
                written += n;
            }
        }
    }
}

fn finish_into(w: &mut SegmentWriter, parts: &mut Vec<Vec<u8>>) {
    if let Some(n) = w.finish() {
        seal(&mut parts[n as usize - 1]);
    }
}

/// Opens the in-memory parts with every trailer checked.
fn open_checked(parts: &[Vec<u8>]) -> Result<(ConcatReader, u64, u64), PartsError> {
    let head = || Some(parts[0][..22].to_vec());
    ConcatReader::open_and_verify(probe_of(parts), reader(parts), head)
}

/// Reads the chained stream back out of the in-memory parts.
fn read_back(r: &mut ConcatReader, parts: &[Vec<u8>], buf: usize) -> Vec<u8> {
    let mut out = Vec::new();
    loop {
        match r.next_step(buf) {
            ConcatStep::End => break,
            ConcatStep::SkipHeader => r.header_skipped(),
            ConcatStep::Read { part, max } => {
                let (_, pos) = r.position();
                let from = pos as usize;
                out.extend_from_slice(&parts[part][from..from + max as usize]);
                r.consumed(max as usize).unwrap();
            }
        }
    }
    out
}

#[test]
fn segment_writer_produces_valid_parts() {
    let mut w = SegmentWriter::new(1, 1000);
    let mut parts = Vec::new();
    let chunk = vec![0xABu8; 1024 * 1024];
    for _ in 0..2 {
        write_into(&mut w, &mut parts, &chunk);
    }
    write_into(&mut w, &mut parts, &chunk[..512 * 1024]);
    finish_into(&mut w, &mut parts);
    assert_eq!(parts.len(), 3);
    assert!(parts[0].len() <= 1_048_576 + 32 + 22, "part1 too big: {}", parts[0].len());
    assert!(parts[1].len() <= 1_048_576 + 32, "part2 too big: {}", parts[1].len());
    assert_eq!(parse_split_header(&parts[0][..22]), Ok(1000));
    assert!(w.is_finished());
    assert_eq!(w.leftovers(), Vec::<u32>::new());
}

#[test]
fn concat_reader_chains_parts() {
    let mut w = SegmentWriter::new(1, 0);
    let mut parts = Vec::new();
    let data = vec![0x42u8; 2_500_000];
    write_into(&mut w, &mut parts, &data);
    finish_into(&mut w, &mut parts);
    let (mut reader, total, sum) = open_checked(&parts).unwrap();
    assert_eq!(total, 0);
    assert_eq!(sum, 2_500_000 + 22);
    let back = read_back(&mut reader, &parts, 64 * 1024);
    assert_eq!(back.len(), data.len());
    assert!(back == data);
}

#[test]
fn corrupt_part_detected() {
    let mut w = SegmentWriter::new(1, 0);
    let mut parts = Vec::new();
    write_into(&mut w, &mut parts, &vec![0x55u8; 2_000_000]);
    finish_into(&mut w, &mut parts);
    assert_eq!(parts.len(), 2);
    parts[1][100] ^= 0xFF;
    let err = open_checked(&parts).err().expect("should detect corruption");
    assert_eq!(err, PartsError::Corrupt(2));
    let text = parts_error_text(err, "x.part001.zgx");
    assert!(text.contains("corrupt"), "error should say corrupt: {}", text);
}

#[test]
fn parts_error_texts() {
    assert_eq!(parts_error_text(PartsError::Part001Missing, "C:\\a\\b.part001.zgx"), "Part 001 not found: C:\\a\\b.part001.zgx");
    assert_eq!(parts_error_text(PartsError::Unreadable(2), ""), "Part 002 could not be read");
    assert_eq!(parts_error_text(PartsError::TooSmall(1234), ""), "Part 1234 too small");
    assert_eq!(parts_error_text(PartsError::Corrupt(17), ""), "Part 017 is corrupt (SHA256 mismatch). Redownload it.");
    assert_eq!(
        parts_error_text(PartsError::Header(SplitHeaderError::UnsupportedVersion(0x1f)), ""),
        "Unsupported split version: 0x1F"
    );
    assert_eq!(parts_error_text(PartsError::Header(SplitHeaderError::NotSplitArchive), ""), "Not a LRGEX split archive");
}
