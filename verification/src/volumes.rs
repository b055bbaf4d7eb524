//! The part writer and the part reader of split archives, as state machines.
//!
//! The writer cuts one output stream into parts: part 001 opens with the split header,
//! each part holds at most its segment size less the 32-byte trailer of data, and a part
//! is closed (trailer appended, file published) only when it is full or the stream ends.
//! The reader chains the parts back into one stream: it skips the header of part 001
//! and stops each part before its trailer. The caller performs the file work each step
//! names and reports back what happened.
use vstd::prelude::*;
use crate::segment::{
    pad3, segment_size_for, segment_size_spec, split_header, split_header_bytes, MAX_PARTS,
    SPLIT_HEADER_LEN, TRAILER_LEN,
};
use crate::text::{chars_of, concat_chars, decimal, decimal_chars, string_from_chars};

verus! {

// ─── writer ──────────────────────────────────────────────────────────────────

/// The next thing the part writer does while placing a write.
#[derive(Debug, Clone, Copy, PartialEq, Eq, Structural)]
pub enum SegmentStep {
    /// Create part 001, write the split header into it and into its hash.
    OpenFirst,
    /// The write is placed.
    Done,
    /// Close part `closed` (append the hash of what it holds, publish it) and create
    /// part `closed + 1` with a fresh hash.
    Rotate { closed: u32 },
    /// Close part `closed` as for a rotation, then fail: a next part would pass 9999.
    TooManyParts { closed: u32 },
    /// Write the next `n` bytes of the buffer into part `part` and its hash.
    Data { part: u32, n: usize },
}

/// Where the part writer stands.
pub struct SegmentWriter {
    segment_size: u64,
    total_uncompressed: u64,
    open: bool,
    current_index: u32,
    bytes_in_current: u64,
    published: Vec<u32>,
    finished_ok: bool,
}

/// Abstract state of the part writer.
pub struct SegmentWriterV {
    /// Size of a part, trailer included (the header of part 001 comes on top).
    pub segment_size: nat,
    /// Total uncompressed size recorded in the header.
    pub total: nat,
    /// Whether a part is open.
    pub open: bool,
    /// Number of the open part (or of the last one closed).
    pub index: nat,
    /// Data bytes in the open part.
    pub filled: nat,
    /// Parts published so far by an unfinished run, in order.
    pub published: Seq<u32>,
    /// Whether the run finished.
    pub finished: bool,
}

impl View for SegmentWriter {
    type V = SegmentWriterV;

    closed spec fn view(&self) -> SegmentWriterV {
        SegmentWriterV {
            segment_size: self.segment_size as nat,
            total: self.total_uncompressed as nat,
            open: self.open,
            index: self.current_index as nat,
            filled: self.bytes_in_current as nat,
            published: self.published@,
            finished: self.finished_ok,
        }
    }
}

/// Data a part holds: its size less the trailer.
pub open spec fn part_budget(v: SegmentWriterV) -> nat {
    (v.segment_size - TRAILER_LEN) as nat
}

/// The writer's invariant.
pub open spec fn writer_ok(v: SegmentWriterV) -> bool {
    &&& v.segment_size >= (TRAILER_LEN + SPLIT_HEADER_LEN + 1024) as nat
    &&& v.segment_size < 0x1_0000_0000_0000_0000
    &&& v.filled <= part_budget(v)
    &&& v.index <= MAX_PARTS + 1
    &&& v.open ==> 1 <= v.index <= MAX_PARTS
    &&& !v.open ==> v.filled == 0
}

/// The step the writer takes with `remaining` bytes of the write still to place, and
/// its state after it.
pub open spec fn segment_step(v: SegmentWriterV, remaining: nat) -> (SegmentStep, SegmentWriterV) {
    if !v.open {
        (SegmentStep::OpenFirst, SegmentWriterV { open: true, index: 1, filled: 0, ..v })
    } else if remaining == 0 {
        (SegmentStep::Done, v)
    } else if v.filled >= part_budget(v) {
        if v.index + 1 > MAX_PARTS {
            (
                SegmentStep::TooManyParts { closed: v.index as u32 },
                SegmentWriterV { open: false, index: v.index + 1, filled: 0, ..v },
            )
        } else {
            (
                SegmentStep::Rotate { closed: v.index as u32 },
                SegmentWriterV { index: v.index + 1, filled: 0, ..v },
            )
        }
    } else {
        let room = (part_budget(v) - v.filled) as nat;
        let n: nat = if remaining <= room {
            remaining
        } else {
            room
        };
        (SegmentStep::Data { part: v.index as u32, n: n as usize }, SegmentWriterV { filled: v.filled + n, ..v })
    }
}

impl SegmentWriter {
    /// A writer for parts of `segment_size_mb` MiB (at least one, and at least a
    /// trailer, a header and 1 KiB), recording `total_uncompressed` in the header.
    pub fn new(segment_size_mb: u32, total_uncompressed: u64) -> (w: SegmentWriter)
        ensures
            w@ == (SegmentWriterV {
                segment_size: segment_size_spec(segment_size_mb),
                total: total_uncompressed as nat,
                open: false,
                index: 0,
                filled: 0,
                published: Seq::empty(),
                finished: false,
            }),
            writer_ok(w@),
    {
        let segment_size = segment_size_for(segment_size_mb);
        SegmentWriter {
            segment_size,
            total_uncompressed,
            open: false,
            current_index: 0,
            bytes_in_current: 0,
            published: Vec::new(),
            finished_ok: false,
        }
    }

    /// Size of a part, trailer included.
    pub fn segment_size(&self) -> (s: u64)
        ensures
            s as nat == self@.segment_size,
    {
        self.segment_size
    }

    /// The split header that opens part 001.
    pub fn header(&self) -> (h: [u8; SPLIT_HEADER_LEN])
        ensures
            h@ == split_header_bytes(self@.total as u64, self@.segment_size as u64),
    {
        split_header(self.total_uncompressed, self.segment_size)
    }

    /// Bytes the open part can still take: its budget less what it holds.
    pub fn room_left(&self) -> (r: u64)
        requires
            writer_ok(self@),
        ensures
            r as nat == part_budget(self@) - self@.filled,
    {
        self.segment_size - TRAILER_LEN as u64 - self.bytes_in_current
    }

    /// The open part, if any.
    pub fn current_part(&self) -> (r: Option<u32>)
        ensures
            r == (if self@.open {
                Some(self@.index as u32)
            } else {
                None::<u32>
            }),
    {
        if self.open {
            Some(self.current_index)
        } else {
            None
        }
    }

    /// The next step with `remaining` bytes of the current write still to place. A write
    /// first opens part 001 if no part is open, then alternates rotations (only when the
    /// open part is full) and data chunks (as large as both the rest of the write and
    /// the room in the part allow) until nothing remains.
    pub fn step(&mut self, remaining: usize) -> (s: SegmentStep)
        requires
            writer_ok(old(self)@),
        ensures
            (s, final(self)@) == segment_step(old(self)@, remaining as nat),
            writer_ok(final(self)@),
    {
        if !self.open {
            self.open = true;
            self.current_index = 1;
            self.bytes_in_current = 0;
            return SegmentStep::OpenFirst;
        }
        if remaining == 0 {
            return SegmentStep::Done;
        }
        let budget = self.segment_size - TRAILER_LEN as u64;
        if self.bytes_in_current >= budget {
            let closed = self.current_index;
            self.bytes_in_current = 0;
            self.current_index = self.current_index + 1;
            if self.current_index as usize > MAX_PARTS {
                self.open = false;
                return SegmentStep::TooManyParts { closed };
            }
            return SegmentStep::Rotate { closed };
        }
        let room = budget - self.bytes_in_current;
        let n: u64 = if (remaining as u64) <= room {
            remaining as u64
        } else {
            room
        };
        self.bytes_in_current = self.bytes_in_current + n;
        SegmentStep::Data { part: self.current_index, n: n as usize }
    }

    /// Ends the open part, if any: the caller appends its hash and publishes it.
    pub fn close(&mut self) -> (r: Option<u32>)
        requires
            writer_ok(old(self)@),
        ensures
            r == (if old(self)@.open {
                Some(old(self)@.index as u32)
            } else {
                None::<u32>
            }),
            final(self)@ == (SegmentWriterV { open: false, filled: 0, ..old(self)@ }),
            writer_ok(final(self)@),
    {
        let r = if self.open {
            Some(self.current_index)
        } else {
            None
        };
        self.open = false;
        self.bytes_in_current = 0;
        r
    }
}

impl SegmentWriter {
    /// Part `index` was closed and published under its final name.
    pub fn part_published(&mut self, index: u32)
        ensures
            final(self)@ == (SegmentWriterV { published: old(self)@.published.push(index), ..old(self)@ }),
    {
        self.published.push(index);
    }

    /// The run ends well: the open part, if any, is closed (the caller appends its hash
    /// and publishes it), and nothing published is removed any more.
    pub fn finish(&mut self) -> (r: Option<u32>)
        requires
            writer_ok(old(self)@),
        ensures
            r == (if old(self)@.open {
                Some(old(self)@.index as u32)
            } else {
                None::<u32>
            }),
            final(self)@ == (SegmentWriterV {
                open: false,
                filled: 0,
                published: Seq::empty(),
                finished: true,
                ..old(self)@
            }),
            writer_ok(final(self)@),
    {
        let r = self.close();
        self.finished_ok = true;
        self.published = Vec::new();
        r
    }

    /// Whether the run finished.
    pub fn is_finished(&self) -> (r: bool)
        ensures
            r == self@.finished,
    {
        self.finished_ok
    }

    /// The published parts to remove when the writer is dropped: all of them unless the
    /// run finished, none if it did.
    pub fn leftovers(&self) -> (r: Vec<u32>)
        ensures
            r@ == (if self@.finished {
                Seq::<u32>::empty()
            } else {
                self@.published
            }),
    {
        if self.finished_ok {
            Vec::new()
        } else {
            self.published.clone()
        }
    }
}

/// The name a part carries while it is written: its final name and `.tmp`.
pub open spec fn part_tmp_file_name(stem: Seq<char>, n: nat) -> Seq<char> {
    crate::segment::part_file_name(stem, n) + seq!['.', 't', 'm', 'p']
}

/// The name part `n` of `stem` carries while it is written.
pub fn part_tmp_name(stem: &str, n: u32) -> (r: String)
    ensures
        r@ == part_tmp_file_name(stem@, n as nat),
{
    let base = crate::segment::part_name(stem, n);
    let mut cs = crate::text::chars_of(base.as_str());
    cs.push('.');
    cs.push('t');
    cs.push('m');
    cs.push('p');
    proof {
        assert(cs@ =~= part_tmp_file_name(stem@, n as nat));
    }
    crate::text::string_from_chars(cs.as_slice())
}

/// `.zgx.tmp`
pub open spec fn tmp_suffix() -> Seq<char> {
    seq!['.', 'z', 'g', 'x', '.', 't', 'm', 'p']
}

/// A file left half written by a part writer for `stem`: `<stem>.part…` ending in
/// `.zgx.tmp`.
pub open spec fn leftover_tmp_spec(file: Seq<char>, stem: Seq<char>) -> bool {
    let pre = stem + crate::segment::part_tag();
    &&& file.len() >= pre.len()
    &&& file.subrange(0, pre.len() as int) == pre
    &&& crate::segment::ends_with(file, tmp_suffix())
}

/// Whether a file in the output folder is a half-written part of `stem`, removed when an
/// unfinished writer is dropped.
pub fn is_leftover_tmp(file: &str, stem: &str) -> (r: bool)
    ensures
        r == leftover_tmp_spec(file@, stem@),
{
    let f = crate::text::chars_of(file);
    let mut pre = crate::text::chars_of(stem);
    pre.push('.');
    pre.push('p');
    pre.push('a');
    pre.push('r');
    pre.push('t');
    proof {
        assert(pre@ =~= stem@ + crate::segment::part_tag());
    }
    if f.len() < pre.len() {
        return false;
    }
    let head = vstd::slice::slice_subrange(f.as_slice(), 0, pre.len());
    if !crate::text::chars_eq(head, pre.as_slice()) {
        return false;
    }
    let mut suf: Vec<char> = Vec::new();
    suf.push('.');
    suf.push('z');
    suf.push('g');
    suf.push('x');
    suf.push('.');
    suf.push('t');
    suf.push('m');
    suf.push('p');
    proof {
        assert(suf@ =~= tmp_suffix());
    }
    let n = f.len();
    if n < 8 {
        return false;
    }
    let tail = vstd::slice::slice_subrange(f.as_slice(), n - 8, n);
    let r = crate::text::chars_eq(tail, suf.as_slice());
    proof {
        assert(tail@ =~= f@.subrange(n - 8, n as int));
    }
    r
}

/// A data chunk is never empty and never larger than what is left of the write or
/// than the room in the open part; the part never holds more than its budget.
pub proof fn law_chunks_fit(v: SegmentWriterV, remaining: nat)
    requires
        writer_ok(v),
        remaining <= usize::MAX,
    ensures
        ({
            let (s, w) = segment_step(v, remaining);
            &&& writer_ok(w)
            &&& (s matches SegmentStep::Data { part, n } ==> {
                &&& 0 < n <= remaining
                &&& n <= part_budget(v) - v.filled
                &&& part as nat == v.index
                &&& w.filled == v.filled + n
            })
        }),
{
}

/// A part is closed in the middle of a write only when it holds its full budget.
pub proof fn law_parts_close_full(v: SegmentWriterV, remaining: nat)
    requires
        writer_ok(v),
    ensures
        ({
            let (s, w) = segment_step(v, remaining);
            (s matches SegmentStep::Rotate { closed } || s matches SegmentStep::TooManyParts { closed })
                ==> v.open && v.filled == part_budget(v) && remaining > 0
        }),
{
}

/// After a rotation the new part is empty and the next step with bytes left is a
/// data chunk into it: a write always makes progress.
pub proof fn law_rotation_makes_room(v: SegmentWriterV, remaining: nat)
    requires
        writer_ok(v),
        0 < remaining <= usize::MAX,
        segment_step(v, remaining).0 is Rotate,
    ensures
        ({
            let w = segment_step(v, remaining).1;
            &&& w.open && w.filled == 0 && w.index == v.index + 1
            &&& segment_step(w, remaining).0 matches SegmentStep::Data { part, n }
                && n > 0 && part as nat == v.index + 1
        }),
{
}

// ─── reader ──────────────────────────────────────────────────────────────────

/// What a look at part `i` on disk found.
#[derive(Debug, Clone, Copy, PartialEq, Eq, Structural)]
pub enum PartProbe {
    /// There is no such part.
    Missing,
    /// The part exists with this many bytes.
    Size(u64),
    /// The part exists but its size could not be read.
    Unreadable,
}

/// What checking a part's trailer against its data found.
#[derive(Debug, Clone, Copy, PartialEq, Eq, Structural)]
pub enum TrailerCheck {
    /// The SHA-256 of the data equals the trailer.
    Matches,
    /// It does not.
    Mismatch,
    /// The part could not be read.
    Unreadable,
}

/// Why a split archive cannot be opened.
#[derive(Debug, Clone, Copy, PartialEq, Eq, Structural)]
pub enum PartsError {
    /// Part 001 does not exist.
    Part001Missing,
    /// Part `n` could not be read.
    Unreadable(u32),
    /// Part `n` is shorter than a trailer.
    TooSmall(u32),
    /// Part `n` fails its SHA-256 check.
    Corrupt(u32),
    /// The header of part 001 is refused.
    Header(crate::segment::SplitHeaderError),
}

/// The upper-case hexadecimal digits.
pub open spec fn upper_hex_digits() -> Seq<char> {
    seq!['0', '1', '2', '3', '4', '5', '6', '7', '8', '9', 'A', 'B', 'C', 'D', 'E', 'F']
}

/// A byte as two upper-case hexadecimal digits (`{:02X}`).
pub open spec fn hex2_upper(b: u8) -> Seq<char> {
    seq![upper_hex_digits()[(b / 16) as int], upper_hex_digits()[(b % 16) as int]]
}

/// What the user is told when a split archive cannot be opened; `first` is the path of
/// part 001.
pub open spec fn parts_error_message(e: PartsError, first: Seq<char>) -> Seq<char> {
    match e {
        PartsError::Part001Missing => "Part 001 not found: "@ + first,
        PartsError::Unreadable(n) => "Part "@ + pad3(decimal(n as nat)) + " could not be read"@,
        PartsError::TooSmall(n) => "Part "@ + pad3(decimal(n as nat)) + " too small"@,
        PartsError::Corrupt(n) => "Part "@ + pad3(decimal(n as nat))
            + " is corrupt (SHA256 mismatch). Redownload it."@,
        PartsError::Header(crate::segment::SplitHeaderError::UnsupportedVersion(v)) =>
            "Unsupported split version: 0x"@ + hex2_upper(v),
        PartsError::Header(_) => "Not a LRGEX split archive"@,
    }
}

fn upper_hex_digit(d: u8) -> (c: char)
    requires
        d < 16,
    ensures
        c == upper_hex_digits()[d as int],
{
    match d {
        0 => '0',
        1 => '1',
        2 => '2',
        3 => '3',
        4 => '4',
        5 => '5',
        6 => '6',
        7 => '7',
        8 => '8',
        9 => '9',
        10 => 'A',
        11 => 'B',
        12 => 'C',
        13 => 'D',
        14 => 'E',
        _ => 'F',
    }
}

/// A number written with at least three digits, zeros in front (`{:03}`).
fn padded3(n: u32) -> (r: Vec<char>)
    ensures
        r@ == pad3(decimal(n as nat)),
{
    let d = decimal_chars(n as u64);
    let mut zeros: Vec<char> = Vec::new();
    let mut z: usize = d.len();
    while z < 3
        invariant
            d.len() <= z <= 3 || (d.len() >= 3 && z == d.len()),
            zeros@ == Seq::new((z - d.len()) as nat, |i: int| '0'),
        decreases 3 - z,
    {
        zeros.push('0');
        z = z + 1;
        proof {
            assert(zeros@ =~= Seq::new((z - d.len()) as nat, |i: int| '0'));
        }
    }
    let r = concat_chars(zeros.as_slice(), d.as_slice());
    proof {
        if d.len() >= 3 {
            assert(zeros@ =~= Seq::<char>::empty());
            assert(r@ =~= d@);
        }
    }
    r
}

/// The message for a split archive that cannot be opened (`first`: the path of part 001).
pub fn parts_error_text(e: PartsError, first: &str) -> (r: String)
    ensures
        r@ == parts_error_message(e, first@),
{
    let cs: Vec<char> = match e {
        PartsError::Part001Missing => concat_chars(
            chars_of("Part 001 not found: ").as_slice(),
            chars_of(first).as_slice(),
        ),
        PartsError::Unreadable(n) => {
            let head = concat_chars(chars_of("Part ").as_slice(), padded3(n).as_slice());
            concat_chars(head.as_slice(), chars_of(" could not be read").as_slice())
        },
        PartsError::TooSmall(n) => {
            let head = concat_chars(chars_of("Part ").as_slice(), padded3(n).as_slice());
            concat_chars(head.as_slice(), chars_of(" too small").as_slice())
        },
        PartsError::Corrupt(n) => {
            let head = concat_chars(chars_of("Part ").as_slice(), padded3(n).as_slice());
            concat_chars(
                head.as_slice(),
                chars_of(" is corrupt (SHA256 mismatch). Redownload it.").as_slice(),
            )
        },
        PartsError::Header(crate::segment::SplitHeaderError::UnsupportedVersion(v)) => {
            let mut cs = chars_of("Unsupported split version: 0x");
            cs.push(upper_hex_digit(v / 16));
            cs.push(upper_hex_digit(v % 16));
            proof {
                assert(cs@ =~= "Unsupported split version: 0x"@ + hex2_upper(v));
            }
            cs
        },
        PartsError::Header(_) => chars_of("Not a LRGEX split archive"),
    };
    string_from_chars(cs.as_slice())
}


// ─── part digests ────────────────────────────────────────────────────────────

/// The SHA-256 digest of `data` (what `sha2::Sha256` computes).
pub uninterp spec fn sha256_of(data: Seq<u8>) -> Seq<u8>;

/// The `sha2::Sha256` state. Verus cannot be given the type itself (it is an alias of a
/// generic wrapper over typenum types), so it is held here, out of Verus's sight.
#[verifier::external_body]
struct Sha256State {
    h: sha2::Sha256,
}

/// A running SHA-256 over the bytes fed to it so far.
pub struct PartHasher {
    h: Sha256State,
    fed: Ghost<Seq<u8>>,
}

impl PartHasher {
    /// The bytes fed so far.
    pub closed spec fn fed(&self) -> Seq<u8> {
        self.fed@
    }

    /// `Sha256::new`: nothing fed yet.
    #[verifier::external_body]
    pub fn new() -> (p: PartHasher)
        ensures
            p.fed() == Seq::<u8>::empty(),
    {
        PartHasher { h: Sha256State { h: <sha2::Sha256 as sha2::Digest>::new() }, fed: Ghost(Seq::empty()) }
    }

    /// `Digest::update`: `chunk` is fed after what was fed before.
    #[verifier::external_body]
    pub fn update(&mut self, chunk: &[u8])
        ensures
            final(self).fed() == old(self).fed() + chunk@,
    {
        sha2::Digest::update(&mut self.h.h, chunk);
    }

    /// `Digest::finalize`: the SHA-256 of all that was fed.
    #[verifier::external_body]
    pub fn finish(self) -> (d: [u8; 32])
        ensures
            d@ == sha256_of(self.fed()),
    {
        sha2::Digest::finalize(self.h.h).into()
    }
}

/// What a trailer read back says about the digest of its part's data.
pub fn trailer_check(digest: [u8; 32], trailer: &[u8]) -> (r: TrailerCheck)
    ensures
        r == (if trailer@ == digest@ {
            TrailerCheck::Matches
        } else {
            TrailerCheck::Mismatch
        }),
{
    if trailer.len() != 32 {
        return TrailerCheck::Mismatch;
    }
    let mut i: usize = 0;
    while i < 32
        invariant
            i <= 32,
            trailer.len() == 32,
            forall|k: int| 0 <= k < i ==> trailer@[k] == digest@[k],
        decreases 32 - i,
    {
        if trailer[i] != digest[i] {
            return TrailerCheck::Mismatch;
        }
        i = i + 1;
    }
    proof {
        assert(trailer@ =~= digest@);
    }
    TrailerCheck::Matches
}

/// The bytes read for a part, read chunk by chunk: `chunks` in order, each handed back by
/// `read` for the part at the offset where the chunks before it end.
pub open spec fn flat(chunks: Seq<Seq<u8>>) -> Seq<u8>
    decreases chunks.len(),
{
    if chunks.len() == 0 {
        Seq::empty()
    } else {
        flat(chunks.drop_last()) + chunks.last()
    }
}

/// Each chunk was handed back by `read` for part `j`, at the offset where the chunks
/// before it end, when asked for exactly its length.
pub open spec fn chunks_read<R: Fn(u32, u64, usize) -> Option<Vec<u8>>>(
    read: R,
    j: u32,
    chunks: Seq<Seq<u8>>,
) -> bool
    decreases chunks.len(),
{
    if chunks.len() == 0 {
        true
    } else {
        &&& chunks_read(read, j, chunks.drop_last())
        &&& exists|v: Vec<u8>|
            #[trigger] call_ensures(
                read,
                (j, flat(chunks.drop_last()).len() as u64, chunks.last().len() as usize),
                Some(v),
            ) && v@ == chunks.last()
    }
}

/// Part `j` was read as `data_len` bytes of data and a 32-byte trailer after them, and the
/// trailer is (or, for `matches == false`, is not) the SHA-256 of that data.
pub open spec fn part_sealed<R: Fn(u32, u64, usize) -> Option<Vec<u8>>>(
    read: R,
    j: u32,
    data_len: u64,
    matches: bool,
) -> bool {
    exists|chunks: Seq<Seq<u8>>, t: Vec<u8>|
        #[trigger] chunks_read(read, j, chunks) && flat(chunks).len() == data_len
            && #[trigger] call_ensures(read, (j, data_len, 32usize), Some(t)) && t@.len() == 32
            && (t@ == sha256_of(flat(chunks))) == matches
}

/// A read of part `j` failed: nothing came back, or fewer or more bytes than asked.
pub open spec fn part_unreadable<R: Fn(u32, u64, usize) -> Option<Vec<u8>>>(read: R, j: u32) -> bool {
    exists|off: u64, n: usize, o: Option<Vec<u8>>|
        #[trigger] call_ensures(read, (j, off, n), o) && (o is None || o.unwrap()@.len() != n)
}

/// What checking part `j`'s trailer against its `data_len` bytes of data found.
pub open spec fn trailer_state<R: Fn(u32, u64, usize) -> Option<Vec<u8>>>(
    read: R,
    j: u32,
    data_len: u64,
    c: TrailerCheck,
) -> bool {
    match c {
        TrailerCheck::Matches => part_sealed(read, j, data_len, true),
        TrailerCheck::Mismatch => part_sealed(read, j, data_len, false),
        TrailerCheck::Unreadable => part_unreadable(read, j),
    }
}

/// Bytes asked for per read while hashing a part.
pub const HASH_CHUNK: usize = 4194304;

/// Reads part `j`'s `data_len` bytes of data through `read` (part, offset, length) in
/// chunks, hashes them, reads the 32-byte trailer after them and compares.
pub fn hash_part<R: Fn(u32, u64, usize) -> Option<Vec<u8>>>(read: &R, j: u32, data_len: u64) -> (r:
    TrailerCheck)
    requires
        forall|a: u32, b: u64, c: usize| read.requires((a, b, c)),
    ensures
        trailer_state(*read, j, data_len, r),
{
    let mut hasher = PartHasher::new();
    let mut off: u64 = 0;
    let ghost mut chunks: Seq<Seq<u8>> = Seq::empty();
    while off < data_len
        invariant
            forall|a: u32, b: u64, c: usize| read.requires((a, b, c)),
            off <= data_len,
            chunks_read(*read, j, chunks),
            flat(chunks).len() == off,
            hasher.fed() == flat(chunks),
        decreases data_len - off,
    {
        let left = data_len - off;
        let n: usize = if left < HASH_CHUNK as u64 {
            left as usize
        } else {
            HASH_CHUNK
        };
        let got = read(j, off, n);
        match got {
            None => {
                proof {
                    assert(call_ensures(*read, (j, off, n), None::<Vec<u8>>));
                }
                return TrailerCheck::Unreadable;
            },
            Some(v) => {
                if v.len() != n {
                    proof {
                        assert(call_ensures(*read, (j, off, n), Some(v)));
                        assert(Some(v).unwrap()@.len() != n);
                    }
                    return TrailerCheck::Unreadable;
                }
                hasher.update(v.as_slice());
                proof {
                    let next = chunks.push(v@);
                    assert(next.drop_last() =~= chunks);
                    assert(call_ensures(
                        *read,
                        (j, flat(next.drop_last()).len() as u64, next.last().len() as usize),
                        Some(v),
                    ));
                    chunks = next;
                }
                off = off + n as u64;
            },
        }
    }
    let got = read(j, data_len, 32);
    match got {
        None => {
            proof {
                assert(call_ensures(*read, (j, data_len, 32usize), None::<Vec<u8>>));
            }
            TrailerCheck::Unreadable
        },
        Some(t) => {
            if t.len() != 32 {
                proof {
                    assert(call_ensures(*read, (j, data_len, 32usize), Some(t)));
                    assert(Some(t).unwrap()@.len() != 32usize);
                }
                return TrailerCheck::Unreadable;
            }
            let ghost data = hasher.fed();
            let digest = hasher.finish();
            let r = trailer_check(digest, t.as_slice());
            proof {
                assert(call_ensures(*read, (j, data_len, 32usize), Some(t)));
                assert(chunks_read(*read, j, chunks));
            }
            r
        },
    }
}

/// Chains the data of the parts back into one stream.
pub struct ConcatReader {
    data_lens: Vec<u64>,
    current: usize,
    pos_in_part: u64,
}

/// Abstract state of the reader: each part's length without its trailer, the part being
/// read and the position in it.
pub struct ConcatReaderV {
    pub lens: Seq<nat>,
    pub current: nat,
    pub pos: nat,
}

impl View for ConcatReader {
    type V = ConcatReaderV;

    closed spec fn view(&self) -> ConcatReaderV {
        ConcatReaderV {
            lens: self.data_lens@.map_values(|l: u64| l as nat),
            current: self.current as nat,
            pos: self.pos_in_part as nat,
        }
    }
}

/// Where the data of part `i` starts: after the header in part 001, at 0 elsewhere.
pub open spec fn data_start(i: nat) -> nat {
    if i == 0 {
        SPLIT_HEADER_LEN as nat
    } else {
        0
    }
}

/// How many stream bytes part `i` carries.
pub open spec fn region_len(lens: Seq<nat>, i: nat) -> nat {
    if lens[i as int] > data_start(i) {
        (lens[i as int] - data_start(i)) as nat
    } else {
        0
    }
}

/// Stream bytes carried by the first `k` parts.
pub open spec fn regions_before(lens: Seq<nat>, k: nat) -> nat
    decreases k,
{
    if k == 0 {
        0
    } else {
        regions_before(lens, (k - 1) as nat) + region_len(lens, (k - 1) as nat)
    }
}

/// How far into the stream the reader stands.
pub open spec fn stream_offset(v: ConcatReaderV) -> nat {
    if v.current >= v.lens.len() {
        regions_before(v.lens, v.lens.len())
    } else if v.pos <= data_start(v.current) {
        regions_before(v.lens, v.current)
    } else {
        regions_before(v.lens, v.current) + (v.pos - data_start(v.current)) as nat
    }
}

/// The reader's invariant: there is a part, and the position is the start of a part, the
/// end of part 001's header, or inside the data of the current part.
pub open spec fn reader_ok(v: ConcatReaderV) -> bool {
    &&& 1 <= v.lens.len() <= MAX_PARTS
    &&& forall|i: int| 0 <= i < v.lens.len() ==> #[trigger] v.lens[i] < 0x1_0000_0000_0000_0000
    &&& v.current <= v.lens.len()
    &&& v.current >= v.lens.len() ==> v.pos == 0
    &&& v.current < v.lens.len() ==> {
        ||| v.pos == 0
        ||| v.pos == data_start(v.current)
        ||| (data_start(v.current) <= v.pos <= v.lens[v.current as int])
    }
}

/// Where the reader settles before a read: parts whose data is used up are left behind,
/// but a read never passes the unread header of part 001.
pub open spec fn settle(lens: Seq<nat>, c: nat, pos: nat) -> (nat, nat)
    decreases lens.len() - c,
{
    if c >= lens.len() {
        (c, pos)
    } else if c == 0 && pos == 0 {
        (c, pos)
    } else if lens[c as int] <= pos {
        settle(lens, c + 1, 0)
    } else {
        (c, pos)
    }
}

/// The next step of a read into a buffer of `buf_len` bytes.
#[derive(Debug, Clone, Copy, PartialEq, Eq, Structural)]
pub enum ConcatStep {
    /// Every part is read: the read returns 0.
    End,
    /// Read the 22 header bytes of part 001 and report it with `header_skipped`.
    SkipHeader,
    /// Read at most `max` bytes of part `part` (0-based) into the buffer and report the
    /// count with `consumed`.
    Read { part: usize, max: u64 },
}

proof fn lemma_settle(lens: Seq<nat>, c: nat, pos: nat)
    requires
        reader_ok(ConcatReaderV { lens, current: c, pos }),
    ensures
        ({
            let (c2, p2) = settle(lens, c, pos);
            &&& reader_ok(ConcatReaderV { lens, current: c2, pos: p2 })
            &&& stream_offset(ConcatReaderV { lens, current: c2, pos: p2 }) == stream_offset(
                ConcatReaderV { lens, current: c, pos },
            )
            &&& c <= c2 <= lens.len()
            &&& c2 < lens.len() ==> (c2 == 0 && p2 == 0) || p2 < lens[c2 as int]
            &&& c2 < lens.len() && !(c2 == 0 && p2 == 0) ==> data_start(c2) <= p2
        }),
    decreases lens.len() - c,
{
    if c >= lens.len() {
    } else if c == 0 && pos == 0 {
    } else if lens[c as int] <= pos {
        let v = ConcatReaderV { lens, current: c, pos };
        let w = ConcatReaderV { lens, current: c + 1, pos: 0 };
        assert(reader_ok(w));
        assert(stream_offset(w) == stream_offset(v)) by {
            assert(regions_before(lens, c + 1) == regions_before(lens, c) + region_len(lens, c));
        }
        lemma_settle(lens, c + 1, 0);
    } else {
    }
}

impl ConcatReader {
    /// The part being read (0-based) and the position in it.
    pub fn position(&self) -> (r: (usize, u64))
        ensures
            r.0 as nat == self@.current,
            r.1 as nat == self@.pos,
    {
        (self.current, self.pos_in_part)
    }

    /// Each part's length without its trailer.
    pub fn data_lens(&self) -> (r: &Vec<u64>)
        ensures
            r@.map_values(|l: u64| l as nat) == self@.lens,
    {
        &self.data_lens
    }

    /// The next step of a read into a buffer of `buf_len` bytes: parts whose data is used
    /// up are left behind; then the read ends, skips the header of part 001, or reads
    /// from the current part as much as both the buffer and the part's data allow.
    pub fn next_step(&mut self, buf_len: usize) -> (s: ConcatStep)
        requires
            reader_ok(old(self)@),
        ensures
            final(self)@.lens == old(self)@.lens,
            (final(self)@.current, final(self)@.pos) == settle(old(self)@.lens, old(self)@.current, old(self)@.pos),
            reader_ok(final(self)@),
            stream_offset(final(self)@) == stream_offset(old(self)@),
            s == (if final(self)@.current >= final(self)@.lens.len() {
                ConcatStep::End
            } else if final(self)@.current == 0 && final(self)@.pos == 0 {
                ConcatStep::SkipHeader
            } else {
                let left = (final(self)@.lens[final(self)@.current as int] - final(self)@.pos) as nat;
                ConcatStep::Read {
                    part: final(self)@.current as usize,
                    max: (if left <= buf_len { left } else { buf_len as nat }) as u64,
                }
            }),
            s is End ==> stream_offset(final(self)@) == regions_before(final(self)@.lens, final(self)@.lens.len()),
    {
        proof {
            lemma_settle(self@.lens, self@.current, self@.pos);
        }
        let ghost lens = self@.lens;
        loop
            invariant
                self@.lens == lens,
                lens == old(self)@.lens,
                reader_ok(self@),
                settle(lens, self@.current, self@.pos) == settle(lens, old(self)@.current, old(self)@.pos),
                stream_offset(self@) == stream_offset(old(self)@),
            decreases lens.len() - self@.current,
        {
            if self.current >= self.data_lens.len() {
                return ConcatStep::End;
            }
            if self.current == 0 && self.pos_in_part == 0 {
                return ConcatStep::SkipHeader;
            }
            let len = self.data_lens[self.current];
            proof {
                assert(self@.lens[self@.current as int] == len as nat);
            }
            if len <= self.pos_in_part {
                proof {
                    let v = self@;
                    let w = ConcatReaderV { lens, current: v.current + 1, pos: 0 };
                    assert(stream_offset(w) == stream_offset(v)) by {
                        assert(regions_before(lens, v.current + 1) == regions_before(lens, v.current)
                            + region_len(lens, v.current));
                    }
                }
                self.current = self.current + 1;
                self.pos_in_part = 0;
            } else {
                let left = len - self.pos_in_part;
                let max: u64 = if left <= buf_len as u64 {
                    left
                } else {
                    buf_len as u64
                };
                return ConcatStep::Read { part: self.current, max };
            }
        }
    }

    /// The 22 header bytes of part 001 were read.
    pub fn header_skipped(&mut self)
        requires
            reader_ok(old(self)@),
            old(self)@.current == 0,
            old(self)@.pos == 0,
        ensures
            final(self)@ == (ConcatReaderV { pos: SPLIT_HEADER_LEN as nat, ..old(self)@ }),
            reader_ok(final(self)@),
            stream_offset(final(self)@) == stream_offset(old(self)@),
    {
        self.pos_in_part = SPLIT_HEADER_LEN as u64;
    }

    /// `n` bytes were read from the current part, as a `Read` step allowed: the position
    /// moves on by `n`. A part that yields nothing before its trailer is an error naming
    /// the part (1-based).
    pub fn consumed(&mut self, n: usize) -> (r: Result<(), u32>)
        requires
            reader_ok(old(self)@),
            old(self)@.current < old(self)@.lens.len(),
            !(old(self)@.current == 0 && old(self)@.pos == 0),
            old(self)@.pos + n <= old(self)@.lens[old(self)@.current as int],
        ensures
            n == 0 ==> r == Err::<(), u32>((old(self)@.current + 1) as u32) && final(self)@ == old(self)@,
            n > 0 ==> r is Ok && final(self)@ == (ConcatReaderV { pos: (old(self)@.pos + n) as nat, ..old(self)@ }),
            reader_ok(final(self)@),
            n > 0 ==> stream_offset(final(self)@) == stream_offset(old(self)@) + n,
    {
        if n == 0 {
            return Err((self.current + 1) as u32);
        }
        proof {
            assert(self@.lens[self@.current as int] == self.data_lens@[self.current as int] as nat);
        }
        self.pos_in_part = self.pos_in_part + n as u64;
        Ok(())
    }
}

/// Whether `probe` may answer for part `j` with a size of at least a trailer.
pub open spec fn probed_sized<F: Fn(u32) -> PartProbe>(probe: F, j: u32) -> bool {
    exists|s: u64| s >= TRAILER_LEN && #[trigger] call_ensures(probe, (j,), PartProbe::Size(s))
}

/// What `probe` answered for the parts a reader was opened on: for each part, its length
/// plus a trailer; after the last one, no part (unless the last is part 9999).
pub open spec fn probed_parts<F: Fn(u32) -> PartProbe>(probe: F, lens: Seq<nat>) -> bool {
    &&& 1 <= lens.len() <= MAX_PARTS
    &&& forall|i: int|
        0 <= i < lens.len() ==> call_ensures(
            probe,
            ((i + 1) as u32,),
            PartProbe::Size((#[trigger] lens[i] + TRAILER_LEN) as u64),
        )
    &&& lens.len() < MAX_PARTS ==> call_ensures(probe, ((lens.len() + 1) as u32,), PartProbe::Missing)
}

/// What `probe` answered when opening failed with `e`: every earlier part had a size of
/// at least a trailer, and the failing part answered as the error says.
pub open spec fn probe_failure<F: Fn(u32) -> PartProbe>(probe: F, e: PartsError) -> bool {
    match e {
        PartsError::Part001Missing => call_ensures(probe, (1u32,), PartProbe::Missing),
        PartsError::Unreadable(n) => {
            &&& 1 <= n <= MAX_PARTS
            &&& forall|j: u32| 1 <= j < n ==> #[trigger] probed_sized(probe, j)
            &&& call_ensures(probe, (n,), PartProbe::Unreadable)
        },
        PartsError::TooSmall(n) => {
            &&& 1 <= n <= MAX_PARTS
            &&& forall|j: u32| 1 <= j < n ==> #[trigger] probed_sized(probe, j)
            &&& exists|s: u64| s < TRAILER_LEN && #[trigger] call_ensures(probe, (n,), PartProbe::Size(s))
        },
        _ => false,
    }
}

impl ConcatReader {
    /// Opens the parts `1, 2, …` as `probe` finds them, up to the first missing one or
    /// part 9999, without checking their trailers: each part's data ends 32 bytes before
    /// its end. Part 001 must exist; a part that cannot be read or is shorter than a
    /// trailer stops the opening.
    pub fn open_no_verify<F: Fn(u32) -> PartProbe>(probe: F) -> (r: Result<ConcatReader, PartsError>)
        requires
            forall|i: u32| probe.requires((i,)),
        ensures
            match r {
                Ok(rd) => {
                    &&& reader_ok(rd@)
                    &&& rd@.current == 0 && rd@.pos == 0
                    &&& probed_parts(probe, rd@.lens)
                },
                Err(e) => probe_failure(probe, e),
            },
    {
        let mut lens: Vec<u64> = Vec::new();
        let mut i: u32 = 1;
        let mut done = false;
        while i as usize <= MAX_PARTS && !done
            invariant
                1 <= i <= MAX_PARTS + 1,
                forall|j: u32| probe.requires((j,)),
                done ==> 2 <= i <= MAX_PARTS && call_ensures(probe, (i,), PartProbe::Missing),
                lens.len() == i - 1,
                forall|j: int|
                    0 <= j < lens.len() ==> call_ensures(
                        probe,
                        ((j + 1) as u32,),
                        PartProbe::Size((#[trigger] lens@[j] + TRAILER_LEN) as u64),
                    ),
                forall|j: int| 0 <= j < lens.len() ==> #[trigger] lens@[j] + TRAILER_LEN <= u64::MAX,
            decreases MAX_PARTS + 1 - i + (if done { 0int } else { 1int }),
        {
            proof {
                assert forall|j: u32| 1 <= j < i implies #[trigger] probed_sized(probe, j) by {
                    assert(call_ensures(
                        probe,
                        (((j - 1) + 1) as u32,),
                        PartProbe::Size((lens@[j - 1] + TRAILER_LEN) as u64),
                    ));
                    assert((((j - 1) + 1) as u32) == j);
                }
            }
            let p = probe(i);
            match p {
                PartProbe::Missing => {
                    if i == 1 {
                        return Err(PartsError::Part001Missing);
                    }
                    done = true;
                },
                PartProbe::Unreadable => {
                    return Err(PartsError::Unreadable(i));
                },
                PartProbe::Size(s) => {
                    if s < TRAILER_LEN as u64 {
                        proof {
                            assert(call_ensures(probe, (i,), PartProbe::Size(s)));
                        }
                        return Err(PartsError::TooSmall(i));
                    }
                    lens.push(s - TRAILER_LEN as u64);
                    proof {
                        assert(lens@[lens.len() - 1] + TRAILER_LEN == s);
                    }
                    i = i + 1;
                },
            }
        }
        let rd = ConcatReader { data_lens: lens, current: 0, pos_in_part: 0 };
        proof {
            let l = rd@.lens;
            assert forall|j: int| 0 <= j < l.len() implies call_ensures(
                probe,
                ((j + 1) as u32,),
                PartProbe::Size((#[trigger] l[j] + TRAILER_LEN) as u64),
            ) by {
                assert(l[j] == lens@[j] as nat);
            }
            assert forall|j: int| 0 <= j < l.len() implies #[trigger] l[j] < 0x1_0000_0000_0000_0000 by {
                assert(l[j] == lens@[j] as nat);
            }
        }
        Ok(rd)
    }
}

/// The sum of the lengths.
pub open spec fn total_len(lens: Seq<nat>) -> nat
    decreases lens.len(),
{
    if lens.len() == 0 {
        0
    } else {
        total_len(lens.drop_last()) + lens.last()
    }
}

/// Whether part `j` may have been found with a size of at least a trailer, and read as
/// data followed by a trailer that is the SHA-256 of that data.
pub open spec fn part_verified<F: Fn(u32) -> PartProbe, G: Fn(u32, u64, usize) -> Option<Vec<u8>>>(
    probe: F,
    read: G,
    j: u32,
) -> bool {
    exists|s: u64|
        s >= TRAILER_LEN && #[trigger] call_ensures(probe, (j,), PartProbe::Size(s)) && trailer_state(read, j, (s - TRAILER_LEN) as u64,
            TrailerCheck::Matches,
        )
}

/// Whether the header of part 001 may have been read and found to carry `total`.
pub open spec fn header_read<H: Fn() -> Option<Vec<u8>>>(head: H, total: u64) -> bool {
    exists|h: Vec<u8>|
        #[trigger] call_ensures(head, (), Some(h)) && crate::segment::split_header_total(h@)
            == Ok::<u64, crate::segment::SplitHeaderError>(total)
}

/// Every part before `n` was found and matched its trailer, and past part 001 the
/// header was good.
pub open spec fn verified_before<
    F: Fn(u32) -> PartProbe,
    G: Fn(u32, u64, usize) -> Option<Vec<u8>>,
    H: Fn() -> Option<Vec<u8>>,
>(probe: F, read: G, head: H, n: u32) -> bool {
    &&& 1 <= n <= MAX_PARTS
    &&& forall|j: u32| 1 <= j < n ==> #[trigger] part_verified(probe, read, j)
    &&& n > 1 ==> exists|t: u64| #[trigger] header_read(head, t)
}

/// What the outside answers were when verified opening failed with `e`: every earlier
/// part was found and matched its trailer (and, past part 001, the header was good), and
/// the failing part answered as the error says.
pub open spec fn verify_failure<
    F: Fn(u32) -> PartProbe,
    G: Fn(u32, u64, usize) -> Option<Vec<u8>>,
    H: Fn() -> Option<Vec<u8>>,
>(probe: F, read: G, head: H, e: PartsError) -> bool {
    match e {
        PartsError::Part001Missing => call_ensures(probe, (1u32,), PartProbe::Missing),
        PartsError::Unreadable(n) => {
            &&& verified_before(probe, read, head, n)
            &&& {
                ||| call_ensures(probe, (n,), PartProbe::Unreadable)
                ||| exists|s: u64|
                    s >= TRAILER_LEN && #[trigger] call_ensures(probe, (n,), PartProbe::Size(s))
                        && trailer_state(read, n, (s - TRAILER_LEN) as u64, TrailerCheck::Unreadable)
                ||| (n == 1 && part_verified(probe, read, 1) && call_ensures(head, (), None))
            }
        },
        PartsError::TooSmall(n) => {
            &&& verified_before(probe, read, head, n)
            &&& exists|s: u64| s < TRAILER_LEN && #[trigger] call_ensures(probe, (n,), PartProbe::Size(s))
        },
        PartsError::Corrupt(n) => {
            &&& verified_before(probe, read, head, n)
            &&& exists|s: u64|
                s >= TRAILER_LEN && #[trigger] call_ensures(probe, (n,), PartProbe::Size(s))
                    && trailer_state(read, n, (s - TRAILER_LEN) as u64, TrailerCheck::Mismatch)
        },
        PartsError::Header(he) => {
            &&& part_verified(probe, read, 1)
            &&& exists|h: Vec<u8>|
                #[trigger] call_ensures(head, (), Some(h)) && crate::segment::split_header_total(h@)
                    == Err::<u64, crate::segment::SplitHeaderError>(he)
        },
    }
}

impl ConcatReader {
    /// Opens the parts as `open_no_verify` does, and checks each part as it is found:
    /// its data is read through `read` (part number, offset, length) and hashed, and the
    /// 32-byte trailer after it must be that SHA-256; part 001 must start with a split
    /// header (`head` reads its first 22 bytes). Returns the reader, the total the header records, and the sum of the
    /// parts' data lengths (modulo 2^64).
    pub fn open_and_verify<
        F: Fn(u32) -> PartProbe,
        G: Fn(u32, u64, usize) -> Option<Vec<u8>>,
        H: Fn() -> Option<Vec<u8>>,
    >(probe: F, read: G, head: H) -> (r: Result<(ConcatReader, u64, u64), PartsError>)
        requires
            forall|i: u32| probe.requires((i,)),
            forall|a: u32, b: u64, c: usize| read.requires((a, b, c)),
            head.requires(()),
        ensures
            match r {
                Ok((rd, total, sum)) => {
                    &&& reader_ok(rd@)
                    &&& rd@.current == 0 && rd@.pos == 0
                    &&& probed_parts(probe, rd@.lens)
                    &&& forall|j: int|
                        0 <= j < rd@.lens.len() ==> part_sealed(
                            read,
                            (j + 1) as u32,
                            #[trigger] rd@.lens[j] as u64,
                            true,
                        )
                    &&& header_read(head, total)
                    &&& sum as nat == total_len(rd@.lens) % 0x1_0000_0000_0000_0000
                },
                Err(e) => verify_failure(probe, read, head, e),
            },
    {
        let mut lens: Vec<u64> = Vec::new();
        let mut total: u64 = 0;
        let mut sum: u64 = 0;
        let mut i: u32 = 1;
        let mut done = false;
        while i as usize <= MAX_PARTS && !done
            invariant
                1 <= i <= MAX_PARTS + 1,
                forall|j: u32| probe.requires((j,)),
                forall|a: u32, b: u64, c: usize| read.requires((a, b, c)),
                head.requires(()),
                done ==> 2 <= i <= MAX_PARTS && call_ensures(probe, (i,), PartProbe::Missing),
                lens.len() == i - 1,
                forall|j: int|
                    0 <= j < lens.len() ==> call_ensures(
                        probe,
                        ((j + 1) as u32,),
                        PartProbe::Size((#[trigger] lens@[j] + TRAILER_LEN) as u64),
                    ),
                forall|j: int|
                    0 <= j < lens.len() ==> trailer_state(read, (j + 1) as u32, #[trigger] lens@[j],
                        TrailerCheck::Matches,
                    ),
                forall|j: int| 0 <= j < lens.len() ==> #[trigger] lens@[j] + TRAILER_LEN <= u64::MAX,
                i > 1 ==> header_read(head, total),
                sum as nat == total_len(lens@.map_values(|l: u64| l as nat)) % 0x1_0000_0000_0000_0000,
            decreases MAX_PARTS + 1 - i + (if done { 0int } else { 1int }),
        {
            proof {
                assert forall|j: u32| 1 <= j < i implies #[trigger] part_verified(probe, read, j) by {
                    let s = (lens@[j - 1] + TRAILER_LEN) as u64;
                    assert((((j - 1) + 1) as u32) == j);
                    assert(call_ensures(probe, (j,), PartProbe::Size(s)));
                    assert(trailer_state(read, j, lens@[j - 1], TrailerCheck::Matches));
                    assert((s - TRAILER_LEN) as u64 == lens@[j - 1]);
                }
                if i > 1 {
                    assert(header_read(head, total));
                }
            }
            let p = probe(i);
            match p {
                PartProbe::Missing => {
                    if i == 1 {
                        return Err(PartsError::Part001Missing);
                    }
                    done = true;
                },
                PartProbe::Unreadable => {
                    return Err(PartsError::Unreadable(i));
                },
                PartProbe::Size(s) => {
                    proof {
                        assert(call_ensures(probe, (i,), PartProbe::Size(s)));
                    }
                    if s < TRAILER_LEN as u64 {
                        proof {
                            assert(verified_before(probe, read, head, i));
                            assert(call_ensures(probe, (i,), PartProbe::Size(s)));
                            assert(s < TRAILER_LEN);
                            assert(exists|s2: u64|
                                s2 < TRAILER_LEN && #[trigger] call_ensures(probe, (i,), PartProbe::Size(s2)));
                        }
                        return Err(PartsError::TooSmall(i));
                    }
                    let data_len = s - TRAILER_LEN as u64;
                    let ghost before = lens@.map_values(|l: u64| l as nat);
                    let next_sum = sum.wrapping_add(data_len);
                    match hash_part(&read, i, data_len) {
                        TrailerCheck::Matches => {},
                        TrailerCheck::Mismatch => {
                            proof {
                                assert(trailer_state(read, i, data_len, TrailerCheck::Mismatch));
                                assert((s - TRAILER_LEN) as u64 == data_len);
                                assert(verified_before(probe, read, head, i));
                                assert(verify_failure(probe, read, head, PartsError::Corrupt(i)));
                            }
                            return Err(PartsError::Corrupt(i));
                        },
                        TrailerCheck::Unreadable => {
                            return Err(PartsError::Unreadable(i));
                        },
                    }
                    if i == 1 {
                        match head() {
                            None => {
                                return Err(PartsError::Unreadable(1));
                            },
                            Some(h) => {
                                proof {
                                    assert(call_ensures(head, (), Some(h)));
                                }
                                match crate::segment::parse_split_header(h.as_slice()) {
                                    Ok(t) => {
                                        total = t;
                                    },
                                    Err(e) => {
                                        return Err(PartsError::Header(e));
                                    },
                                }
                            },
                        }
                    }
                    lens.push(data_len);
                    proof {
                        let after = lens@.map_values(|l: u64| l as nat);
                        assert(after.drop_last() =~= before);
                        assert(after.last() == data_len as nat);
                        let m: int = 0x1_0000_0000_0000_0000;
                        vstd::arithmetic::div_mod::lemma_add_mod_noop(
                            total_len(before) as int,
                            data_len as int,
                            m,
                        );
                        vstd::arithmetic::div_mod::lemma_mod_twice(data_len as int, m);
                        vstd::arithmetic::div_mod::lemma_small_mod(data_len as nat, m as nat);
                        assert(lens@[lens.len() - 1] + TRAILER_LEN == s);
                    }
                    sum = next_sum;
                    i = i + 1;
                },
            }
        }
        let rd = ConcatReader { data_lens: lens, current: 0, pos_in_part: 0 };
        proof {
            let l = rd@.lens;
            assert(l =~= lens@.map_values(|x: u64| x as nat));
            assert forall|j: int| 0 <= j < l.len() implies call_ensures(
                probe,
                ((j + 1) as u32,),
                PartProbe::Size((#[trigger] l[j] + TRAILER_LEN) as u64),
            ) by {
                assert(l[j] == lens@[j] as nat);
            }
            assert forall|j: int| 0 <= j < l.len() implies trailer_state(read, (j + 1) as u32, #[trigger] l[j] as u64,
                TrailerCheck::Matches,
            ) by {
                assert(l[j] == lens@[j] as nat);
            }
            assert forall|j: int| 0 <= j < l.len() implies #[trigger] l[j] < 0x1_0000_0000_0000_0000 by {
                assert(l[j] == lens@[j] as nat);
            }
        }
        Ok((rd, total, sum))
    }
}

/// The size on disk of part `i` (0-based) holding `d` data bytes, as the writer leaves
/// it: the header first in part 001, then the data, then the trailer.
pub open spec fn written_part_size(i: nat, d: nat) -> nat {
    data_start(i) + d + TRAILER_LEN as nat
}

/// The lengths the reader works with for parts of these sizes: each less its trailer.
pub open spec fn reader_lens(sizes: Seq<nat>) -> Seq<nat> {
    sizes.map_values(|s: nat| (s - TRAILER_LEN) as nat)
}

proof fn lemma_regions_prefix(ds: Seq<nat>, lens: Seq<nat>, k: nat)
    requires
        lens.len() == ds.len(),
        k <= ds.len(),
        forall|i: nat| i < ds.len() ==> #[trigger] region_len(lens, i) == ds[i as int],
    ensures
        regions_before(lens, k) == total_len(ds.take(k as int)),
    decreases k,
{
    if k > 0 {
        lemma_regions_prefix(ds, lens, (k - 1) as nat);
        assert(ds.take(k as int).drop_last() =~= ds.take(k - 1));
        assert(region_len(lens, (k - 1) as nat) == ds[k - 1]);
    } else {
        assert(ds.take(0) =~= Seq::<nat>::empty());
    }
}

/// Parts as the writer leaves them read back as the writer filled them: the reader
/// finds in each part exactly the data bytes the writer put there, and in all of them
/// together the whole stream.
pub proof fn law_parts_read_back(ds: Seq<nat>)
    ensures
        ({
            let lens = reader_lens(Seq::new(ds.len(), |i: int| written_part_size(i as nat, ds[i])));
            &&& lens.len() == ds.len()
            &&& forall|i: nat| i < ds.len() ==> #[trigger] region_len(lens, i) == ds[i as int]
            &&& regions_before(lens, ds.len()) == total_len(ds)
        }),
{
    let lens = reader_lens(Seq::new(ds.len(), |i: int| written_part_size(i as nat, ds[i])));
    assert forall|i: nat| i < ds.len() implies #[trigger] region_len(lens, i) == ds[i as int] by {
        assert(lens[i as int] == data_start(i) + ds[i as int]);
    }
    lemma_regions_prefix(ds, lens, ds.len());
    assert(ds.take(ds.len() as int) =~= ds);
}

} // verus!
