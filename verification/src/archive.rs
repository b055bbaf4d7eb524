//! The `.zgx` container: its headers, format detection, the v3 path index, and the
//! metadata sidecar that travels as the first tar entry.
//!
//! Layouts: v3 is `LRGEX`, 0x03, total (u64 LE), index length (u64 LE), the zstd-packed
//! path index, then the zstd(tar) stream; v1 is `LRGEX`, 0x01, total, then the stream;
//! legacy archives hold an 8-byte total before the stream, or just the stream.
use crate::segment::lrgex_magic;
use vstd::bytes::{
    spec_u16_from_le_bytes, spec_u16_to_le_bytes, spec_u32_from_le_bytes, spec_u32_to_le_bytes,
    spec_u64_from_le_bytes, spec_u64_to_le_bytes, u16_from_le_bytes, u16_to_le_bytes,
    u32_from_le_bytes, u32_to_le_bytes, u64_from_le_bytes, u64_to_le_bytes,
};
use vstd::prelude::*;
use vstd::string::StringSliceAdditionalSpecFns;

verus! {

/// The zstd frame magic `28 B5 2F FD`.
pub open spec fn zstd_magic() -> Seq<u8> {
    seq![0x28u8, 0xb5u8, 0x2fu8, 0xfdu8]
}

/// `a` starts, at `at`, with the bytes `m`.
pub open spec fn has_at(a: Seq<u8>, at: int, m: Seq<u8>) -> bool {
    a.len() >= at + m.len() && a.subrange(at, at + m.len() as int) == m
}

/// Checks `has_at` byte by byte.
fn bytes_at(a: &[u8], at: usize, m: &[u8]) -> (r: bool)
    ensures
        r == has_at(a@, at as int, m@),
{
    if a.len() < m.len() || at > a.len() - m.len() {
        return false;
    }
    let mut i: usize = 0;
    while i < m.len()
        invariant
            i <= m.len(),
            at + m.len() <= a.len(),
            forall|k: int| 0 <= k < i ==> a@[at + k] == m@[k],
        decreases m.len() - i,
    {
        if a[at + i] != m[i] {
            proof {
                assert(a@.subrange(at as int, at + m.len() as int)[i as int] != m@[i as int]);
            }
            return false;
        }
        i = i + 1;
    }
    proof {
        assert(a@.subrange(at as int, at + m.len() as int) =~= m@);
    }
    true
}

/// `LRGEX` as exec bytes.
fn magic_bytes() -> (r: Vec<u8>)
    ensures
        r@ == lrgex_magic(),
{
    let r = vec![0x4cu8, 0x52u8, 0x47u8, 0x45u8, 0x58u8];
    proof {
        assert(r@ =~= lrgex_magic());
    }
    r
}

/// The zstd magic as exec bytes.
fn zstd_magic_bytes() -> (r: Vec<u8>)
    ensures
        r@ == zstd_magic(),
{
    let r = vec![0x28u8, 0xb5u8, 0x2fu8, 0xfdu8];
    proof {
        assert(r@ =~= zstd_magic());
    }
    r
}

/// The little-endian `u64` at byte `at`.
fn le_u64_at(a: &[u8], at: usize) -> (r: u64)
    requires
        at + 8 <= a.len(),
    ensures
        r == spec_u64_from_le_bytes(a@.subrange(at as int, at + 8)),
{
    u64_from_le_bytes(vstd::slice::slice_subrange(a, at, at + 8))
}

// ─── where the stream starts ────────────────────────────────────────────────

/// Why no stream offset can be given.
#[derive(Debug, Clone, Copy, PartialEq, Eq, Structural)]
pub enum StreamStartError {
    /// A v3 header shorter than 22 bytes.
    TruncatedV3,
    /// A split archive (version 2): parts are read by the split reader.
    SplitArchive,
    /// An `LRGEX` header of an unknown version.
    UnsupportedVersion(u8),
    /// Neither an `LRGEX` header nor a zstd stream.
    NotAnArchive,
}

/// The offset of the zstd(tar) stream, given the first bytes of the file (up to 22).
pub open spec fn stream_start_of(head: Seq<u8>) -> Result<u64, StreamStartError> {
    if head.len() >= 6 && has_at(head, 0, lrgex_magic()) {
        if head[5] == 3 {
            if head.len() < 22 {
                Err(StreamStartError::TruncatedV3)
            } else {
                Ok(((22 + spec_u64_from_le_bytes(head.subrange(14, 22))) % 0x1_0000_0000_0000_0000) as u64)
            }
        } else if head[5] == 1 {
            Ok(14)
        } else if head[5] == 2 {
            Err(StreamStartError::SplitArchive)
        } else {
            Err(StreamStartError::UnsupportedVersion(head[5]))
        }
    } else if head.len() >= 12 && has_at(head, 8, zstd_magic()) {
        Ok(8)
    } else if head.len() >= 4 && has_at(head, 0, zstd_magic()) {
        Ok(0)
    } else {
        Err(StreamStartError::NotAnArchive)
    }
}

/// The byte offset where the zstd(tar) stream starts, from the first bytes read from
/// the file (v3: after the header and the path index; v1: 14; legacy: 8; bare: 0).
pub fn zgx_stream_start(head: &[u8]) -> (r: Result<u64, StreamStartError>)
    ensures
        r == stream_start_of(head@),
{
    let magic = magic_bytes();
    let zm = zstd_magic_bytes();
    if head.len() >= 6 && bytes_at(head, 0, magic.as_slice()) {
        if head[5] == 3 {
            if head.len() < 22 {
                return Err(StreamStartError::TruncatedV3);
            }
            let index_len = le_u64_at(head, 14);
            return Ok(index_len.wrapping_add(22));
        } else if head[5] == 1 {
            return Ok(14);
        } else if head[5] == 2 {
            return Err(StreamStartError::SplitArchive);
        } else {
            return Err(StreamStartError::UnsupportedVersion(head[5]));
        }
    }
    if head.len() >= 12 && bytes_at(head, 8, zm.as_slice()) {
        return Ok(8);
    }
    if head.len() >= 4 && bytes_at(head, 0, zm.as_slice()) {
        return Ok(0);
    }
    Err(StreamStartError::NotAnArchive)
}

/// Where an archive's stream lies and how large its content is.
#[derive(Debug, Clone, Copy, PartialEq, Eq, Structural)]
pub struct ZgxLayout {
    /// Uncompressed size the progress bar measures against.
    pub total: u64,
    /// Offset of the zstd(tar) stream.
    pub stream_start: u64,
}

/// Why an archive cannot be extracted.
#[derive(Debug, Clone, Copy, PartialEq, Eq, Structural)]
pub enum ZgxHeaderError {
    /// An `LRGEX` header of a version this extractor does not read.
    NewerVersion,
    /// An `LRGEX` header cut short.
    Truncated,
    /// Not an archive.
    NotValid,
}

/// The recorded total when it is plausible (non-zero and under a hundred times the file
/// size), else the file size.
pub open spec fn plausible_total(total: u64, arch_size: u64) -> u64 {
    if total > 0 && total < arch_size * 100 {
        total
    } else {
        arch_size
    }
}

/// The extraction layout from the first bytes of the archive and its size: v1 and v3
/// headers give the recorded total; legacy archives give their 8-byte total; a bare
/// stream gives the file size.
pub open spec fn layout_of(head: Seq<u8>, arch_size: u64) -> Result<ZgxLayout, ZgxHeaderError> {
    if head.len() >= 6 && has_at(head, 0, lrgex_magic()) {
        if head[5] == 1 {
            if head.len() < 14 {
                Err(ZgxHeaderError::Truncated)
            } else {
                Ok(
                    ZgxLayout {
                        total: plausible_total(spec_u64_from_le_bytes(head.subrange(6, 14)), arch_size),
                        stream_start: 14,
                    },
                )
            }
        } else if head[5] == 3 {
            if head.len() < 22 {
                Err(ZgxHeaderError::Truncated)
            } else {
                Ok(
                    ZgxLayout {
                        total: plausible_total(spec_u64_from_le_bytes(head.subrange(6, 14)), arch_size),
                        stream_start: ((22 + spec_u64_from_le_bytes(head.subrange(14, 22)))
                            % 0x1_0000_0000_0000_0000) as u64,
                    },
                )
            }
        } else {
            Err(ZgxHeaderError::NewerVersion)
        }
    } else if head.len() >= 12 && has_at(head, 8, zstd_magic()) {
        Ok(
            ZgxLayout {
                total: plausible_total(spec_u64_from_le_bytes(head.subrange(0, 8)), arch_size),
                stream_start: 8,
            },
        )
    } else if head.len() >= 4 && has_at(head, 0, zstd_magic()) {
        Ok(ZgxLayout { total: arch_size, stream_start: 0 })
    } else {
        Err(ZgxHeaderError::NotValid)
    }
}

/// Reads the header of a `.zgx` for extraction, from its first bytes and its size.
pub fn zgx_layout(head: &[u8], arch_size: u64) -> (r: Result<ZgxLayout, ZgxHeaderError>)
    requires
        arch_size <= u64::MAX / 100,
    ensures
        r == layout_of(head@, arch_size),
{
    let magic = magic_bytes();
    let zm = zstd_magic_bytes();
    let limit = arch_size * 100;
    if head.len() >= 6 && bytes_at(head, 0, magic.as_slice()) {
        if head[5] == 1 || head[5] == 3 {
            let need: usize = if head[5] == 1 {
                14
            } else {
                22
            };
            if head.len() < need {
                return Err(ZgxHeaderError::Truncated);
            }
            let t = le_u64_at(head, 6);
            let total = if t > 0 && t < limit {
                t
            } else {
                arch_size
            };
            let start: u64 = if head[5] == 1 {
                14
            } else {
                le_u64_at(head, 14).wrapping_add(22)
            };
            return Ok(ZgxLayout { total, stream_start: start });
        }
        return Err(ZgxHeaderError::NewerVersion);
    }
    if head.len() >= 12 && bytes_at(head, 8, zm.as_slice()) {
        let t = le_u64_at(head, 0);
        let total = if t > 0 && t < limit {
            t
        } else {
            arch_size
        };
        return Ok(ZgxLayout { total, stream_start: 8 });
    }
    if head.len() >= 4 && bytes_at(head, 0, zm.as_slice()) {
        return Ok(ZgxLayout { total: arch_size, stream_start: 0 });
    }
    Err(ZgxHeaderError::NotValid)
}

// ─── format detection ───────────────────────────────────────────────────────

/// An archive format the extractor reads.
#[derive(Debug, Clone, Copy, PartialEq, Eq, Structural)]
pub enum Format {
    /// tar + zstd
    Zgx,
    Zip,
    Rar,
    /// 7-Zip
    SevenZ,
}

/// Byte `i` of the 8-byte probe buffer (zero past what was read).
pub open spec fn probe_at(head: Seq<u8>, i: int) -> u8 {
    if 0 <= i < head.len() {
        head[i]
    } else {
        0
    }
}

/// The format the first bytes show, when at least four were read.
pub open spec fn format_of_magic(head: Seq<u8>) -> Option<Format> {
    let b = |i: int| probe_at(head, i);
    if head.len() < 4 {
        None
    } else if b(0) == 0x50 && b(1) == 0x4b && (b(2) == 0x03 || b(2) == 0x05 || b(2) == 0x07) {
        Some(Format::Zip)
    } else if b(0) == 0x52 && b(1) == 0x61 && b(2) == 0x72 && b(3) == 0x21 && b(4) == 0x1a && b(5)
        == 0x07 {
        Some(Format::Rar)
    } else if b(0) == 0x37 && b(1) == 0x7a && b(2) == 0xbc && b(3) == 0xaf && b(4) == 0x27 && b(5)
        == 0x1c {
        Some(Format::SevenZ)
    } else if b(0) == 0x28 && b(1) == 0xb5 && b(2) == 0x2f && b(3) == 0xfd {
        Some(Format::Zgx)
    } else if b(0) == 0x4c && b(1) == 0x52 && b(2) == 0x47 && b(3) == 0x45 && b(4) == 0x58 {
        Some(Format::Zgx)
    } else {
        None
    }
}

/// ASCII lower case.
pub open spec fn lower(c: char) -> char {
    if 'A' <= c && c <= 'Z' {
        ((c as u32) + 32) as char
    } else {
        c
    }
}

/// The extension of a path (`Path::extension`): the text after the last `.` of the file
/// name, unless the name is `..`, has no `.`, or has its only `.` in front.
pub open spec fn extension_of(path: Seq<char>) -> Option<Seq<char>> {
    let name = crate::segment::file_name(path);
    let dot = crate::segment::rfind(name, seq!['.']);
    if name == seq!['.', '.'] || dot <= 0 {
        None
    } else {
        Some(name.subrange(dot + 1, name.len() as int))
    }
}

/// The format an extension names, in any case: `zgx` and `zst`, `zip`, `rar`, `7z`.
pub open spec fn format_of_extension(ext: Seq<char>) -> Option<Format> {
    let l = ext.map_values(|c: char| lower(c));
    if l == seq!['z', 'g', 'x'] || l == seq!['z', 's', 't'] {
        Some(Format::Zgx)
    } else if l == seq!['z', 'i', 'p'] {
        Some(Format::Zip)
    } else if l == seq!['r', 'a', 'r'] {
        Some(Format::Rar)
    } else if l == seq!['7', 'z'] {
        Some(Format::SevenZ)
    } else {
        None
    }
}

/// Magic bytes first, the extension as a fallback.
pub open spec fn detected_format(head: Seq<u8>, path: Seq<char>) -> Option<Format> {
    match format_of_magic(head) {
        Some(f) => Some(f),
        None => match extension_of(path) {
            Some(e) => format_of_extension(e),
            None => None,
        },
    }
}

/// Start of the last occurrence of the character `c` in `s`.
fn rfind_char(s: &[char], c: char) -> (r: Option<usize>)
    ensures
        match r {
            Some(i) => i as int == crate::segment::rfind(s@, seq![c]),
            None => crate::segment::rfind(s@, seq![c]) == -1,
        },
{
    let mut k: usize = s.len();
    proof {
        assert(s@.take(s.len() as int) =~= s@);
    }
    while k > 0
        invariant
            k <= s.len(),
            crate::segment::rfind(s@, seq![c]) == crate::segment::rfind(s@.take(k as int), seq![c]),
        decreases k,
    {
        let ghost pre = s@.take(k as int);
        proof {
            assert(pre.drop_last() =~= s@.take(k - 1));
            assert(pre.subrange(pre.len() - 1, pre.len() as int) =~= seq![s@[k - 1]]);
            if pre.subrange(pre.len() - 1, pre.len() as int) == seq![c] {
                assert(seq![s@[k - 1]][0] == seq![c][0]);
            }
        }
        if s[k - 1] == c {
            return Some(k - 1);
        }
        k = k - 1;
    }
    proof {
        assert(s@.take(0).len() < seq![c].len());
    }
    None
}

/// The format of an archive, from the first bytes read from it (at most 8; none when it
/// could not be opened) and, failing those, its extension.
pub fn detect_format(head: &[u8], path: &str) -> (r: Option<Format>)
    ensures
        r == detected_format(head@, path@),
{
    if head.len() >= 4 {
        let mut b: Vec<u8> = vec![0u8; 8];
        let m: usize = if head.len() < 8 {
            head.len()
        } else {
            8
        };
        let mut i: usize = 0;
        while i < m
            invariant
                i <= m,
                m == if head.len() < 8 {
                    head.len()
                } else {
                    8
                },
                b.len() == 8,
                forall|k: int| 0 <= k < i ==> b@[k] == head@[k],
                forall|k: int| i <= k < 8 ==> b@[k] == 0,
            decreases m - i,
        {
            b.set(i, head[i]);
            i = i + 1;
        }
        proof {
            assert forall|k: int| 0 <= k < 8 implies b@[k] == probe_at(head@, k) by {
                if k < i {
                    assert(b@[k] == head@[k]);
                } else {
                    assert(b@[k] == 0);
                    assert(k >= head.len());
                }
            }
        }
        if b[0] == 0x50 && b[1] == 0x4b && (b[2] == 0x03 || b[2] == 0x05 || b[2] == 0x07) {
            return Some(Format::Zip);
        }
        if b[0] == 0x52 && b[1] == 0x61 && b[2] == 0x72 && b[3] == 0x21 && b[4] == 0x1a && b[5]
            == 0x07 {
            return Some(Format::Rar);
        }
        if b[0] == 0x37 && b[1] == 0x7a && b[2] == 0xbc && b[3] == 0xaf && b[4] == 0x27 && b[5]
            == 0x1c {
            return Some(Format::SevenZ);
        }
        if b[0] == 0x28 && b[1] == 0xb5 && b[2] == 0x2f && b[3] == 0xfd {
            return Some(Format::Zgx);
        }
        if b[0] == 0x4c && b[1] == 0x52 && b[2] == 0x47 && b[3] == 0x45 && b[4] == 0x58 {
            return Some(Format::Zgx);
        }
    }
    let cs = crate::text::chars_of(path);
    let name = crate::segment::file_name_chars(&cs);
    let n = name.len();
    let dot = rfind_char(name.as_slice(), '.');
    let is_dotdot = n == 2 && name[0] == '.' && name[1] == '.';
    proof {
        if name@ == seq!['.', '.'] {
            assert(name@[0] == '.' && name@[1] == '.');
        }
        if is_dotdot {
            assert(name@ =~= seq!['.', '.']);
        }
    }
    let d = match dot {
        Some(d) => d,
        None => {
            return None;
        },
    };
    if is_dotdot || d == 0 {
        return None;
    }
    proof {
        crate::segment::lemma_rfind_bounds(name@, seq!['.']);
    }
    let mut ext: Vec<char> = Vec::new();
    let mut j: usize = d + 1;
    while j < n
        invariant
            d + 1 <= j <= n,
            n == name.len(),
            ext@ == name@.subrange(d + 1, j as int).map_values(|c: char| lower(c)),
        decreases n - j,
    {
        let c = name[j];
        let lc = if c >= 'A' && c <= 'Z' {
            ((c as u8) + 32) as char
        } else {
            c
        };
        proof {
            if 'A' <= c && c <= 'Z' {
                assert(lc == lower(c));
            }
        }
        ext.push(lc);
        j = j + 1;
        proof {
            assert(ext@ =~= name@.subrange(d + 1, j as int).map_values(|c: char| lower(c)));
        }
    }
    let is3 = ext.len() == 3;
    if is3 && ((ext[0] == 'z' && ext[1] == 'g' && ext[2] == 'x') || (ext[0] == 'z' && ext[1] == 's'
        && ext[2] == 't')) {
        proof {
            assert(ext@ =~= seq!['z', 'g', 'x'] || ext@ =~= seq!['z', 's', 't']);
        }
        return Some(Format::Zgx);
    }
    if is3 && ext[0] == 'z' && ext[1] == 'i' && ext[2] == 'p' {
        proof {
            assert(ext@ =~= seq!['z', 'i', 'p']);
        }
        return Some(Format::Zip);
    }
    if is3 && ext[0] == 'r' && ext[1] == 'a' && ext[2] == 'r' {
        proof {
            assert(ext@ =~= seq!['r', 'a', 'r']);
        }
        return Some(Format::Rar);
    }
    if ext.len() == 2 && ext[0] == '7' && ext[1] == 'z' {
        proof {
            assert(ext@ =~= seq!['7', 'z']);
        }
        return Some(Format::SevenZ);
    }
    proof {
        let l = ext@;
        if l == seq!['z', 'g', 'x'] || l == seq!['z', 's', 't'] || l == seq!['z', 'i', 'p'] || l
            == seq!['r', 'a', 'r'] {
            assert(l.len() == 3);
            assert(l[0] == ext@[0] && l[1] == ext@[1] && l[2] == ext@[2]);
        }
        if l == seq!['7', 'z'] {
            assert(l.len() == 2);
            assert(l[0] == ext@[0] && l[1] == ext@[1]);
        }
    }
    None
}

// ─── byte helpers ───────────────────────────────────────────────────────────

/// Appends `b` to `v`.
fn append_bytes(v: &mut Vec<u8>, b: &[u8])
    ensures
        final(v)@ == old(v)@ + b@,
{
    let mut i: usize = 0;
    let ghost v0 = v@;
    while i < b.len()
        invariant
            i <= b.len(),
            v@ == v0 + b@.take(i as int),
        decreases b.len() - i,
    {
        v.push(b[i]);
        i = i + 1;
        proof {
            assert(v@ =~= v0 + b@.take(i as int));
        }
    }
    proof {
        assert(b@.take(b.len() as int) =~= b@);
    }
}

/// `std::str::from_utf8`: the text when the bytes are valid UTF-8.
#[verifier::external_body]
fn text_strict(bytes: &[u8]) -> (r: Option<String>)
    ensures
        match r {
            Some(s) => vstd::utf8::valid_utf8(bytes@) && s@ == vstd::utf8::decode_utf8(bytes@),
            None => !vstd::utf8::valid_utf8(bytes@),
        },
{
    match std::str::from_utf8(bytes) {
        Ok(s) => Some(s.to_string()),
        Err(_) => None,
    }
}

// ─── the v3 path index ──────────────────────────────────────────────────────

/// `zstd::stream::encode_all` of these bytes at this level.
pub uninterp spec fn zstd_encoded(data: Seq<u8>, level: i32) -> Seq<u8>;

/// `zstd::stream::decode_all` of these bytes: the decompressed data, or nothing when
/// they are not a valid zstd stream.
pub uninterp spec fn zstd_decoded(frame: Seq<u8>) -> Option<Seq<u8>>;

/// `zstd::stream::encode_all` (zstd 0.13) on an in-memory buffer. When it succeeds its
/// output is the named encoding, and decoding that output gives the input back. Whether
/// it succeeds is left unsaid: the crate passes on the error codes of the zstd library
/// and documents no input on which none can come.
#[verifier::external_body]
fn zstd_encode_all(data: &[u8], level: i32) -> (r: Option<Vec<u8>>)
    ensures
        match r {
            Some(v) => v@ == zstd_encoded(data@, level) && zstd_decoded(v@) == Some(data@),
            None => true,
        },
{
    zstd::stream::encode_all(data, level).ok()
}

/// `zstd::stream::decode_all` (zstd 0.13) on an in-memory buffer: the named decoding.
#[verifier::external_body]
fn zstd_decode_all(frame: &[u8]) -> (r: Option<Vec<u8>>)
    ensures
        match r {
            Some(v) => zstd_decoded(frame@) == Some(v@),
            None => zstd_decoded(frame@) is None,
        },
{
    zstd::stream::decode_all(frame).ok()
}

/// The uncompressed index: each path's UTF-8 bytes followed by a NUL.
pub open spec fn index_raw(paths: Seq<Seq<char>>) -> Seq<u8>
    decreases paths.len(),
{
    if paths.len() == 0 {
        Seq::empty()
    } else {
        index_raw(paths.drop_last()) + vstd::utf8::encode_utf8(paths.last()) + seq![0u8]
    }
}

/// Archive paths use forward slashes: backslashes become `/`.
pub open spec fn slashed(p: Seq<char>) -> Seq<char> {
    p.map_values(|c: char| if c == '\\' {
        '/'
    } else {
        c
    })
}

/// A path as it is stored in the archive: backslashes replaced by `/`.
pub fn archive_path(p: &str) -> (r: String)
    ensures
        r@ == slashed(p@),
{
    let cs = crate::text::chars_of(p);
    let mut out: Vec<char> = Vec::new();
    let mut i: usize = 0;
    while i < cs.len()
        invariant
            i <= cs.len(),
            out@ == slashed(cs@.take(i as int)),
        decreases cs.len() - i,
    {
        out.push(if cs[i] == '\\' {
            '/'
        } else {
            cs[i]
        });
        i = i + 1;
        proof {
            assert(out@ =~= slashed(cs@.take(i as int)));
        }
    }
    proof {
        assert(cs@.take(cs.len() as int) =~= cs@);
    }
    crate::text::string_from_chars(out.as_slice())
}

/// The uncompressed path index of these archive paths.
pub fn path_index_raw(paths: &Vec<String>) -> (r: Vec<u8>)
    ensures
        r@ == index_raw(paths@.map_values(|s: String| s@)),
{
    let ghost pv = paths@.map_values(|s: String| s@);
    let mut raw: Vec<u8> = Vec::new();
    let mut i: usize = 0;
    while i < paths.len()
        invariant
            i <= paths.len(),
            pv == paths@.map_values(|s: String| s@),
            raw@ == index_raw(pv.take(i as int)),
        decreases paths.len() - i,
    {
        let b = paths[i].as_str().as_bytes();
        append_bytes(&mut raw, b);
        raw.push(0u8);
        proof {
            let t = pv.take(i + 1);
            assert(t.drop_last() =~= pv.take(i as int));
            assert(t.last() == paths@[i as int]@);
            assert(raw@ =~= index_raw(t));
        }
        i = i + 1;
    }
    proof {
        assert(pv.take(paths.len() as int) =~= pv);
    }
    raw
}

/// The compressed path index (zstd level 3) of these archive paths, when compression
/// succeeds; it decompresses to the uncompressed index.
pub fn build_path_index(paths: &Vec<String>) -> (r: Option<Vec<u8>>)
    ensures
        match r {
            Some(v) => {
                &&& v@ == zstd_encoded(index_raw(paths@.map_values(|s: String| s@)), 3)
                &&& zstd_decoded(v@) == Some(index_raw(paths@.map_values(|s: String| s@)))
            },
            None => true,
        },
{
    let raw = path_index_raw(paths);
    zstd_encode_all(raw.as_slice(), 3)
}

/// The pieces of `s` between NUL bytes, empty pieces included.
pub open spec fn nul_pieces(s: Seq<u8>) -> Seq<Seq<u8>>
    decreases s.len(),
{
    if s.len() == 0 {
        seq![Seq::empty()]
    } else {
        let r = nul_pieces(s.drop_last());
        if s.last() == 0 {
            r.push(Seq::empty())
        } else {
            r.update(r.len() - 1, r.last().push(s.last()))
        }
    }
}

/// The non-empty pieces, in order.
pub open spec fn nonempty(ps: Seq<Seq<u8>>) -> Seq<Seq<u8>>
    decreases ps.len(),
{
    if ps.len() == 0 {
        Seq::empty()
    } else if ps.last().len() > 0 {
        nonempty(ps.drop_last()).push(ps.last())
    } else {
        nonempty(ps.drop_last())
    }
}

/// The paths an uncompressed index lists: its non-empty NUL-separated pieces, as text.
pub open spec fn index_paths(raw: Seq<u8>) -> Seq<Seq<char>> {
    nonempty(nul_pieces(raw)).map_values(|b: Seq<u8>| crate::text::lossy_text(b))
}

proof fn lemma_nul_pieces_nonempty(s: Seq<u8>)
    ensures
        nul_pieces(s).len() > 0,
    decreases s.len(),
{
    if s.len() > 0 {
        lemma_nul_pieces_nonempty(s.drop_last());
    }
}

/// Splits an uncompressed index into its non-empty NUL-separated pieces.
fn index_pieces(raw: &[u8]) -> (r: Vec<Vec<u8>>)
    ensures
        r@.map_values(|v: Vec<u8>| v@) == nonempty(nul_pieces(raw@)),
{
    let mut done: Vec<Vec<u8>> = Vec::new();
    let mut cur: Vec<u8> = Vec::new();
    let mut i: usize = 0;
    proof {
        assert(raw@.take(0) =~= Seq::<u8>::empty());
        assert(done@.map_values(|v: Vec<u8>| v@) =~= nonempty(nul_pieces(raw@.take(0)).drop_last()));
    }
    while i < raw.len()
        invariant
            i <= raw.len(),
            done@.map_values(|v: Vec<u8>| v@) == nonempty(nul_pieces(raw@.take(i as int)).drop_last()),
            cur@ == nul_pieces(raw@.take(i as int)).last(),
        decreases raw.len() - i,
    {
        let c = raw[i];
        let ghost pre = raw@.take(i as int);
        let ghost r = nul_pieces(pre);
        proof {
            assert(raw@.take(i + 1).drop_last() =~= pre);
            assert(raw@.take(i + 1).last() == c);
            lemma_nul_pieces_nonempty(pre);
        }
        if c == 0 {
            if cur.len() > 0 {
                done.push(cur);
            }
            cur = Vec::new();
            proof {
                let r2 = nul_pieces(raw@.take(i + 1));
                assert(r2.drop_last() =~= r);
                assert(r =~= r.drop_last().push(r.last()));
                assert(done@.map_values(|v: Vec<u8>| v@) =~= nonempty(r2.drop_last()));
            }
        } else {
            cur.push(c);
            proof {
                let r2 = nul_pieces(raw@.take(i + 1));
                assert(r2.drop_last() =~= r.drop_last());
            }
        }
        i = i + 1;
    }
    proof {
        assert(raw@.take(raw.len() as int) =~= raw@);
        lemma_nul_pieces_nonempty(raw@);
        let r = nul_pieces(raw@);
        assert(r =~= r.drop_last().push(r.last()));
    }
    if cur.len() > 0 {
        done.push(cur);
    }
    proof {
        assert(done@.map_values(|v: Vec<u8>| v@) =~= nonempty(nul_pieces(raw@)));
    }
    done
}

/// The paths listed in an uncompressed index.
pub fn parse_path_index(raw: &[u8]) -> (r: Vec<String>)
    ensures
        r@.map_values(|s: String| s@) == index_paths(raw@),
{
    let pieces = index_pieces(raw);
    let ghost pv = pieces@.map_values(|v: Vec<u8>| v@);
    let mut out: Vec<String> = Vec::new();
    let mut i: usize = 0;
    while i < pieces.len()
        invariant
            i <= pieces.len(),
            pv == pieces@.map_values(|v: Vec<u8>| v@),
            pv == nonempty(nul_pieces(raw@)),
            out@.map_values(|s: String| s@) == pv.take(i as int).map_values(|b: Seq<u8>| crate::text::lossy_text(b)),
        decreases pieces.len() - i,
    {
        let t = crate::text::text_lossy(pieces[i].as_slice());
        let ghost before = out@;
        out.push(t);
        proof {
            assert(pv[i as int] == pieces@[i as int]@);
            assert(pv.take(i + 1) =~= pv.take(i as int).push(pv[i as int]));
            assert(pv.take(i + 1).map_values(|b: Seq<u8>| crate::text::lossy_text(b)) =~= pv.take(
                i as int,
            ).map_values(|b: Seq<u8>| crate::text::lossy_text(b)).push(crate::text::lossy_text(pv[i as int])));
            assert(out@ == before.push(t));
            assert(out@.map_values(|s: String| s@) =~= before.map_values(|s: String| s@).push(t@));
            assert(out@.map_values(|s: String| s@) =~= pv.take(i + 1).map_values(|b: Seq<u8>| crate::text::lossy_text(b)));
        }
        i = i + 1;
    }
    proof {
        assert(pv.take(pieces.len() as int) =~= pv);
    }
    out
}

/// The length of the path index a v3 header announces; nothing for other headers.
pub open spec fn index_len_of(head: Seq<u8>) -> Option<u64> {
    if head.len() >= 22 && has_at(head, 0, lrgex_magic()) && head[5] == 3 {
        Some(spec_u64_from_le_bytes(head.subrange(14, 22)))
    } else {
        None
    }
}

/// The length of the compressed path index from the first 22 bytes of a `.zgx`; v1 and
/// legacy archives have none.
pub fn path_index_len(head: &[u8]) -> (r: Option<u64>)
    ensures
        r == index_len_of(head@),
{
    let magic = magic_bytes();
    if head.len() >= 22 && bytes_at(head, 0, magic.as_slice()) && head[5] == 3 {
        Some(le_u64_at(head, 14))
    } else {
        None
    }
}

/// The paths listed in a compressed path index; nothing when it does not decompress.
pub fn read_path_index(index: &[u8]) -> (r: Option<Vec<String>>)
    ensures
        match r {
            Some(ps) => match zstd_decoded(index@) {
                Some(raw) => ps@.map_values(|s: String| s@) == index_paths(raw),
                None => false,
            },
            None => zstd_decoded(index@) is None,
        },
{
    match zstd_decode_all(index) {
        Some(raw) => Some(parse_path_index(raw.as_slice())),
        None => None,
    }
}

/// The v3 header: `LRGEX`, 0x03, the total, the index length, then the index.
pub open spec fn v3_header_bytes(total: u64, index: Seq<u8>) -> Seq<u8> {
    lrgex_magic() + seq![3u8] + spec_u64_to_le_bytes(total) + spec_u64_to_le_bytes(
        index.len() as u64,
    ) + index
}

/// The bytes written before the stream of a v3 archive.
pub fn v3_header(total: u64, index: &[u8]) -> (r: Vec<u8>)
    requires
        index.len() <= u64::MAX,
    ensures
        r@ == v3_header_bytes(total, index@),
{
    let mut out = magic_bytes();
    out.push(3u8);
    let t = u64_to_le_bytes(total);
    append_bytes(&mut out, t.as_slice());
    let l = u64_to_le_bytes(index.len() as u64);
    append_bytes(&mut out, l.as_slice());
    append_bytes(&mut out, index);
    proof {
        assert(out@ =~= v3_header_bytes(total, index@));
    }
    out
}

/// A v3 header reads back: the stream starts after the header and the index, and the
/// index length is announced.
pub proof fn law_v3_header_roundtrip(total: u64, index: Seq<u8>)
    requires
        index.len() + 22 <= u64::MAX,
    ensures
        stream_start_of(v3_header_bytes(total, index).take(22)) == Ok::<u64, StreamStartError>(
            (22 + index.len()) as u64,
        ),
        index_len_of(v3_header_bytes(total, index).take(22)) == Some(index.len() as u64),
{
    vstd::bytes::lemma_auto_spec_u64_to_from_le_bytes();
    let h = v3_header_bytes(total, index);
    let t = h.take(22);
    assert(t.subrange(0, 5) =~= lrgex_magic());
    assert(t.subrange(14, 22) =~= spec_u64_to_le_bytes(index.len() as u64));
}

proof fn lemma_nul_pieces_append_plain(a: Seq<u8>, e: Seq<u8>)
    requires
        !e.contains(0u8),
    ensures
        nul_pieces(a + e) == nul_pieces(a).update(
            nul_pieces(a).len() - 1,
            nul_pieces(a).last() + e,
        ),
    decreases e.len(),
{
    lemma_nul_pieces_nonempty(a);
    if e.len() == 0 {
        assert(a + e =~= a);
        assert(nul_pieces(a).last() + e =~= nul_pieces(a).last());
        assert(nul_pieces(a).update(nul_pieces(a).len() - 1, nul_pieces(a).last()) =~= nul_pieces(a));
    } else {
        let e1 = e.drop_last();
        assert(!e1.contains(0u8)) by {
            if e1.contains(0u8) {
                let i = choose|i: int| 0 <= i < e1.len() && e1[i] == 0u8;
                assert(e[i] == 0u8);
            }
        }
        lemma_nul_pieces_append_plain(a, e1);
        assert((a + e).drop_last() =~= a + e1);
        assert((a + e).last() == e.last());
        assert(e.last() != 0u8) by {
            assert(e[e.len() - 1] == e.last());
        }
        let r = nul_pieces(a);
        let r1 = nul_pieces(a + e1);
        assert(r1.len() == r.len());
        assert(r1.last() == r.last() + e1);
        assert((r.last() + e1).push(e.last()) =~= r.last() + e);
        assert(nul_pieces(a + e) == r1.update(r1.len() - 1, r1.last().push(e.last())));
        assert(nul_pieces(a + e) =~= r.update(r.len() - 1, r.last() + e));
    }
}

proof fn lemma_index_pieces(paths: Seq<Seq<char>>)
    requires
        forall|i: int|
            0 <= i < paths.len() ==> vstd::utf8::encode_utf8(#[trigger] paths[i]).len() > 0
                && !vstd::utf8::encode_utf8(paths[i]).contains(0u8),
    ensures
        nonempty(nul_pieces(index_raw(paths))) == paths.map_values(
            |p: Seq<char>| vstd::utf8::encode_utf8(p),
        ),
        nul_pieces(index_raw(paths)).last().len() == 0,
    decreases paths.len(),
{
    if paths.len() == 0 {
        assert(nul_pieces(Seq::<u8>::empty()) =~= seq![Seq::<u8>::empty()]);
        let one = seq![Seq::<u8>::empty()];
        assert(one.drop_last() =~= Seq::<Seq<u8>>::empty());
        assert(one.last().len() == 0);
        assert(nonempty(one.drop_last()).len() == 0);
        assert(nonempty(one) == nonempty(one.drop_last()));
        assert(nonempty(one) =~= Seq::<Seq<u8>>::empty());
        assert(paths.map_values(|p: Seq<char>| vstd::utf8::encode_utf8(p)) =~= Seq::<Seq<u8>>::empty());
    } else {
        let ps = paths.drop_last();
        assert forall|i: int| 0 <= i < ps.len() implies vstd::utf8::encode_utf8(#[trigger] ps[i]).len()
            > 0 && !vstd::utf8::encode_utf8(ps[i]).contains(0u8) by {
            assert(ps[i] == paths[i]);
        }
        lemma_index_pieces(ps);
        let a = index_raw(ps);
        let e = vstd::utf8::encode_utf8(paths.last());
        assert(paths.last() == paths[paths.len() - 1]);
        lemma_nul_pieces_append_plain(a, e);
        let r = nul_pieces(a);
        lemma_nul_pieces_nonempty(a);
        let r1 = nul_pieces(a + e);
        assert(r.last() + e =~= e);
        let full = index_raw(paths);
        assert(full =~= (a + e) + seq![0u8]);
        assert(full.drop_last() =~= a + e);
        assert(full.last() == 0u8);
        let r2 = nul_pieces(full);
        assert(r2 == r1.push(Seq::<u8>::empty()));
        assert(r1 =~= r.drop_last().push(e));
        assert(r2.drop_last() =~= r1);
        assert(nonempty(r2) == nonempty(r1));
        assert(r1.drop_last() =~= r.drop_last());
        assert(nonempty(r1) == nonempty(r.drop_last()).push(e));
        assert(r =~= r.drop_last().push(r.last()));
        assert(nonempty(r) == nonempty(r.drop_last()));
        assert(paths.map_values(|p: Seq<char>| vstd::utf8::encode_utf8(p)) =~= ps.map_values(
            |p: Seq<char>| vstd::utf8::encode_utf8(p),
        ).push(e));
    }
}

/// Reading an uncompressed index gives back the paths written into it, for non-empty
/// paths without NUL bytes.
pub proof fn law_path_index_roundtrip(paths: Seq<Seq<char>>)
    requires
        forall|i: int|
            0 <= i < paths.len() ==> vstd::utf8::encode_utf8(#[trigger] paths[i]).len() > 0
                && !vstd::utf8::encode_utf8(paths[i]).contains(0u8),
    ensures
        index_paths(index_raw(paths)) == paths,
{
    lemma_index_pieces(paths);
    let bs = paths.map_values(|p: Seq<char>| vstd::utf8::encode_utf8(p));
    assert forall|i: int| 0 <= i < paths.len() implies crate::text::lossy_text(#[trigger] bs[i]) == paths[i] by {
        vstd::utf8::encode_utf8_valid_utf8(paths[i]);
        vstd::utf8::encode_utf8_decode_utf8(paths[i]);
    }
    assert(index_paths(index_raw(paths)) =~= paths);
}

// ─── the metadata sidecar ───────────────────────────────────────────────────

/// `.lrgex/meta.bin`
pub open spec fn sidecar_path_spec() -> Seq<char> {
    seq!['.', 'l', 'r', 'g', 'e', 'x', '/', 'm', 'e', 't', 'a', '.', 'b', 'i', 'n']
}

/// The tar path of the sidecar entry, the first entry of the stream.
pub fn sidecar_path() -> (r: &'static str)
    ensures
        r@ == sidecar_path_spec(),
{
    let p = ".lrgex/meta.bin";
    proof {
        reveal_strlit(".lrgex/meta.bin");
        assert(p@ =~= sidecar_path_spec());
    }
    p
}

/// Creation time and raw attributes of one archived path.
#[derive(Debug, Clone, PartialEq)]
pub struct SidecarRecord {
    pub path: String,
    pub ctime: u64,
    pub attrs: u32,
}

/// A record's view: path, creation time, attributes.
pub open spec fn record_view(r: SidecarRecord) -> (Seq<char>, u64, u32) {
    (r.path@, r.ctime, r.attrs)
}

/// One packed record: path length (u16), path bytes, creation time (u64), attributes (u32),
/// little-endian.
pub open spec fn record_bytes(k: (Seq<u8>, u64, u32)) -> Seq<u8> {
    spec_u16_to_le_bytes(k.0.len() as u16) + k.0 + spec_u64_to_le_bytes(k.1) + spec_u32_to_le_bytes(
        k.2,
    )
}

/// The records that are written: each path with `/` separators as UTF-8, when it has at
/// most 65535 bytes (longer paths get no record).
pub open spec fn kept_records(rs: Seq<(Seq<char>, u64, u32)>) -> Seq<(Seq<u8>, u64, u32)>
    decreases rs.len(),
{
    if rs.len() == 0 {
        Seq::empty()
    } else {
        let k = kept_records(rs.drop_last());
        let b = vstd::utf8::encode_utf8(slashed(rs.last().0));
        if b.len() <= 0xffff {
            k.push((b, rs.last().1, rs.last().2))
        } else {
            k
        }
    }
}

/// The packed records, in order.
pub open spec fn records_bytes(ks: Seq<(Seq<u8>, u64, u32)>) -> Seq<u8>
    decreases ks.len(),
{
    if ks.len() == 0 {
        Seq::empty()
    } else {
        records_bytes(ks.drop_last()) + record_bytes(ks.last())
    }
}

/// The sidecar body: the number of records written (u32), then the records.
pub open spec fn sidecar_bytes(rs: Seq<(Seq<char>, u64, u32)>) -> Seq<u8> {
    spec_u32_to_le_bytes(kept_records(rs).len() as u32) + records_bytes(kept_records(rs))
}

proof fn lemma_kept_records_len(rs: Seq<(Seq<char>, u64, u32)>)
    ensures
        kept_records(rs).len() <= rs.len(),
    decreases rs.len(),
{
    if rs.len() > 0 {
        lemma_kept_records_len(rs.drop_last());
    }
}

/// Packs the creation times and attributes of the archived paths into the sidecar body.
pub fn build_sidecar(records: &Vec<SidecarRecord>) -> (r: Vec<u8>)
    requires
        records.len() <= u32::MAX,
    ensures
        r@ == sidecar_bytes(records@.map_values(|x: SidecarRecord| record_view(x))),
{
    let ghost rv = records@.map_values(|x: SidecarRecord| record_view(x));
    let mut body: Vec<u8> = Vec::new();
    let mut written: u32 = 0;
    let mut i: usize = 0;
    while i < records.len()
        invariant
            i <= records.len(),
            records.len() <= u32::MAX,
            rv == records@.map_values(|x: SidecarRecord| record_view(x)),
            written as nat == kept_records(rv.take(i as int)).len(),
            written <= i,
            body@ == records_bytes(kept_records(rv.take(i as int))),
        decreases records.len() - i,
    {
        let ghost before = rv.take(i as int);
        proof {
            assert(rv.take(i + 1).drop_last() =~= before);
            assert(rv.take(i + 1).last() == record_view(records@[i as int]));
        }
        let p = archive_path(records[i].path.as_str());
        let pb = p.as_str().as_bytes();
        if pb.len() <= 0xffff {
            let lb = u16_to_le_bytes(pb.len() as u16);
            append_bytes(&mut body, lb.as_slice());
            append_bytes(&mut body, pb);
            let cb = u64_to_le_bytes(records[i].ctime);
            append_bytes(&mut body, cb.as_slice());
            let ab = u32_to_le_bytes(records[i].attrs);
            append_bytes(&mut body, ab.as_slice());
            written = written + 1;
            proof {
                let k = kept_records(before);
                let x = (pb@, records@[i as int].ctime, records@[i as int].attrs);
                assert(kept_records(rv.take(i + 1)) == k.push(x));
                assert(k.push(x).drop_last() =~= k);
                assert(body@ =~= records_bytes(k.push(x)));
            }
        }
        i = i + 1;
    }
    proof {
        assert(rv.take(records.len() as int) =~= rv);
    }
    let mut out = u32_to_le_bytes(written);
    append_bytes(&mut out, body.as_slice());
    out
}

/// The packed records read from `pos` on, at most `remaining` of them; reading stops at
/// a record that would run past the end.
pub open spec fn parse_records(body: Seq<u8>, pos: int, remaining: nat) -> Seq<(Seq<u8>, u64, u32)>
    decreases remaining,
{
    if remaining == 0 || pos < 0 || pos + 2 > body.len() {
        Seq::empty()
    } else {
        let plen = spec_u16_from_le_bytes(body.subrange(pos, pos + 2)) as int;
        let p = pos + 2;
        if p + plen + 12 > body.len() {
            Seq::empty()
        } else {
            seq![
                (
                    body.subrange(p, p + plen),
                    spec_u64_from_le_bytes(body.subrange(p + plen, p + plen + 8)),
                    spec_u32_from_le_bytes(body.subrange(p + plen + 8, p + plen + 12)),
                ),
            ] + parse_records(body, p + plen + 12, (remaining - 1) as nat)
        }
    }
}

/// The raw records of a sidecar body: as many as its count announces and the body holds.
pub open spec fn sidecar_entries(body: Seq<u8>) -> Seq<(Seq<u8>, u64, u32)> {
    if body.len() < 4 {
        Seq::empty()
    } else {
        parse_records(body, 4, spec_u32_from_le_bytes(body.subrange(0, 4)) as nat)
    }
}

/// The records whose path is valid UTF-8, as text.
pub open spec fn text_records(es: Seq<(Seq<u8>, u64, u32)>) -> Seq<(Seq<char>, u64, u32)>
    decreases es.len(),
{
    if es.len() == 0 {
        Seq::empty()
    } else {
        let k = text_records(es.drop_last());
        let e = es.last();
        if vstd::utf8::valid_utf8(e.0) {
            k.push((vstd::utf8::decode_utf8(e.0), e.1, e.2))
        } else {
            k
        }
    }
}

/// Reads the sidecar body back into records; malformed tails are dropped and paths that
/// are not UTF-8 are skipped.
pub fn parse_sidecar(body: &[u8]) -> (r: Vec<SidecarRecord>)
    ensures
        r@.map_values(|x: SidecarRecord| record_view(x)) == text_records(sidecar_entries(body@)),
{
    let mut out: Vec<SidecarRecord> = Vec::new();
    if body.len() < 4 {
        proof {
            assert(out@.map_values(|x: SidecarRecord| record_view(x)) =~= Seq::<(Seq<char>, u64, u32)>::empty());
        }
        return out;
    }
    let count = u32_from_le_bytes(vstd::slice::slice_subrange(body, 0, 4));
    let ghost full = parse_records(body@, 4, count as nat);
    let ghost mut acc: Seq<(Seq<u8>, u64, u32)> = Seq::empty();
    let mut pos: usize = 4;
    let mut left: u32 = count;
    proof {
        assert(acc + full =~= full);
    }
    while left > 0
        invariant
            4 <= pos <= body.len(),
            full == parse_records(body@, 4, count as nat),
            acc + parse_records(body@, pos as int, left as nat) == full,
            left == 0 ==> acc == full,
            out@.map_values(|x: SidecarRecord| record_view(x)) == text_records(acc),
        ensures
            out@.map_values(|x: SidecarRecord| record_view(x)) == text_records(full),
        decreases left,
    {
        if body.len() - pos < 2 {
            proof {
                assert(parse_records(body@, pos as int, left as nat) =~= Seq::empty());
                assert(acc =~= full);
            }
            break;
        }
        let plen = u16_from_le_bytes(vstd::slice::slice_subrange(body, pos, pos + 2)) as usize;
        let p = pos + 2;
        if body.len() - p < plen || body.len() - p - plen < 12 {
            proof {
                assert(parse_records(body@, pos as int, left as nat) =~= Seq::empty());
                assert(acc =~= full);
            }
            break;
        }
        let pbytes = vstd::slice::slice_subrange(body, p, p + plen);
        let ctime = u64_from_le_bytes(vstd::slice::slice_subrange(body, p + plen, p + plen + 8));
        let attrs = u32_from_le_bytes(vstd::slice::slice_subrange(body, p + plen + 8, p + plen + 12));
        let ghost e = (pbytes@, ctime, attrs);
        proof {
            let rest = parse_records(body@, (p + plen + 12) as int, (left - 1) as nat);
            assert(parse_records(body@, pos as int, left as nat) == seq![e] + rest);
            assert(acc + (seq![e] + rest) =~= acc.push(e) + rest);
            assert(acc.push(e).drop_last() =~= acc);
        }
        match text_strict(pbytes) {
            Some(t) => {
                out.push(SidecarRecord { path: t, ctime, attrs });
                proof {
                    assert(out@.map_values(|x: SidecarRecord| record_view(x)) =~= text_records(acc).push(
                        (vstd::utf8::decode_utf8(pbytes@), ctime, attrs),
                    ));
                }
            },
            None => {},
        }
        proof {
            acc = acc.push(e);
        }
        pos = p + plen + 12;
        left = left - 1;
        proof {
            if left == 0 {
                assert(parse_records(body@, pos as int, 0) =~= Seq::<(Seq<u8>, u64, u32)>::empty());
                assert(acc + Seq::<(Seq<u8>, u64, u32)>::empty() =~= acc);
            }
        }
    }
    out
}

/// The sidecar lookup for one path: the last record whose path names the same path
/// (compared component by component), else zeros (the later record of a path wins, as in
/// a map keyed by paths).
pub open spec fn lookup_spec(rs: Seq<(Seq<char>, u64, u32)>, key: Seq<char>) -> (u64, u32)
    decreases rs.len(),
{
    if rs.len() == 0 {
        (0, 0)
    } else if crate::winpath::same_path(rs.last().0, key) {
        (rs.last().1, rs.last().2)
    } else {
        lookup_spec(rs.drop_last(), key)
    }
}

/// The sidecar record found for a path is that path's own: the last record whose path has
/// the same prefix, root and components as the key (never one for a folder's file or a
/// file's folder), or zeros when no record names the key.
pub proof fn law_sidecar_lookup_own_record(rs: Seq<(Seq<char>, u64, u32)>, key: Seq<char>)
    ensures
        ({
            let k = crate::winpath::parse(key);
            let names_key = |p: Seq<char>|
                crate::winpath::prefix_key(crate::winpath::parse(p).prefix) == crate::winpath::prefix_key(
                    k.prefix,
                ) && crate::winpath::parse(p).root == k.root && crate::winpath::parse(p).pieces
                    == k.pieces;
            ||| exists|i: int|
                0 <= i < rs.len() && names_key(#[trigger] rs[i].0) && lookup_spec(rs, key) == (
                    rs[i].1,
                    rs[i].2,
                ) && forall|j: int| i < j < rs.len() ==> !names_key(#[trigger] rs[j].0)
            ||| lookup_spec(rs, key) == (0u64, 0u32) && forall|i: int|
                0 <= i < rs.len() ==> !names_key(#[trigger] rs[i].0)
        }),
    decreases rs.len(),
{
    let k = crate::winpath::parse(key);
    let names_key = |p: Seq<char>|
        crate::winpath::prefix_key(crate::winpath::parse(p).prefix) == crate::winpath::prefix_key(
            k.prefix,
        ) && crate::winpath::parse(p).root == k.root && crate::winpath::parse(p).pieces == k.pieces;
    if rs.len() > 0 {
        let n = rs.len() - 1;
        crate::winpath::law_same_path_exact(rs[n].0, key);
        if crate::winpath::same_path(rs[n].0, key) {
            assert(names_key(rs[n].0));
        } else {
            law_sidecar_lookup_own_record(rs.drop_last(), key);
            let d = rs.drop_last();
            if exists|i: int|
                0 <= i < d.len() && names_key(#[trigger] d[i].0) && lookup_spec(d, key) == (
                    d[i].1,
                    d[i].2,
                ) && forall|j: int| i < j < d.len() ==> !names_key(#[trigger] d[j].0) {
                let i = choose|i: int|
                    0 <= i < d.len() && names_key(#[trigger] d[i].0) && lookup_spec(d, key) == (
                        d[i].1,
                        d[i].2,
                    ) && forall|j: int| i < j < d.len() ==> !names_key(#[trigger] d[j].0);
                assert(rs[i] == d[i]);
                assert forall|j: int| i < j < rs.len() implies !names_key(#[trigger] rs[j].0) by {
                    if j < n {
                        assert(rs[j] == d[j]);
                    }
                }
            } else {
                assert forall|i: int| 0 <= i < rs.len() implies !names_key(#[trigger] rs[i].0) by {
                    if i < n {
                        assert(rs[i] == d[i]);
                    }
                }
            }
        }
    }
}

/// The creation time and attributes the sidecar records for a path (zeros when none).
pub fn sidecar_lookup(records: &Vec<SidecarRecord>, key: &str) -> (r: (u64, u32))
    ensures
        r == lookup_spec(records@.map_values(|x: SidecarRecord| record_view(x)), key@),
{
    let ghost rv = records@.map_values(|x: SidecarRecord| record_view(x));
    let mut k: usize = records.len();
    proof {
        assert(rv.take(records.len() as int) =~= rv);
    }
    while k > 0
        invariant
            k <= records.len(),
            rv == records@.map_values(|x: SidecarRecord| record_view(x)),
            lookup_spec(rv, key@) == lookup_spec(rv.take(k as int), key@),
        decreases k,
    {
        proof {
            assert(rv.take(k as int).drop_last() =~= rv.take(k - 1));
            assert(rv.take(k as int).last() == record_view(records@[k - 1]));
        }
        if crate::winpath::paths_equal(records[k - 1].path.as_str(), key) {
            return (records[k - 1].ctime, records[k - 1].attrs);
        }
        k = k - 1;
    }
    (0, 0)
}

proof fn lemma_records_bytes_front(ks: Seq<(Seq<u8>, u64, u32)>)
    requires
        ks.len() > 0,
    ensures
        records_bytes(ks) == record_bytes(ks[0]) + records_bytes(ks.drop_first()),
    decreases ks.len(),
{
    if ks.len() == 1 {
        assert(ks.drop_last() =~= Seq::<(Seq<u8>, u64, u32)>::empty());
        assert(ks.drop_first() =~= Seq::<(Seq<u8>, u64, u32)>::empty());
        assert(records_bytes(ks.drop_last()) =~= Seq::<u8>::empty());
        assert(ks.last() == ks[0]);
        assert(records_bytes(ks) =~= record_bytes(ks[0]));
        assert(records_bytes(ks.drop_first()) =~= Seq::<u8>::empty());
        assert(records_bytes(ks) =~= record_bytes(ks[0]) + records_bytes(ks.drop_first()));
    } else {
        lemma_records_bytes_front(ks.drop_last());
        assert(ks.drop_last().drop_first() =~= ks.drop_first().drop_last());
        assert(ks.drop_first().last() == ks.last());
        assert(ks.drop_last()[0] == ks[0]);
        assert(records_bytes(ks) =~= record_bytes(ks[0]) + records_bytes(ks.drop_first()));
    }
}

proof fn lemma_parse_records(h: Seq<u8>, ks: Seq<(Seq<u8>, u64, u32)>)
    requires
        forall|i: int| 0 <= i < ks.len() ==> (#[trigger] ks[i]).0.len() <= 0xffff,
    ensures
        parse_records(h + records_bytes(ks), h.len() as int, ks.len()) == ks,
    decreases ks.len(),
{
    vstd::bytes::lemma_auto_spec_u16_to_from_le_bytes();
    vstd::bytes::lemma_auto_spec_u32_to_from_le_bytes();
    vstd::bytes::lemma_auto_spec_u64_to_from_le_bytes();
    if ks.len() > 0 {
        lemma_records_bytes_front(ks);
        let k0 = ks[0];
        let rb = record_bytes(k0);
        let rest = ks.drop_first();
        assert forall|i: int| 0 <= i < rest.len() implies (#[trigger] rest[i]).0.len() <= 0xffff by {
            assert(rest[i] == ks[i + 1]);
        }
        lemma_parse_records(h + rb, rest);
        let body = h + records_bytes(ks);
        assert(body =~= (h + rb) + records_bytes(rest));
        let pos = h.len() as int;
        let plen = k0.0.len() as int;
        assert((k0.0.len() as u16) as int == plen);
        assert(body.subrange(pos, pos + 2) =~= spec_u16_to_le_bytes(k0.0.len() as u16));
        let p = pos + 2;
        assert(body.subrange(p, p + plen) =~= k0.0);
        assert(body.subrange(p + plen, p + plen + 8) =~= spec_u64_to_le_bytes(k0.1));
        assert(body.subrange(p + plen + 8, p + plen + 12) =~= spec_u32_to_le_bytes(k0.2));
        assert((h + rb).len() == p + plen + 12);
        assert(parse_records(body, pos, ks.len()) =~= seq![k0] + rest);
        assert(seq![k0] + rest =~= ks);
    }
}

proof fn lemma_text_records_kept(rs: Seq<(Seq<char>, u64, u32)>)
    ensures
        text_records(kept_records(rs)) == kept_text(rs),
    decreases rs.len(),
{
    if rs.len() > 0 {
        lemma_text_records_kept(rs.drop_last());
        let k = kept_records(rs.drop_last());
        let b = vstd::utf8::encode_utf8(slashed(rs.last().0));
        vstd::utf8::encode_utf8_valid_utf8(slashed(rs.last().0));
        vstd::utf8::encode_utf8_decode_utf8(slashed(rs.last().0));
        if b.len() <= 0xffff {
            assert(k.push((b, rs.last().1, rs.last().2)).drop_last() =~= k);
        }
    }
}

/// The records written into the sidecar, as text: each path with `/` separators, those
/// whose UTF-8 exceeds 65535 bytes left out.
pub open spec fn kept_text(rs: Seq<(Seq<char>, u64, u32)>) -> Seq<(Seq<char>, u64, u32)>
    decreases rs.len(),
{
    if rs.len() == 0 {
        Seq::empty()
    } else {
        let k = kept_text(rs.drop_last());
        if vstd::utf8::encode_utf8(slashed(rs.last().0)).len() <= 0xffff {
            k.push((slashed(rs.last().0), rs.last().1, rs.last().2))
        } else {
            k
        }
    }
}

proof fn lemma_kept_short(rs: Seq<(Seq<char>, u64, u32)>)
    ensures
        forall|i: int|
            0 <= i < kept_records(rs).len() ==> (#[trigger] kept_records(rs)[i]).0.len() <= 0xffff,
    decreases rs.len(),
{
    if rs.len() > 0 {
        lemma_kept_short(rs.drop_last());
        let k = kept_records(rs.drop_last());
        assert forall|i: int| 0 <= i < kept_records(rs).len() implies (#[trigger] kept_records(
            rs,
        )[i]).0.len() <= 0xffff by {
            if i < k.len() {
                assert(kept_records(rs)[i] == k[i]);
            }
        }
    }
}

/// Reading the sidecar back gives every record written: the paths with `/` separators,
/// paths of more than 65535 bytes left out.
pub proof fn law_sidecar_roundtrip(rs: Seq<(Seq<char>, u64, u32)>)
    requires
        rs.len() <= u32::MAX,
    ensures
        text_records(sidecar_entries(sidecar_bytes(rs))) == kept_text(rs),
{
    vstd::bytes::lemma_auto_spec_u32_to_from_le_bytes();
    lemma_kept_records_len(rs);
    lemma_kept_short(rs);
    let ks = kept_records(rs);
    let h = spec_u32_to_le_bytes(ks.len() as u32);
    lemma_parse_records(h, ks);
    let body = sidecar_bytes(rs);
    assert(body.subrange(0, 4) =~= h);
    assert((ks.len() as u32) as nat == ks.len());
    lemma_text_records_kept(rs);
}

} // verus!
