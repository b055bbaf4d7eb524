//! Multi-volume `.zgx` archives: the split header, part file names, and the sizing rules
//! of the part writer.
//!
//! Part 001 starts with a 22-byte header (`LRGEX`, version 2, total uncompressed size,
//! segment size, both little-endian); every part ends with a 32-byte SHA-256 trailer over
//! its data. Parts are named `<stem>.partNNN.zgx` with at least three digits.
use vstd::prelude::*;
use crate::text::{all_digits, decimal, decimal_chars, digits_value, is_digit};
use vstd::bytes::{spec_u64_from_le_bytes, spec_u64_to_le_bytes, u64_from_le_bytes, u64_to_le_bytes};

verus! {

/// Length of the header at the start of part 001.
pub const SPLIT_HEADER_LEN: usize = 22;

/// Format version byte of split archives.
pub const SPLIT_VERSION: u8 = 0x02;

/// Length of the SHA-256 trailer at the end of every part.
pub const TRAILER_LEN: usize = 32;

/// Highest part number.
pub const MAX_PARTS: usize = 9999;

/// The magic bytes `LRGEX`.
pub open spec fn lrgex_magic() -> Seq<u8> {
    seq![0x4cu8, 0x52u8, 0x47u8, 0x45u8, 0x58u8]
}

/// The split header: magic, version, total uncompressed size, segment size.
pub open spec fn split_header_bytes(total: u64, segment: u64) -> Seq<u8> {
    lrgex_magic() + seq![SPLIT_VERSION] + spec_u64_to_le_bytes(total) + spec_u64_to_le_bytes(
        segment,
    )
}

/// The header written at the start of part 001.
pub fn split_header(total_uncompressed: u64, segment_size: u64) -> (h: [u8; SPLIT_HEADER_LEN])
    ensures
        h@ == split_header_bytes(total_uncompressed, segment_size),
{
    let t = u64_to_le_bytes(total_uncompressed);
    let s = u64_to_le_bytes(segment_size);
    let h: [u8; SPLIT_HEADER_LEN] = [
        0x4c,
        0x52,
        0x47,
        0x45,
        0x58,
        SPLIT_VERSION,
        t[0],
        t[1],
        t[2],
        t[3],
        t[4],
        t[5],
        t[6],
        t[7],
        s[0],
        s[1],
        s[2],
        s[3],
        s[4],
        s[5],
        s[6],
        s[7],
    ];
    proof {
        assert(h@ =~= split_header_bytes(total_uncompressed, segment_size));
    }
    h
}

/// Why the head of part 001 is not an acceptable split header.
#[derive(Debug, Clone, Copy, PartialEq, Eq, Structural)]
pub enum SplitHeaderError {
    /// Fewer than 22 bytes.
    Truncated,
    /// The `LRGEX` magic is missing.
    NotSplitArchive,
    /// A version byte other than 2.
    UnsupportedVersion(u8),
}

/// What the head of part 001 says: the total uncompressed size, or why it is refused.
pub open spec fn split_header_total(head: Seq<u8>) -> Result<u64, SplitHeaderError> {
    if head.len() < 22 {
        Err(SplitHeaderError::Truncated)
    } else if head.subrange(0, 5) != lrgex_magic() {
        Err(SplitHeaderError::NotSplitArchive)
    } else if head[5] != SPLIT_VERSION {
        Err(SplitHeaderError::UnsupportedVersion(head[5]))
    } else {
        Ok(spec_u64_from_le_bytes(head.subrange(6, 14)))
    }
}

/// Checks the header at the start of part 001 and reads the total uncompressed size.
pub fn parse_split_header(head: &[u8]) -> (r: Result<u64, SplitHeaderError>)
    ensures
        r == split_header_total(head@),
{
    if head.len() < SPLIT_HEADER_LEN {
        return Err(SplitHeaderError::Truncated);
    }
    if !(head[0] == 0x4c && head[1] == 0x52 && head[2] == 0x47 && head[3] == 0x45 && head[4]
        == 0x58) {
        proof {
            if head@.subrange(0, 5) == lrgex_magic() {
                assert(head@.subrange(0, 5)[0] == head@[0]);
                assert(head@.subrange(0, 5)[1] == head@[1]);
                assert(head@.subrange(0, 5)[2] == head@[2]);
                assert(head@.subrange(0, 5)[3] == head@[3]);
                assert(head@.subrange(0, 5)[4] == head@[4]);
            }
        }
        return Err(SplitHeaderError::NotSplitArchive);
    }
    proof {
        assert(head@.subrange(0, 5) =~= lrgex_magic());
    }
    if head[5] != SPLIT_VERSION {
        return Err(SplitHeaderError::UnsupportedVersion(head[5]));
    }
    let total = u64_from_le_bytes(vstd::slice::slice_subrange(head, 6, 14));
    Ok(total)
}

/// A header written by `split_header` reads back as its total.
pub proof fn law_split_header_roundtrip(total: u64, segment: u64)
    ensures
        split_header_total(split_header_bytes(total, segment)) == Ok::<u64, SplitHeaderError>(total),
{
    vstd::bytes::lemma_auto_spec_u64_to_from_le_bytes();
    let h = split_header_bytes(total, segment);
    assert(h.subrange(0, 5) =~= lrgex_magic());
    assert(h.subrange(6, 14) =~= spec_u64_to_le_bytes(total));
}

// ─── part file names ────────────────────────────────────────────────────────

/// A path separator on Windows.
pub open spec fn is_sep(c: char) -> bool {
    c == '\\' || c == '/'
}

/// Index of the last separator of `s`, or -1.
pub open spec fn last_sep(s: Seq<char>) -> int
    decreases s.len(),
{
    if s.len() == 0 {
        -1
    } else if is_sep(s.last()) {
        s.len() - 1
    } else {
        last_sep(s.drop_last())
    }
}

/// The text after the last separator.
pub open spec fn file_name(s: Seq<char>) -> Seq<char> {
    s.subrange(last_sep(s) + 1, s.len() as int)
}

/// The directory of `s` joined with `name`: the text before the last separator, a `\`,
/// then `name`; the root separator alone when nothing precedes it; `name` alone when
/// `s` has no separator.
pub open spec fn with_file_name(s: Seq<char>, name: Seq<char>) -> Seq<char> {
    let i = last_sep(s);
    if i < 0 {
        name
    } else if i == 0 {
        s.subrange(0, 1) + name
    } else {
        s.subrange(0, i) + seq!['\\'] + name
    }
}

/// `s` ends with `suffix`.
pub open spec fn ends_with(s: Seq<char>, suffix: Seq<char>) -> bool {
    s.len() >= suffix.len() && s.subrange(s.len() - suffix.len(), s.len() as int) == suffix
}

/// Start of the last occurrence of `pat` in `s`, or -1.
pub open spec fn rfind(s: Seq<char>, pat: Seq<char>) -> int
    decreases s.len(),
{
    if s.len() < pat.len() {
        -1
    } else if s.subrange(s.len() - pat.len(), s.len() as int) == pat {
        s.len() - pat.len()
    } else if s.len() == 0 {
        -1
    } else {
        rfind(s.drop_last(), pat)
    }
}

/// `.zgx`
pub open spec fn zgx_ext() -> Seq<char> {
    seq!['.', 'z', 'g', 'x']
}

/// `.part`
pub open spec fn part_tag() -> Seq<char> {
    seq!['.', 'p', 'a', 'r', 't']
}

/// The split-part reading of a path `<dir>\<base>.partNNN.zgx`: `<dir>` joined with
/// `<base>`, and the part number, for one to four digits naming a part from 1 to 9999.
pub open spec fn split_part_of(path: Seq<char>) -> Option<(Seq<char>, u32)> {
    let name = file_name(path);
    if !ends_with(name, zgx_ext()) {
        None
    } else {
        let stem = name.subrange(0, name.len() - 4);
        let dot = rfind(stem, part_tag());
        if dot < 0 {
            None
        } else {
            let digits = stem.subrange(dot + 5, stem.len() as int);
            if digits.len() == 0 || digits.len() > 4 {
                None
            } else {
                if !all_digits(digits) {
                    None
                } else {
                    let v = digits_value(digits);
                    if v == 0 || v > MAX_PARTS {
                        None
                    } else {
                        Some((with_file_name(path, stem.subrange(0, dot)), v as u32))
                    }
                }
            }
        }
    }
}

/// Position of the last separator, by a scan from the end.
pub(crate) fn find_last_sep(cs: &Vec<char>) -> (r: Option<usize>)
    ensures
        match r {
            Some(i) => i == last_sep(cs@) && (i as int) < cs.len(),
            None => last_sep(cs@) == -1,
        },
{
    let mut k: usize = cs.len();
    proof {
        assert(cs@.take(cs.len() as int) =~= cs@);
    }
    while k > 0
        invariant
            k <= cs.len(),
            last_sep(cs@) == last_sep(cs@.take(k as int)),
        decreases k,
    {
        let ghost pre = cs@.take(k as int);
        proof {
            assert(pre.drop_last() =~= cs@.take(k - 1));
            assert(pre.last() == cs@[k - 1]);
        }
        if cs[k - 1] == '\\' || cs[k - 1] == '/' {
            return Some(k - 1);
        }
        k = k - 1;
    }
    proof {
        assert(cs@.take(0) =~= Seq::<char>::empty());
    }
    None
}

/// The file name of a path held as characters.
pub fn file_name_chars(cs: &Vec<char>) -> (r: Vec<char>)
    ensures
        r@ == file_name(cs@),
{
    let start: usize = match find_last_sep(cs) {
        Some(i) => i + 1,
        None => 0,
    };
    let mut out: Vec<char> = Vec::new();
    let mut k: usize = start;
    while k < cs.len()
        invariant
            start <= k <= cs.len(),
            start as int == last_sep(cs@) + 1,
            out@ == cs@.subrange(start as int, k as int),
        decreases cs.len() - k,
    {
        out.push(cs[k]);
        k = k + 1;
        proof {
            assert(out@ =~= cs@.subrange(start as int, k as int));
        }
    }
    out
}

/// Start of the last `.part` in `s`, by a scan from the end.
fn find_last_part_tag(s: &[char]) -> (r: Option<usize>)
    ensures
        match r {
            Some(i) => i == rfind(s@, part_tag()),
            None => rfind(s@, part_tag()) == -1,
        },
{
    let mut k: usize = s.len();
    proof {
        assert(s@.take(s.len() as int) =~= s@);
    }
    while k >= 5
        invariant
            k <= s.len(),
            rfind(s@, part_tag()) == rfind(s@.take(k as int), part_tag()),
        decreases k,
    {
        let ghost pre = s@.take(k as int);
        let m = s[k - 5] == '.' && s[k - 4] == 'p' && s[k - 3] == 'a' && s[k - 2] == 'r' && s[k
            - 1] == 't';
        proof {
            assert(pre.drop_last() =~= s@.take(k - 1));
            let tail = pre.subrange(k - 5, k as int);
            if m {
                assert(tail =~= part_tag());
            } else {
                if tail == part_tag() {
                    assert(tail[0] == s@[k - 5]);
                    assert(tail[1] == s@[k - 4]);
                    assert(tail[2] == s@[k - 3]);
                    assert(tail[3] == s@[k - 2]);
                    assert(tail[4] == s@[k - 1]);
                }
            }
        }
        if m {
            return Some(k - 5);
        }
        k = k - 1;
    }
    None
}

/// Value of a run of digits (at most four), by Horner's rule.
fn digits_to_u32(d: &[char]) -> (v: u32)
    requires
        d.len() <= 4,
        all_digits(d@),
    ensures
        v as nat == digits_value(d@),
        v <= 9999,
{
    let mut v: u32 = 0;
    let mut i: usize = 0;
    while i < d.len()
        invariant
            i <= d.len(),
            d.len() <= 4,
            all_digits(d@),
            v as nat == digits_value(d@.take(i as int)),
            v < pow10(i as nat),
        decreases d.len() - i,
    {
        let c = d[i];
        assert(is_digit(d@[i as int]));
        let dv: u32 = (c as u32) - ('0' as u32);
        proof {
            assert(d@.take(i + 1).drop_last() =~= d@.take(i as int));
            assert(d@.take(i + 1).last() == c);
            assert(pow10((i + 1) as nat) == 10 * pow10(i as nat));
            lemma_pow10_4();
            lemma_pow10_mono(i as nat, 3);
        }
        v = v * 10 + dv;
        i = i + 1;
    }
    proof {
        assert(d@.take(d.len() as int) =~= d@);
        lemma_pow10_mono(d.len() as nat, 4);
        lemma_pow10_4();
    }
    v
}

/// Ten to the power `n`.
pub open spec fn pow10(n: nat) -> nat
    decreases n,
{
    if n == 0 {
        1
    } else {
        10 * pow10((n - 1) as nat)
    }
}

proof fn lemma_pow10_4()
    ensures
        pow10(4) == 10000,
{
    reveal_with_fuel(pow10, 5);
}

proof fn lemma_pow10_mono(a: nat, b: nat)
    requires
        a <= b,
    ensures
        pow10(a) <= pow10(b),
    decreases b,
{
    if a < b {
        lemma_pow10_mono(a, (b - 1) as nat);
    }
}

/// Every character of `d` is a digit, checked one by one.
fn check_digits(d: &[char]) -> (r: bool)
    ensures
        r == all_digits(d@),
{
    let mut i: usize = 0;
    while i < d.len()
        invariant
            i <= d.len(),
            forall|k: int| 0 <= k < i ==> is_digit(#[trigger] d@[k]),
        decreases d.len() - i,
    {
        if !(d[i] >= '0' && d[i] <= '9') {
            return false;
        }
        i = i + 1;
    }
    true
}

/// `with_file_name` on character vectors.
pub(crate) fn join_file_name(cs: &Vec<char>, name: &[char]) -> (r: Vec<char>)
    ensures
        r@ == with_file_name(cs@, name@),
{
    let mut out: Vec<char> = Vec::new();
    match find_last_sep(cs) {
        None => {},
        Some(i) => {
            if i == 0 {
                out.push(cs[0]);
                proof {
                    assert(cs@.subrange(0, 1) =~= seq![cs@[0]]);
                }
            } else {
                let mut k: usize = 0;
                while k < i
                    invariant
                        k <= i,
                        (i as int) < cs.len(),
                        out@ == cs@.take(k as int),
                    decreases i - k,
                {
                    out.push(cs[k]);
                    k = k + 1;
                    proof {
                        assert(out@ =~= cs@.take(k as int));
                    }
                }
                out.push('\\');
            }
        },
    }
    let ghost base = out@;
    let mut k: usize = 0;
    while k < name.len()
        invariant
            k <= name.len(),
            out@ == base + name@.take(k as int),
        decreases name.len() - k,
    {
        out.push(name[k]);
        k = k + 1;
        proof {
            assert(name@.take(k as int) =~= name@.take(k - 1).push(name@[k - 1]));
        }
    }
    proof {
        assert(name@.take(name.len() as int) =~= name@);
        assert(out@ =~= with_file_name(cs@, name@));
    }
    out
}

/// Reads `<dir>\<base>.partNNN.zgx` as (`<dir>` joined with `<base>`, NNN). Part numbers
/// are one to four ASCII digits naming a part in 1..=9999; any other path is not a split
/// part.
pub fn parse_split_part(path: &str) -> (r: Option<(String, u32)>)
    ensures
        match r {
            Some((base, n)) => split_part_of(path@) == Some((base@, n)),
            None => split_part_of(path@) is None,
        },
{
    let cs = crate::text::chars_of(path);
    let start: usize = match find_last_sep(&cs) {
        Some(i) => i + 1,
        None => 0,
    };
    let name = vstd::slice::slice_subrange(cs.as_slice(), start, cs.len());
    proof {
        assert(name@ =~= file_name(path@));
    }
    let nl = name.len();
    if !(nl >= 4 && name[nl - 4] == '.' && name[nl - 3] == 'z' && name[nl - 2] == 'g' && name[nl
        - 1] == 'x') {
        proof {
            if ends_with(name@, zgx_ext()) {
                let t = name@.subrange(nl - 4, nl as int);
                assert(t[0] == name@[nl - 4]);
                assert(t[1] == name@[nl - 3]);
                assert(t[2] == name@[nl - 2]);
                assert(t[3] == name@[nl - 1]);
            }
        }
        return None;
    }
    proof {
        assert(name@.subrange(nl - 4, nl as int) =~= zgx_ext());
    }
    let stem = vstd::slice::slice_subrange(name, 0, nl - 4);
    let dot = match find_last_part_tag(stem) {
        Some(d) => d,
        None => {
            return None;
        },
    };
    proof {
        lemma_rfind_bounds(stem@, part_tag());
    }
    let digits = vstd::slice::slice_subrange(stem, dot + 5, stem.len());
    if digits.len() == 0 || digits.len() > 4 {
        return None;
    }
    if !check_digits(digits) {
        return None;
    }
    let num: u32 = digits_to_u32(digits);
    if num == 0 || num as usize > MAX_PARTS {
        return None;
    }
    let base_name = vstd::slice::slice_subrange(stem, 0, dot);
    let base = join_file_name(&cs, base_name);
    Some((crate::text::string_from_chars(base.as_slice()), num))
}

/// An occurrence found by `rfind` lies inside the text.
pub proof fn lemma_rfind_bounds(s: Seq<char>, pat: Seq<char>)
    ensures
        rfind(s, pat) >= 0 ==> rfind(s, pat) + pat.len() <= s.len(),
        rfind(s, pat) >= -1,
    decreases s.len(),
{
    if s.len() >= pat.len() && s.subrange(s.len() - pat.len(), s.len() as int) != pat && s.len()
        > 0 {
        lemma_rfind_bounds(s.drop_last(), pat);
    }
}

/// Zeros in front of `d` up to three characters (`{:03}`).
pub open spec fn pad3(d: Seq<char>) -> Seq<char> {
    if d.len() >= 3 {
        d
    } else {
        Seq::new((3 - d.len()) as nat, |i: int| '0') + d
    }
}

/// `<stem>.partNNN.zgx` with the part number written with at least three digits.
pub open spec fn part_file_name(stem: Seq<char>, n: nat) -> Seq<char> {
    stem + part_tag() + pad3(decimal(n)) + zgx_ext()
}

/// The file name of part `n` of the archive with stem `stem`.
pub fn part_name(stem: &str, n: u32) -> (r: String)
    ensures
        r@ == part_file_name(stem@, n as nat),
{
    let mut cs = crate::text::chars_of(stem);
    cs.push('.');
    cs.push('p');
    cs.push('a');
    cs.push('r');
    cs.push('t');
    let d = decimal_chars(n as u64);
    let mut z: usize = d.len();
    while z < 3
        invariant
            d.len() <= z <= 3 || (d.len() >= 3 && z == d.len()),
            cs@ == stem@ + part_tag() + Seq::new((z - d.len()) as nat, |i: int| '0'),
        decreases 3 - z,
    {
        cs.push('0');
        z = z + 1;
        proof {
            assert(cs@ =~= stem@ + part_tag() + Seq::new((z - d.len()) as nat, |i: int| '0'));
        }
    }
    let mut k: usize = 0;
    let ghost base = cs@;
    while k < d.len()
        invariant
            k <= d.len(),
            cs@ == base + d@.take(k as int),
        decreases d.len() - k,
    {
        cs.push(d[k]);
        k = k + 1;
        proof {
            assert(d@.take(k as int) =~= d@.take(k - 1).push(d@[k - 1]));
        }
    }
    cs.push('.');
    cs.push('z');
    cs.push('g');
    cs.push('x');
    proof {
        assert(d@.take(d.len() as int) =~= d@);
        if d.len() >= 3 {
            assert(Seq::new(0, |i: int| '0') =~= Seq::<char>::empty());
        }
        assert(cs@ =~= part_file_name(stem@, n as nat));
    }
    crate::text::string_from_chars(cs.as_slice())
}

/// Where part 001 of the split archive that `path` belongs to would lie: in the same
/// folder, under the same stem.
pub open spec fn part001_candidate(path: Seq<char>) -> Option<Seq<char>> {
    match split_part_of(path) {
        None => None,
        Some((base, _)) => Some(
            with_file_name(base, file_name(base) + seq!['.', 'p', 'a', 'r', 't', '0', '0', '1'] + zgx_ext()),
        ),
    }
}

/// The path of part 001 of the split archive that `path` is a part of, if it is one.
pub fn part001_path(path: &str) -> (r: Option<String>)
    ensures
        match r {
            Some(p) => part001_candidate(path@) == Some(p@),
            None => part001_candidate(path@) is None,
        },
{
    match parse_split_part(path) {
        None => None,
        Some((base, _n)) => {
            let bs = crate::text::chars_of(base.as_str());
            let start: usize = match find_last_sep(&bs) {
                Some(i) => i + 1,
                None => 0,
            };
            let mut name: Vec<char> = Vec::new();
            let mut k: usize = start;
            while k < bs.len()
                invariant
                    start <= k <= bs.len(),
                    name@ == bs@.subrange(start as int, k as int),
                decreases bs.len() - k,
            {
                name.push(bs[k]);
                k = k + 1;
                proof {
                    assert(name@ =~= bs@.subrange(start as int, k as int));
                }
            }
            name.push('.');
            name.push('p');
            name.push('a');
            name.push('r');
            name.push('t');
            name.push('0');
            name.push('0');
            name.push('1');
            name.push('.');
            name.push('z');
            name.push('g');
            name.push('x');
            proof {
                assert(name@ =~= file_name(base@) + seq!['.', 'p', 'a', 'r', 't', '0', '0', '1']
                    + zgx_ext());
            }
            let p = join_file_name(&bs, name.as_slice());
            Some(crate::text::string_from_chars(p.as_slice()))
        },
    }
}

/// Resolves a split part to part 001, when part 001 is present: `is_file` reports whether
/// a path names an existing file. Anything that is not a split part resolves to nothing.
pub fn resolve_to_part001<F: Fn(&str) -> bool>(path: &str, is_file: F) -> (r: Option<String>)
    requires
        forall|s: &str| is_file.requires((s,)),
    ensures
        match r {
            Some(p) => part001_candidate(path@) == Some(p@) && exists|s: &str| s@ == p@ && is_file.ensures((s,), true),
            None => match part001_candidate(path@) {
                None => true,
                Some(c) => exists|s: &str| s@ == c && is_file.ensures((s,), false),
            },
        },
{
    match part001_path(path) {
        None => None,
        Some(p) => {
            if is_file(p.as_str()) {
                Some(p)
            } else {
                None
            }
        },
    }
}

// ─── sizing ─────────────────────────────────────────────────────────────────

/// One mebibyte.
pub const MIB: u64 = 1048576;

/// The segment size of a part writer asked for `mb` MiB: at least one MiB, and never
/// less than a trailer, a header and 1 KiB.
pub open spec fn segment_size_spec(mb: u32) -> nat {
    let s: nat = (if mb == 0 {
        1nat
    } else {
        mb as nat
    }) * (MIB as nat);
    if s >= (TRAILER_LEN + SPLIT_HEADER_LEN + 1024) as nat {
        s
    } else {
        (TRAILER_LEN + SPLIT_HEADER_LEN + 1024) as nat
    }
}

/// Size in bytes of each part, header and trailer included, for a size asked in MiB.
pub fn segment_size_for(mb: u32) -> (s: u64)
    ensures
        s as nat == segment_size_spec(mb),
{
    let m: u64 = if mb == 0 {
        1
    } else {
        mb as u64
    };
    assert(m * MIB <= 0xffff_ffff * MIB) by (nonlinear_arith)
        requires
            m <= 0xffff_ffff,
    ;
    let s = m * MIB;
    let floor: u64 = (TRAILER_LEN + SPLIT_HEADER_LEN + 1024) as u64;
    if s >= floor {
        s
    } else {
        floor
    }
}

/// How many parts an archive of `total` bytes needs with `mb`-MiB parts: the total over
/// the data a part holds (its size less the trailer, at least one byte), rounded up, and
/// at least one.
pub open spec fn estimated_parts_spec(total: u64, mb: u32) -> nat {
    let seg: nat = (if mb == 0 {
        1nat
    } else {
        mb as nat
    }) * (MIB as nat);
    let budget: nat = if seg > TRAILER_LEN as nat + 1 {
        (seg - TRAILER_LEN) as nat
    } else {
        1
    };
    let q = (total as nat) / budget + if (total as nat) % budget > 0 {
        1nat
    } else {
        0nat
    };
    if q == 0 {
        1
    } else {
        q
    }
}

/// The number of parts a split compress of `total` bytes will need.
pub fn estimated_parts(total: u64, segment_size_mb: u32) -> (p: u64)
    ensures
        p as nat == estimated_parts_spec(total, segment_size_mb),
{
    let m: u64 = if segment_size_mb == 0 {
        1
    } else {
        segment_size_mb as u64
    };
    assert(m * MIB <= 0xffff_ffff * MIB) by (nonlinear_arith)
        requires
            m <= 0xffff_ffff,
    ;
    let seg = m * MIB;
    let budget: u64 = if seg > TRAILER_LEN as u64 + 1 {
        seg - TRAILER_LEN as u64
    } else {
        1
    };
    let q0 = total / budget;
    let q = if total % budget > 0 {
        assert(budget >= 2);
        assert(q0 < 0xffff_ffff_ffff_ffff) by (nonlinear_arith)
            requires
                budget >= 2,
                q0 == total / budget,
                total <= 0xffff_ffff_ffff_ffff,
        ;
        q0 + 1
    } else {
        q0
    };
    if q == 0 {
        1
    } else {
        q
    }
}

/// A split compress fits in the part limit.
pub fn split_fits(total: u64, segment_size_mb: u32) -> (r: bool)
    ensures
        r == (estimated_parts_spec(total, segment_size_mb) <= MAX_PARTS as nat),
{
    estimated_parts(total, segment_size_mb) <= MAX_PARTS as u64
}

// ─── part names read back ────────────────────────────────────────────────────

proof fn lemma_last_sep_append(q: Seq<char>, name: Seq<char>)
    requires
        forall|k: int| 0 <= k < name.len() ==> !is_sep(#[trigger] name[k]),
    ensures
        last_sep(q + name) == last_sep(q),
    decreases name.len(),
{
    if name.len() == 0 {
        assert(q + name =~= q);
    } else {
        let t = q + name;
        assert(t.last() == name.last());
        assert(t.drop_last() =~= q + name.drop_last());
        lemma_last_sep_append(q, name.drop_last());
    }
}

proof fn lemma_last_sep_bounds(s: Seq<char>)
    ensures
        -1 <= last_sep(s) < s.len(),
        last_sep(s) >= 0 ==> is_sep(s[last_sep(s)]),
        forall|k: int| last_sep(s) < k < s.len() ==> !is_sep(#[trigger] s[k]),
    decreases s.len(),
{
    if s.len() > 0 && !is_sep(s.last()) {
        lemma_last_sep_bounds(s.drop_last());
        assert forall|k: int| last_sep(s) < k < s.len() implies !is_sep(#[trigger] s[k]) by {
            if k < s.len() - 1 {
                assert(s[k] == s.drop_last()[k]);
            }
        }
    }
}

/// When `y` holds no `.`, the last `.part` in `x + .part + y` is the one after `x`.
proof fn lemma_rfind_tail(x: Seq<char>, y: Seq<char>)
    requires
        forall|k: int| 0 <= k < y.len() ==> #[trigger] y[k] != '.',
    ensures
        rfind(x + part_tag() + y, part_tag()) == x.len(),
    decreases y.len(),
{
    let s = x + part_tag() + y;
    if y.len() == 0 {
        assert(s =~= x + part_tag());
        assert(s.subrange(s.len() - 5, s.len() as int) =~= part_tag());
    } else {
        let start = s.len() - 5;
        assert(s.subrange(start, s.len() as int)[0] == s[start]);
        if start < x.len() + 5 {
            assert(s[start] == part_tag()[start - x.len()]);
        } else {
            assert(s[start] == y[start - x.len() - 5]);
        }
        assert(s.subrange(start, s.len() as int) != part_tag());
        assert(s.drop_last() =~= x + part_tag() + y.drop_last());
        lemma_rfind_tail(x, y.drop_last());
    }
}

proof fn lemma_decimal_short(n: nat, k: nat)
    requires
        k >= 1,
        n < pow10(k),
    ensures
        decimal(n).len() <= k,
    decreases n,
{
    if n >= 10 {
        assert(k >= 2) by {
            if k == 1 {
                reveal_with_fuel(pow10, 2);
            }
        }
        assert(n / 10 < pow10((k - 1) as nat));
        lemma_decimal_short(n / 10, (k - 1) as nat);
    }
}

proof fn lemma_zeros_value(z: Seq<char>)
    requires
        forall|k: int| 0 <= k < z.len() ==> #[trigger] z[k] == '0',
    ensures
        digits_value(z) == 0,
    decreases z.len(),
{
    if z.len() > 0 {
        lemma_zeros_value(z.drop_last());
    }
}

proof fn lemma_zero_padded_value(z: Seq<char>, d: Seq<char>)
    requires
        forall|k: int| 0 <= k < z.len() ==> #[trigger] z[k] == '0',
    ensures
        digits_value(z + d) == digits_value(d),
    decreases d.len(),
{
    if d.len() == 0 {
        assert(z + d =~= z);
        lemma_zeros_value(z);
    } else {
        assert((z + d).drop_last() =~= z + d.drop_last());
        assert((z + d).last() == d.last());
        lemma_zero_padded_value(z, d.drop_last());
    }
}

/// The zero-padded digits of a part number from 1 to 9999: three or four digits that
/// read back as the number.
proof fn lemma_pad3_reads_back(n: nat)
    requires
        1 <= n <= 9999,
    ensures
        3 <= pad3(decimal(n)).len() <= 4,
        all_digits(pad3(decimal(n))),
        digits_value(pad3(decimal(n))) == n,
{
    crate::text::lemma_decimal_roundtrip(n);
    lemma_pow10_4();
    lemma_decimal_short(n, 4);
    let d = decimal(n);
    let p = pad3(d);
    if d.len() < 3 {
        let z = Seq::new((3 - d.len()) as nat, |i: int| '0');
        assert(p == z + d);
        lemma_zero_padded_value(z, d);
        assert forall|i: int| 0 <= i < p.len() implies is_digit(#[trigger] p[i]) by {
            if i >= z.len() {
                assert(p[i] == d[i - z.len()]);
            }
        }
    }
}

/// A part's file name holds no separator, and its digits hold no `.`.
proof fn lemma_part_name_plain(st: Seq<char>, n: nat)
    requires
        1 <= n <= 9999,
        forall|k: int| 0 <= k < st.len() ==> !is_sep(#[trigger] st[k]),
    ensures
        forall|k: int|
            0 <= k < part_file_name(st, n).len() ==> !is_sep(#[trigger] part_file_name(st, n)[k]),
        forall|k: int|
            0 <= k < pad3(decimal(n)).len() ==> #[trigger] pad3(decimal(n))[k] != '.',
{
    let digits = pad3(decimal(n));
    let name = part_file_name(st, n);
    lemma_pad3_reads_back(n);
    assert forall|k: int| 0 <= k < name.len() implies !is_sep(#[trigger] name[k]) by {
        if k < st.len() {
            assert(name[k] == st[k]);
        } else if k < st.len() + 5 {
            assert(name[k] == part_tag()[k - st.len()]);
        } else if k < st.len() + 5 + digits.len() {
            assert(name[k] == digits[k - st.len() - 5]);
            assert(is_digit(digits[k - st.len() - 5]));
        } else {
            assert(name[k] == zgx_ext()[k - st.len() - 5 - digits.len()]);
        }
    }
    assert forall|k: int| 0 <= k < digits.len() implies #[trigger] digits[k] != '.' by {
        assert(is_digit(digits[k]));
    }
}

/// Putting a separator-free `name` next to `base` gives a path whose file name is `name`
/// and whose folder is the base's.
proof fn lemma_placed_name(base: Seq<char>, name: Seq<char>, other: Seq<char>)
    requires
        forall|k: int| 0 <= k < name.len() ==> !is_sep(#[trigger] name[k]),
    ensures
        file_name(with_file_name(base, name)) == name,
        with_file_name(with_file_name(base, name), other) == with_file_name(base, other),
{
    let i = last_sep(base);
    lemma_last_sep_bounds(base);
    let path = with_file_name(base, name);
    if i < 0 {
        lemma_last_sep_append(Seq::<char>::empty(), name);
        assert(Seq::<char>::empty() + name =~= name);
    } else if i == 0 {
        lemma_last_sep_append(base.subrange(0, 1), name);
        assert(base.subrange(0, 1).drop_last() =~= Seq::<char>::empty());
        assert(path.subrange(0, 1) =~= base.subrange(0, 1));
    } else {
        let q = base.subrange(0, i) + seq!['\\'];
        assert(path =~= q + name);
        lemma_last_sep_append(q, name);
        assert(last_sep(q) == i);
        assert(path.subrange(0, i) =~= base.subrange(0, i));
    }
    assert(file_name(path) =~= name);
}

/// The file name of a path holds no separator.
proof fn lemma_file_name_plain(base: Seq<char>)
    ensures
        forall|k: int| 0 <= k < file_name(base).len() ==> !is_sep(#[trigger] file_name(base)[k]),
        (last_sep(base) < 0 || base[last_sep(base)] == '\\') ==> with_file_name(base, file_name(base))
            == base,
{
    let i = last_sep(base);
    lemma_last_sep_bounds(base);
    let st = file_name(base);
    assert forall|k: int| 0 <= k < st.len() implies !is_sep(#[trigger] st[k]) by {
        assert(st[k] == base[i + 1 + k]);
    }
    if i < 0 {
        assert(st =~= base);
    } else if i == 0 {
        assert(base.subrange(0, 1) + st =~= base);
    } else if base[i] == '\\' {
        assert(base.subrange(0, i) + seq!['\\'] + st =~= base);
    }
}

/// A part's file name, placed next to the archive's base path `base`, reads back as
/// that base (its folder joined with its name) and the part number. When the base's
/// last separator, if any, is a backslash, the base comes back unchanged.
pub proof fn law_part_name_roundtrip(base: Seq<char>, n: nat)
    requires
        1 <= n <= 9999,
    ensures
        split_part_of(with_file_name(base, part_file_name(file_name(base), n))) == Some(
            (with_file_name(base, file_name(base)), n as u32),
        ),
        (last_sep(base) < 0 || base[last_sep(base)] == '\\') ==> with_file_name(
            base,
            file_name(base),
        ) == base,
{
    let st = file_name(base);
    let digits = pad3(decimal(n));
    let name = part_file_name(st, n);
    lemma_file_name_plain(base);
    lemma_part_name_plain(st, n);
    lemma_pad3_reads_back(n);
    lemma_placed_name(base, name, st);
    // The name ends in `.zgx`; before it, the last `.part` is the one after the stem.
    assert(name.subrange(name.len() - 4, name.len() as int) =~= zgx_ext());
    let stem = name.subrange(0, name.len() - 4);
    assert(stem =~= st + part_tag() + digits);
    lemma_rfind_tail(st, digits);
    assert(stem.subrange(st.len() + 5int, stem.len() as int) =~= digits);
    assert(stem.subrange(0, st.len() as int) =~= st);
}

} // verus!
