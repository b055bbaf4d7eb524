//! Extraction decisions: what each archive entry becomes, the metadata it carries (tar
//! PAX fields, zip DOS times and modes), when the small-file batch is written, the
//! one-prompt symlink elevation, and the overwrite check before extracting.
use crate::text::{decimal, parsed_u32, parsed_u64, split_on};
use crate::winpath::entry_is_safe;
use vstd::prelude::*;

verus! {

// ─── zip metadata ───────────────────────────────────────────────────────────

/// Days from 1970-01-01 to the given civil date (proleptic Gregorian calendar).
pub open spec fn days_from_civil(y: int, m: int, d: int) -> int {
    let y2 = if m <= 2 {
        y - 1
    } else {
        y
    };
    let era = (if y2 >= 0 {
        y2
    } else {
        y2 - 399
    }) / 400;
    let yoe = y2 - era * 400;
    let doy = (153 * (if m > 2 {
        m - 3
    } else {
        m + 9
    }) + 2) / 5 + d - 1;
    let doe = yoe * 365 + yoe / 4 - yoe / 100 + doy;
    era * 146097 + doe - 719468
}

/// Seconds since 1970 of a civil date and time.
pub open spec fn civil_secs(y: int, m: int, d: int, hh: int, mm: int, ss: int) -> int {
    days_from_civil(y, m, d) * 86400 + hh * 3600 + mm * 60 + ss
}

/// A leap year of the Gregorian calendar.
pub open spec fn is_leap(y: int) -> bool {
    y % 4 == 0 && (y % 100 != 0 || y % 400 == 0)
}

/// The number of days in month `m` of year `y`.
pub open spec fn days_in_month(y: int, m: int) -> int {
    if m == 2 {
        if is_leap(y) {
            29
        } else {
            28
        }
    } else if m == 4 || m == 6 || m == 9 || m == 11 {
        30
    } else {
        31
    }
}

proof fn lemma_feb_to_mar(y: int)
    requires
        1970 <= y <= 2108,
    ensures
        days_from_civil(y, 3, 1) == days_from_civil(y, 2, days_in_month(y, 2)) + 1,
{
    let a = y - 1;
    if y <= 1999 {
        assert(a / 400 == 4 && y / 400 == 4);
    } else if y == 2000 {
        assert(a / 400 == 4 && y / 400 == 5);
    } else {
        assert(a / 400 == 5 && y / 400 == 5);
        if y == 2100 {
            assert(!is_leap(y));
        }
    }
    assert((153 * 11 + 2) / 5 == 337);
    assert((153 * 0 + 2) / 5 == 0);
}

proof fn lemma_next_month(y: int, m: int)
    requires
        1970 <= y <= 2108,
        1 <= m < 12,
    ensures
        days_from_civil(y, m + 1, 1) == days_from_civil(y, m, days_in_month(y, m)) + 1,
{
    if m == 2 {
        lemma_feb_to_mar(y);
    } else {
        assert((153 * 0 + 2) / 5 == 0);
        assert((153 * 1 + 2) / 5 == 31);
        assert((153 * 2 + 2) / 5 == 61);
        assert((153 * 3 + 2) / 5 == 92);
        assert((153 * 4 + 2) / 5 == 122);
        assert((153 * 5 + 2) / 5 == 153);
        assert((153 * 6 + 2) / 5 == 184);
        assert((153 * 7 + 2) / 5 == 214);
        assert((153 * 8 + 2) / 5 == 245);
        assert((153 * 9 + 2) / 5 == 275);
        assert((153 * 10 + 2) / 5 == 306);
        assert((153 * 11 + 2) / 5 == 337);
    }
}

/// Zip times count seconds on the Gregorian calendar from 1970-01-01 00:00:00: that
/// instant is 0, a time of day adds its seconds to midnight, the next day starts exactly
/// 86400 seconds later, and the first day of a month (or of a year) follows the last day
/// of the one before it; for every date from 1970 to the end of the zip range (2107).
pub proof fn law_zip_calendar(y: int, m: int, d: int, hh: int, mm: int, ss: int)
    requires
        1970 <= y <= 2107,
        1 <= m <= 12,
        1 <= d <= days_in_month(y, m),
    ensures
        civil_secs(1970, 1, 1, 0, 0, 0) == 0,
        civil_secs(y, m, d, hh, mm, ss) == civil_secs(y, m, d, 0, 0, 0) + hh * 3600 + mm * 60 + ss,
        d < days_in_month(y, m) ==> civil_secs(y, m, d + 1, hh, mm, ss) == civil_secs(
            y,
            m,
            d,
            hh,
            mm,
            ss,
        ) + 86400,
        m < 12 ==> civil_secs(y, m + 1, 1, hh, mm, ss) == civil_secs(
            y,
            m,
            days_in_month(y, m),
            hh,
            mm,
            ss,
        ) + 86400,
        civil_secs(y + 1, 1, 1, hh, mm, ss) == civil_secs(y, 12, 31, hh, mm, ss) + 86400,
{
    assert(days_from_civil(1970, 1, 1) == 0) by {
        assert(1969int / 400 == 4);
        assert((153 * 10 + 2) / 5 == 306);
    }
    if m < 12 {
        lemma_next_month(y, m);
    }
    assert(days_from_civil(y + 1, 1, 1) == days_from_civil(y, 12, 31) + 1) by {
        assert((153 * 10 + 2) / 5 == 306);
        assert((153 * 9 + 2) / 5 == 275);
    }
}

/// A zip entry's DOS date and time as seconds since 1970 (the fields of a valid DOS
/// timestamp: years 1980 to 2107).
pub fn zip_mtime_to_epoch(year: u16, month: u8, day: u8, hour: u8, minute: u8, second: u8) -> (r:
    Option<u64>)
    requires
        1980 <= year <= 2107,
        1 <= month <= 12,
        1 <= day <= 31,
        hour <= 23,
        minute <= 59,
        second <= 60,
    ensures
        r == Some(
            civil_secs(
                year as int,
                month as int,
                day as int,
                hour as int,
                minute as int,
                second as int,
            ) as u64,
        ),
        civil_secs(year as int, month as int, day as int, hour as int, minute as int, second as int)
            >= 0,
{
    let y = year as i64;
    let m = month as i64;
    let d = day as i64;
    let y2 = if m <= 2 {
        y - 1
    } else {
        y
    };
    let era = y2 / 400;
    let yoe = y2 - era * 400;
    let mp = if m > 2 {
        m - 3
    } else {
        m + 9
    };
    let doy = (153 * mp + 2) / 5 + d - 1;
    let doe = yoe * 365 + yoe / 4 - yoe / 100 + doy;
    let days = era * 146097 + doe - 719468;
    proof {
        assert(y2 >= 0);
        assert(0 <= era <= 6);
        assert(0 <= yoe < 400);
        assert(0 <= doy <= 400) by (nonlinear_arith)
            requires
                0 <= mp <= 11,
                1 <= d <= 31,
                doy == (153 * mp + 2) / 5 + d - 1,
        ;
        assert(days >= 0) by (nonlinear_arith)
            requires
                1979 <= y2 <= 2107,
                era == y2 / 400,
                yoe == y2 - era * 400,
                0 <= doy,
                doe == yoe * 365 + yoe / 4 - yoe / 100 + doy,
                days == era * 146097 + doe - 719468,
        ;
        assert(days <= 60000) by (nonlinear_arith)
            requires
                1979 <= y2 <= 2107,
                era == y2 / 400,
                yoe == y2 - era * 400,
                doy <= 400,
                doe == yoe * 365 + yoe / 4 - yoe / 100 + doy,
                days == era * 146097 + doe - 719468,
        ;
    }
    let secs = (days as u64) * 86400 + (hour as u64) * 3600 + (minute as u64) * 60 + second as u64;
    Some(secs)
}

/// A zip symlink points to a directory when its unix mode says so.
pub fn zip_link_is_dir(unix_mode: Option<u32>) -> (r: bool)
    ensures
        r == match unix_mode {
            Some(m) => m & 0o170000 == 0o040000,
            None => false,
        },
{
    match unix_mode {
        Some(m) => m & 0o170000 == 0o040000,
        None => false,
    }
}

/// What extraction does with one zip entry (whose name is already known to stay inside
/// the destination).
#[derive(Debug, Clone, Copy, PartialEq, Eq, Structural)]
pub enum ZipEntryAction {
    /// Recreate the symbolic link whose target is the entry's data.
    Link,
    /// Create the folder.
    Directory,
    /// Leave the file that an earlier run already wrote (elevated rerun).
    SkipExisting,
    /// Write the file through a temporary file.
    File,
}

/// The decision order for a zip entry: a link first, then a folder, then, on an elevated
/// rerun, a file that already exists is left alone; anything else is written.
pub open spec fn zip_entry_action_of(is_symlink: bool, is_dir: bool, elevated_rerun: bool, exists: bool)
    -> ZipEntryAction {
    if is_symlink {
        ZipEntryAction::Link
    } else if is_dir {
        ZipEntryAction::Directory
    } else if elevated_rerun && exists {
        ZipEntryAction::SkipExisting
    } else {
        ZipEntryAction::File
    }
}

/// What to do with a zip entry.
pub fn zip_entry_action(is_symlink: bool, is_dir: bool, elevated_rerun: bool, exists: bool) -> (r:
    ZipEntryAction)
    ensures
        r == zip_entry_action_of(is_symlink, is_dir, elevated_rerun, exists),
{
    if is_symlink {
        ZipEntryAction::Link
    } else if is_dir {
        ZipEntryAction::Directory
    } else if elevated_rerun && exists {
        ZipEntryAction::SkipExisting
    } else {
        ZipEntryAction::File
    }
}

/// A zip file is restored read-only when its unix mode lacks the owner-write bit.
pub fn zip_read_only(unix_mode: Option<u32>) -> (r: bool)
    ensures
        r == match unix_mode {
            Some(m) => m & 0o200 == 0,
            None => false,
        },
{
    match unix_mode {
        Some(m) => m & 0o200 == 0,
        None => false,
    }
}

/// `s` without trailing NUL, CR and LF characters.
pub open spec fn trim_link_end(s: Seq<char>) -> Seq<char>
    decreases s.len(),
{
    if s.len() > 0 && (s.last() == '\0' || s.last() == '\r' || s.last() == '\n') {
        trim_link_end(s.drop_last())
    } else {
        s
    }
}

/// A zip symlink's stored target text without trailing NUL, CR and LF characters.
pub fn trim_link_target(s: &str) -> (r: String)
    ensures
        r@ == trim_link_end(s@),
{
    let cs = crate::text::chars_of(s);
    let mut n: usize = cs.len();
    proof {
        assert(cs@.take(cs.len() as int) =~= cs@);
    }
    while n > 0 && (cs[n - 1] == '\0' || cs[n - 1] == '\r' || cs[n - 1] == '\n')
        invariant
            n <= cs.len(),
            trim_link_end(s@) == trim_link_end(cs@.take(n as int)),
            cs@ == s@,
        decreases n,
    {
        proof {
            assert(cs@.take(n as int).drop_last() =~= cs@.take(n - 1));
        }
        n = n - 1;
    }
    let kept = vstd::slice::slice_subrange(cs.as_slice(), 0, n);
    proof {
        assert(kept@ =~= cs@.take(n as int));
    }
    crate::text::string_from_chars(kept)
}

// ─── PAX metadata ───────────────────────────────────────────────────────────

/// `SCHILY.creationtime`
pub open spec fn ctime_key() -> Seq<char> {
    seq!['S', 'C', 'H', 'I', 'L', 'Y', '.', 'c', 'r', 'e', 'a', 't', 'i', 'o', 'n', 't', 'i', 'm', 'e']
}

/// `LRGEX.fileattr`
pub open spec fn attr_key() -> Seq<char> {
    seq!['L', 'R', 'G', 'E', 'X', '.', 'f', 'i', 'l', 'e', 'a', 't', 't', 'r']
}

/// A creation-time value: the whole seconds before any `.`, 0 when not a number.
pub open spec fn pax_ctime_of(v: Seq<char>) -> u64 {
    match parsed_u64(split_on(v, '.')[0]) {
        Some(t) => t,
        None => 0,
    }
}

/// An attribute value: a `u32`, 0 when not a number.
pub open spec fn pax_attrs_of(v: Seq<char>) -> u32 {
    match parsed_u32(v) {
        Some(a) => a,
        None => 0,
    }
}

/// Creation time and attributes after reading PAX fields in order; later fields win,
/// other keys are ignored.
pub open spec fn pax_meta_of(fields: Seq<(Seq<char>, Seq<char>)>) -> (u64, u32)
    decreases fields.len(),
{
    if fields.len() == 0 {
        (0, 0)
    } else {
        let prev = pax_meta_of(fields.drop_last());
        let (k, v) = fields.last();
        if k == ctime_key() {
            (pax_ctime_of(v), prev.1)
        } else if k == attr_key() {
            (prev.0, pax_attrs_of(v))
        } else {
            prev
        }
    }
}

/// The creation time a `SCHILY.creationtime` value gives (`"1234567890.123"` gives
/// 1234567890).
pub fn pax_ctime(v: &str) -> (r: u64)
    ensures
        r == pax_ctime_of(v@),
{
    let cs = crate::text::chars_of(v);
    let parts = crate::text::split_chars(cs.as_slice(), '.');
    proof {
        crate::text::lemma_split_on_nonempty(v@, '.');
        assert(parts@.map_values(|p: Vec<char>| p@)[0] == parts@[0]@);
    }
    match crate::text::parse_u64_chars(parts[0].as_slice()) {
        Some(t) => t,
        None => 0,
    }
}

/// The attributes an `LRGEX.fileattr` value gives.
pub fn pax_attrs(v: &str) -> (r: u32)
    ensures
        r == pax_attrs_of(v@),
{
    let cs = crate::text::chars_of(v);
    match crate::text::parse_u32_chars(cs.as_slice()) {
        Some(a) => a,
        None => 0,
    }
}

/// Creation time and attributes from an entry's PAX fields (key, value), in order.
pub fn pax_meta(fields: &Vec<(String, String)>) -> (r: (u64, u32))
    ensures
        r == pax_meta_of(fields@.map_values(|f: (String, String)| (f.0@, f.1@))),
{
    let ghost fv = fields@.map_values(|f: (String, String)| (f.0@, f.1@));
    let ck = "SCHILY.creationtime";
    let ak = "LRGEX.fileattr";
    proof {
        reveal_strlit("SCHILY.creationtime");
        reveal_strlit("LRGEX.fileattr");
        assert(ck@ =~= ctime_key());
        assert(ak@ =~= attr_key());
    }
    let mut ctime: u64 = 0;
    let mut attrs: u32 = 0;
    let mut i: usize = 0;
    while i < fields.len()
        invariant
            i <= fields.len(),
            fv == fields@.map_values(|f: (String, String)| (f.0@, f.1@)),
            ck@ == ctime_key(),
            ak@ == attr_key(),
            (ctime, attrs) == pax_meta_of(fv.take(i as int)),
        decreases fields.len() - i,
    {
        proof {
            assert(fv.take(i + 1).drop_last() =~= fv.take(i as int));
            assert(fv.take(i + 1).last() == (fields@[i as int].0@, fields@[i as int].1@));
        }
        if crate::text::str_eq(fields[i].0.as_str(), ck) {
            ctime = pax_ctime(fields[i].1.as_str());
        } else if crate::text::str_eq(fields[i].0.as_str(), ak) {
            attrs = pax_attrs(fields[i].1.as_str());
        }
        i = i + 1;
    }
    proof {
        assert(fv.take(fields.len() as int) =~= fv);
    }
    (ctime, attrs)
}

/// The PAX fields written for an entry: its creation time when non-zero, its restorable
/// attributes when non-zero, as decimal text.
pub open spec fn pax_fields_of(ctime: u64, attrs: u32) -> Seq<(Seq<char>, Seq<char>)> {
    let r = attrs & crate::metaattr::PRESERVED_ATTRS;
    (if ctime > 0 {
        seq![(ctime_key(), decimal(ctime as nat))]
    } else {
        Seq::empty()
    }) + (if r != 0 {
        seq![(attr_key(), decimal(r as nat))]
    } else {
        Seq::empty()
    })
}

/// The PAX fields that carry an entry's creation time and attributes (none when both
/// are zero).
pub fn pax_fields(meta: crate::metaattr::MetaSnapshot) -> (r: Vec<(String, String)>)
    ensures
        r@.map_values(|f: (String, String)| (f.0@, f.1@)) == pax_fields_of(meta.ctime, meta.attrs),
{
    let mut out: Vec<(String, String)> = Vec::new();
    let ck = "SCHILY.creationtime";
    let ak = "LRGEX.fileattr";
    proof {
        reveal_strlit("SCHILY.creationtime");
        reveal_strlit("LRGEX.fileattr");
        assert(ck@ =~= ctime_key());
        assert(ak@ =~= attr_key());
    }
    if meta.ctime > 0 {
        let d = crate::text::decimal_chars(meta.ctime);
        out.push((ck.to_string(), crate::text::string_from_chars(d.as_slice())));
    }
    let restorable = meta.restorable_attrs();
    if restorable != 0 {
        let d = crate::text::decimal_chars(restorable as u64);
        out.push((ak.to_string(), crate::text::string_from_chars(d.as_slice())));
    }
    proof {
        assert(out@.map_values(|f: (String, String)| (f.0@, f.1@)) =~= pax_fields_of(
            meta.ctime,
            meta.attrs,
        ));
    }
    out
}

/// The PAX fields written for an entry read back as its creation time and restorable
/// attributes.
pub proof fn law_pax_roundtrip(ctime: u64, attrs: u32)
    ensures
        pax_meta_of(pax_fields_of(ctime, attrs)) == (ctime, attrs & crate::metaattr::PRESERVED_ATTRS),
{
    let r = attrs & crate::metaattr::PRESERVED_ATTRS;
    let fs = pax_fields_of(ctime, attrs);
    assert(ctime_key() != attr_key()) by {
        assert(ctime_key()[0] != attr_key()[0]);
    }
    if ctime > 0 {
        crate::text::lemma_decimal_roundtrip(ctime as nat);
        let d = decimal(ctime as nat);
        assert(!d.contains('.')) by {
            if d.contains('.') {
                let i = choose|i: int| 0 <= i < d.len() && d[i] == '.';
                assert(crate::text::is_digit(d[i]));
            }
        }
        crate::update::lemma_split_on_plain(d, '.');
        crate::update::lemma_decimal_parses(ctime);
    }
    if r != 0 {
        crate::update::lemma_decimal_parses(r as u64);
        crate::text::lemma_decimal_roundtrip(r as nat);
        assert(r <= 0x27) by (bit_vector)
            requires
                r == attrs & 0x27u32,
        ;
    }
    let e: Seq<(Seq<char>, Seq<char>)> = Seq::empty();
    assert(pax_meta_of(e) == (0u64, 0u32));
    if ctime > 0 {
        let f1 = seq![(ctime_key(), decimal(ctime as nat))];
        assert(f1.drop_last() =~= e);
        assert(pax_ctime_of(decimal(ctime as nat)) == ctime);
        assert(pax_meta_of(f1) == (ctime, 0u32));
        if r != 0 {
            assert(pax_attrs_of(decimal(r as nat)) == r);
            assert(fs =~= f1.push((attr_key(), decimal(r as nat))));
            assert(fs.drop_last() =~= f1);
            assert(pax_meta_of(fs) == (ctime, r));
        } else {
            assert(fs =~= f1);
        }
    } else {
        if r != 0 {
            let f2 = seq![(attr_key(), decimal(r as nat))];
            assert(pax_attrs_of(decimal(r as nat)) == r);
            assert(fs =~= f2);
            assert(f2.drop_last() =~= e);
            assert(pax_meta_of(f2) == (0u64, r));
        } else {
            assert(fs =~= e);
        }
    }
}

// ─── per-entry plan of a .zgx extraction ────────────────────────────────────

/// Entries up to this many bytes are read into memory and written in batches.
pub const STREAM_THRESHOLD: u64 = 1048576;

/// A batch is written once it holds this many files.
pub const BATCH_ENTRIES: usize = 2048;

/// A batch is written once it holds this many bytes.
pub const BATCH_BYTES: usize = 67108864;

/// The kind of a tar entry, as its header says.
#[derive(Debug, Clone, Copy, PartialEq, Eq, Structural)]
pub enum EntryKind {
    Directory,
    HardLink,
    Symlink,
    File,
}

/// What the extractor does with one tar entry.
#[derive(Debug, Clone, Copy, PartialEq, Eq, Structural)]
pub enum EntryAction {
    /// The first entry is the metadata sidecar: read it, do not write it.
    ReadSidecar,
    /// An absolute path or one that climbs out: skipped.
    SkipUnsafe,
    /// Create the directory; restore its metadata at the end.
    MakeDirectory,
    /// Hard links are not recreated.
    SkipHardLink,
    /// Flush the batch, then recreate the link if its target is safe.
    Link,
    /// On the elevated re-run, files already written are left alone.
    SkipExisting,
    /// Flush the batch, then stream the file to disk.
    Stream,
    /// Read the file into the batch.
    Batch,
}

/// The action for an entry: `first` for the first entry of the stream, `rel` its path,
/// `exists` whether its output path exists (looked at on an elevated re-run only).
pub open spec fn entry_action_of(
    first: bool,
    rel: Seq<char>,
    kind: EntryKind,
    size: u64,
    elevated_rerun: bool,
    exists: bool,
) -> EntryAction {
    if first && rel == crate::archive::sidecar_path_spec() {
        EntryAction::ReadSidecar
    } else if !entry_is_safe(rel) {
        EntryAction::SkipUnsafe
    } else {
        match kind {
            EntryKind::Directory => EntryAction::MakeDirectory,
            EntryKind::HardLink => EntryAction::SkipHardLink,
            EntryKind::Symlink => EntryAction::Link,
            EntryKind::File => if elevated_rerun && exists {
                EntryAction::SkipExisting
            } else if size > STREAM_THRESHOLD {
                EntryAction::Stream
            } else {
                EntryAction::Batch
            },
        }
    }
}

/// Decides what to do with one tar entry of a `.zgx` stream.
pub fn entry_action(
    first: bool,
    rel: &str,
    kind: EntryKind,
    size: u64,
    elevated_rerun: bool,
    exists: bool,
) -> (r: EntryAction)
    ensures
        r == entry_action_of(first, rel@, kind, size, elevated_rerun, exists),
{
    if first && crate::text::str_eq(rel, crate::archive::sidecar_path()) {
        return EntryAction::ReadSidecar;
    }
    if !crate::winpath::is_safe_entry_path(rel) {
        return EntryAction::SkipUnsafe;
    }
    match kind {
        EntryKind::Directory => EntryAction::MakeDirectory,
        EntryKind::HardLink => EntryAction::SkipHardLink,
        EntryKind::Symlink => EntryAction::Link,
        EntryKind::File => if elevated_rerun && exists {
            EntryAction::SkipExisting
        } else if size > STREAM_THRESHOLD {
            EntryAction::Stream
        } else {
            EntryAction::Batch
        },
    }
}

/// The small-file batch is written when it reaches 2048 files or 64 MiB.
pub fn batch_full(entries: usize, bytes: usize) -> (r: bool)
    ensures
        r == (entries >= BATCH_ENTRIES || bytes >= BATCH_BYTES),
{
    entries >= BATCH_ENTRIES || bytes >= BATCH_BYTES
}

/// `./` stripped from the front of a path, as the sidecar lookup keys it.
pub open spec fn sidecar_key_of(rel: Seq<char>) -> Seq<char> {
    if rel.len() >= 2 && rel[0] == '.' && crate::segment::is_sep(rel[1]) {
        rel.subrange(2, rel.len() as int)
    } else {
        rel
    }
}

/// The key an entry path is looked up by in the sidecar.
pub fn sidecar_key(rel: &str) -> (r: String)
    ensures
        r@ == sidecar_key_of(rel@),
{
    let cs = crate::text::chars_of(rel);
    if cs.len() >= 2 && cs[0] == '.' && (cs[1] == '/' || cs[1] == '\\') {
        let rest = vstd::slice::slice_subrange(cs.as_slice(), 2, cs.len());
        crate::text::string_from_chars(rest)
    } else {
        proof {
            assert(cs@ == rel@);
        }
        crate::text::string_from_chars(cs.as_slice())
    }
}

// ─── symlink elevation ──────────────────────────────────────────────────────

/// The one-prompt elevation decision of an extraction run.
pub struct Elevation {
    decision: Option<bool>,
    needs_relaunch: bool,
}

/// The view of the elevation state: the user's answer, if asked, and whether a relaunch
/// is due.
pub closed spec fn elevation_view(e: Elevation) -> (Option<bool>, bool) {
    (e.decision, e.needs_relaunch)
}

impl Elevation {
    /// Nothing asked yet.
    pub fn new() -> (e: Elevation)
        ensures
            elevation_view(e) == (None::<bool>, false),
    {
        Elevation { decision: None, needs_relaunch: false }
    }

    /// A link failed for lack of privilege: the user is asked only if never asked before.
    pub fn should_ask(&self) -> (r: bool)
        ensures
            r == asks(elevation_view(*self)),
    {
        self.decision.is_none()
    }

    /// Records the user's answer; a yes makes the run relaunch elevated at the end.
    pub fn answer(&mut self, yes: bool)
        requires
            asks(elevation_view(*old(self))),
        ensures
            elevation_view(*final(self)) == (Some(yes), yes),
    {
        self.decision = Some(yes);
        self.needs_relaunch = yes;
    }

    /// Whether a link that could not be created is replaced by a small text file naming
    /// its target (not when the elevated run will recreate it).
    pub fn write_stub(&self) -> (r: bool)
        ensures
            r == !elevation_view(*self).1,
    {
        !self.needs_relaunch
    }

    /// Whether the run ends by relaunching itself elevated.
    pub fn relaunch(&self) -> (r: bool)
        ensures
            r == elevation_view(*self).1,
    {
        self.needs_relaunch
    }
}

/// Whether the user is to be asked (never asked before).
pub open spec fn asks(v: (Option<bool>, bool)) -> bool {
    v.0 is None
}

/// Once answered, the user is never asked again in the same run, and the run relaunches
/// elevated (writing no stubs for failed links) exactly when the answer was yes: the
/// state `answer(yes)` leaves makes `should_ask` false and `relaunch` equal to `yes`.
pub proof fn law_asked_once(e: Elevation, yes: bool, after: Elevation)
    requires
        asks(elevation_view(e)),
        elevation_view(after) == (Some(yes), yes),
    ensures
        !asks(elevation_view(after)),
        elevation_view(after).1 == yes,
{
}

// ─── overwrite check ────────────────────────────────────────────────────────

/// An archive entry as listed: its path and whether it is a directory.
pub struct ArchiveEntry {
    pub path: String,
    pub is_dir: bool,
}

/// The entry is checked for a conflict: a file whose path passes the guard (when the
/// format needs one).
pub open spec fn entry_checked(e: ArchiveEntry, guard: bool) -> bool {
    !e.is_dir && (!guard || entry_is_safe(e.path@))
}

/// `dest` joined with a relative entry path, as the app passes it to the existence probe:
/// `dest`, a `\` unless `dest` is empty or ends in a separator, then the entry path.
pub open spec fn joined_under(dest: Seq<char>, rel: Seq<char>) -> Seq<char> {
    if dest.len() == 0 {
        rel
    } else if crate::segment::is_sep(dest.last()) {
        dest + rel
    } else {
        dest + seq!['\\'] + rel
    }
}

pub(crate) fn join_under(dest: &str, rel: &str) -> (r: String)
    ensures
        r@ == joined_under(dest@, rel@),
{
    let d = crate::text::chars_of(dest);
    let r = crate::text::chars_of(rel);
    let mut out = d.clone();
    if d.len() > 0 && !(d[d.len() - 1] == '\\' || d[d.len() - 1] == '/') {
        out.push('\\');
    }
    let all = crate::text::concat_chars(out.as_slice(), r.as_slice());
    proof {
        if d.len() > 0 {
            assert(d@.last() == d@[d.len() - 1]);
        }
        assert(all@ =~= joined_under(dest@, rel@));
    }
    crate::text::string_from_chars(all.as_slice())
}

/// Whether extracting into `dest` would overwrite an existing file: some listed file
/// entry (not a directory; with `guard`, only paths that stay below the destination) has
/// a path under `dest` that `is_file` reports as existing.
pub fn has_conflicts<F: Fn(&str) -> bool>(
    dest: &str,
    entries: &Vec<ArchiveEntry>,
    guard: bool,
    is_file: F,
) -> (r: bool)
    requires
        forall|s: &str| is_file.requires((s,)),
    ensures
        r ==> exists|i: int|
            0 <= i < entries.len() && entry_checked(#[trigger] entries@[i], guard) && exists|s: &str|
                s@ == joined_under(dest@, entries@[i].path@) && is_file.ensures((s,), true),
        !r ==> forall|i: int|
            0 <= i < entries.len() && entry_checked(#[trigger] entries@[i], guard) ==> exists|s: &str|
                s@ == joined_under(dest@, entries@[i].path@) && is_file.ensures((s,), false),
{
    let mut i: usize = 0;
    while i < entries.len()
        invariant
            i <= entries.len(),
            forall|s: &str| is_file.requires((s,)),
            forall|k: int|
                0 <= k < i && entry_checked(#[trigger] entries@[k], guard) ==> exists|s: &str|
                    s@ == joined_under(dest@, entries@[k].path@) && is_file.ensures((s,), false),
        decreases entries.len() - i,
    {
        let e = &entries[i];
        let checked = !e.is_dir && (!guard || crate::winpath::is_safe_entry_path(e.path.as_str()));
        if checked {
            let p = join_under(dest, e.path.as_str());
            let found = is_file(p.as_str());
            if found {
                proof {
                    assert(entry_checked(entries@[i as int], guard));
                }
                return true;
            }
        }
        i = i + 1;
    }
    false
}

// ─── dispatch and write guards ───────────────────────────────────────────────

/// `Unrecognized archive format`
pub open spec fn unrecognized_message() -> Seq<char> {
    seq![
        'U', 'n', 'r', 'e', 'c', 'o', 'g', 'n', 'i', 'z', 'e', 'd', ' ', 'a', 'r', 'c', 'h', 'i',
        'v', 'e', ' ', 'f', 'o', 'r', 'm', 'a', 't',
    ]
}

/// Extracts an archive with the extractor for its format, known from its first bytes and
/// its name (`run` extracts a given format and reports success and a message). An
/// archive of no known format is refused without extracting.
pub fn extract_archive<F: FnOnce(crate::archive::Format) -> (bool, String)>(
    head: &[u8],
    archive: &str,
    run: F,
) -> (r: (bool, String))
    requires
        forall|f: crate::archive::Format| run.requires((f,)),
    ensures
        match crate::archive::detected_format(head@, archive@) {
            Some(f) => call_ensures(run, (f,), r),
            None => !r.0 && r.1@ == unrecognized_message(),
        },
{
    match crate::archive::detect_format(head, archive) {
        Some(f) => run(f),
        None => {
            let m = "Unrecognized archive format";
            proof {
                reveal_strlit("Unrecognized archive format");
                assert(m@ =~= unrecognized_message());
            }
            (false, m.to_string())
        },
    }
}

/// `.lrgex-tmp-`
pub open spec fn temp_tag() -> Seq<char> {
    seq!['.', 'l', 'r', 'g', 'e', 'x', '-', 't', 'm', 'p', '-']
}

/// The name an entry is written under before it is renamed into place: its full final
/// path, then `.lrgex-tmp-<process>-<counter>`.
pub open spec fn temp_path_spec(final_path: Seq<char>, pid: nat, id: nat) -> Seq<char> {
    final_path + temp_tag() + decimal(pid) + seq!['-'] + decimal(id)
}

/// The temporary path of an entry being written, from the process id and a counter
/// that is never reused within the process.
pub fn extract_temp_path(final_path: &str, pid: u32, id: u64) -> (r: String)
    ensures
        r@ == temp_path_spec(final_path@, pid as nat, id as nat),
{
    let mut cs = crate::text::chars_of(final_path);
    cs.push('.');
    cs.push('l');
    cs.push('r');
    cs.push('g');
    cs.push('e');
    cs.push('x');
    cs.push('-');
    cs.push('t');
    cs.push('m');
    cs.push('p');
    cs.push('-');
    let p = crate::text::decimal_chars(pid as u64);
    let mut a = crate::text::concat_chars(cs.as_slice(), p.as_slice());
    a.push('-');
    let d = crate::text::decimal_chars(id);
    let all = crate::text::concat_chars(a.as_slice(), d.as_slice());
    proof {
        assert(all@ =~= temp_path_spec(final_path@, pid as nat, id as nat));
    }
    crate::text::string_from_chars(all.as_slice())
}

proof fn lemma_digit_tail(x: Seq<char>, d: Seq<char>, y: Seq<char>, e: Seq<char>)
    requires
        x + seq!['-'] + d == y + seq!['-'] + e,
        crate::text::all_digits(d),
        crate::text::all_digits(e),
    ensures
        d == e,
{
    let s = x + seq!['-'] + d;
    if d.len() < e.len() {
        let k = s.len() - d.len() - 1;
        assert(s[k] == '-');
        assert((y + seq!['-'] + e)[k] == e[k - (y.len() + 1)]);
        assert(crate::text::is_digit(e[k - (y.len() + 1)]));
    } else if e.len() < d.len() {
        let k = s.len() - e.len() - 1;
        assert((y + seq!['-'] + e)[k] == '-');
        assert(s[k] == d[k - (x.len() + 1)]);
        assert(crate::text::is_digit(d[k - (x.len() + 1)]));
    } else {
        assert(s.len() == (y + seq!['-'] + e).len());
        assert(x.len() == y.len());
        assert forall|i: int| 0 <= i < d.len() implies d[i] == e[i] by {
            assert(s[x.len() + 1 + i] == d[i]);
            assert((y + seq!['-'] + e)[y.len() + 1 + i] == e[i]);
            assert(s[x.len() + 1 + i] == (y + seq!['-'] + e)[x.len() + 1 + i]);
        }
        assert(d =~= e);
    }
}

/// Temporary paths made with different counter values never collide, whatever their
/// final paths and process ids.
pub proof fn law_temp_paths_distinct(p1: Seq<char>, pid1: nat, id1: nat, p2: Seq<char>, pid2: nat, id2: nat)
    requires
        id1 != id2,
    ensures
        temp_path_spec(p1, pid1, id1) != temp_path_spec(p2, pid2, id2),
{
    crate::text::lemma_decimal_roundtrip(id1);
    crate::text::lemma_decimal_roundtrip(id2);
    if temp_path_spec(p1, pid1, id1) == temp_path_spec(p2, pid2, id2) {
        let x = p1 + temp_tag() + decimal(pid1);
        let y = p2 + temp_tag() + decimal(pid2);
        assert(temp_path_spec(p1, pid1, id1) =~= x + seq!['-'] + decimal(id1));
        assert(temp_path_spec(p2, pid2, id2) =~= y + seq!['-'] + decimal(id2));
        lemma_digit_tail(x, decimal(id1), y, decimal(id2));
    }
}

/// A file being written by an extraction: removed when the write does not finish, unless
/// it existed before (a partly overwritten file is left rather than the user's file
/// removed).
pub struct PartialFile {
    path: String,
    armed: bool,
    pre_existed: bool,
}

impl PartialFile {
    /// Whether the guard still removes its file.
    pub closed spec fn armed_spec(&self) -> bool {
        self.armed
    }

    /// Its path.
    pub closed spec fn path_spec(&self) -> Seq<char> {
        self.path@
    }

    /// Whether the file existed before.
    pub closed spec fn pre_existed_spec(&self) -> bool {
        self.pre_existed
    }

    /// A guard for `path`, armed; `pre_existed` is whether the file was there before.
    pub fn new(path: String, pre_existed: bool) -> (g: PartialFile)
        ensures
            g.path_spec() == path@,
            g.armed_spec(),
            g.pre_existed_spec() == pre_existed,
    {
        PartialFile { path, armed: true, pre_existed }
    }

    /// The file is fully written (and renamed or finished): keep it.
    pub fn disarm(&mut self)
        ensures
            !final(self).armed_spec(),
            final(self).path_spec() == old(self).path_spec(),
            final(self).pre_existed_spec() == old(self).pre_existed_spec(),
    {
        self.armed = false;
    }

    /// What to remove when the guard goes away: its file, if it is still armed and the
    /// file did not exist before.
    pub fn to_remove(&self) -> (r: Option<&str>)
        ensures
            match r {
                Some(p) => self.armed_spec() && !self.pre_existed_spec() && p@ == self.path_spec(),
                None => !(self.armed_spec() && !self.pre_existed_spec()),
            },
    {
        if self.armed && !self.pre_existed {
            Some(self.path.as_str())
        } else {
            None
        }
    }
}

/// A staging folder of an extraction: removed with its contents unless its contents
/// were moved into place.
pub struct StagingDir {
    path: String,
    armed: bool,
}

impl StagingDir {
    /// Whether the guard still removes its folder.
    pub closed spec fn armed_spec(&self) -> bool {
        self.armed
    }

    /// Its path.
    pub closed spec fn path_spec(&self) -> Seq<char> {
        self.path@
    }

    /// A guard for the folder at `path`, armed.
    pub fn new(path: String) -> (g: StagingDir)
        ensures
            g.path_spec() == path@,
            g.armed_spec(),
    {
        StagingDir { path, armed: true }
    }

    /// The contents were moved into place: keep the folder alone.
    pub fn disarm(&mut self)
        ensures
            !final(self).armed_spec(),
            final(self).path_spec() == old(self).path_spec(),
    {
        self.armed = false;
    }

    /// What to remove when the guard goes away: the folder, if still armed.
    pub fn to_remove(&self) -> (r: Option<&str>)
        ensures
            match r {
                Some(p) => self.armed_spec() && p@ == self.path_spec(),
                None => !self.armed_spec(),
            },
    {
        if self.armed {
            Some(self.path.as_str())
        } else {
            None
        }
    }
}

// ─── rar ─────────────────────────────────────────────────────────────────────

/// Files and bytes of a listing: the entries that are not folders, and the sum of their
/// unpacked sizes (modulo 2^64).
pub open spec fn listing_totals(items: Seq<(bool, u64)>) -> (nat, nat)
    decreases items.len(),
{
    if items.len() == 0 {
        (0, 0)
    } else {
        let (f, b) = listing_totals(items.drop_last());
        if items.last().0 {
            (f, b)
        } else {
            (f + 1, ((b + items.last().1) % 0x1_0000_0000_0000_0000) as nat)
        }
    }
}

/// The totals a rar listing gives the progress bar; `items` holds, for each listed
/// entry, whether it is a folder and its unpacked size.
pub fn rar_totals(items: &Vec<(bool, u64)>) -> (r: (usize, u64))
    ensures
        r.0 as nat == listing_totals(items@).0,
        r.1 as nat == listing_totals(items@).1,
{
    let mut files: usize = 0;
    let mut bytes: u64 = 0;
    let mut i: usize = 0;
    while i < items.len()
        invariant
            i <= items.len(),
            files <= i,
            files as nat == listing_totals(items@.take(i as int)).0,
            bytes as nat == listing_totals(items@.take(i as int)).1,
        decreases items.len() - i,
    {
        proof {
            assert(items@.take(i + 1).drop_last() =~= items@.take(i as int));
            assert(items@.take(i + 1).last() == items@[i as int]);
        }
        let (is_dir, size) = items[i];
        if !is_dir {
            files = files + 1;
            proof {
                let b = listing_totals(items@.take(i as int)).1;
                vstd::arithmetic::div_mod::lemma_small_mod(b, 0x1_0000_0000_0000_0000);
                vstd::arithmetic::div_mod::lemma_add_mod_noop(b as int, size as int, 0x1_0000_0000_0000_0000);
                vstd::arithmetic::div_mod::lemma_small_mod(size as nat, 0x1_0000_0000_0000_0000);
            }
            bytes = bytes.wrapping_add(size);
        }
        i = i + 1;
    }
    proof {
        assert(items@.take(items.len() as int) =~= items@);
    }
    (files, bytes)
}

/// `.<name>.lrgex-rar-staging-<pid>`: the staging folder a rar is extracted into, next to
/// the destination folder `<name>` (`archive` when the destination has no name).
pub open spec fn staging_name_spec(dest_name: Option<Seq<char>>, pid: nat) -> Seq<char> {
    seq!['.'] + match dest_name {
        Some(n) => n,
        None => seq!['a', 'r', 'c', 'h', 'i', 'v', 'e'],
    } + seq!['.', 'l', 'r', 'g', 'e', 'x', '-', 'r', 'a', 'r', '-', 's', 't', 'a', 'g', 'i', 'n', 'g', '-']
        + decimal(pid)
}

/// The name of the staging folder of a rar extraction.
pub fn rar_staging_name(dest_name: Option<&str>, pid: u32) -> (r: String)
    ensures
        r@ == staging_name_spec(
            match dest_name {
                Some(n) => Some(n@),
                None => None,
            },
            pid as nat,
        ),
{
    let mut a: Vec<char> = Vec::new();
    a.push('.');
    let n = match dest_name {
        Some(n) => crate::text::chars_of(n),
        None => crate::text::chars_of("archive"),
    };
    proof {
        reveal_strlit("archive");
    }
    let b = crate::text::concat_chars(a.as_slice(), n.as_slice());
    let tag = crate::text::chars_of(".lrgex-rar-staging-");
    proof {
        reveal_strlit(".lrgex-rar-staging-");
    }
    let c = crate::text::concat_chars(b.as_slice(), tag.as_slice());
    let d = crate::text::decimal_chars(pid as u64);
    let all = crate::text::concat_chars(c.as_slice(), d.as_slice());
    proof {
        assert(all@ =~= staging_name_spec(
            match dest_name {
                Some(n) => Some(n@),
                None => None,
            },
            pid as nat,
        ));
    }
    crate::text::string_from_chars(all.as_slice())
}

/// `<staging>.ORPHAN-<pid>-<millis>`: where a staging folder left by a crashed run is
/// moved aside (never removed: it may hold the only copy of files not yet moved).
pub fn orphan_name(staging_name: &str, pid: u32, millis: u64) -> (r: String)
    ensures
        r@ == staging_name@ + seq!['.', 'O', 'R', 'P', 'H', 'A', 'N', '-'] + decimal(pid as nat)
            + seq!['-'] + decimal(millis as nat),
{
    let mut a = crate::text::chars_of(staging_name);
    a.push('.');
    a.push('O');
    a.push('R');
    a.push('P');
    a.push('H');
    a.push('A');
    a.push('N');
    a.push('-');
    let p = crate::text::decimal_chars(pid as u64);
    let mut b = crate::text::concat_chars(a.as_slice(), p.as_slice());
    b.push('-');
    let m = crate::text::decimal_chars(millis);
    let all = crate::text::concat_chars(b.as_slice(), m.as_slice());
    proof {
        assert(all@ =~= staging_name@ + seq!['.', 'O', 'R', 'P', 'H', 'A', 'N', '-'] + decimal(pid as nat)
            + seq!['-'] + decimal(millis as nat));
    }
    crate::text::string_from_chars(all.as_slice())
}

/// How much more the unrar byte counter has advanced since the last sample: the growth,
/// or nothing when it has not grown.
pub fn counter_growth(last: u64, now: u64) -> (r: Option<u64>)
    ensures
        now > last ==> r == Some((now - last) as u64),
        now <= last ==> r is None,
{
    if now > last {
        Some(now - last)
    } else {
        None
    }
}

} // verus!
