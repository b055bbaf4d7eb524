//! Update decisions: version comparison, the once-a-day check throttle, the per-version
//! "don't ask again" record with its 30-day expiry, and the Ed25519 checks on the signed
//! manifest and on the downloaded installer.
use crate::text::{
    all_digits, decimal, digits_value, is_ws, parse_unsigned, parsed_u32, parsed_u64, split_on,
    trimmed,
};
use vstd::prelude::*;
use vstd::string::StringSliceAdditionalSpecFns;

verus! {

// ─── versions ───────────────────────────────────────────────────────────────

/// The numbers of the `.`-separated pieces of `s` that parse as `u32`, in order; pieces
/// that do not parse are skipped.
pub open spec fn numbers_of(pieces: Seq<Seq<char>>, k: int) -> Seq<u32>
    decreases k,
{
    if k <= 0 {
        Seq::empty()
    } else {
        match parsed_u32(pieces[k - 1]) {
            Some(v) => numbers_of(pieces, k - 1).push(v),
            None => numbers_of(pieces, k - 1),
        }
    }
}

/// The version numbers written in `s` (`"1.5.1"` gives 1, 5, 1).
pub open spec fn version_numbers(s: Seq<char>) -> Seq<u32> {
    numbers_of(split_on(s, '.'), split_on(s, '.').len() as int)
}

/// The `i`-th number of a version, 0 past its end.
pub open spec fn number_at(v: Seq<u32>, i: int) -> u32 {
    if 0 <= i < v.len() {
        v[i]
    } else {
        0
    }
}

/// The larger length of two versions.
pub open spec fn max_len(a: Seq<u32>, b: Seq<u32>) -> int {
    if a.len() >= b.len() {
        a.len() as int
    } else {
        b.len() as int
    }
}

/// From position `i` on, `a` is greater than `b` at the first position where they
/// differ (missing numbers count as 0).
pub open spec fn greater_from(a: Seq<u32>, b: Seq<u32>, i: int) -> bool
    decreases max_len(a, b) - i,
{
    if i >= max_len(a, b) || i < 0 {
        false
    } else if number_at(a, i) > number_at(b, i) {
        true
    } else if number_at(a, i) < number_at(b, i) {
        false
    } else {
        greater_from(a, b, i + 1)
    }
}

/// `remote` names a later version than `current`.
pub open spec fn newer(remote: Seq<char>, current: Seq<char>) -> bool {
    greater_from(version_numbers(remote), version_numbers(current), 0)
}

/// The version numbers of `s`.
fn version_numbers_of(s: &str) -> (r: Vec<u32>)
    ensures
        r@ == version_numbers(s@),
{
    let cs = crate::text::chars_of(s);
    let pieces = crate::text::split_chars(cs.as_slice(), '.');
    let ghost pv = pieces@.map_values(|v: Vec<char>| v@);
    let mut out: Vec<u32> = Vec::new();
    let mut i: usize = 0;
    while i < pieces.len()
        invariant
            i <= pieces.len(),
            pv == pieces@.map_values(|v: Vec<char>| v@),
            out@ == numbers_of(pv, i as int),
        decreases pieces.len() - i,
    {
        proof {
            assert(pv[i as int] == pieces@[i as int]@);
        }
        match crate::text::parse_u32_chars(pieces[i].as_slice()) {
            Some(v) => {
                out.push(v);
            },
            None => {},
        }
        i = i + 1;
    }
    out
}

/// Whether `remote` is a newer version than `current` ("1.5.1" is newer than "1.4.4").
/// Versions compare number by number, a missing number counting as 0.
pub fn is_newer(remote: &str, current: &str) -> (r: bool)
    ensures
        r == newer(remote@, current@),
{
    let rv = version_numbers_of(remote);
    let cv = version_numbers_of(current);
    let n = if rv.len() >= cv.len() {
        rv.len()
    } else {
        cv.len()
    };
    let mut i: usize = 0;
    while i < n
        invariant
            n == max_len(rv@, cv@),
            rv@ == version_numbers(remote@),
            cv@ == version_numbers(current@),
            i <= n,
            greater_from(rv@, cv@, 0) == greater_from(rv@, cv@, i as int),
        decreases n - i,
    {
        let a: u32 = if i < rv.len() {
            rv[i]
        } else {
            0
        };
        let b: u32 = if i < cv.len() {
            cv[i]
        } else {
            0
        };
        proof {
            assert(number_at(rv@, i as int) == a);
            assert(number_at(cv@, i as int) == b);
        }
        if a > b {
            return true;
        }
        if a < b {
            return false;
        }
        i = i + 1;
    }
    false
}

proof fn lemma_greater_irreflexive(a: Seq<u32>, i: int)
    ensures
        !greater_from(a, a, i),
    decreases max_len(a, a) - i,
{
    if 0 <= i < max_len(a, a) {
        lemma_greater_irreflexive(a, i + 1);
    }
}

proof fn lemma_greater_asymmetric(a: Seq<u32>, b: Seq<u32>, i: int)
    requires
        greater_from(a, b, i),
    ensures
        !greater_from(b, a, i),
    decreases max_len(a, b) - i,
{
    if number_at(a, i) == number_at(b, i) {
        lemma_greater_asymmetric(a, b, i + 1);
    }
}

proof fn lemma_greater_transitive(a: Seq<u32>, b: Seq<u32>, c: Seq<u32>, i: int)
    requires
        greater_from(a, b, i),
        greater_from(b, c, i),
    ensures
        greater_from(a, c, i),
    decreases max_len(a, b) - i,
{
    if number_at(a, i) == number_at(b, i) && number_at(b, i) == number_at(c, i) {
        lemma_greater_transitive(a, b, c, i + 1);
    }
}

/// No version is newer than itself.
pub proof fn law_newer_irreflexive(v: Seq<char>)
    ensures
        !newer(v, v),
{
    lemma_greater_irreflexive(version_numbers(v), 0);
}

/// Of two versions, at most one is newer than the other.
pub proof fn law_newer_asymmetric(a: Seq<char>, b: Seq<char>)
    requires
        newer(a, b),
    ensures
        !newer(b, a),
{
    lemma_greater_asymmetric(version_numbers(a), version_numbers(b), 0);
}

/// A version newer than one that is newer than a third is newer than that third.
pub proof fn law_newer_transitive(a: Seq<char>, b: Seq<char>, c: Seq<char>)
    requires
        newer(a, b),
        newer(b, c),
    ensures
        newer(a, c),
{
    lemma_greater_transitive(version_numbers(a), version_numbers(b), version_numbers(c), 0);
}

/// Splitting `s`, a separator, then a separator-free `b` gives the pieces of `s`, then `b`.
proof fn lemma_split_on_append(s: Seq<char>, b: Seq<char>, sep: char)
    requires
        !b.contains(sep),
    ensures
        split_on(s + seq![sep] + b, sep) == split_on(s, sep).push(b),
    decreases b.len(),
{
    let t = s + seq![sep] + b;
    if b.len() == 0 {
        assert(t.drop_last() =~= s);
        assert(t.last() == sep);
        assert(b =~= Seq::<char>::empty());
    } else {
        assert(!b.drop_last().contains(sep)) by {
            if b.drop_last().contains(sep) {
                let i = choose|i: int| 0 <= i < b.drop_last().len() && b.drop_last()[i] == sep;
                assert(b[i] == sep);
            }
        }
        lemma_split_on_append(s, b.drop_last(), sep);
        assert(t.drop_last() =~= s + seq![sep] + b.drop_last());
        assert(t.last() == b.last());
        assert(b.last() != sep) by {
            assert(b[b.len() - 1] == b.last());
        }
        assert(b.drop_last().push(b.last()) =~= b);
        assert(split_on(t, sep) =~= split_on(s, sep).push(b));
    }
}

proof fn lemma_numbers_prefix(p: Seq<Seq<char>>, b: Seq<char>, k: int)
    requires
        k <= p.len(),
    ensures
        numbers_of(p.push(b), k) == numbers_of(p, k),
    decreases k,
{
    if k > 0 {
        lemma_numbers_prefix(p, b, k - 1);
        assert(p.push(b)[k - 1] == p[k - 1]);
    }
}

/// A version text of one piece has that piece's number, if it has one.
pub proof fn law_version_of_one_piece(piece: Seq<char>)
    requires
        !piece.contains('.'),
    ensures
        version_numbers(piece) == match parsed_u32(piece) {
            Some(v) => seq![v],
            None => Seq::<u32>::empty(),
        },
{
    lemma_split_on_plain(piece, '.');
    assert(seq![piece][0] == piece);
    assert(numbers_of(seq![piece], 0) =~= Seq::<u32>::empty());
}

/// Appending `.` and a piece to a version text appends that piece's number (a `0` piece
/// gives the number 0; a piece that is not a number gives none) and keeps the earlier
/// numbers as they were.
pub proof fn law_version_append_piece(s: Seq<char>, piece: Seq<char>)
    requires
        !piece.contains('.'),
    ensures
        version_numbers(s + seq!['.'] + piece) == version_numbers(s) + match parsed_u32(piece) {
            Some(v) => seq![v],
            None => Seq::<u32>::empty(),
        },
{
    let p = split_on(s, '.');
    lemma_split_on_append(s, piece, '.');
    lemma_numbers_prefix(p, piece, p.len() as int);
    let q = p.push(piece);
    assert(q[q.len() - 1] == piece);
    match parsed_u32(piece) {
        Some(v) => {
            assert(numbers_of(p, p.len() as int).push(v) =~= numbers_of(p, p.len() as int) + seq![v]);
        },
        None => {
            assert(numbers_of(p, p.len() as int) =~= numbers_of(p, p.len() as int) + Seq::<u32>::empty());
        },
    }
}

proof fn lemma_greater_decided_at(a: Seq<u32>, b: Seq<u32>, i: int, k: int)
    requires
        0 <= i <= k,
        forall|j: int| i <= j < k ==> number_at(a, j) == number_at(b, j),
        number_at(a, k) > number_at(b, k),
    ensures
        greater_from(a, b, i),
    decreases k - i,
{
    assert(k < max_len(a, b));
    if i < k {
        lemma_greater_decided_at(a, b, i + 1, k);
    }
}

/// A version is newer when, at the first position where the numbers differ (a missing
/// number counting as 0), its number is the higher one, whatever follows.
pub proof fn law_newer_at_first_difference(remote: Seq<char>, current: Seq<char>, k: int)
    requires
        0 <= k,
        forall|j: int|
            0 <= j < k ==> number_at(version_numbers(remote), j) == number_at(
                version_numbers(current),
                j,
            ),
        number_at(version_numbers(remote), k) > number_at(version_numbers(current), k),
    ensures
        newer(remote, current),
        !newer(current, remote),
{
    lemma_greater_decided_at(version_numbers(remote), version_numbers(current), 0, k);
    lemma_greater_asymmetric(version_numbers(remote), version_numbers(current), 0);
}

// ─── the once-a-day throttle ────────────────────────────────────────────────

/// Seconds in a day: the update check runs at most once per day.
pub const CHECK_INTERVAL_SECS: u64 = 86400;

/// `now - last` as a `u64` subtraction that wraps around.
pub open spec fn wrapping_diff(now: u64, last: u64) -> int {
    if now >= last {
        now - last
    } else {
        now + 0x1_0000_0000_0000_0000 - last
    }
}

/// The check-stamp text holds a time (whitespace around it allowed) less than a day
/// before `now`, the difference taken with wrap-around.
pub open spec fn stamp_is_recent(stamp: Seq<char>, now: u64) -> bool {
    match parsed_u64(trimmed(stamp)) {
        Some(last) => wrapping_diff(now, last) < CHECK_INTERVAL_SECS,
        None => false,
    }
}

/// Whether the last update check, as recorded in the check-stamp text, was less than a
/// day ago; a stamp that is not a number does not count.
pub fn checked_recently(stamp: &str, now: u64) -> (r: bool)
    ensures
        r == stamp_is_recent(stamp@, now),
{
    let cs = crate::text::chars_of(stamp);
    let t = crate::text::trim_chars(cs.as_slice());
    match crate::text::parse_u64_chars(t.as_slice()) {
        Some(last) => now.wrapping_sub(last) < CHECK_INTERVAL_SECS,
        None => false,
    }
}

/// The check-stamp text recorded at time `now`: its decimal digits.
pub fn check_stamp(now: u64) -> (r: String)
    ensures
        r@ == decimal(now as nat),
{
    let d = crate::text::decimal_chars(now);
    crate::text::string_from_chars(d.as_slice())
}

/// Digits written by `decimal` are not trimmed away and parse back.
pub proof fn lemma_decimal_parses(n: u64)
    ensures
        trimmed(decimal(n as nat)) == decimal(n as nat),
        parsed_u64(decimal(n as nat)) == Some(n),
{
    crate::text::lemma_decimal_roundtrip(n as nat);
    let d = decimal(n as nat);
    assert(crate::text::is_digit(d[0]));
    assert(crate::text::is_digit(d[d.len() - 1]));
    assert(crate::text::first_non_ws(d, 0) == 0);
    assert(crate::text::end_non_ws(d, d.len() as int) == d.len());
    assert(d.subrange(0, d.len() as int) =~= d);
}

/// A stamp written at `t` counts as recent exactly while less than a day has passed
/// since `t` (with wrap-around).
pub proof fn law_stamp_roundtrip(t: u64, now: u64)
    ensures
        stamp_is_recent(decimal(t as nat), now) == (wrapping_diff(now, t) < CHECK_INTERVAL_SECS),
{
    lemma_decimal_parses(t);
}

// ─── "don't ask again" ──────────────────────────────────────────────────────

/// A declined version is asked about again after 30 days.
pub const DECLINE_EXPIRY_SECS: u64 = 2592000;

/// The record written when the user declines `version` at time `now`: the version, a
/// newline, the time in seconds.
pub open spec fn declined_record(version: Seq<char>, now: u64) -> Seq<char> {
    version + seq!['\n'] + decimal(now as nat)
}

/// The record names `version` (first line after trimming) and its time (second line, 0
/// when absent or not a number) lies less than 30 days before `now` (a time after `now`
/// counts as now).
pub open spec fn record_declines(record: Seq<char>, version: Seq<char>, now: u64) -> bool {
    let lines = split_on(trimmed(record), '\n');
    let saved_time: u64 = if lines.len() > 1 {
        match parsed_u64(lines[1]) {
            Some(t) => t,
            None => 0,
        }
    } else {
        0
    };
    &&& lines[0] == version
    &&& (if now >= saved_time {
        now - saved_time
    } else {
        0
    }) < DECLINE_EXPIRY_SECS
}

/// The text recorded when the user declines `version` at `now`.
pub fn declined_record_text(version: &str, now: u64) -> (r: String)
    ensures
        r@ == declined_record(version@, now),
{
    let mut cs = crate::text::chars_of(version);
    cs.push('\n');
    let d = crate::text::decimal_chars(now);
    let all = crate::text::concat_chars(cs.as_slice(), d.as_slice());
    crate::text::string_from_chars(all.as_slice())
}

/// Whether the user declined `version` less than 30 days before `now`, given the
/// declined-version record (`None` when there is none).
pub fn is_update_declined(record: Option<&str>, version: &str, now: u64) -> (r: bool)
    ensures
        r == match record {
            Some(t) => record_declines(t@, version@, now),
            None => false,
        },
{
    let text = match record {
        Some(t) => t,
        None => {
            return false;
        },
    };
    let cs = crate::text::chars_of(text);
    let t = crate::text::trim_chars(cs.as_slice());
    let lines = crate::text::split_chars(t.as_slice(), '\n');
    proof {
        crate::text::lemma_split_on_nonempty(t@, '\n');
        assert(lines@.map_values(|v: Vec<char>| v@)[0] == lines@[0]@);
        if lines.len() > 1 {
            assert(lines@.map_values(|v: Vec<char>| v@)[1] == lines@[1]@);
        }
    }
    let saved_time: u64 = if lines.len() > 1 {
        match crate::text::parse_u64_chars(lines[1].as_slice()) {
            Some(t) => t,
            None => 0,
        }
    } else {
        0
    };
    let vcs = crate::text::chars_of(version);
    if !crate::text::chars_eq(lines[0].as_slice(), vcs.as_slice()) {
        return false;
    }
    now.saturating_sub(saved_time) < DECLINE_EXPIRY_SECS
}

/// `split_on` of text without the separator is that text alone.
/// Text without the separator splits into itself alone.
pub proof fn lemma_split_on_plain(a: Seq<char>, sep: char)
    requires
        !a.contains(sep),
    ensures
        split_on(a, sep) == seq![a],
    decreases a.len(),
{
    if a.len() > 0 {
        lemma_split_on_plain(a.drop_last(), sep);
        assert(a.drop_last().push(a.last()) =~= a);
    } else {
        assert(a =~= Seq::<char>::empty());
    }
}

/// `split_on` of two separator-free texts joined by the separator gives the two texts.
proof fn lemma_split_on_pair(a: Seq<char>, b: Seq<char>, sep: char)
    requires
        !a.contains(sep),
        !b.contains(sep),
    ensures
        split_on(a + seq![sep] + b, sep) == seq![a, b],
    decreases b.len(),
{
    let s = a + seq![sep] + b;
    if b.len() == 0 {
        assert(b =~= Seq::<char>::empty());
        assert(s.drop_last() =~= a);
        lemma_split_on_plain(a, sep);
        assert(s.last() == sep);
        assert(split_on(s, sep) =~= seq![a, b]);
    } else {
        lemma_split_on_pair(a, b.drop_last(), sep);
        assert(s.drop_last() =~= a + seq![sep] + b.drop_last());
        assert(s.last() == b.last());
        assert(b.drop_last().push(b.last()) =~= b);
        assert(split_on(s, sep) =~= seq![a, b]);
    }
}

/// The record of a declined version declines that version exactly until 30 days have
/// passed, and declines no other version; for a version without line breaks that neither
/// starts nor ends with whitespace.
pub proof fn law_declined_record(version: Seq<char>, t: u64, other: Seq<char>, now: u64)
    requires
        version.len() > 0,
        !version.contains('\n'),
        !is_ws(version[0]),
        !is_ws(version.last()),
    ensures
        record_declines(declined_record(version, t), version, now) == ((if now >= t {
            now - t
        } else {
            0
        }) < DECLINE_EXPIRY_SECS),
        other != version ==> !record_declines(declined_record(version, t), other, now),
{
    let d = decimal(t as nat);
    let rec = declined_record(version, t);
    lemma_decimal_parses(t);
    crate::text::lemma_decimal_roundtrip(t as nat);
    assert(crate::text::is_digit(d[d.len() - 1]));
    assert(rec[0] == version[0]);
    assert(rec[rec.len() - 1] == d[d.len() - 1]);
    assert(crate::text::first_non_ws(rec, 0) == 0);
    assert(crate::text::end_non_ws(rec, rec.len() as int) == rec.len());
    assert(rec.subrange(0, rec.len() as int) =~= rec);
    assert(!d.contains('\n')) by {
        if d.contains('\n') {
            let i = choose|i: int| 0 <= i < d.len() && d[i] == '\n';
            assert(crate::text::is_digit(d[i]));
        }
    }
    lemma_split_on_pair(version, d, '\n');
}

// ─── signatures ─────────────────────────────────────────────────────────────

/// Why a hex string does not decode (`hex::FromHexError`).
#[derive(Debug, Clone, Copy, PartialEq, Eq, Structural)]
pub enum HexError {
    /// A byte that is not a hex digit, shown as a character, at this byte offset.
    InvalidHexCharacter { c: char, index: usize },
    /// An odd number of hex digits.
    OddLength,
    /// A decoded length that does not fit a fixed-size target.
    InvalidStringLength,
}

/// The value of a hex digit byte (either case).
pub open spec fn hex_digit(b: u8) -> Option<u8> {
    if 0x30 <= b && b <= 0x39 {
        Some((b - 0x30) as u8)
    } else if 0x41 <= b && b <= 0x46 {
        Some((b - 0x41 + 10) as u8)
    } else if 0x61 <= b && b <= 0x66 {
        Some((b - 0x61 + 10) as u8)
    } else {
        None
    }
}

/// Decoding of the hex digit pairs from byte `i` on: the first byte that is not a hex
/// digit is reported with its offset.
pub open spec fn hex_pairs_from(s: Seq<u8>, i: int) -> Result<Seq<u8>, HexError>
    decreases s.len() - i,
{
    if i + 2 > s.len() || i < 0 {
        Ok(Seq::empty())
    } else {
        match hex_digit(s[i]) {
            None => Err(HexError::InvalidHexCharacter { c: s[i] as char, index: i as usize }),
            Some(hi) => match hex_digit(s[i + 1]) {
                None => Err(
                    HexError::InvalidHexCharacter { c: s[i + 1] as char, index: (i + 1) as usize },
                ),
                Some(lo) => match hex_pairs_from(s, i + 2) {
                    Ok(rest) => Ok(seq![(hi * 16 + lo) as u8] + rest),
                    Err(e) => Err(e),
                },
            },
        }
    }
}

/// `hex::decode` of the bytes `s`: an odd length is refused, then pairs of hex digits
/// become bytes.
pub open spec fn hex_decoded(s: Seq<u8>) -> Result<Seq<u8>, HexError> {
    if s.len() % 2 != 0 {
        Err(HexError::OddLength)
    } else {
        hex_pairs_from(s, 0)
    }
}

/// `hex::decode` (hex 0.4): refuses an odd number of bytes, then decodes each pair of
/// hex digits (either case) into a byte, reporting the first non-digit byte and its
/// offset.
#[verifier::external_body]
fn hex_decode(s: &str) -> (r: Result<Vec<u8>, HexError>)
    ensures
        match r {
            Ok(v) => hex_decoded(s.spec_bytes()) == Ok::<Seq<u8>, HexError>(v@),
            Err(e) => hex_decoded(s.spec_bytes()) == Err::<Seq<u8>, HexError>(e),
        },
{
    match hex::decode(s) {
        Ok(v) => Ok(v),
        Err(hex::FromHexError::InvalidHexCharacter { c, index }) => Err(
            HexError::InvalidHexCharacter { c, index },
        ),
        Err(hex::FromHexError::OddLength) => Err(HexError::OddLength),
        Err(hex::FromHexError::InvalidStringLength) => Err(HexError::InvalidStringLength),
    }
}

/// `VerifyingKey::from_bytes` of ed25519-dalek accepts these 32 bytes (they decompress
/// to a curve point).
pub uninterp spec fn ed25519_key_valid(key: Seq<u8>) -> bool;

/// `VerifyingKey::verify` of ed25519-dalek accepts this 64-byte signature of `message`
/// under this key.
pub uninterp spec fn ed25519_accepts(key: Seq<u8>, message: Seq<u8>, signature: Seq<u8>) -> bool;

/// `VerifyingKey::from_bytes` of ed25519-dalek 2: whether the 32 bytes decompress to a
/// public key. Only the named outcome is stated.
#[verifier::external_body]
fn ed25519_key_decodes(key: &[u8]) -> (r: bool)
    requires
        key.len() == 32,
    ensures
        r == ed25519_key_valid(key@),
{
    let k: [u8; 32] = key.try_into().unwrap();
    ed25519_dalek::VerifyingKey::from_bytes(&k).is_ok()
}

/// `Verifier::verify` of ed25519-dalek 2 on the key made from `key` (which decodes) and
/// `Signature::from_bytes` of the signature: whether the signature of `message` checks.
/// Only the named outcome is stated.
#[verifier::external_body]
fn ed25519_signature_checks(key: &[u8], message: &[u8], signature: &[u8]) -> (r: bool)
    requires
        key.len() == 32,
        signature.len() == 64,
        ed25519_key_valid(key@),
    ensures
        r == ed25519_accepts(key@, message@, signature@),
{
    let k: [u8; 32] = key.try_into().unwrap();
    let s: [u8; 64] = signature.try_into().unwrap();
    let vk = ed25519_dalek::VerifyingKey::from_bytes(&k).unwrap();
    ed25519_dalek::Verifier::verify(&vk, message, &ed25519_dalek::Signature::from_bytes(&s)).is_ok()
}

/// Why a signature check failed.
#[derive(Debug, Clone, Copy, PartialEq, Eq, Structural)]
pub enum SignatureError {
    /// The public key is not hex.
    BadPublicKeyHex(HexError),
    /// The public key does not have 32 bytes.
    BadPublicKeyLength(usize),
    /// The public key bytes are not a valid Ed25519 key.
    BadPublicKey,
    /// The signature is not hex.
    BadSignatureFormat(HexError),
    /// The signature does not have 64 bytes.
    BadSignatureLength(usize),
    /// The signature does not verify.
    InvalidSignature,
}

/// UTF-8 bytes of a character sequence.
pub open spec fn utf8_of(s: Seq<char>) -> Seq<u8> {
    vstd::utf8::encode_utf8(s)
}

/// The outcome of checking `signature_hex` over `data` against `public_key_hex` (trimmed):
/// both decode from hex, have 32 and 64 bytes, the key is valid and accepts.
pub open spec fn signature_check(
    data: Seq<u8>,
    signature_hex: Seq<char>,
    public_key_hex: Seq<char>,
) -> Result<(), SignatureError> {
    match hex_decoded(utf8_of(trimmed(public_key_hex))) {
        Err(e) => Err(SignatureError::BadPublicKeyHex(e)),
        Ok(key) => if key.len() != 32 {
            Err(SignatureError::BadPublicKeyLength(key.len() as usize))
        } else if !ed25519_key_valid(key) {
            Err(SignatureError::BadPublicKey)
        } else {
            match hex_decoded(utf8_of(signature_hex)) {
                Err(e) => Err(SignatureError::BadSignatureFormat(e)),
                Ok(sig) => if sig.len() != 64 {
                    Err(SignatureError::BadSignatureLength(sig.len() as usize))
                } else if !ed25519_accepts(key, data, sig) {
                    Err(SignatureError::InvalidSignature)
                } else {
                    Ok(())
                },
            }
        },
    }
}

/// Checks an Ed25519 signature, given in hex, of `data` against the public key, given in
/// hex (surrounding whitespace ignored).
pub fn verify_signature(data: &[u8], signature_hex: &str, public_key_hex: &str) -> (r: Result<
    (),
    SignatureError,
>)
    ensures
        r == signature_check(data@, signature_hex@, public_key_hex@),
{
    let pk_chars = crate::text::chars_of(public_key_hex);
    let pk_trim = crate::text::trim_chars(pk_chars.as_slice());
    let pk_text = crate::text::string_from_chars(pk_trim.as_slice());
    let key = match hex_decode(pk_text.as_str()) {
        Ok(k) => k,
        Err(e) => {
            return Err(SignatureError::BadPublicKeyHex(e));
        },
    };
    if key.len() != 32 {
        return Err(SignatureError::BadPublicKeyLength(key.len()));
    }
    if !ed25519_key_decodes(key.as_slice()) {
        return Err(SignatureError::BadPublicKey);
    }
    proof {
        assert(signature_hex.spec_bytes() == utf8_of(signature_hex@));
    }
    let sig = match hex_decode(signature_hex) {
        Ok(s) => s,
        Err(e) => {
            return Err(SignatureError::BadSignatureFormat(e));
        },
    };
    if sig.len() != 64 {
        return Err(SignatureError::BadSignatureLength(sig.len()));
    }
    if ed25519_signature_checks(key.as_slice(), data, sig.as_slice()) {
        Ok(())
    } else {
        Err(SignatureError::InvalidSignature)
    }
}

/// Why a downloaded manifest is not trusted.
#[derive(Debug, Clone, Copy, PartialEq, Eq, Structural)]
pub enum ManifestRejection {
    /// The detached signature is empty (after trimming).
    EmptySignature,
    /// The signature does not check out.
    BadSignature(SignatureError),
}

/// The outcome of checking a manifest against its detached signature file.
pub open spec fn manifest_check(
    manifest: Seq<u8>,
    signature_file: Seq<u8>,
    public_key_hex: Seq<char>,
) -> Result<(), ManifestRejection> {
    let sig = trimmed(crate::text::lossy_text(signature_file));
    if sig.len() == 0 {
        Err(ManifestRejection::EmptySignature)
    } else {
        match signature_check(manifest, sig, public_key_hex) {
            Ok(()) => Ok(()),
            Err(e) => Err(ManifestRejection::BadSignature(e)),
        }
    }
}

/// Checks the manifest's raw bytes against the detached signature file (hex text,
/// whitespace around it ignored) before any of its fields is trusted.
pub fn check_manifest_signature(manifest: &[u8], signature_file: &[u8], public_key_hex: &str) -> (r:
    Result<(), ManifestRejection>)
    ensures
        r == manifest_check(manifest@, signature_file@, public_key_hex@),
{
    let text = crate::text::text_lossy(signature_file);
    let cs = crate::text::chars_of(text.as_str());
    let t = crate::text::trim_chars(cs.as_slice());
    if t.len() == 0 {
        return Err(ManifestRejection::EmptySignature);
    }
    let sig = crate::text::string_from_chars(t.as_slice());
    match verify_signature(manifest, sig.as_str(), public_key_hex) {
        Ok(()) => Ok(()),
        Err(e) => Err(ManifestRejection::BadSignature(e)),
    }
}

// ─── the update offer ───────────────────────────────────────────────────────

/// Everything needed to apply an update, captured at check time.
pub struct UpdateInfo {
    pub version: String,
    url: String,
    signature: Option<String>,
}

impl UpdateInfo {
    /// Where the installer is downloaded from.
    pub fn url(&self) -> (r: &str)
        ensures
            r@ == self.url_view(),
    {
        self.url.as_str()
    }

    /// The installer's signature (hex) from the manifest.
    pub fn signature(&self) -> (r: Option<&str>)
        ensures
            match r {
                Some(t) => self.signature_view() == Some(t@),
                None => self.signature_view() is None,
            },
    {
        match &self.signature {
            Some(s) => Some(s.as_str()),
            None => None,
        }
    }

    /// The version as the view sees it.
    pub closed spec fn version_view(&self) -> Seq<char> {
        self.version@
    }

    /// The download address as the view sees it.
    pub closed spec fn url_view(&self) -> Seq<char> {
        self.url@
    }

    /// The signature as the view sees it.
    pub closed spec fn signature_view(&self) -> Option<Seq<char>> {
        match self.signature {
            Some(s) => Some(s@),
            None => None,
        }
    }
}

/// The manifest offers an update: a newer version, with a non-empty installer signature,
/// that the user has not declined in the last 30 days.
pub open spec fn offers_update(
    version: Seq<char>,
    signature: Option<Seq<char>>,
    current: Seq<char>,
    declined: Option<Seq<char>>,
    now: u64,
) -> bool {
    &&& newer(version, current)
    &&& match signature {
        Some(s) => s.len() > 0,
        None => false,
    }
    &&& !match declined {
        Some(d) => record_declines(d, version, now),
        None => false,
    }
}

/// Decides on a verified manifest's fields whether to offer an update, given the running
/// version and the declined-version record.
pub fn offer_update(
    version: String,
    url: String,
    signature: Option<String>,
    current: &str,
    declined: Option<&str>,
    now: u64,
) -> (r: Option<UpdateInfo>)
    ensures
        match r {
            Some(info) => {
                &&& offers_update(
                    version@,
                    match signature {
                        Some(s) => Some(s@),
                        None => None,
                    },
                    current@,
                    match declined {
                        Some(d) => Some(d@),
                        None => None,
                    },
                    now,
                )
                &&& info.version_view() == version@
                &&& info.url_view() == url@
                &&& info.signature_view() == match signature {
                    Some(s) => Some(s@),
                    None => None,
                }
            },
            None => !offers_update(
                version@,
                match signature {
                    Some(s) => Some(s@),
                    None => None,
                },
                current@,
                match declined {
                    Some(d) => Some(d@),
                    None => None,
                },
                now,
            ),
        },
{
    if !is_newer(version.as_str(), current) {
        return None;
    }
    let has_sig = match &signature {
        Some(s) => crate::text::chars_of(s.as_str()).len() > 0,
        None => false,
    };
    if !has_sig {
        return None;
    }
    if is_update_declined(declined, version.as_str(), now) {
        return None;
    }
    Some(UpdateInfo { version, url, signature })
}

// ─── the installer ──────────────────────────────────────────────────────────

/// Downloads are capped at 100 MiB; reaching the cap means the file is refused.
pub const MAX_INSTALLER_BYTES: usize = 104857600;

/// An installer under this many bytes is refused.
pub const MIN_INSTALLER_BYTES: usize = 1000000;

/// Why a downloaded installer is refused.
#[derive(Debug, Clone, Copy, PartialEq, Eq, Structural)]
pub enum InstallerRejection {
    /// The download reached the size cap.
    TooLarge,
    /// The download is smaller than an installer can be (its length).
    TooSmall(usize),
    /// The manifest carried no signature.
    NoSignature,
    /// The manifest's signature is empty.
    EmptySignature,
    /// The signature does not check out.
    BadSignature(SignatureError),
}

/// The outcome of vetting a downloaded installer: size bounds first, then the signature.
pub open spec fn installer_check(
    data: Seq<u8>,
    signature: Option<Seq<char>>,
    public_key_hex: Seq<char>,
) -> Result<(), InstallerRejection> {
    if data.len() >= MAX_INSTALLER_BYTES {
        Err(InstallerRejection::TooLarge)
    } else if data.len() < MIN_INSTALLER_BYTES {
        Err(InstallerRejection::TooSmall(data.len() as usize))
    } else {
        match signature {
            None => Err(InstallerRejection::NoSignature),
            Some(s) => if s.len() == 0 {
                Err(InstallerRejection::EmptySignature)
            } else {
                match signature_check(data, s, public_key_hex) {
                    Ok(()) => Ok(()),
                    Err(e) => Err(InstallerRejection::BadSignature(e)),
                }
            },
        }
    }
}

/// Vets a downloaded installer before it is staged and launched.
pub fn vet_installer(data: &[u8], signature: &Option<String>, public_key_hex: &str) -> (r: Result<
    (),
    InstallerRejection,
>)
    ensures
        r == installer_check(
            data@,
            match signature {
                Some(s) => Some(s@),
                None => None,
            },
            public_key_hex@,
        ),
{
    if data.len() >= MAX_INSTALLER_BYTES {
        return Err(InstallerRejection::TooLarge);
    }
    if data.len() < MIN_INSTALLER_BYTES {
        return Err(InstallerRejection::TooSmall(data.len()));
    }
    let sig = match signature {
        None => {
            return Err(InstallerRejection::NoSignature);
        },
        Some(s) => s,
    };
    let sc = crate::text::chars_of(sig.as_str());
    if sc.len() == 0 {
        return Err(InstallerRejection::EmptySignature);
    }
    match verify_signature(data, sig.as_str(), public_key_hex) {
        Ok(()) => Ok(()),
        Err(e) => Err(InstallerRejection::BadSignature(e)),
    }
}

// ─── launching the installer ─────────────────────────────────────────────────

/// ASCII lower case (other characters unchanged).
pub open spec fn ascii_lower(c: char) -> char {
    if 'A' <= c && c <= 'Z' {
        ((c as u32) + 32) as char
    } else {
        c
    }
}

/// `a` starts with `b`, ignoring ASCII case.
pub open spec fn starts_with_ignoring_case(a: Seq<char>, b: Seq<char>) -> bool {
    b.len() <= a.len() && forall|i: int| 0 <= i < b.len() ==> ascii_lower(#[trigger] a[i]) == ascii_lower(b[i])
}

fn lower_char(c: char) -> (r: char)
    ensures
        r == ascii_lower(c),
{
    if c >= 'A' && c <= 'Z' {
        ((c as u8) + 32) as char
    } else {
        c
    }
}

fn starts_with_nocase(a: &[char], b: &[char]) -> (r: bool)
    ensures
        r == starts_with_ignoring_case(a@, b@),
{
    if b.len() > a.len() {
        return false;
    }
    let mut i: usize = 0;
    while i < b.len()
        invariant
            i <= b.len() <= a.len(),
            forall|j: int| 0 <= j < i ==> ascii_lower(#[trigger] a@[j]) == ascii_lower(b@[j]),
        decreases b.len() - i,
    {
        if lower_char(a[i]) != lower_char(b[i]) {
            return false;
        }
        i = i + 1;
    }
    true
}

/// The program is installed machine-wide: its path starts, ignoring ASCII case, with one
/// of the program-files folders that are set.
pub fn is_machine_wide_install(exe: &str, program_files: &Vec<String>) -> (r: bool)
    ensures
        r == exists|i: int|
            0 <= i < program_files.len() && starts_with_ignoring_case(exe@, #[trigger] program_files@[i]@),
{
    let e = crate::text::chars_of(exe);
    let mut i: usize = 0;
    while i < program_files.len()
        invariant
            i <= program_files.len(),
            e@ == exe@,
            forall|j: int| 0 <= j < i ==> !starts_with_ignoring_case(exe@, #[trigger] program_files@[j]@),
        decreases program_files.len() - i,
    {
        let p = crate::text::chars_of(program_files[i].as_str());
        proof {
            assert(p@ == program_files@[i as int]@);
        }
        if starts_with_nocase(e.as_slice(), p.as_slice()) {
            return true;
        }
        i = i + 1;
    }
    false
}

/// How the verified installer is started.
#[derive(Debug, Clone, Copy, PartialEq, Eq, Structural)]
pub enum LaunchPlan {
    /// Start it directly, without a window of its own.
    Direct,
    /// Ask for administrator rights (`runas`) so it can replace a machine-wide copy.
    RunAs,
}

/// A machine-wide install run without administrator rights needs the `runas` prompt;
/// otherwise the installer is started directly.
pub fn launch_plan(machine_wide: bool, elevated: bool) -> (r: LaunchPlan)
    ensures
        r == (if machine_wide && !elevated {
            LaunchPlan::RunAs
        } else {
            LaunchPlan::Direct
        }),
{
    if machine_wide && !elevated {
        LaunchPlan::RunAs
    } else {
        LaunchPlan::Direct
    }
}

/// The Windows error of a refused administrator prompt.
pub const ERROR_CANCELLED: u32 = 1223;

/// What the user is told when the installer could not be started: a refused `runas`
/// prompt says so; any other failure points to a manual download.
pub fn launch_failure_text(runas: bool, last_error: u32) -> (r: &'static str)
    ensures
        runas && last_error == ERROR_CANCELLED ==> r@ == launch_denied_text(),
        !(runas && last_error == ERROR_CANCELLED) ==> r@ == launch_failed_text(),
{
    if runas && last_error == ERROR_CANCELLED {
        let t = "Update was cancelled \u{2014} you denied the admin permission prompt. Try again and click Yes.";
        proof {
            reveal_strlit("Update was cancelled \u{2014} you denied the admin permission prompt. Try again and click Yes.");
        }
        t
    } else {
        let t = "The update couldn't be launched. Please try downloading it manually from GitHub Releases.";
        proof {
            reveal_strlit("The update couldn't be launched. Please try downloading it manually from GitHub Releases.");
        }
        t
    }
}

/// The message of a refused administrator prompt.
pub open spec fn launch_denied_text() -> Seq<char> {
    seq!['U', 'p', 'd', 'a', 't', 'e', ' ', 'w', 'a', 's', ' ', 'c', 'a', 'n', 'c', 'e', 'l', 'l', 'e', 'd', ' ', '\u{2014}', ' ']
        + seq!['y', 'o', 'u', ' ', 'd', 'e', 'n', 'i', 'e', 'd', ' ', 't', 'h', 'e', ' ', 'a', 'd', 'm', 'i', 'n', ' ']
        + seq!['p', 'e', 'r', 'm', 'i', 's', 's', 'i', 'o', 'n', ' ', 'p', 'r', 'o', 'm', 'p', 't', '.', ' ']
        + seq!['T', 'r', 'y', ' ', 'a', 'g', 'a', 'i', 'n', ' ', 'a', 'n', 'd', ' ', 'c', 'l', 'i', 'c', 'k', ' ', 'Y', 'e', 's', '.']
}

/// The message of any other failed start.
pub open spec fn launch_failed_text() -> Seq<char> {
    seq!['T', 'h', 'e', ' ', 'u', 'p', 'd', 'a', 't', 'e', ' ', 'c', 'o', 'u', 'l', 'd', 'n', '\'', 't', ' ']
        + seq!['b', 'e', ' ', 'l', 'a', 'u', 'n', 'c', 'h', 'e', 'd', '.', ' ']
        + seq!['P', 'l', 'e', 'a', 's', 'e', ' ', 't', 'r', 'y', ' ', 'd', 'o', 'w', 'n', 'l', 'o', 'a', 'd', 'i', 'n', 'g', ' ']
        + seq!['i', 't', ' ', 'm', 'a', 'n', 'u', 'a', 'l', 'l', 'y', ' ', 'f', 'r', 'o', 'm', ' ']
        + seq!['G', 'i', 't', 'H', 'u', 'b', ' ', 'R', 'e', 'l', 'e', 'a', 's', 'e', 's', '.']
}

/// `<url>?v=<version>`: the installer's download address, tagged with the version.
pub fn download_url(url: &str, version: &str) -> (r: String)
    ensures
        r@ == url@ + seq!['?', 'v', '='] + version@,
{
    let mut a = crate::text::chars_of(url);
    a.push('?');
    a.push('v');
    a.push('=');
    let b = crate::text::chars_of(version);
    let all = crate::text::concat_chars(a.as_slice(), b.as_slice());
    crate::text::string_from_chars(all.as_slice())
}

/// The question put to the user before an update.
pub open spec fn update_prompt_spec(version: Seq<char>, current: Seq<char>) -> Seq<char> {
    seq!['V', 'e', 'r', 's', 'i', 'o', 'n', ' '] + version + seq![
        ' ', 'i', 's', ' ', 'a', 'v', 'a', 'i', 'l', 'a', 'b', 'l', 'e', ' ', '(', 'y', 'o', 'u', ' ',
        'h', 'a', 'v', 'e', ' ', 'v',
    ] + current + seq![')', '.', '\n', '\n', 'U', 'p', 'd', 'a', 't', 'e', ' ', 'n', 'o', 'w', '?']
}

/// `Version <v> is available (you have v<current>).` and the question.
pub fn update_prompt(version: &str, current: &str) -> (r: String)
    ensures
        r@ == update_prompt_spec(version@, current@),
{
    let head = crate::text::chars_of("Version ");
    let v = crate::text::chars_of(version);
    let mid = crate::text::chars_of(" is available (you have v");
    let c = crate::text::chars_of(current);
    let tail = crate::text::chars_of(").\n\nUpdate now?");
    let a = crate::text::concat_chars(head.as_slice(), v.as_slice());
    let b = crate::text::concat_chars(a.as_slice(), mid.as_slice());
    let d = crate::text::concat_chars(b.as_slice(), c.as_slice());
    let all = crate::text::concat_chars(d.as_slice(), tail.as_slice());
    proof {
        reveal_strlit("Version ");
        reveal_strlit(" is available (you have v");
        reveal_strlit(").\n\nUpdate now?");
        assert(all@ =~= update_prompt_spec(version@, current@));
    }
    crate::text::string_from_chars(all.as_slice())
}

} // verus!
