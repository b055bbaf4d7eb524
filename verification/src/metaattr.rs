//! Windows metadata carried through an archive: times, the restorable attribute bits,
//! the outcome of a symlink creation, and the argument line of an elevated relaunch.
use crate::text::{decimal, decimal_chars};
use vstd::prelude::*;

verus! {

/// `FILE_ATTRIBUTE_HIDDEN`.
pub const ATTR_HIDDEN: u32 = 0x2;

/// `FILE_ATTRIBUTE_READONLY`.
pub const ATTR_READONLY: u32 = 0x1;

/// `FILE_ATTRIBUTE_SYSTEM`.
pub const ATTR_SYSTEM: u32 = 0x4;

/// `FILE_ATTRIBUTE_ARCHIVE`.
pub const ATTR_ARCHIVE: u32 = 0x20;

/// The attribute bits preserved across an archive round trip.
pub const PRESERVED_ATTRS: u32 = 0x27;

/// Seconds from 1601-01-01 (the FILETIME epoch) to 1970-01-01.
pub const EPOCH_DIFF: u64 = 11644473600;

/// Times (seconds since 1970) and raw attributes of a file.
#[derive(Clone, Copy, Default, Debug)]
pub struct MetaSnapshot {
    pub mtime: u64,
    pub ctime: u64,
    pub attrs: u32,
}

impl MetaSnapshot {
    /// The attributes that are restored: the raw ones masked to hidden, read-only,
    /// system and archive.
    pub fn restorable_attrs(self) -> (r: u32)
        ensures
            r == self.attrs & PRESERVED_ATTRS,
    {
        self.attrs & PRESERVED_ATTRS
    }
}

/// `min(v, u64::MAX)`.
pub open spec fn sat_u64(v: int) -> u64 {
    if v > u64::MAX {
        u64::MAX
    } else {
        v as u64
    }
}

/// 100-ns intervals since 1601 of a time given in seconds since 1970, saturating.
pub open spec fn filetime_intervals(secs: u64) -> u64 {
    sat_u64(sat_u64(secs + EPOCH_DIFF) * 10_000_000)
}

/// The 100-ns interval count of `secs`, saturating at `u64::MAX`.
fn intervals_of(secs: u64) -> (r: u64)
    ensures
        r == filetime_intervals(secs),
{
    let s = secs.saturating_add(EPOCH_DIFF);
    if s > u64::MAX / 10_000_000 {
        assert(s * 10_000_000 > u64::MAX) by (nonlinear_arith)
            requires
                s > u64::MAX / 10_000_000,
        ;
        u64::MAX
    } else {
        assert(s * 10_000_000 <= u64::MAX) by (nonlinear_arith)
            requires
                s <= u64::MAX / 10_000_000,
        ;
        s * 10_000_000
    }
}

/// A time in seconds since 1970 as the signed 100-ns count `FILE_BASIC_INFO` takes; 0
/// stays 0 ("leave unchanged"). Counts past `i64::MAX` wrap as the `as` cast does.
pub fn secs_to_100ns_i64(secs: u64) -> (r: i64)
    ensures
        secs == 0 ==> r == 0,
        secs != 0 ==> r == filetime_intervals(secs) as i64,
{
    if secs == 0 {
        return 0;
    }
    let intervals = intervals_of(secs);
    intervals as i64
}

/// A time in seconds since 1970 as the two halves of a FILETIME: `(low, high)`.
pub fn secs_to_filetime(secs: u64) -> (r: (u32, u32))
    ensures
        r.0 == filetime_intervals(secs) as u32,
        r.1 == (filetime_intervals(secs) >> 32u64) as u32,
{
    let intervals = intervals_of(secs);
    (intervals as u32, (intervals >> 32u64) as u32)
}

/// A FILETIME of zero means "no value": the destination's time is left alone.
pub fn filetime_is_unset(ft: (u32, u32)) -> (r: bool)
    ensures
        r == (ft.0 == 0 && ft.1 == 0),
{
    ft.0 == 0 && ft.1 == 0
}

/// Outcome of a symlink creation attempt.
pub enum SymlinkResult {
    /// The link was created.
    Created,
    /// It failed only for lack of privilege: ask the user once.
    NeedsElevation,
    /// It is skipped for good, for this reason.
    Skipped(String),
}

/// `ERROR_ACCESS_DENIED`.
pub const ERROR_ACCESS_DENIED: u32 = 5;

/// `ERROR_PRIVILEGE_NOT_HELD`.
pub const ERROR_PRIVILEGE_NOT_HELD: u32 = 1314;

/// `CreateSymbolicLinkW error <code>`
pub open spec fn link_error_text(code: u32) -> Seq<char> {
    seq!['C', 'r', 'e', 'a', 't', 'e', 'S', 'y', 'm', 'b', 'o', 'l', 'i', 'c', 'L', 'i', 'n', 'k', 'W', ' ', 'e', 'r', 'r', 'o', 'r', ' ']
        + decimal(code as nat)
}

/// What a failed `CreateSymbolicLinkW` means, from its error code: a missing privilege
/// (access denied, privilege not held) calls for elevation; anything else skips the link.
pub fn classify_link_failure(code: u32) -> (r: SymlinkResult)
    ensures
        (code == ERROR_ACCESS_DENIED || code == ERROR_PRIVILEGE_NOT_HELD) ==> r is NeedsElevation,
        !(code == ERROR_ACCESS_DENIED || code == ERROR_PRIVILEGE_NOT_HELD) ==> match r {
            SymlinkResult::Skipped(why) => why@ == link_error_text(code),
            _ => false,
        },
{
    if code == ERROR_ACCESS_DENIED || code == ERROR_PRIVILEGE_NOT_HELD {
        return SymlinkResult::NeedsElevation;
    }
    let head = "CreateSymbolicLinkW error ";
    proof {
        reveal_strlit("CreateSymbolicLinkW error ");
    }
    let hc = crate::text::chars_of(head);
    let d = decimal_chars(code as u64);
    let all = crate::text::concat_chars(hc.as_slice(), d.as_slice());
    proof {
        assert(hc@ == head@);
        assert(all@ =~= link_error_text(code));
    }
    SymlinkResult::Skipped(crate::text::string_from_chars(all.as_slice()))
}

/// An argument as it goes on a relaunch command line: in double quotes when it holds a
/// space.
pub open spec fn quoted_arg(a: Seq<char>) -> Seq<char> {
    if a.contains(' ') {
        seq!['"'] + a + seq!['"']
    } else {
        a
    }
}

/// The arguments from the second on, each quoted as needed, joined by single spaces.
pub open spec fn relaunch_line(args: Seq<Seq<char>>, k: int) -> Seq<char>
    decreases k,
{
    if k <= 1 {
        Seq::empty()
    } else if k == 2 {
        quoted_arg(args[1])
    } else {
        relaunch_line(args, k - 1) + seq![' '] + quoted_arg(args[k - 1])
    }
}

/// The parameter line of an elevated relaunch: the program's arguments after its own
/// path, spaced, those with a space in double quotes.
pub fn relaunch_params(args: &Vec<String>) -> (r: String)
    ensures
        r@ == relaunch_line(args@.map_values(|s: String| s@), args.len() as int),
{
    let ghost av = args@.map_values(|s: String| s@);
    let mut out: Vec<char> = Vec::new();
    let mut i: usize = 1;
    while i < args.len()
        invariant
            1 <= i <= args.len() || (args.len() == 0 && i == 1),
            av == args@.map_values(|s: String| s@),
            out@ == relaunch_line(av, i as int),
        decreases args.len() - i,
    {
        let a = crate::text::chars_of(args[i].as_str());
        proof {
            assert(av[i as int] == a@);
        }
        let mut has_space = false;
        let mut k: usize = 0;
        while k < a.len()
            invariant
                k <= a.len(),
                has_space == exists|j: int| 0 <= j < k && a@[j] == ' ',
            decreases a.len() - k,
        {
            if a[k] == ' ' {
                has_space = true;
            }
            k = k + 1;
        }
        let mut piece: Vec<char> = Vec::new();
        if has_space {
            piece.push('"');
        }
        let p2 = crate::text::concat_chars(piece.as_slice(), a.as_slice());
        let mut piece = p2;
        if has_space {
            piece.push('"');
        }
        proof {
            if has_space {
                assert(a@.contains(' '));
                assert(piece@ =~= quoted_arg(a@));
            } else {
                assert(!a@.contains(' '));
                assert(piece@ =~= quoted_arg(a@));
            }
        }
        if i > 1 {
            out.push(' ');
        }
        let joined = crate::text::concat_chars(out.as_slice(), piece.as_slice());
        out = joined;
        i = i + 1;
        proof {
            if i == 2 {
                assert(out@ =~= relaunch_line(av, i as int));
            } else {
                assert(out@ =~= relaunch_line(av, i as int));
            }
        }
    }
    crate::text::string_from_chars(out.as_slice())
}

} // verus!
