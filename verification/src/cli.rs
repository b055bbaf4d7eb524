//! The command line and what it decides: which operation runs, the names of the archive
//! or folder produced, the path-length guard, and the messages and exit status at the end.
//!
//! `lrgex-compress <path>` compresses, `-x <archive>` extracts to a folder named after
//! the archive, `-x -h <archive>` extracts next to it, `--split [--size <MB>] <path>`
//! compresses to parts, and `--help`, `-h`, `/?` show the usage.
use crate::text::{decimal, parsed_u32};
use vstd::prelude::*;

verus! {

/// What the command line asks for.
#[derive(Debug, Clone, PartialEq)]
pub enum Command {
    /// Show the usage.
    Help,
    /// Split compress: the part size in MiB (30 unless given), whether it was given, and
    /// the path to compress (the last one named).
    Split { size_mb: u32, size_given: bool, target: Option<String> },
    /// Extract an archive, into a folder named after it or next to it (`here`).
    Extract { archive: String, here: bool },
    /// Compress one path.
    Compress { target: String },
}

/// The abstract command.
pub enum CommandV {
    Help,
    Split { size_mb: u32, size_given: bool, target: Option<Seq<char>> },
    Extract { archive: Seq<char>, here: bool },
    Compress { target: Seq<char> },
}

/// The view of a command.
pub open spec fn command_view(c: Command) -> CommandV {
    match c {
        Command::Help => CommandV::Help,
        Command::Split { size_mb, size_given, target } => CommandV::Split {
            size_mb,
            size_given,
            target: match target {
                Some(t) => Some(t@),
                None => None,
            },
        },
        Command::Extract { archive, here } => CommandV::Extract { archive: archive@, here },
        Command::Compress { target } => CommandV::Compress { target: target@ },
    }
}

/// `--elevated-rerun`
pub open spec fn rerun_flag() -> Seq<char> {
    seq!['-', '-', 'e', 'l', 'e', 'v', 'a', 't', 'e', 'd', '-', 'r', 'e', 'r', 'u', 'n']
}

/// The arguments other than `--elevated-rerun`, in order.
pub open spec fn without_rerun(args: Seq<Seq<char>>) -> Seq<Seq<char>>
    decreases args.len(),
{
    if args.len() == 0 {
        Seq::empty()
    } else if args.last() == rerun_flag() {
        without_rerun(args.drop_last())
    } else {
        without_rerun(args.drop_last()).push(args.last())
    }
}

/// Whether the program was relaunched elevated for a symlink pass, and its arguments
/// without that marker.
pub fn strip_rerun_flag(args: &Vec<String>) -> (r: (bool, Vec<String>))
    ensures
        r.0 == args@.map_values(|s: String| s@).contains(rerun_flag()),
        r.1@.map_values(|s: String| s@) == without_rerun(args@.map_values(|s: String| s@)),
{
    let ghost av = args@.map_values(|s: String| s@);
    let flag = "--elevated-rerun";
    proof {
        reveal_strlit("--elevated-rerun");
        assert(flag@ =~= rerun_flag());
    }
    let mut found = false;
    let mut out: Vec<String> = Vec::new();
    let mut i: usize = 0;
    while i < args.len()
        invariant
            i <= args.len(),
            av == args@.map_values(|s: String| s@),
            flag@ == rerun_flag(),
            found == av.take(i as int).contains(rerun_flag()),
            out@.map_values(|s: String| s@) == without_rerun(av.take(i as int)),
        decreases args.len() - i,
    {
        let ghost before = out@;
        proof {
            assert(av.take(i + 1).drop_last() =~= av.take(i as int));
            assert(av.take(i + 1).last() == args@[i as int]@);
        }
        if crate::text::str_eq(args[i].as_str(), flag) {
            found = true;
            proof {
                assert(av.take(i + 1)[i as int] == rerun_flag());
            }
        } else {
            out.push(args[i].clone());
            proof {
                assert(out@[out.len() - 1]@ == args@[i as int]@);
                assert(out@.map_values(|s: String| s@) =~= before.map_values(|s: String| s@).push(
                    args@[i as int]@,
                ));
            }
        }
        proof {
            if !(args@[i as int]@ == rerun_flag()) {
                if av.take(i + 1).contains(rerun_flag()) {
                    let k = choose|k: int| 0 <= k < i + 1 && #[trigger] av.take(i + 1)[k] == rerun_flag();
                    assert(k < i);
                    assert(av.take(i as int)[k] == rerun_flag());
                }
            }
            if av.take(i as int).contains(rerun_flag()) {
                let k = choose|k: int| 0 <= k < i && #[trigger] av.take(i as int)[k] == rerun_flag();
                assert(av.take(i + 1)[k] == rerun_flag());
            }
        }
        i = i + 1;
    }
    proof {
        assert(av.take(args.len() as int) =~= av);
    }
    (found, out)
}

/// `--help`
pub open spec fn help_flag() -> Seq<char> {
    seq!['-', '-', 'h', 'e', 'l', 'p']
}

/// `-h`
pub open spec fn short_h() -> Seq<char> {
    seq!['-', 'h']
}

/// `/?`
pub open spec fn slash_q() -> Seq<char> {
    seq!['/', '?']
}

/// `--split`
pub open spec fn split_flag() -> Seq<char> {
    seq!['-', '-', 's', 'p', 'l', 'i', 't']
}

/// `--size`
pub open spec fn size_flag() -> Seq<char> {
    seq!['-', '-', 's', 'i', 'z', 'e']
}

/// `-x`
pub open spec fn extract_flag() -> Seq<char> {
    seq!['-', 'x']
}

/// A part size as given: the number if it parses, else 30; never less than 1.
pub open spec fn size_value(t: Seq<char>) -> u32 {
    let v: u32 = match parsed_u32(t) {
        Some(v) => v,
        None => 30,
    };
    if v < 1 {
        1
    } else {
        v
    }
}

/// The split options from argument `i` on: `--size <MB>` sets the size, any other
/// argument names the path (the last one wins).
pub open spec fn split_scan(
    args: Seq<Seq<char>>,
    i: int,
    size: u32,
    given: bool,
    target: Option<Seq<char>>,
) -> (u32, bool, Option<Seq<char>>)
    decreases args.len() - i,
{
    if i >= args.len() || i < 0 {
        (size, given, target)
    } else if args[i] == size_flag() && i + 1 < args.len() {
        split_scan(args, i + 2, size_value(args[i + 1]), true, target)
    } else {
        split_scan(args, i + 1, size, given, Some(args[i]))
    }
}

/// The command the arguments (program path first) ask for.
pub open spec fn command_of(args: Seq<Seq<char>>) -> CommandV {
    if args.len() >= 2 && (args[1] == help_flag() || args[1] == short_h() || args[1] == slash_q()) {
        CommandV::Help
    } else if args.len() >= 2 && args[1] == split_flag() {
        let (size, given, target) = split_scan(args, 2, 30, false, None);
        CommandV::Split { size_mb: size, size_given: given, target }
    } else if args.len() >= 3 && args[1] == extract_flag() {
        let here = args.len() >= 4 && args[2] == short_h();
        CommandV::Extract { archive: if here { args[3] } else { args[2] }, here }
    } else if args.len() < 2 {
        CommandV::Help
    } else {
        CommandV::Compress { target: args[1] }
    }
}

/// The part size a typed text asks for: its number, 30 when it is not one, at least 1.
pub fn part_size(t: &str) -> (r: u32)
    ensures
        r == size_value(t@),
{
    let cs = crate::text::chars_of(t);
    let v = match crate::text::parse_u32_chars(cs.as_slice()) {
        Some(v) => v,
        None => 30,
    };
    if v < 1 {
        1
    } else {
        v
    }
}

/// Reads the command line (program path first, the rerun marker already removed).
pub fn parse_command(args: &Vec<String>) -> (r: Command)
    ensures
        command_view(r) == command_of(args@.map_values(|s: String| s@)),
{
    let ghost av = args@.map_values(|s: String| s@);
    let help = "--help";
    let h = "-h";
    let q = "/?";
    let split = "--split";
    let size = "--size";
    let x = "-x";
    proof {
        reveal_strlit("--help");
        reveal_strlit("-h");
        reveal_strlit("/?");
        reveal_strlit("--split");
        reveal_strlit("--size");
        reveal_strlit("-x");
        assert(help@ =~= help_flag());
        assert(h@ =~= short_h());
        assert(q@ =~= slash_q());
        assert(split@ =~= split_flag());
        assert(size@ =~= size_flag());
        assert(x@ =~= extract_flag());
    }
    let n = args.len();
    proof {
        if n >= 2 {
            assert(av[1] == args@[1]@);
        }
        if n >= 3 {
            assert(av[2] == args@[2]@);
        }
        if n >= 4 {
            assert(av[3] == args@[3]@);
        }
    }
    if n >= 2 && (crate::text::str_eq(args[1].as_str(), help) || crate::text::str_eq(
        args[1].as_str(),
        h,
    ) || crate::text::str_eq(args[1].as_str(), q)) {
        return Command::Help;
    }
    if n >= 2 && crate::text::str_eq(args[1].as_str(), split) {
        let mut size_mb: u32 = 30;
        let mut given = false;
        let mut target: Option<String> = None;
        let mut i: usize = 2;
        while i < n
            invariant
                2 <= i <= n + 1,
                n == args.len(),
                av == args@.map_values(|s: String| s@),
                size@ == size_flag(),
                split_scan(av, 2, 30, false, None) == split_scan(
                    av,
                    i as int,
                    size_mb,
                    given,
                    match target {
                        Some(t) => Some(t@),
                        None => None,
                    },
                ),
            decreases n + 1 - i,
        {
            proof {
                assert(av[i as int] == args@[i as int]@);
                if i + 1 < n {
                    assert(av[i + 1] == args@[i + 1]@);
                }
            }
            if crate::text::str_eq(args[i].as_str(), size) && i + 1 < n {
                given = true;
                size_mb = part_size(args[i + 1].as_str());
                i = i + 2;
            } else {
                target = Some(args[i].clone());
                proof {
                    assert(target.unwrap()@ == args@[i as int]@);
                }
                i = i + 1;
            }
        }
        return Command::Split { size_mb, size_given: given, target };
    }
    if n >= 3 && crate::text::str_eq(args[1].as_str(), x) {
        let here = n >= 4 && crate::text::str_eq(args[2].as_str(), h);
        let archive = if here {
            args[3].clone()
        } else {
            args[2].clone()
        };
        return Command::Extract { archive, here };
    }
    if n < 2 {
        return Command::Help;
    }
    Command::Compress { target: args[1].clone() }
}

/// Windows paths longer than this many bytes are refused up front.
pub const MAX_PATH_BYTES: usize = 247;

/// A path too long to work with (more than 247 bytes).
pub fn path_too_long(p: &str) -> (r: bool)
    ensures
        r == (crate::update::utf8_of(p@).len() > MAX_PATH_BYTES),
{
    p.as_bytes().len() > MAX_PATH_BYTES
}

/// The base name of the archive made from one item: its name without the last extension
/// (`video.mp4` gives `video`, a folder `x.md` gives `x`), unless the name starts with a
/// dot or has no other dot.
pub open spec fn archive_base_name(name: Seq<char>) -> Seq<char> {
    let dot = crate::segment::rfind(name, seq!['.']);
    if name.len() > 0 && name[0] != '.' && dot > 0 {
        name.subrange(0, dot)
    } else {
        name
    }
}

/// The base name of the archive made from one item.
pub fn archive_name_for(name: &str) -> (r: String)
    ensures
        r@ == archive_base_name(name@),
{
    let cs = crate::text::chars_of(name);
    if cs.len() > 0 && cs[0] != '.' {
        match rfind_dot(cs.as_slice()) {
            Some(d) => {
                if d > 0 {
                    proof {
                        crate::segment::lemma_rfind_bounds(cs@, seq!['.']);
                    }
                    return crate::text::string_from_chars(
                        vstd::slice::slice_subrange(cs.as_slice(), 0, d),
                    );
                }
            },
            None => {},
        }
    }
    crate::text::string_from_chars(cs.as_slice())
}

fn rfind_dot(s: &[char]) -> (r: Option<usize>)
    ensures
        match r {
            Some(i) => i as int == crate::segment::rfind(s@, seq!['.']),
            None => crate::segment::rfind(s@, seq!['.']) == -1,
        },
{
    let mut k: usize = s.len();
    proof {
        assert(s@.take(s.len() as int) =~= s@);
    }
    while k > 0
        invariant
            k <= s.len(),
            crate::segment::rfind(s@, seq!['.']) == crate::segment::rfind(s@.take(k as int), seq!['.']),
        decreases k,
    {
        let ghost pre = s@.take(k as int);
        proof {
            assert(pre.drop_last() =~= s@.take(k - 1));
            assert(pre.subrange(pre.len() - 1, pre.len() as int) =~= seq![s@[k - 1]]);
            if pre.subrange(pre.len() - 1, pre.len() as int) == seq!['.'] {
                assert(seq![s@[k - 1]][0] == seq!['.'][0]);
            }
        }
        if s[k - 1] == '.' {
            return Some(k - 1);
        }
        k = k - 1;
    }
    None
}

/// `<name>.zgx`
pub fn zgx_file_name(base: &str) -> (r: String)
    ensures
        r@ == base@ + crate::segment::zgx_ext(),
{
    let mut cs = crate::text::chars_of(base);
    cs.push('.');
    cs.push('z');
    cs.push('g');
    cs.push('x');
    proof {
        assert(cs@ =~= base@ + crate::segment::zgx_ext());
    }
    crate::text::string_from_chars(cs.as_slice())
}

/// The name a multi-item archive takes: its shared folder's name, or `Archive` when that
/// has none.
pub open spec fn multi_label_spec(folder_name: Option<Seq<char>>) -> Seq<char> {
    match folder_name {
        Some(n) => if n.len() > 0 {
            n
        } else {
            seq!['A', 'r', 'c', 'h', 'i', 'v', 'e']
        },
        None => seq!['A', 'r', 'c', 'h', 'i', 'v', 'e'],
    }
}

/// The label of a multi-item archive.
pub fn multi_label(folder_name: Option<&str>) -> (r: String)
    ensures
        r@ == multi_label_spec(
            match folder_name {
                Some(n) => Some(n@),
                None => None,
            },
        ),
{
    let fallback = "Archive";
    proof {
        reveal_strlit("Archive");
        assert(fallback@ =~= seq!['A', 'r', 'c', 'h', 'i', 'v', 'e']);
    }
    match folder_name {
        Some(n) => {
            if crate::text::chars_of(n).len() > 0 {
                n.to_string()
            } else {
                fallback.to_string()
            }
        },
        None => fallback.to_string(),
    }
}

/// `<label> (<n> items)`
pub open spec fn items_detail_spec(label: Seq<char>, n: nat) -> Seq<char> {
    label + seq![' ', '('] + decimal(n) + seq![' ', 'i', 't', 'e', 'm', 's', ')']
}

/// The detail line of a multi-item compress.
pub fn items_detail(label: &str, n: usize) -> (r: String)
    ensures
        r@ == items_detail_spec(label@, n as nat),
{
    let mut cs = crate::text::chars_of(label);
    cs.push(' ');
    cs.push('(');
    let d = crate::text::decimal_chars(n as u64);
    let mut all = crate::text::concat_chars(cs.as_slice(), d.as_slice());
    all.push(' ');
    all.push('i');
    all.push('t');
    all.push('e');
    all.push('m');
    all.push('s');
    all.push(')');
    proof {
        assert(all@ =~= items_detail_spec(label@, n as nat));
    }
    crate::text::string_from_chars(all.as_slice())
}

/// A file left by an earlier split compress of `stem`: named `<stem>.part…` and ending
/// in `.zgx`.
pub open spec fn stale_part_spec(file: Seq<char>, stem: Seq<char>) -> bool {
    let pre = stem + crate::segment::part_tag();
    &&& file.len() >= pre.len()
    &&& file.subrange(0, pre.len() as int) == pre
    &&& crate::segment::ends_with(file, crate::segment::zgx_ext())
}

/// Whether a file in the output folder is a part of an earlier split of `stem`.
pub fn is_stale_part(file: &str, stem: &str) -> (r: bool)
    ensures
        r == stale_part_spec(file@, stem@),
{
    let f = crate::text::chars_of(file);
    let mut pre = crate::text::chars_of(stem);
    pre.push('.');
    pre.push('p');
    pre.push('a');
    pre.push('r');
    pre.push('t');
    proof {
        assert(pre@ =~= stem@ + crate::segment::part_tag());
    }
    if f.len() < pre.len() {
        return false;
    }
    let head = vstd::slice::slice_subrange(f.as_slice(), 0, pre.len());
    if !crate::text::chars_eq(head, pre.as_slice()) {
        return false;
    }
    let n = f.len();
    let r = n >= 4 && f[n - 4] == '.' && f[n - 3] == 'z' && f[n - 2] == 'g' && f[n - 1] == 'x';
    proof {
        if n >= 4 {
            let t = f@.subrange(n - 4, n as int);
            if r {
                assert(t =~= crate::segment::zgx_ext());
            }
            if t == crate::segment::zgx_ext() {
                assert(t[0] == f@[n - 4] && t[1] == f@[n - 3] && t[2] == f@[n - 2] && t[3] == f@[n
                    - 1]);
            }
        }
    }
    r
}

/// The names of files that could not be read, joined with `, `.
pub open spec fn joined_names(names: Seq<Seq<char>>) -> Seq<char>
    decreases names.len(),
{
    if names.len() == 0 {
        Seq::empty()
    } else if names.len() == 1 {
        names[0]
    } else {
        joined_names(names.drop_last()) + seq![',', ' '] + names.last()
    }
}

/// The result text of a run that skipped files: their names joined with `, `.
pub fn skipped_message(names: &Vec<String>) -> (r: String)
    ensures
        r@ == joined_names(names@.map_values(|s: String| s@)),
{
    let ghost nv = names@.map_values(|s: String| s@);
    let mut out: Vec<char> = Vec::new();
    let mut i: usize = 0;
    while i < names.len()
        invariant
            i <= names.len(),
            nv == names@.map_values(|s: String| s@),
            out@ == joined_names(nv.take(i as int)),
        decreases names.len() - i,
    {
        proof {
            assert(nv.take(i + 1).drop_last() =~= nv.take(i as int));
            assert(nv.take(i + 1).last() == names@[i as int]@);
        }
        if i > 0 {
            out.push(',');
            out.push(' ');
        }
        let c = crate::text::chars_of(names[i].as_str());
        let next = crate::text::concat_chars(out.as_slice(), c.as_slice());
        out = next;
        proof {
            if i == 0 {
                assert(nv.take(1) =~= seq![names@[0]@]);
                assert(out@ =~= joined_names(nv.take(1)));
            } else {
                assert(out@ =~= joined_names(nv.take(i + 1)));
            }
        }
        i = i + 1;
    }
    proof {
        assert(nv.take(names.len() as int) =~= nv);
    }
    crate::text::string_from_chars(out.as_slice())
}

/// A run that ended failed (4) or cancelled (5) exits with status 1.
pub fn exit_failed(final_phase: usize) -> (r: bool)
    ensures
        r == (final_phase == 4 || final_phase == 5),
{
    final_phase == 4 || final_phase == 5
}

/// The result line of the progress window for a terminal phase: `Done` (or
/// `Done - N skipped`), the error message (or `Failed`), or `Cancelled`; nothing for
/// other phases.
pub open spec fn result_line(phase: nat, skipped: nat, error: Seq<char>) -> Option<Seq<char>> {
    if phase == 3 {
        if skipped > 0 {
            Some(seq!['D', 'o', 'n', 'e', ' ', '-', ' '] + decimal(skipped) + seq![' ', 's', 'k', 'i', 'p', 'p', 'e', 'd'])
        } else {
            Some(seq!['D', 'o', 'n', 'e'])
        }
    } else if phase == 4 {
        if error.len() > 0 {
            Some(error)
        } else {
            Some(seq!['F', 'a', 'i', 'l', 'e', 'd'])
        }
    } else if phase == 5 {
        Some(seq!['C', 'a', 'n', 'c', 'e', 'l', 'l', 'e', 'd'])
    } else {
        None
    }
}

/// The text the progress window shows when a run ends.
pub fn result_text(phase: usize, skipped: usize, error: &str) -> (r: Option<String>)
    ensures
        match r {
            Some(t) => result_line(phase as nat, skipped as nat, error@) == Some(t@),
            None => result_line(phase as nat, skipped as nat, error@) is None,
        },
{
    if phase == 3 {
        if skipped > 0 {
            let mut cs: Vec<char> = vec!['D', 'o', 'n', 'e', ' ', '-', ' '];
            let d = crate::text::decimal_chars(skipped as u64);
            let mut all = crate::text::concat_chars(cs.as_slice(), d.as_slice());
            all.push(' ');
            all.push('s');
            all.push('k');
            all.push('i');
            all.push('p');
            all.push('p');
            all.push('e');
            all.push('d');
            proof {
                assert(cs@ =~= seq!['D', 'o', 'n', 'e', ' ', '-', ' ']);
                assert(all@ =~= seq!['D', 'o', 'n', 'e', ' ', '-', ' '] + decimal(skipped as nat)
                    + seq![' ', 's', 'k', 'i', 'p', 'p', 'e', 'd']);
            }
            return Some(crate::text::string_from_chars(all.as_slice()));
        }
        let cs: Vec<char> = vec!['D', 'o', 'n', 'e'];
        proof {
            assert(cs@ =~= seq!['D', 'o', 'n', 'e']);
        }
        return Some(crate::text::string_from_chars(cs.as_slice()));
    }
    if phase == 4 {
        if crate::text::chars_of(error).len() > 0 {
            return Some(error.to_string());
        }
        let cs: Vec<char> = vec!['F', 'a', 'i', 'l', 'e', 'd'];
        proof {
            assert(cs@ =~= seq!['F', 'a', 'i', 'l', 'e', 'd']);
        }
        return Some(crate::text::string_from_chars(cs.as_slice()));
    }
    if phase == 5 {
        let cs: Vec<char> = vec!['C', 'a', 'n', 'c', 'e', 'l', 'l', 'e', 'd'];
        proof {
            assert(cs@ =~= seq!['C', 'a', 'n', 'c', 'e', 'l', 'l', 'e', 'd']);
        }
        return Some(crate::text::string_from_chars(cs.as_slice()));
    }
    None
}

/// The folder a path lies in, as text: what precedes its last separator (the separator
/// itself when it is the root, as in `\x` or `C:\x`); empty when there is no separator.
pub open spec fn dir_of(s: Seq<char>) -> Seq<char> {
    let i = crate::segment::last_sep(s);
    if i < 0 {
        Seq::empty()
    } else if i == 0 || (i == 2 && s[1] == ':') {
        s.subrange(0, i + 1)
    } else {
        s.subrange(0, i)
    }
}

/// A file name without its last extension: the part before its last `.`, unless that
/// `.` starts the name.
pub open spec fn stem_of(name: Seq<char>) -> Seq<char> {
    let dot = crate::segment::rfind(name, seq!['.']);
    if dot > 0 {
        name.subrange(0, dot)
    } else {
        name
    }
}

/// Where an archive is extracted: next to it (`here`); for a split part, into the folder
/// named after the split's base; otherwise into a folder named after the archive without
/// its extension.
pub open spec fn extract_dest_spec(archive: Seq<char>, here: bool) -> Seq<char> {
    if here {
        dir_of(archive)
    } else {
        match crate::segment::split_part_of(archive) {
            Some((base, _)) => base,
            None => crate::segment::with_file_name(
                archive,
                stem_of(crate::segment::file_name(archive)),
            ),
        }
    }
}

/// The destination folder of an extraction.
pub fn extract_dest(archive: &str, here: bool) -> (r: String)
    ensures
        r@ == extract_dest_spec(archive@, here),
{
    let cs = crate::text::chars_of(archive);
    if here {
        match crate::segment::find_last_sep(&cs) {
            None => {
                return String::new();
            },
            Some(i) => {
                let end = if i == 0 || (i == 2 && cs[1] == ':') {
                    i + 1
                } else {
                    i
                };
                return crate::text::string_from_chars(
                    vstd::slice::slice_subrange(cs.as_slice(), 0, end),
                );
            },
        }
    }
    match crate::segment::parse_split_part(archive) {
        Some((base, _)) => base,
        None => {
            let name = crate::segment::file_name_chars(&cs);
            let stem: &[char] = match rfind_dot(name.as_slice()) {
                Some(d) => {
                    proof {
                        crate::segment::lemma_rfind_bounds(name@, seq!['.']);
                    }
                    if d > 0 {
                        vstd::slice::slice_subrange(name.as_slice(), 0, d)
                    } else {
                        name.as_slice()
                    }
                },
                None => name.as_slice(),
            };
            let out = crate::segment::join_file_name(&cs, stem);
            crate::text::string_from_chars(out.as_slice())
        },
    }
}

/// The question before a compress replaces an existing archive.
pub open spec fn replace_question_spec(name: Seq<char>) -> Seq<char> {
    name + seq![' ', 'a', 'l', 'r', 'e', 'a', 'd', 'y', ' ', 'e', 'x', 'i', 's', 't', 's', '.', '\n', '\n']
        + seq!['D', 'o', ' ', 'y', 'o', 'u', ' ', 'w', 'a', 'n', 't', ' ', 't', 'o', ' ']
        + seq!['r', 'e', 'p', 'l', 'a', 'c', 'e', ' ', 'i', 't', '?']
}

/// `<name> already exists.` and the question whether to replace it.
pub fn replace_question(name: &str) -> (r: String)
    ensures
        r@ == replace_question_spec(name@),
{
    let a = crate::text::chars_of(name);
    let b = crate::text::chars_of(" already exists.\n\nDo you want to replace it?");
    proof {
        reveal_strlit(" already exists.\n\nDo you want to replace it?");
    }
    let all = crate::text::concat_chars(a.as_slice(), b.as_slice());
    proof {
        assert(all@ =~= replace_question_spec(name@));
    }
    crate::text::string_from_chars(all.as_slice())
}

/// The question before an extraction overwrites existing files.
pub open spec fn extract_replace_question_spec(dest_name: Seq<char>) -> Seq<char> {
    seq!['O', 'n', 'e', ' ', 'o', 'r', ' ', 'm', 'o', 'r', 'e', ' ', 'f', 'i', 'l', 'e', 's', ' ', 'i', 'n', ' ', '\'']
        + dest_name + seq!['\'', ' ', 'a', 'l', 'r', 'e', 'a', 'd', 'y', ' ', 'e', 'x', 'i', 's', 't', '.', '\n', '\n']
        + seq!['D', 'o', ' ', 'y', 'o', 'u', ' ', 'w', 'a', 'n', 't', ' ', 't', 'o', ' ']
        + seq!['r', 'e', 'p', 'l', 'a', 'c', 'e', ' ', 't', 'h', 'e', 'm', '?']
}

/// `One or more files in '<dest>' already exist.` and the question whether to replace
/// them.
pub fn extract_replace_question(dest_name: &str) -> (r: String)
    ensures
        r@ == extract_replace_question_spec(dest_name@),
{
    let a = crate::text::chars_of("One or more files in '");
    let b = crate::text::chars_of(dest_name);
    let c = crate::text::chars_of("' already exist.\n\nDo you want to replace them?");
    proof {
        reveal_strlit("One or more files in '");
        reveal_strlit("' already exist.\n\nDo you want to replace them?");
    }
    let ab = crate::text::concat_chars(a.as_slice(), b.as_slice());
    let all = crate::text::concat_chars(ab.as_slice(), c.as_slice());
    proof {
        assert(all@ =~= extract_replace_question_spec(dest_name@));
    }
    crate::text::string_from_chars(all.as_slice())
}

} // verus!
