//! Compress decisions: what each item met on the walk becomes, how an entry goes into the
//! tar stream, how failures are counted against a cancel, and what is reported at the
//! end (the list of unreadable files, the refusal of a split that needs too many parts).
use crate::metaattr::MetaSnapshot;
use crate::segment::{estimated_parts_spec, MAX_PARTS};
use crate::text::decimal;
use vstd::prelude::*;

verus! {

/// Files up to this size are read whole in a parallel batch; larger ones are streamed.
pub const BIG_FILE: u64 = 67108864;

/// Entries read per parallel batch.
pub const BATCH: usize = 2048;

/// The kind of an archived entry. A symlink carries its target (it has no body).
#[derive(Debug, Clone, PartialEq, Eq)]
pub enum EntKind {
    File,
    Dir,
    Symlink { target: String },
}

/// An entry to archive: where it is on disk, its path in the archive, its size, its
/// kind and its metadata.
#[derive(Debug, Clone)]
pub struct FileEnt {
    pub path: String,
    pub rel: String,
    pub size: u64,
    pub kind: EntKind,
    pub meta: MetaSnapshot,
}

/// What the walk learned of an item of a folder.
#[derive(Debug, Clone, PartialEq, Eq)]
pub enum WalkItem {
    /// Its type could not be read.
    Unknown,
    /// A symlink, with its target when it could be read.
    Symlink { target: Option<String> },
    /// A folder.
    Dir,
    /// A file, with its size when the listing gave one.
    File { size: Option<u64> },
}

/// What the walk does with an item.
pub enum WalkStep {
    /// Leave it out.
    Skip,
    /// Archive it.
    Add(FileEnt),
    /// Archive the folder entry itself, then walk into it.
    Descend(FileEnt),
}

/// Whether `name` is one of the excluded names.
pub open spec fn is_excluded(name: Seq<char>, excluded: Seq<Seq<char>>) -> bool {
    excluded.contains(name)
}

/// What the walk does with the item `name` (at `path`, archived as `rel`): excluded
/// names, items of unknown type and symlinks whose target cannot be read are left out;
/// a symlink is archived with its target and no size; a folder is archived (so empty
/// folders survive) and walked into; a file is archived with its listed size (0 when the
/// listing gave none).
pub fn walk_entry(
    name: &str,
    excluded: &Vec<String>,
    path: String,
    rel: String,
    item: WalkItem,
    meta: MetaSnapshot,
) -> (r: WalkStep)
    ensures
        is_excluded(name@, excluded@.map_values(|s: String| s@)) ==> r is Skip,
        !is_excluded(name@, excluded@.map_values(|s: String| s@)) ==> match item {
            WalkItem::Unknown => r is Skip,
            WalkItem::Symlink { target: None } => r is Skip,
            WalkItem::Symlink { target: Some(t) } => r == WalkStep::Add(
                FileEnt { path, rel, size: 0, kind: EntKind::Symlink { target: t }, meta },
            ),
            WalkItem::Dir => r == WalkStep::Descend(
                FileEnt { path, rel, size: 0, kind: EntKind::Dir, meta },
            ),
            WalkItem::File { size } => r == WalkStep::Add(
                FileEnt {
                    path,
                    rel,
                    size: match size {
                        Some(s) => s,
                        None => 0,
                    },
                    kind: EntKind::File,
                    meta,
                },
            ),
        },
{
    let ghost ev = excluded@.map_values(|s: String| s@);
    let mut i: usize = 0;
    while i < excluded.len()
        invariant
            i <= excluded.len(),
            ev == excluded@.map_values(|s: String| s@),
            forall|j: int| 0 <= j < i ==> ev[j] != name@,
        decreases excluded.len() - i,
    {
        if crate::text::str_eq(excluded[i].as_str(), name) {
            proof {
                assert(ev[i as int] == name@);
            }
            return WalkStep::Skip;
        }
        i = i + 1;
    }
    match item {
        WalkItem::Unknown => WalkStep::Skip,
        WalkItem::Symlink { target } => match target {
            Some(t) => WalkStep::Add(
                FileEnt { path, rel, size: 0, kind: EntKind::Symlink { target: t }, meta },
            ),
            None => WalkStep::Skip,
        },
        WalkItem::Dir => WalkStep::Descend(FileEnt { path, rel, size: 0, kind: EntKind::Dir, meta }),
        WalkItem::File { size } => {
            let s = match size {
                Some(s) => s,
                None => 0,
            };
            WalkStep::Add(FileEnt { path, rel, size: s, kind: EntKind::File, meta })
        },
    }
}

/// The archive path of an item of one of several selected folders: the folder's name,
/// `\`, then the item's path inside it.
pub fn member_rel(folder_name: &str, rel: &str) -> (r: String)
    ensures
        r@ == crate::extract::joined_under(folder_name@, rel@),
{
    crate::extract::join_under(folder_name, rel)
}

/// Whether an entry is read whole in the parallel batch: a file of at most 64 MiB.
pub fn loads_whole(e: &FileEnt) -> (r: bool)
    ensures
        r == (e.kind is File && e.size <= BIG_FILE),
{
    match e.kind {
        EntKind::File => e.size <= BIG_FILE,
        _ => false,
    }
}

/// The tar entry type of an archived entry.
#[derive(Debug, Clone, Copy, PartialEq, Eq, Structural)]
pub enum TarType {
    Regular,
    Directory,
    Symlink,
}

/// How an entry's tar header is made: its type and permission bits (files 0o644,
/// folders 0o755, links 0o777); its time is the entry's modification time, and a link
/// carries its target.
pub fn tar_header_kind(kind: &EntKind) -> (r: (TarType, u32))
    ensures
        r == (match kind {
            EntKind::File => (TarType::Regular, 0o644u32),
            EntKind::Dir => (TarType::Directory, 0o755u32),
            EntKind::Symlink { .. } => (TarType::Symlink, 0o777u32),
        }),
{
    match kind {
        EntKind::File => (TarType::Regular, 0o644),
        EntKind::Dir => (TarType::Directory, 0o755),
        EntKind::Symlink { .. } => (TarType::Symlink, 0o777),
    }
}

// ─── failures and the cancel flag ───────────────────────────────────────────────

/// The tally of a compress run: the files that could not be read, and whether the run
/// was cancelled.
pub struct CompressTally {
    skipped: Vec<String>,
    cancelled: bool,
}

/// Abstract state of the tally.
pub struct CompressTallyV {
    pub skipped: Seq<Seq<char>>,
    pub cancelled: bool,
}

impl View for CompressTally {
    type V = CompressTallyV;

    closed spec fn view(&self) -> CompressTallyV {
        CompressTallyV { skipped: self.skipped@.map_values(|s: String| s@), cancelled: self.cancelled }
    }
}

impl CompressTally {
    /// Nothing skipped, not cancelled.
    pub fn new() -> (t: CompressTally)
        ensures
            t@.skipped == Seq::<Seq<char>>::empty(),
            !t@.cancelled,
    {
        CompressTally { skipped: Vec::new(), cancelled: false }
    }

    /// Looks at the cancel flag before a batch or an entry: once it is up, the run is
    /// cancelled and stops.
    pub fn stop_for_cancel(&mut self, cancel_up: bool) -> (stop: bool)
        ensures
            stop == cancel_up,
            final(self)@.skipped == old(self)@.skipped,
            final(self)@.cancelled == (old(self)@.cancelled || cancel_up),
    {
        if cancel_up {
            self.cancelled = true;
        }
        cancel_up
    }

    /// An entry failed: a failure under a raised cancel flag is the cancel; any other
    /// failure skips the file (its path is listed) and the run goes on.
    pub fn entry_failed(&mut self, path: &str, cancel_up: bool)
        ensures
            cancel_up ==> final(self)@ == (CompressTallyV { cancelled: true, ..old(self)@ }),
            !cancel_up ==> final(self)@ == (CompressTallyV {
                skipped: old(self)@.skipped.push(path@),
                ..old(self)@
            }),
    {
        if cancel_up {
            self.cancelled = true;
        } else {
            let ghost before = self@.skipped;
            self.skipped.push(path.to_string());
            proof {
                assert(self@.skipped =~= before.push(path@));
            }
        }
    }

    /// Whether the run was cancelled.
    pub fn is_cancelled(&self) -> (r: bool)
        ensures
            r == self@.cancelled,
    {
        self.cancelled
    }

    /// The run's result: success when it was not cancelled and the archive was
    /// finished and flushed, with the skipped files either way.
    pub fn outcome(self, finished_ok: bool) -> (r: (bool, Vec<String>))
        ensures
            r.0 == (!self@.cancelled && finished_ok),
            r.1@.map_values(|s: String| s@) == self@.skipped,
    {
        (!self.cancelled && finished_ok, self.skipped)
    }
}

// ─── reports ─────────────────────────────────────────────────────────────────

/// Names joined with `sep` between them.
pub open spec fn joined_by(names: Seq<Seq<char>>, sep: Seq<char>) -> Seq<char>
    decreases names.len(),
{
    if names.len() == 0 {
        Seq::empty()
    } else if names.len() == 1 {
        names[0]
    } else {
        joined_by(names.drop_last(), sep) + sep + names.last()
    }
}

/// What becomes of the list of unreadable files next to the archive.
#[derive(Debug, Clone, PartialEq, Eq)]
pub enum SkipReport {
    /// A clean success: remove a stale list from an earlier run.
    Remove,
    /// A success that skipped files: write this list (one path per line, `\r\n`).
    Write(String),
    /// A failed or cancelled run: leave the list alone.
    Keep,
}

/// The list of unreadable files after a run.
pub fn skip_report(success: bool, skipped: &Vec<String>) -> (r: SkipReport)
    ensures
        !success ==> r == SkipReport::Keep,
        success && skipped.len() == 0 ==> r == SkipReport::Remove,
        success && skipped.len() > 0 ==> (r matches SkipReport::Write(t) && t@ == joined_by(
            skipped@.map_values(|s: String| s@),
            seq!['\r', '\n'],
        )),
{
    if !success {
        return SkipReport::Keep;
    }
    if skipped.len() == 0 {
        return SkipReport::Remove;
    }
    let ghost nv = skipped@.map_values(|s: String| s@);
    let mut out: Vec<char> = Vec::new();
    let mut i: usize = 0;
    while i < skipped.len()
        invariant
            i <= skipped.len(),
            nv == skipped@.map_values(|s: String| s@),
            out@ == joined_by(nv.take(i as int), seq!['\r', '\n']),
        decreases skipped.len() - i,
    {
        proof {
            assert(nv.take(i + 1).drop_last() =~= nv.take(i as int));
            assert(nv.take(i + 1).last() == skipped@[i as int]@);
        }
        if i > 0 {
            out.push('\r');
            out.push('\n');
        }
        let c = crate::text::chars_of(skipped[i].as_str());
        out = crate::text::concat_chars(out.as_slice(), c.as_slice());
        proof {
            if i == 0 {
                assert(nv.take(1) =~= seq![skipped@[0]@]);
            }
            assert(out@ =~= joined_by(nv.take(i + 1), seq!['\r', '\n']));
        }
        i = i + 1;
    }
    proof {
        assert(nv.take(skipped.len() as int) =~= nv);
    }
    SkipReport::Write(crate::text::string_from_chars(out.as_slice()))
}

/// `<dest>.part`: where an archive is written before it replaces `dest`.
pub fn partial_archive_path(dest: &str) -> (r: String)
    ensures
        r@ == dest@ + seq!['.', 'p', 'a', 'r', 't'],
{
    let mut cs = crate::text::chars_of(dest);
    cs.push('.');
    cs.push('p');
    cs.push('a');
    cs.push('r');
    cs.push('t');
    crate::text::string_from_chars(cs.as_slice())
}

/// `<dest>.skipped.txt`: the list of unreadable files next to an archive.
pub fn skipped_list_path(dest: &str) -> (r: String)
    ensures
        r@ == dest@ + seq!['.', 's', 'k', 'i', 'p', 'p', 'e', 'd', '.', 't', 'x', 't'],
{
    let mut cs = crate::text::chars_of(dest);
    cs.push('.');
    cs.push('s');
    cs.push('k');
    cs.push('i');
    cs.push('p');
    cs.push('p');
    cs.push('e');
    cs.push('d');
    cs.push('.');
    cs.push('t');
    cs.push('x');
    cs.push('t');
    crate::text::string_from_chars(cs.as_slice())
}

/// The refusal of a split compress that needs more than 9999 parts, for one folder or
/// for several items.
pub open spec fn split_refusal_text(mb: nat, parts: nat, many: bool) -> Seq<char> {
    if many {
        seq!['T', 'o', 'o', ' ', 'l', 'a', 'r', 'g', 'e', ' ', 'f', 'o', 'r', ' '] + decimal(mb)
            + seq![' ', 'M', 'B', ' ', 'p', 'a', 'r', 't', 's', ' ', '(', '~'] + decimal(parts)
            + seq![' ', 'n', 'e', 'e', 'd', 'e', 'd', ';', ' ', 'm', 'a', 'x', ' '] + decimal(
            MAX_PARTS as nat,
        ) + seq![')', '.']
    } else {
        seq!['F', 'o', 'l', 'd', 'e', 'r', ' ', 't', 'o', 'o', ' ', 'l', 'a', 'r', 'g', 'e', ' ', 'f', 'o', 'r', ' ']
            + decimal(mb) + seq![' ', 'M', 'B', ' ', 'p', 'a', 'r', 't', 's', ' ', '(', '~']
            + decimal(parts) + seq![
            ' ', 'p', 'a', 'r', 't', 's', ' ', 'n', 'e', 'e', 'd', 'e', 'd', ';', ' ', 'm', 'a', 'x', ' ',
        ] + decimal(MAX_PARTS as nat) + seq![
            ')', '.', ' ', 'U', 's', 'e', ' ', 'a', ' ', 'l', 'a', 'r', 'g', 'e', 'r', ' ', 's', 'i', 'z',
            'e', '.',
        ]
    }
}

fn push_text(out: &mut Vec<char>, t: &str)
    ensures
        final(out)@ == old(out)@ + t@,
{
    let c = crate::text::chars_of(t);
    let joined = crate::text::concat_chars(out.as_slice(), c.as_slice());
    *out = joined;
}

fn push_decimal(out: &mut Vec<char>, n: u64)
    ensures
        final(out)@ == old(out)@ + decimal(n as nat),
{
    let d = crate::text::decimal_chars(n);
    let joined = crate::text::concat_chars(out.as_slice(), d.as_slice());
    *out = joined;
}

/// Refuses a split compress of `total` bytes into `mb`-MiB parts when it would need more
/// than 9999 parts (the message names the size asked and the parts needed); `None` when
/// it fits.
pub fn split_refusal(total: u64, mb: u32, many: bool) -> (r: Option<String>)
    ensures
        estimated_parts_spec(total, mb) <= MAX_PARTS ==> r is None,
        estimated_parts_spec(total, mb) > MAX_PARTS ==> (r matches Some(t) && t@ == split_refusal_text(
            mb as nat,
            estimated_parts_spec(total, mb),
            many,
        )),
{
    let parts = crate::segment::estimated_parts(total, mb);
    if parts <= MAX_PARTS as u64 {
        return None;
    }
    let mut out: Vec<char> = Vec::new();
    if many {
        push_text(&mut out, "Too large for ");
    } else {
        push_text(&mut out, "Folder too large for ");
    }
    push_decimal(&mut out, mb as u64);
    push_text(&mut out, " MB parts (~");
    push_decimal(&mut out, parts);
    if many {
        push_text(&mut out, " needed; max ");
    } else {
        push_text(&mut out, " parts needed; max ");
    }
    push_decimal(&mut out, MAX_PARTS as u64);
    if many {
        push_text(&mut out, ").");
    } else {
        push_text(&mut out, "). Use a larger size.");
    }
    proof {
        reveal_strlit("Too large for ");
        reveal_strlit("Folder too large for ");
        reveal_strlit(" MB parts (~");
        reveal_strlit(" needed; max ");
        reveal_strlit(" parts needed; max ");
        reveal_strlit(").");
        reveal_strlit("). Use a larger size.");
        assert(out@ =~= split_refusal_text(mb as nat, parts as nat, many));
    }
    Some(crate::text::string_from_chars(out.as_slice()))
}

} // verus!
