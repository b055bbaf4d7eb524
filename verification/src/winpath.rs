//! Windows paths as text: prefix, root and components, lexical normalization, and the
//! containment checks that keep archive entries and link targets inside the
//! destination folder.
//!
//! A path is read as Windows reads it: a prefix (`C:`, `\\?\C:`, or a `\\server\share`
//! style prefix), an optional root separator, then components separated by `\` or `/`;
//! empty and `.` components are dropped.
use crate::segment::is_sep;
use vstd::prelude::*;

verus! {

/// A path split into its parts.
pub struct WinPath {
    /// The prefix text (empty when there is none).
    pub prefix: Seq<char>,
    /// A separator follows the prefix (or starts the path).
    pub root: bool,
    /// The components, without empty and `.` ones.
    pub pieces: Seq<Seq<char>>,
}

/// An ASCII letter.
pub open spec fn is_letter(c: char) -> bool {
    ('A' <= c && c <= 'Z') || ('a' <= c && c <= 'z')
}

/// End of the component that starts at `i` (the next separator, or the end).
pub open spec fn comp_end(s: Seq<char>, i: int) -> int
    decreases s.len() - i,
{
    if i >= s.len() || i < 0 {
        s.len() as int
    } else if is_sep(s[i]) {
        i
    } else {
        comp_end(s, i + 1)
    }
}

/// Length of the prefix: 6 for `\\?\X:`, 2 for `X:`, and for other paths that start
/// with `\\`, up to the end of the second component after it (`\\server\share`).
pub open spec fn prefix_len(s: Seq<char>) -> int {
    if s.len() >= 6 && s[0] == '\\' && s[1] == '\\' && s[2] == '?' && s[3] == '\\' && is_letter(
        s[4],
    ) && s[5] == ':' {
        6
    } else if s.len() >= 2 && is_letter(s[0]) && s[1] == ':' {
        2
    } else if s.len() >= 2 && s[0] == '\\' && s[1] == '\\' {
        let a = comp_end(s, 2);
        if a >= s.len() {
            s.len() as int
        } else {
            comp_end(s, a + 1)
        }
    } else {
        0
    }
}

/// The pieces of `s` between separators, empty pieces included.
pub open spec fn sep_pieces(s: Seq<char>) -> Seq<Seq<char>>
    decreases s.len(),
{
    if s.len() == 0 {
        seq![Seq::empty()]
    } else {
        let r = sep_pieces(s.drop_last());
        if is_sep(s.last()) {
            r.push(Seq::empty())
        } else {
            r.update(r.len() - 1, r.last().push(s.last()))
        }
    }
}

/// A component that path parsing drops: empty or `.`.
pub open spec fn dropped(p: Seq<char>) -> bool {
    p.len() == 0 || p == seq!['.']
}

/// The pieces that are kept.
pub open spec fn kept_pieces(ps: Seq<Seq<char>>) -> Seq<Seq<char>>
    decreases ps.len(),
{
    if ps.len() == 0 {
        Seq::empty()
    } else if dropped(ps.last()) {
        kept_pieces(ps.drop_last())
    } else {
        kept_pieces(ps.drop_last()).push(ps.last())
    }
}

/// The parts of a path.
pub open spec fn parse(s: Seq<char>) -> WinPath {
    let n = prefix_len(s);
    let rest = s.subrange(n, s.len() as int);
    WinPath {
        prefix: s.subrange(0, n),
        root: rest.len() > 0 && is_sep(rest[0]),
        pieces: kept_pieces(sep_pieces(rest)),
    }
}

/// `..`
pub open spec fn dotdot() -> Seq<char> {
    seq!['.', '.']
}

/// An archive entry path that stays below the destination: no prefix, no root, no `..`.
pub open spec fn entry_is_safe(rel: Seq<char>) -> bool {
    let w = parse(rel);
    &&& w.prefix.len() == 0
    &&& !w.root
    &&& !w.pieces.contains(dotdot())
}

/// Components resolved lexically: `..` drops the previous component (if any), other
/// components are kept.
pub open spec fn resolve(ps: Seq<Seq<char>>) -> Seq<Seq<char>>
    decreases ps.len(),
{
    if ps.len() == 0 {
        Seq::empty()
    } else if ps.last() == dotdot() {
        let r = resolve(ps.drop_last());
        if r.len() > 0 {
            r.drop_last()
        } else {
            r
        }
    } else {
        resolve(ps.drop_last()).push(ps.last())
    }
}

/// A drive prefix `X:`.
pub open spec fn is_drive(p: Seq<char>) -> bool {
    p.len() == 2
}

/// A path rebuilt from its resolved parts the way `PathBuf::push` does: the root
/// separator survives only after a prefix other than a bare drive.
pub open spec fn normalized(w: WinPath) -> WinPath {
    WinPath {
        prefix: w.prefix,
        root: w.root && w.prefix.len() > 0 && !is_drive(w.prefix),
        pieces: resolve(w.pieces),
    }
}

/// The text of a rebuilt path: the prefix, the root separator, the components joined
/// with `\`.
pub open spec fn path_text(w: WinPath) -> Seq<char> {
    w.prefix + (if w.root {
        seq!['\\']
    } else {
        Seq::empty()
    }) + joined(w.pieces)
}

/// Components joined with `\`.
pub open spec fn joined(ps: Seq<Seq<char>>) -> Seq<char>
    decreases ps.len(),
{
    if ps.len() == 0 {
        Seq::empty()
    } else if ps.len() == 1 {
        ps[0]
    } else {
        joined(ps.drop_last()) + seq!['\\'] + ps.last()
    }
}

/// ASCII upper case.
pub open spec fn upper(c: char) -> char {
    if 'a' <= c && c <= 'z' {
        ((c as u32) - 32) as char
    } else {
        c
    }
}

/// The prefix as paths compare it: drive letters in upper case.
pub open spec fn prefix_key(p: Seq<char>) -> Seq<char> {
    if p.len() == 2 {
        seq![upper(p[0]), ':']
    } else if p.len() == 6 && p[1] == '\\' && p[2] == '?' {
        p.update(4, upper(p[4]))
    } else {
        p
    }
}

/// `a` starts with `b`, component by component.
pub open spec fn starts_with(a: WinPath, b: WinPath) -> bool {
    &&& prefix_key(a.prefix) == prefix_key(b.prefix)
    &&& a.root == b.root
    &&& b.pieces.len() <= a.pieces.len()
    &&& a.pieces.subrange(0, b.pieces.len() as int) == b.pieces
}

/// The drive a prefix names, plain (`C:`) or verbatim (`\\?\C:`), as an upper-case letter.
pub open spec fn drive_of(p: Seq<char>) -> Option<char> {
    if p.len() == 2 && is_letter(p[0]) && p[1] == ':' {
        Some(upper(p[0]))
    } else if p.len() == 6 && p[0] == '\\' && p[1] == '\\' && p[2] == '?' && p[3] == '\\'
        && is_letter(p[4]) && p[5] == ':' {
        Some(upper(p[4]))
    } else {
        None
    }
}

/// `a` lies under `b`: the same head, then `b`'s components at the front of `a`'s. Two
/// paths on a drive have the same head when they name the same drive, whether the
/// prefix is plain or verbatim (a canonicalized folder carries `\\?\C:`); other heads
/// compare prefix and root.
pub open spec fn lies_under(a: WinPath, b: WinPath) -> bool {
    &&& match (drive_of(a.prefix), drive_of(b.prefix)) {
        (Some(x), Some(y)) => x == y,
        _ => prefix_key(a.prefix) == prefix_key(b.prefix) && a.root == b.root,
    }
    &&& b.pieces.len() <= a.pieces.len()
    &&& a.pieces.subrange(0, b.pieces.len() as int) == b.pieces
}

/// The directory a path lies in, if it has one.
pub open spec fn parent_of(w: WinPath) -> Option<WinPath> {
    if w.pieces.len() == 0 {
        None
    } else {
        Some(WinPath { pieces: w.pieces.drop_last(), ..w })
    }
}

/// `base` joined with a path that has no prefix.
pub open spec fn join_relative(base: WinPath, t: WinPath) -> WinPath {
    if t.root {
        WinPath { prefix: base.prefix, root: true, pieces: t.pieces }
    } else {
        WinPath { prefix: base.prefix, root: base.root, pieces: base.pieces + t.pieces }
    }
}

/// A link target is safe when it is not empty, has no prefix, and, resolved from the
/// link's folder, stays under the destination root as it was canonicalized (no root
/// when canonicalizing failed).
pub open spec fn link_target_safe(target: Seq<char>, link: Seq<char>, root: Option<Seq<char>>) -> bool {
    let t = parse(target);
    if target.len() == 0 || t.prefix.len() > 0 {
        false
    } else {
        match parent_of(parse(link)) {
            None => false,
            Some(base) => match root {
                None => false,
                Some(r) => lies_under(
                    normalized(join_relative(base, t)),
                    normalized(parse(r)),
                ),
            },
        }
    }
}

// ─── exec ───────────────────────────────────────────────────────────────────

/// A path's parts, held in vectors.
pub struct PathParts {
    pub prefix: Vec<char>,
    pub root: bool,
    pub pieces: Vec<Vec<char>>,
}

/// The view of held parts.
pub open spec fn parts_view(p: PathParts) -> WinPath {
    WinPath {
        prefix: p.prefix@,
        root: p.root,
        pieces: p.pieces@.map_values(|v: Vec<char>| v@),
    }
}

fn is_sep_char(c: char) -> (r: bool)
    ensures
        r == is_sep(c),
{
    c == '\\' || c == '/'
}

fn is_letter_char(c: char) -> (r: bool)
    ensures
        r == is_letter(c),
{
    (c >= 'A' && c <= 'Z') || (c >= 'a' && c <= 'z')
}

fn find_comp_end(s: &[char], i: usize) -> (r: usize)
    requires
        i <= s.len(),
    ensures
        r as int == comp_end(s@, i as int),
        i <= r <= s.len(),
{
    let mut k = i;
    while k < s.len() && !is_sep_char(s[k])
        invariant
            i <= k <= s.len(),
            comp_end(s@, i as int) == comp_end(s@, k as int),
        decreases s.len() - k,
    {
        k = k + 1;
    }
    k
}

fn prefix_length(s: &[char]) -> (r: usize)
    ensures
        r as int == prefix_len(s@),
        r <= s.len(),
{
    if s.len() >= 6 && s[0] == '\\' && s[1] == '\\' && s[2] == '?' && s[3] == '\\'
        && is_letter_char(s[4]) && s[5] == ':' {
        6
    } else if s.len() >= 2 && is_letter_char(s[0]) && s[1] == ':' {
        2
    } else if s.len() >= 2 && s[0] == '\\' && s[1] == '\\' {
        let a = find_comp_end(s, 2);
        if a >= s.len() {
            s.len()
        } else {
            find_comp_end(s, a + 1)
        }
    } else {
        0
    }
}

proof fn lemma_sep_pieces_nonempty(s: Seq<char>)
    ensures
        sep_pieces(s).len() > 0,
    decreases s.len(),
{
    if s.len() > 0 {
        lemma_sep_pieces_nonempty(s.drop_last());
    }
}

/// Whether a piece is empty or `.`.
fn is_dropped(p: &Vec<char>) -> (r: bool)
    ensures
        r == dropped(p@),
{
    let r = p.len() == 0 || (p.len() == 1 && p[0] == '.');
    proof {
        if p@ == seq!['.'] {
            assert(p@[0] == '.');
        }
        if p.len() == 1 && p@[0] == '.' {
            assert(p@ =~= seq!['.']);
        }
    }
    r
}

/// The kept pieces of `s`.
fn split_pieces_kept(s: &[char]) -> (r: Vec<Vec<char>>)
    ensures
        r@.map_values(|v: Vec<char>| v@) == kept_pieces(sep_pieces(s@)),
{
    let mut done: Vec<Vec<char>> = Vec::new();
    let mut cur: Vec<char> = Vec::new();
    let mut i: usize = 0;
    proof {
        assert(s@.take(0) =~= Seq::<char>::empty());
        assert(done@.map_values(|v: Vec<char>| v@) =~= kept_pieces(sep_pieces(s@.take(0)).drop_last()));
    }
    while i < s.len()
        invariant
            i <= s.len(),
            done@.map_values(|v: Vec<char>| v@) == kept_pieces(sep_pieces(s@.take(i as int)).drop_last()),
            cur@ == sep_pieces(s@.take(i as int)).last(),
        decreases s.len() - i,
    {
        let c = s[i];
        let ghost pre = s@.take(i as int);
        let ghost r = sep_pieces(pre);
        proof {
            assert(s@.take(i + 1).drop_last() =~= pre);
            assert(s@.take(i + 1).last() == c);
            lemma_sep_pieces_nonempty(pre);
        }
        if is_sep_char(c) {
            if !is_dropped(&cur) {
                done.push(cur);
            }
            cur = Vec::new();
            proof {
                let r2 = sep_pieces(s@.take(i + 1));
                assert(r2.drop_last() =~= r);
                assert(r =~= r.drop_last().push(r.last()));
                assert(done@.map_values(|v: Vec<char>| v@) =~= kept_pieces(r2.drop_last()));
            }
        } else {
            cur.push(c);
            proof {
                let r2 = sep_pieces(s@.take(i + 1));
                assert(r2.drop_last() =~= r.drop_last());
            }
        }
        i = i + 1;
    }
    proof {
        assert(s@.take(s.len() as int) =~= s@);
        lemma_sep_pieces_nonempty(s@);
        let r = sep_pieces(s@);
        assert(r =~= r.drop_last().push(r.last()));
    }
    if !is_dropped(&cur) {
        done.push(cur);
    }
    proof {
        assert(done@.map_values(|v: Vec<char>| v@) =~= kept_pieces(sep_pieces(s@)));
    }
    done
}

/// Splits a path into prefix, root and kept components.
pub fn parse_path(s: &str) -> (r: PathParts)
    ensures
        parts_view(r) == parse(s@),
{
    let cs = crate::text::chars_of(s);
    let n = prefix_length(cs.as_slice());
    let prefix = vstd::slice::slice_to_vec(vstd::slice::slice_subrange(cs.as_slice(), 0, n));
    let rest = vstd::slice::slice_subrange(cs.as_slice(), n, cs.len());
    let root = rest.len() > 0 && is_sep_char(rest[0]);
    let pieces = split_pieces_kept(rest);
    proof {
        assert(prefix@ =~= s@.subrange(0, n as int));
    }
    PathParts { prefix, root, pieces }
}

/// Whether an archive entry path stays below the destination: no prefix, no root and no
/// `..` component (so it is neither absolute nor climbing out).
pub fn is_safe_entry_path(rel: &str) -> (r: bool)
    ensures
        r == entry_is_safe(rel@),
{
    let w = parse_path(rel);
    if w.prefix.len() > 0 || w.root {
        return false;
    }
    let ghost pv = w.pieces@.map_values(|v: Vec<char>| v@);
    let mut i: usize = 0;
    while i < w.pieces.len()
        invariant
            i <= w.pieces.len(),
            pv == w.pieces@.map_values(|v: Vec<char>| v@),
            pv == parse(rel@).pieces,
            parse(rel@).prefix.len() == 0,
            !parse(rel@).root,
            forall|k: int| 0 <= k < i ==> pv[k] != dotdot(),
        decreases w.pieces.len() - i,
    {
        let p = &w.pieces[i];
        let dd = p.len() == 2 && p[0] == '.' && p[1] == '.';
        proof {
            assert(pv[i as int] == p@);
            if p@ == dotdot() {
                assert(p@[0] == '.' && p@[1] == '.');
            }
            if dd {
                assert(p@ =~= dotdot());
            }
        }
        if dd {
            proof {
                assert(pv.contains(dotdot()));
            }
            return false;
        }
        i = i + 1;
    }
    true
}

/// Resolves `..` components lexically.
fn resolve_pieces(ps: &Vec<Vec<char>>) -> (r: Vec<Vec<char>>)
    ensures
        r@.map_values(|v: Vec<char>| v@) == resolve(ps@.map_values(|v: Vec<char>| v@)),
{
    let ghost pv = ps@.map_values(|v: Vec<char>| v@);
    let mut out: Vec<Vec<char>> = Vec::new();
    let mut i: usize = 0;
    while i < ps.len()
        invariant
            i <= ps.len(),
            pv == ps@.map_values(|v: Vec<char>| v@),
            out@.map_values(|v: Vec<char>| v@) == resolve(pv.take(i as int)),
        decreases ps.len() - i,
    {
        let p = &ps[i];
        let ghost before = out@;
        proof {
            assert(pv.take(i + 1).drop_last() =~= pv.take(i as int));
            assert(pv.take(i + 1).last() == p@);
        }
        let dd = p.len() == 2 && p[0] == '.' && p[1] == '.';
        proof {
            if p@ == dotdot() {
                assert(p@[0] == '.' && p@[1] == '.');
            }
            if dd {
                assert(p@ =~= dotdot());
            }
        }
        if dd {
            if out.len() > 0 {
                out.pop();
                proof {
                    assert(out@.map_values(|v: Vec<char>| v@) =~= before.map_values(
                        |v: Vec<char>| v@,
                    ).drop_last());
                }
            }
        } else {
            out.push(p.clone());
            proof {
                assert(out@.map_values(|v: Vec<char>| v@) =~= before.map_values(|v: Vec<char>| v@).push(
                    p@,
                ));
            }
        }
        i = i + 1;
    }
    proof {
        assert(pv.take(ps.len() as int) =~= pv);
    }
    out
}

/// The normalized parts of a path.
fn normalize_parts(w: PathParts) -> (r: PathParts)
    ensures
        parts_view(r) == normalized(parts_view(w)),
{
    let pieces = resolve_pieces(&w.pieces);
    let root = w.root && w.prefix.len() > 0 && w.prefix.len() != 2;
    PathParts { prefix: w.prefix, root, pieces }
}

/// Components joined with `\`.
fn join_pieces(ps: &Vec<Vec<char>>) -> (r: Vec<char>)
    ensures
        r@ == joined(ps@.map_values(|v: Vec<char>| v@)),
{
    let ghost pv = ps@.map_values(|v: Vec<char>| v@);
    let mut out: Vec<char> = Vec::new();
    let mut i: usize = 0;
    while i < ps.len()
        invariant
            i <= ps.len(),
            pv == ps@.map_values(|v: Vec<char>| v@),
            out@ == joined(pv.take(i as int)),
        decreases ps.len() - i,
    {
        proof {
            assert(pv.take(i + 1).drop_last() =~= pv.take(i as int));
            assert(pv.take(i + 1).last() == ps@[i as int]@);
        }
        if i > 0 {
            out.push('\\');
        }
        let next = crate::text::concat_chars(out.as_slice(), ps[i].as_slice());
        out = next;
        proof {
            if i == 0 {
                assert(pv.take(1) =~= seq![ps@[0]@]);
                assert(out@ =~= joined(pv.take(1)));
            }
        }
        i = i + 1;
    }
    proof {
        assert(pv.take(ps.len() as int) =~= pv);
    }
    out
}

/// `lexical_normalize`: `.` and `..` resolved as text, nothing looked up on disk; the
/// result is rebuilt as `PathBuf::push` rebuilds it (a bare drive keeps no root
/// separator).
pub fn lexical_normalize(p: &str) -> (r: String)
    ensures
        r@ == path_text(normalized(parse(p@))),
{
    let w = normalize_parts(parse_path(p));
    let mut out: Vec<char> = w.prefix.clone();
    if w.root {
        out.push('\\');
    }
    let j = join_pieces(&w.pieces);
    let all = crate::text::concat_chars(out.as_slice(), j.as_slice());
    proof {
        assert(all@ =~= path_text(parts_view(w)));
    }
    crate::text::string_from_chars(all.as_slice())
}

/// Two prefixes compare equal (drive letters in any case).
fn prefixes_match(a: &Vec<char>, b: &Vec<char>) -> (r: bool)
    ensures
        r == (prefix_key(a@) == prefix_key(b@)),
{
    let ka = key_of(a);
    let kb = key_of(b);
    crate::text::chars_eq(ka.as_slice(), kb.as_slice())
}

fn upper_char(c: char) -> (r: char)
    ensures
        r == upper(c),
{
    if c >= 'a' && c <= 'z' {
        ((c as u8) - 32) as char
    } else {
        c
    }
}

fn key_of(p: &Vec<char>) -> (r: Vec<char>)
    ensures
        r@ == prefix_key(p@),
{
    if p.len() == 2 {
        let r = vec![upper_char(p[0]), ':'];
        proof {
            assert(r@ =~= seq![upper(p@[0]), ':']);
        }
        r
    } else if p.len() == 6 && p[1] == '\\' && p[2] == '?' {
        let mut r = p.clone();
        r.set(4, upper_char(p[4]));
        r
    } else {
        p.clone()
    }
}

/// `a` starts with `b`, component by component.
fn parts_start_with(a: &PathParts, b: &PathParts) -> (r: bool)
    ensures
        r == starts_with(parts_view(*a), parts_view(*b)),
{
    if !prefixes_match(&a.prefix, &b.prefix) || a.root != b.root || b.pieces.len() > a.pieces.len() {
        return false;
    }
    let ghost av = a.pieces@.map_values(|v: Vec<char>| v@);
    let ghost bv = b.pieces@.map_values(|v: Vec<char>| v@);
    let mut i: usize = 0;
    while i < b.pieces.len()
        invariant
            i <= b.pieces.len() <= a.pieces.len(),
            av == a.pieces@.map_values(|v: Vec<char>| v@),
            bv == b.pieces@.map_values(|v: Vec<char>| v@),
            forall|k: int| 0 <= k < i ==> av[k] == bv[k],
        decreases b.pieces.len() - i,
    {
        if !crate::text::chars_eq(a.pieces[i].as_slice(), b.pieces[i].as_slice()) {
            proof {
                assert(av.subrange(0, bv.len() as int)[i as int] != bv[i as int]);
            }
            return false;
        }
        i = i + 1;
    }
    proof {
        assert(av.subrange(0, bv.len() as int) =~= bv);
    }
    true
}

/// Two paths name the same place as paths compare: the same prefix (drive letters in any
/// case), the same root, the same components.
pub open spec fn same_path(a: Seq<char>, b: Seq<char>) -> bool {
    starts_with(parse(a), parse(b)) && parse(a).pieces.len() == parse(b).pieces.len()
}

/// Whether two paths compare equal component by component.
pub fn paths_equal(a: &str, b: &str) -> (r: bool)
    ensures
        r == same_path(a@, b@),
{
    let pa = parse_path(a);
    let pb = parse_path(b);
    parts_start_with(&pa, &pb) && pa.pieces.len() == pb.pieces.len()
}

/// Whether a link target keeps the link inside the destination: it is not empty, has
/// no drive or UNC prefix, and resolved lexically from the link's folder it stays under
/// the destination root (given as canonicalized; `None` when that failed).
pub fn is_safe_link_target(target: &str, link_path: &str, canonical_root: Option<&str>) -> (r: bool)
    ensures
        r == link_target_safe(
            target@,
            link_path@,
            match canonical_root {
                Some(c) => Some(c@),
                None => None,
            },
        ),
{
    let tcs = crate::text::chars_of(target);
    if tcs.len() == 0 {
        return false;
    }
    let t = parse_path(target);
    if t.prefix.len() > 0 {
        return false;
    }
    let link = parse_path(link_path);
    if link.pieces.len() == 0 {
        return false;
    }
    let mut base_pieces = link.pieces;
    base_pieces.pop();
    let ghost bpv = base_pieces@.map_values(|v: Vec<char>| v@);
    let joined_parts = if t.root {
        PathParts { prefix: link.prefix, root: true, pieces: t.pieces }
    } else {
        let mut ps = base_pieces;
        let mut k: usize = 0;
        let ghost tv = t.pieces@.map_values(|v: Vec<char>| v@);
        while k < t.pieces.len()
            invariant
                k <= t.pieces.len(),
                tv == t.pieces@.map_values(|v: Vec<char>| v@),
                ps@.map_values(|v: Vec<char>| v@) == bpv + tv.take(k as int),
            decreases t.pieces.len() - k,
        {
            let ghost before = ps@;
            ps.push(t.pieces[k].clone());
            k = k + 1;
            proof {
                assert(ps@.map_values(|v: Vec<char>| v@) =~= before.map_values(|v: Vec<char>| v@).push(
                    tv[k - 1],
                ));
                assert(bpv + tv.take(k as int) =~= (bpv + tv.take(k - 1)).push(tv[k - 1]));
            }
        }
        proof {
            assert(tv.take(t.pieces.len() as int) =~= tv);
        }
        PathParts { prefix: link.prefix, root: link.root, pieces: ps }
    };
    let root_text = match canonical_root {
        Some(c) => c,
        None => {
            return false;
        },
    };
    let a = normalize_parts(joined_parts);
    let b = normalize_parts(parse_path(root_text));
    proof {
        assert(bpv =~= parse(link_path@).pieces.drop_last());
    }
    parts_lie_under(&a, &b)
}

fn drive_letter(p: &Vec<char>) -> (r: Option<char>)
    ensures
        r == drive_of(p@),
{
    if p.len() == 2 && is_letter_char(p[0]) && p[1] == ':' {
        Some(upper_char(p[0]))
    } else if p.len() == 6 && p[0] == '\\' && p[1] == '\\' && p[2] == '?' && p[3] == '\\'
        && is_letter_char(p[4]) && p[5] == ':' {
        Some(upper_char(p[4]))
    } else {
        None
    }
}

/// `a` lies under `b` (see `lies_under`).
fn parts_lie_under(a: &PathParts, b: &PathParts) -> (r: bool)
    ensures
        r == lies_under(parts_view(*a), parts_view(*b)),
{
    let heads = match (drive_letter(&a.prefix), drive_letter(&b.prefix)) {
        (Some(x), Some(y)) => x == y,
        _ => prefixes_match(&a.prefix, &b.prefix) && a.root == b.root,
    };
    if !heads || b.pieces.len() > a.pieces.len() {
        return false;
    }
    let ghost av = a.pieces@.map_values(|v: Vec<char>| v@);
    let ghost bv = b.pieces@.map_values(|v: Vec<char>| v@);
    let mut i: usize = 0;
    while i < b.pieces.len()
        invariant
            i <= b.pieces.len() <= a.pieces.len(),
            av == a.pieces@.map_values(|v: Vec<char>| v@),
            bv == b.pieces@.map_values(|v: Vec<char>| v@),
            forall|k: int| 0 <= k < i ==> av[k] == bv[k],
        decreases b.pieces.len() - i,
    {
        if !crate::text::chars_eq(a.pieces[i].as_slice(), b.pieces[i].as_slice()) {
            proof {
                assert(av.subrange(0, bv.len() as int)[i as int] != bv[i as int]);
            }
            return false;
        }
        i = i + 1;
    }
    proof {
        assert(av.subrange(0, bv.len() as int) =~= bv);
    }
    true
}

// ─── laws ───────────────────────────────────────────────────────────────────

/// Two paths are the same exactly when their prefixes agree (drive letters in any case),
/// both or neither have a root, and their components are equal one for one. In
/// particular a path is never the same as one of its proper descendants or ancestors.
pub proof fn law_same_path_exact(a: Seq<char>, b: Seq<char>)
    ensures
        same_path(a, b) <==> {
            &&& prefix_key(parse(a).prefix) == prefix_key(parse(b).prefix)
            &&& parse(a).root == parse(b).root
            &&& parse(a).pieces == parse(b).pieces
        },
        parse(a).pieces.len() != parse(b).pieces.len() ==> !same_path(a, b),
{
    let pa = parse(a).pieces;
    let pb = parse(b).pieces;
    if pa.len() == pb.len() {
        assert(pa.subrange(0, pb.len() as int) =~= pa);
    }
    if pa == pb {
        assert(pa.subrange(0, pb.len() as int) =~= pa);
    }
}


proof fn lemma_resolve_append_plain(a: Seq<Seq<char>>, b: Seq<Seq<char>>)
    requires
        !b.contains(dotdot()),
    ensures
        resolve(a + b) == resolve(a) + b,
    decreases b.len(),
{
    if b.len() == 0 {
        assert(a + b =~= a);
        assert(resolve(a) + b =~= resolve(a));
    } else {
        let b1 = b.drop_last();
        assert(!b1.contains(dotdot())) by {
            if b1.contains(dotdot()) {
                let i = choose|i: int| 0 <= i < b1.len() && b1[i] == dotdot();
                assert(b[i] == dotdot());
            }
        }
        lemma_resolve_append_plain(a, b1);
        assert((a + b).drop_last() =~= a + b1);
        assert((a + b).last() == b.last());
        assert(b.last() != dotdot()) by {
            assert(b[b.len() - 1] == b.last());
        }
        assert(resolve(a) + b =~= (resolve(a) + b1).push(b.last()));
    }
}

/// A safe entry path, joined under a destination, resolves to a path that starts with
/// the destination: its components are the destination's followed by the entry's.
pub proof fn law_safe_entry_stays_inside(dest: Seq<char>, rel: Seq<char>)
    requires
        entry_is_safe(rel),
    ensures
        ({
            let d = parse(dest);
            let joined_path = WinPath { pieces: d.pieces + parse(rel).pieces, ..d };
            &&& starts_with(normalized(joined_path), normalized(d))
            &&& normalized(joined_path).pieces == resolve(d.pieces) + parse(rel).pieces
        }),
{
    let d = parse(dest);
    let r = parse(rel);
    lemma_resolve_append_plain(d.pieces, r.pieces);
    let n = resolve(d.pieces);
    assert((n + r.pieces).subrange(0, n.len() as int) =~= n);
}

} // verus!
