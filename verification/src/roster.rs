//! Multi-select collection: when Explorer starts one instance per selected item, the
//! first becomes the coordinator and the others forward their paths through a roster
//! file. This module holds the decisions: the coordinator lockfile `pid:ctime`, whether
//! a recorded coordinator is still the same process, how long the coordinator waits for
//! siblings, and the path list it reads back from the roster.
use crate::text::{decimal, parsed_u32, parsed_u64, split_on, trimmed};
use crate::winpath::same_path;
use vstd::prelude::*;

verus! {

// ─── roster ──────────────────────────────────────────────────────────────────

/// Lines of the roster that name something: not blank once trimmed.
pub open spec fn filled_lines(lines: Seq<Seq<char>>) -> nat
    decreases lines.len(),
{
    if lines.len() == 0 {
        0
    } else {
        filled_lines(lines.drop_last()) + if trimmed(lines.last()).len() > 0 {
            1nat
        } else {
            0nat
        }
    }
}

/// How many paths the roster text holds so far: its lines that are not blank.
pub fn roster_line_count(text: &str) -> (r: usize)
    ensures
        r as nat == filled_lines(split_on(text@, '\n')),
{
    let cs = crate::text::chars_of(text);
    let lines = crate::text::split_chars(cs.as_slice(), '\n');
    let ghost lv = lines@.map_values(|v: Vec<char>| v@);
    let mut count: usize = 0;
    let mut i: usize = 0;
    while i < lines.len()
        invariant
            i <= lines.len(),
            lv == lines@.map_values(|v: Vec<char>| v@),
            count as nat == filled_lines(lv.take(i as int)),
            count <= i,
        decreases lines.len() - i,
    {
        proof {
            assert(lv.take(i + 1).drop_last() =~= lv.take(i as int));
            assert(lv.take(i + 1).last() == lines@[i as int]@);
        }
        let t = crate::text::trim_chars(lines[i].as_slice());
        if t.len() > 0 {
            count = count + 1;
        }
        i = i + 1;
    }
    proof {
        assert(lv.take(lines.len() as int) =~= lv);
    }
    count
}

/// Whether `p` names a path already in `seen`.
pub open spec fn already_seen(seen: Seq<Seq<char>>, p: Seq<char>) -> bool {
    exists|i: int| 0 <= i < seen.len() && same_path(#[trigger] seen[i], p)
}

/// The paths gathered from roster lines after `seen`: each line trimmed; blank lines,
/// lines holding a NUL and paths already gathered are passed over.
pub open spec fn gathered(seen: Seq<Seq<char>>, lines: Seq<Seq<char>>) -> Seq<Seq<char>>
    decreases lines.len(),
{
    if lines.len() == 0 {
        seen
    } else {
        let prev = gathered(seen, lines.drop_last());
        let t = trimmed(lines.last());
        if t.len() == 0 || t.contains('\0') || already_seen(prev, t) {
            prev
        } else {
            prev.push(t)
        }
    }
}

/// The paths to archive once collection ends: this instance's own path first, then
/// each new path of the roster in the order it arrived.
pub fn roster_paths(own: &str, text: &str) -> (r: Vec<String>)
    ensures
        r@.map_values(|s: String| s@) == gathered(seq![own@], split_on(text@, '\n')),
{
    let cs = crate::text::chars_of(text);
    let lines = crate::text::split_chars(cs.as_slice(), '\n');
    let ghost lv = lines@.map_values(|v: Vec<char>| v@);
    let mut seen: Vec<String> = Vec::new();
    seen.push(own.to_string());
    proof {
        assert(seen@.map_values(|s: String| s@) =~= seq![own@]);
        assert(lv.take(0) =~= Seq::<Seq<char>>::empty());
    }
    let mut i: usize = 0;
    while i < lines.len()
        invariant
            i <= lines.len(),
            lv == lines@.map_values(|v: Vec<char>| v@),
            seen@.map_values(|s: String| s@) == gathered(seq![own@], lv.take(i as int)),
        decreases lines.len() - i,
    {
        let ghost sv = seen@.map_values(|s: String| s@);
        proof {
            assert(lv.take(i + 1).drop_last() =~= lv.take(i as int));
            assert(lv.take(i + 1).last() == lines@[i as int]@);
        }
        let t = crate::text::trim_chars(lines[i].as_slice());
        let ts = crate::text::string_from_chars(t.as_slice());
        if t.len() > 0 && !has_nul(t.as_slice()) {
            let mut found = false;
            let mut k: usize = 0;
            while k < seen.len()
                invariant
                    k <= seen.len(),
                    sv == seen@.map_values(|s: String| s@),
                    ts@ == t@,
                    found == exists|j: int| 0 <= j < k && same_path(#[trigger] sv[j], t@),
                decreases seen.len() - k,
            {
                let same = crate::winpath::paths_equal(seen[k].as_str(), ts.as_str());
                proof {
                    assert(sv[k as int] == seen@[k as int]@);
                }
                if same {
                    found = true;
                }
                proof {
                    if found {
                        if same {
                            assert(same_path(sv[k as int], t@));
                        } else {
                            let j = choose|j: int| 0 <= j < k && same_path(#[trigger] sv[j], t@);
                            assert(0 <= j < k + 1 && same_path(sv[j], t@));
                        }
                    } else {
                        assert forall|j: int| 0 <= j < k + 1 implies !same_path(#[trigger] sv[j], t@) by {
                            if j == k {
                            } else {
                                assert(!(0 <= j < k && same_path(sv[j], t@)));
                            }
                        }
                    }
                }
                k = k + 1;
            }
            if !found {
                seen.push(ts);
                proof {
                    assert(seen@.map_values(|s: String| s@) =~= sv.push(t@));
                }
            }
        }
        proof {
            if t.len() > 0 {
                assert(trimmed(lv.take(i + 1).last()).contains('\0') == t@.contains('\0'));
            }
        }
        i = i + 1;
    }
    proof {
        assert(lv.take(lines.len() as int) =~= lv);
    }
    seen
}

fn has_nul(s: &[char]) -> (r: bool)
    ensures
        r == s@.contains('\0'),
{
    let mut i: usize = 0;
    while i < s.len()
        invariant
            i <= s.len(),
            forall|j: int| 0 <= j < i ==> s@[j] != '\0',
        decreases s.len() - i,
    {
        if s[i] == '\0' {
            proof {
                assert(s@[i as int] == '\0');
            }
            return true;
        }
        i = i + 1;
    }
    false
}

/// The line a forwarding instance appends to the coordinator's roster.
pub fn forward_line(path: &str) -> (r: String)
    ensures
        r@ == path@.push('\n'),
{
    let mut cs = crate::text::chars_of(path);
    cs.push('\n');
    crate::text::string_from_chars(cs.as_slice())
}

// ─── coordinator lockfile ────────────────────────────────────────────────────

/// The lockfile text of a coordinator: `pid:ctime`.
pub open spec fn lock_text_spec(pid: nat, ctime: nat) -> Seq<char> {
    decimal(pid) + seq![':'] + decimal(ctime)
}

/// The text the coordinator writes to its lockfile.
pub fn lock_text(pid: u32, ctime: u64) -> (r: String)
    ensures
        r@ == lock_text_spec(pid as nat, ctime as nat),
{
    let mut a = crate::text::decimal_chars(pid as u64);
    a.push(':');
    let b = crate::text::decimal_chars(ctime);
    let all = crate::text::concat_chars(a.as_slice(), b.as_slice());
    proof {
        assert(all@ =~= lock_text_spec(pid as nat, ctime as nat));
    }
    crate::text::string_from_chars(all.as_slice())
}

/// Position of the first `:` in `s`, or -1.
pub open spec fn first_colon(s: Seq<char>) -> int
    decreases s.len(),
{
    if s.len() == 0 {
        -1
    } else {
        let r = first_colon(s.drop_last());
        if r >= 0 {
            r
        } else if s.last() == ':' {
            (s.len() - 1) as int
        } else {
            -1
        }
    }
}

/// What a lockfile says: the trimmed text split at its first `:`; the part before must
/// be a process id other than 0, the part after a creation time (0 when it is missing or
/// unreadable).
pub open spec fn lock_reading(text: Seq<char>) -> Option<(u32, u64)> {
    let t = trimmed(text);
    let c = first_colon(t);
    let head = if c >= 0 {
        t.subrange(0, c)
    } else {
        t
    };
    match parsed_u32(head) {
        Some(pid) => if pid == 0 {
            None
        } else {
            let ctime: u64 = if c >= 0 {
                match parsed_u64(t.subrange(c + 1, t.len() as int)) {
                    Some(v) => v,
                    None => 0,
                }
            } else {
                0
            };
            Some((pid, ctime))
        },
        None => None,
    }
}

proof fn lemma_first_colon_bounds(s: Seq<char>)
    ensures
        -1 <= first_colon(s) < s.len(),
        first_colon(s) >= 0 ==> s[first_colon(s)] == ':',
        forall|j: int| 0 <= j < (if first_colon(s) >= 0 { first_colon(s) } else { s.len() as int }) ==> s[j] != ':',
    decreases s.len(),
{
    if s.len() > 0 {
        let t = s.drop_last();
        lemma_first_colon_bounds(t);
        assert forall|j: int| 0 <= j < t.len() implies t[j] == s[j] by {}
    }
}

fn find_colon(s: &[char]) -> (r: Option<usize>)
    ensures
        match r {
            Some(i) => i as int == first_colon(s@) && i < s.len(),
            None => first_colon(s@) == -1,
        },
{
    let mut i: usize = 0;
    proof {
        lemma_first_colon_bounds(s@);
    }
    while i < s.len()
        invariant
            i <= s.len(),
            -1 <= first_colon(s@) < s.len(),
            first_colon(s@) >= 0 ==> s@[first_colon(s@)] == ':',
            forall|j: int| 0 <= j < (if first_colon(s@) >= 0 { first_colon(s@) } else { s.len() as int }) ==> s@[j] != ':',
            forall|j: int| 0 <= j < i ==> s@[j] != ':',
        decreases s.len() - i,
    {
        if s[i] == ':' {
            return Some(i);
        }
        i = i + 1;
    }
    None
}

/// Reads a coordinator lockfile: its process id and creation time.
pub fn parse_lock(text: &str) -> (r: Option<(u32, u64)>)
    ensures
        r == lock_reading(text@),
{
    let cs = crate::text::chars_of(text);
    let t = crate::text::trim_chars(cs.as_slice());
    let c = find_colon(t.as_slice());
    let head = match c {
        Some(k) => vstd::slice::slice_subrange(t.as_slice(), 0, k),
        None => t.as_slice(),
    };
    match crate::text::parse_u32_chars(head) {
        Some(pid) => {
            if pid == 0 {
                return None;
            }
            let ctime: u64 = match c {
                Some(k) => match crate::text::parse_u64_chars(
                    vstd::slice::slice_subrange(t.as_slice(), k + 1, t.len()),
                ) {
                    Some(v) => v,
                    None => 0,
                },
                None => 0,
            };
            Some((pid, ctime))
        },
        None => None,
    }
}

/// The paths gathered from a roster never name the same path twice, start with this
/// instance's own path, and hold only trimmed, non-blank lines without a NUL after it.
pub proof fn law_gathered_distinct(own: Seq<char>, lines: Seq<Seq<char>>)
    ensures
        gathered(seq![own], lines).len() >= 1,
        gathered(seq![own], lines)[0] == own,
        forall|i: int, j: int|
            0 <= i < j < gathered(seq![own], lines).len() ==> !same_path(
                #[trigger] gathered(seq![own], lines)[i],
                #[trigger] gathered(seq![own], lines)[j],
            ),
        forall|j: int|
            1 <= j < gathered(seq![own], lines).len() ==> {
                let t = #[trigger] gathered(seq![own], lines)[j];
                t.len() > 0 && !t.contains('\0') && exists|k: int|
                    0 <= k < lines.len() && t == trimmed(#[trigger] lines[k])
            },
    decreases lines.len(),
{
    if lines.len() > 0 {
        law_gathered_distinct(own, lines.drop_last());
        let prev = gathered(seq![own], lines.drop_last());
        let g = gathered(seq![own], lines);
        assert forall|j: int| 1 <= j < g.len() implies {
            let t = #[trigger] g[j];
            t.len() > 0 && !t.contains('\0') && exists|k: int|
                0 <= k < lines.len() && t == trimmed(#[trigger] lines[k])
        } by {
            if j < prev.len() {
                assert(g[j] == prev[j]);
                let k = choose|k: int|
                    0 <= k < lines.drop_last().len() && prev[j] == trimmed(
                        #[trigger] lines.drop_last()[k],
                    );
                assert(lines.drop_last()[k] == lines[k]);
            } else {
                assert(g[j] == trimmed(lines[lines.len() - 1]));
            }
        }
    }
}

/// A lockfile written by `lock_text` reads back as the same process id and creation
/// time, for any process id other than 0.
pub proof fn law_lock_roundtrip(pid: u32, ctime: u64)
    requires
        pid != 0,
    ensures
        lock_reading(lock_text_spec(pid as nat, ctime as nat)) == Some((pid, ctime)),
{
    let s = lock_text_spec(pid as nat, ctime as nat);
    crate::text::lemma_decimal_roundtrip(pid as nat);
    crate::text::lemma_decimal_roundtrip(ctime as nat);
    let d = decimal(pid as nat);
    let e = decimal(ctime as nat);
    assert(s[0] == d[0]);
    assert(crate::text::is_digit(d[0]));
    assert(s[s.len() - 1] == e[e.len() - 1]);
    assert(crate::text::is_digit(e[e.len() - 1]));
    assert(crate::text::first_non_ws(s, 0) == 0);
    assert(crate::text::end_non_ws(s, s.len() as int) == s.len());
    assert(trimmed(s) =~= s);
    lemma_first_colon_bounds(s);
    assert(s[d.len() as int] == ':');
    assert forall|j: int| 0 <= j < d.len() implies s[j] != ':' by {
        assert(s[j] == d[j]);
        assert(crate::text::is_digit(d[j]));
    }
    lemma_first_colon_at(s, d.len() as int);
    assert(s.subrange(0, d.len() as int) =~= d);
    assert(s.subrange(d.len() as int + 1, s.len() as int) =~= decimal(ctime as nat));
    crate::update::lemma_decimal_parses(ctime);
}

proof fn lemma_first_colon_at(s: Seq<char>, k: int)
    requires
        0 <= k < s.len(),
        s[k] == ':',
        forall|j: int| 0 <= j < k ==> s[j] != ':',
    ensures
        first_colon(s) == k,
    decreases s.len(),
{
    if k < s.len() - 1 {
        lemma_first_colon_at(s.drop_last(), k);
    } else {
        lemma_first_colon_bounds(s.drop_last());
        assert forall|j: int| 0 <= j < s.drop_last().len() implies s.drop_last()[j] != ':' by {
            assert(s.drop_last()[j] == s[j]);
        }
        if first_colon(s.drop_last()) >= 0 {
            assert(s.drop_last()[first_colon(s.drop_last())] == ':');
        }
    }
}

/// A process time as one number: the high half shifted up 32 bits over the low half.
pub fn filetime_value(high: u32, low: u32) -> (r: u64)
    ensures
        r as nat == high as nat * 0x1_0000_0000 + low as nat,
{
    let r = ((high as u64) << 32u64) | (low as u64);
    assert(((high as u64) << 32u64) | (low as u64) == (high as u64) * 0x1_0000_0000 + (low as u64))
        by (bit_vector);
    r
}

/// Whether the recorded coordinator is still the process that wrote the lockfile. A
/// process that cannot be opened counts as gone; one whose times cannot be read counts
/// as alive (better a lost path than two coordinators); otherwise its creation time
/// must match the recorded one (process ids are reused).
pub fn coordinator_alive(opened: bool, times: Option<u64>, expected_ctime: u64) -> (r: bool)
    ensures
        r == (opened && match times {
            None => true,
            Some(t) => t == expected_ctime,
        }),
{
    if !opened {
        return false;
    }
    match times {
        None => true,
        Some(t) => t == expected_ctime,
    }
}

/// What an instance that did not get the coordinator role does next.
#[derive(Debug, Clone, Copy, PartialEq, Eq, Structural)]
pub struct ForwarderPlan {
    /// Clear the lockfile and try once more to become the coordinator.
    pub retry_as_coordinator: bool,
    /// If it stays a forwarder: the coordinator to forward the path to.
    pub forward_to: Option<u32>,
}

/// The plan of a forwarder from the lockfile it read (none when it never read one) and
/// whether that coordinator is alive: a missing or stale coordinator makes it try to
/// take over; if it cannot, it still forwards to the recorded process, if any.
pub fn forwarder_plan(lock: Option<(u32, u64)>, alive: bool) -> (p: ForwarderPlan)
    ensures
        p.retry_as_coordinator == (lock is None || !alive),
        p.forward_to == (match lock {
            Some((pid, _)) => Some(pid),
            None => None::<u32>,
        }),
{
    match lock {
        Some((pid, _)) => ForwarderPlan { retry_as_coordinator: !alive, forward_to: Some(pid) },
        None => ForwarderPlan { retry_as_coordinator: true, forward_to: None },
    }
}

// ─── waiting for siblings ────────────────────────────────────────────────────

/// Milliseconds the coordinator first watches for a sibling.
pub const EARLY_POLL_MS: u64 = 300;

/// Milliseconds without a new path that end the collection.
pub const QUIET_WINDOW_MS: u64 = 400;

/// Milliseconds after which the collection ends in any case.
pub const HARD_CAP_MS: u64 = 3000;

/// A single item: no sibling arrived during the early watch, so there is nothing to
/// wait for.
pub fn single_item(line_count: usize) -> (r: bool)
    ensures
        r == (line_count <= 1),
{
    line_count <= 1
}

/// The wait for more paths once a sibling has arrived.
pub struct Debounce {
    start_ms: u64,
    last_change_ms: u64,
    last_count: usize,
}

/// Abstract state of the wait.
pub struct DebounceV {
    pub start: nat,
    pub last_change: nat,
    pub last_count: nat,
}

impl View for Debounce {
    type V = DebounceV;

    closed spec fn view(&self) -> DebounceV {
        DebounceV {
            start: self.start_ms as nat,
            last_change: self.last_change_ms as nat,
            last_count: self.last_count as nat,
        }
    }
}

impl Debounce {
    /// The wait starts at `now_ms` with `count` paths seen.
    pub fn new(now_ms: u64, count: usize) -> (d: Debounce)
        ensures
            d@ == (DebounceV { start: now_ms as nat, last_change: now_ms as nat, last_count: count as nat }),
    {
        Debounce { start_ms: now_ms, last_change_ms: now_ms, last_count: count }
    }

    /// Whether to keep waiting at `now_ms`: less than the hard cap since the start and
    /// less than the quiet window since the last new path (a clock that went back counts
    /// as no time passed).
    pub fn keep_waiting(&self, now_ms: u64) -> (r: bool)
        ensures
            r == (elapsed(self@.start, now_ms as nat) < HARD_CAP_MS && elapsed(
                self@.last_change,
                now_ms as nat,
            ) < QUIET_WINDOW_MS),
    {
        let since_start = if now_ms >= self.start_ms {
            now_ms - self.start_ms
        } else {
            0
        };
        let since_change = if now_ms >= self.last_change_ms {
            now_ms - self.last_change_ms
        } else {
            0
        };
        since_start < HARD_CAP_MS && since_change < QUIET_WINDOW_MS
    }

    /// The roster held `count` paths at `now_ms`: a different count restarts the quiet
    /// window.
    pub fn observe(&mut self, count: usize, now_ms: u64)
        ensures
            count as nat != old(self)@.last_count ==> final(self)@ == (DebounceV {
                last_count: count as nat,
                last_change: now_ms as nat,
                ..old(self)@
            }),
            count as nat == old(self)@.last_count ==> final(self)@ == old(self)@,
    {
        if count != self.last_count {
            self.last_count = count;
            self.last_change_ms = now_ms;
        }
    }
}

/// Milliseconds from `from` to `to`, 0 when `to` is earlier.
pub open spec fn elapsed(from: nat, to: nat) -> nat {
    if to >= from {
        (to - from) as nat
    } else {
        0
    }
}

/// The wait always ends: from the moment the hard cap has passed since the start, it
/// stops whatever the roster does.
pub proof fn law_wait_is_capped(d: DebounceV, now: nat)
    requires
        now >= d.start + HARD_CAP_MS,
    ensures
        !(elapsed(d.start, now) < HARD_CAP_MS && elapsed(d.last_change, now) < QUIET_WINDOW_MS),
{
}

} // verus!
