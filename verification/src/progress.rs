//! Progress of one compress or extract run: the counters behind the heartbeat status
//! file that the progress window reads.
//!
//! Phases: 0 walk, 1 compress/extract, 2 flush, 3 done, 4 error, 5 cancelled.
use vstd::prelude::*;

verus! {

/// Phase: walking the source tree.
pub const PHASE_WALK: usize = 0;

/// Phase: compressing or extracting.
pub const PHASE_WORK: usize = 1;

/// Phase: flushing the archive.
pub const PHASE_FLUSH: usize = 2;

/// Terminal phase: done.
pub const PHASE_DONE: usize = 3;

/// Terminal phase: failed.
pub const PHASE_ERROR: usize = 4;

/// Terminal phase: cancelled.
pub const PHASE_CANCELLED: usize = 5;

/// The counters of one run.
pub struct Progress {
    phase: usize,
    files_done: usize,
    files_total: usize,
    bytes_done: u64,
    bytes_total: u64,
    skipped: usize,
    label: String,
    stopped: bool,
}

/// Abstract state of a run's progress.
pub struct ProgressV {
    pub phase: nat,
    pub files_done: nat,
    pub files_total: nat,
    pub bytes_done: nat,
    pub bytes_total: nat,
    pub skipped: nat,
    pub label: Seq<char>,
    pub stopped: bool,
}

impl View for Progress {
    type V = ProgressV;

    closed spec fn view(&self) -> ProgressV {
        ProgressV {
            phase: self.phase as nat,
            files_done: self.files_done as nat,
            files_total: self.files_total as nat,
            bytes_done: self.bytes_done as nat,
            bytes_total: self.bytes_total as nat,
            skipped: self.skipped as nat,
            label: self.label@,
            stopped: self.stopped,
        }
    }
}

/// `a + b` on `u64`, wrapping around.
pub open spec fn wrapping_add_u64(a: nat, b: nat) -> nat {
    (a + b) % 0x1_0000_0000_0000_0000
}

impl Progress {
    /// A fresh run: walking, every counter zero, not stopped.
    pub fn new(label: &str) -> (p: Progress)
        ensures
            p@ == (ProgressV {
                phase: 0,
                files_done: 0,
                files_total: 0,
                bytes_done: 0,
                bytes_total: 0,
                skipped: 0,
                label: label@,
                stopped: false,
            }),
    {
        Progress {
            phase: PHASE_WALK,
            files_done: 0,
            files_total: 0,
            bytes_done: 0,
            bytes_total: 0,
            skipped: 0,
            label: label.to_string(),
            stopped: false,
        }
    }

    /// Enters phase `p`.
    pub fn set_phase(&mut self, p: usize)
        ensures
            final(self)@ == (ProgressV { phase: p as nat, ..old(self)@ }),
    {
        self.phase = p;
    }

    /// Sets the totals the bar is measured against.
    pub fn set_totals(&mut self, files: usize, bytes: u64)
        ensures
            final(self)@ == (ProgressV {
                files_total: files as nat,
                bytes_total: bytes as nat,
                ..old(self)@
            }),
    {
        self.files_total = files;
        self.bytes_total = bytes;
    }

    /// Records how many files could not be read (a warning, not a failure).
    pub fn set_skipped(&mut self, n: usize)
        ensures
            final(self)@ == (ProgressV { skipped: n as nat, ..old(self)@ }),
    {
        self.skipped = n;
    }

    /// Counts `bytes` more bytes done (the counter wraps around, as an atomic add does).
    pub fn tick_bytes(&mut self, bytes: u64)
        ensures
            final(self)@ == (ProgressV {
                bytes_done: wrapping_add_u64(old(self)@.bytes_done, bytes as nat),
                ..old(self)@
            }),
    {
        self.bytes_done = self.bytes_done.wrapping_add(bytes);
    }

    /// Bytes done so far.
    pub fn bytes_done(&self) -> (b: u64)
        ensures
            b as nat == self@.bytes_done,
    {
        self.bytes_done
    }

    /// The current phase.
    pub fn phase(&self) -> (p: usize)
        ensures
            p as nat == self@.phase,
    {
        self.phase
    }

    /// `(files done, files total, bytes done, bytes total, skipped)`.
    pub fn counters(&self) -> (c: (usize, usize, u64, u64, usize))
        ensures
            c.0 as nat == self@.files_done,
            c.1 as nat == self@.files_total,
            c.2 as nat == self@.bytes_done,
            c.3 as nat == self@.bytes_total,
            c.4 as nat == self@.skipped,
    {
        (self.files_done, self.files_total, self.bytes_done, self.bytes_total, self.skipped)
    }

    /// The run's label.
    pub fn label(&self) -> (l: &str)
        ensures
            l@ == self@.label,
    {
        self.label.as_str()
    }

    /// Whether the heartbeat has been told to stop.
    pub fn is_stopped(&self) -> (s: bool)
        ensures
            s == self@.stopped,
    {
        self.stopped
    }

    /// Ends the run in its terminal phase; the heartbeat stops after the final snapshot.
    pub fn finish(&mut self, phase: usize)
        ensures
            final(self)@ == (ProgressV { phase: phase as nat, stopped: true, ..old(self)@ }),
    {
        self.phase = phase;
        self.stopped = true;
    }
}

/// The terminal phase of a compress run: done when it succeeded, cancelled when it
/// failed after a cancel request, failed otherwise.
pub open spec fn compress_outcome_phase(success: bool, cancelled: bool) -> nat {
    if success {
        3
    } else if cancelled {
        5
    } else {
        4
    }
}

/// The terminal phase of a compress run.
pub fn compress_final_phase(success: bool, cancelled: bool) -> (p: usize)
    ensures
        p as nat == compress_outcome_phase(success, cancelled),
{
    if success {
        PHASE_DONE
    } else if cancelled {
        PHASE_CANCELLED
    } else {
        PHASE_ERROR
    }
}

/// Ticks add up: two ticks count their sum (modulo 2^64).
pub proof fn law_ticks_add(start: nat, a: nat, b: nat)
    requires
        start < 0x1_0000_0000_0000_0000,
    ensures
        wrapping_add_u64(wrapping_add_u64(start, a), b) == wrapping_add_u64(start, a + b),
{
    let m: int = 0x1_0000_0000_0000_0000;
    let x: int = (start + a) as int;
    vstd::arithmetic::div_mod::lemma_add_mod_noop(x % m, b as int, m);
    vstd::arithmetic::div_mod::lemma_add_mod_noop(x, b as int, m);
    vstd::arithmetic::div_mod::lemma_mod_twice(x, m);
}

/// The bookkeeping of a reader wrapper: the bytes read through it are counted into its
/// progress record, and one made with a cancel flag refuses to read once the flag is up.
/// The caller reads from `inner_mut`, asking `may_read` first and reporting the count to
/// `record` after.
pub struct ByteReader<R> {
    inner: R,
    progress: Progress,
    watches_cancel: bool,
}

impl<R> ByteReader<R> {
    /// The wrapped reader.
    pub closed spec fn inner_spec(&self) -> R {
        self.inner
    }

    /// The progress record.
    pub closed spec fn progress_spec(&self) -> ProgressV {
        self.progress@
    }

    /// Whether reads stop once the cancel flag is up.
    pub closed spec fn watches_cancel_spec(&self) -> bool {
        self.watches_cancel
    }

    /// A wrapper that counts into `progress` and never refuses.
    pub fn new(inner: R, progress: Progress) -> (r: Self)
        ensures
            r.inner_spec() == inner,
            r.progress_spec() == progress@,
            !r.watches_cancel_spec(),
    {
        ByteReader { inner, progress, watches_cancel: false }
    }

    /// A wrapper that counts into `progress` and refuses to read once the cancel flag
    /// is up.
    pub fn with_cancel(inner: R, progress: Progress) -> (r: Self)
        ensures
            r.inner_spec() == inner,
            r.progress_spec() == progress@,
            r.watches_cancel_spec(),
    {
        ByteReader { inner, progress, watches_cancel: true }
    }

    /// Whether a read may go ahead with the cancel flag as it is now.
    pub fn may_read(&self, cancel_up: bool) -> (r: bool)
        ensures
            r == !(self.watches_cancel_spec() && cancel_up),
    {
        !(self.watches_cancel && cancel_up)
    }

    /// A read returned `n` bytes: they are counted, if there were any.
    pub fn record(&mut self, n: usize)
        ensures
            final(self).inner_spec() == old(self).inner_spec(),
            final(self).watches_cancel_spec() == old(self).watches_cancel_spec(),
            final(self).progress_spec() == (if n > 0 {
                ProgressV {
                    bytes_done: wrapping_add_u64(old(self).progress_spec().bytes_done, n as nat),
                    ..old(self).progress_spec()
                }
            } else {
                old(self).progress_spec()
            }),
    {
        if n > 0 {
            self.progress.tick_bytes(n as u64);
        }
    }

    /// The wrapped reader, to read from.
    pub fn inner_mut(&mut self) -> (r: &mut R)
        ensures
            *r == old(self).inner_spec(),
            final(self).inner_spec() == *final(r),
            final(self).progress_spec() == old(self).progress_spec(),
            final(self).watches_cancel_spec() == old(self).watches_cancel_spec(),
    {
        &mut self.inner
    }

    /// The progress record.
    pub fn progress(&self) -> (p: &Progress)
        ensures
            p@ == self.progress_spec(),
    {
        &self.progress
    }
}

} // verus!
