//! How a store writes: the retry policy of a background flush, what one file
//! write is worth, and what a store refuses to hold.
//!
//! Durations are whole nanoseconds.
use crate::builder::{Backend, ceiling_spec, holds_enums_spec, holds_non_finite_floats_spec};
use vstd::prelude::*;

verus! {

/// One millisecond, in nanoseconds.
pub const MILLI: u64 = 1_000_000;

/// One second, in nanoseconds.
pub const SECOND: u64 = 1_000_000_000;

/// A background flush's whole retry policy: how long to wait between
/// attempts, and how long a streak of failures may run before the store
/// says so out loud.
///
/// `budget` is not how long the store keeps trying - it keeps trying until
/// it lands or the store is dropped. It is how long it stays quiet about it
/// before escalating.
#[derive(Debug, Clone, Copy, PartialEq, Eq, Structural)]
pub struct RetryPolicy {
    pub interval: u64,
    pub budget: u64,
}

/// How hard one step of a file write is fought before it is given up on.
#[derive(Debug, Clone, Copy, PartialEq, Eq, Structural)]
pub struct WriteAttempts {
    /// How many times the step is tried, the first one included. One means no
    /// retry at all.
    pub attempts: usize,
    /// How long to wait between them.
    pub pause: u64,
}

/// The longest a step spends waiting: one pause fewer than there are
/// attempts, since the last failure is not slept on.
pub open spec fn budget_spec(w: WriteAttempts) -> int {
    if w.attempts == 0 {
        0
    } else {
        w.pause * (w.attempts - 1)
    }
}

impl WriteAttempts {
    /// Tried this many times, back to back until [`WriteAttempts::apart`]
    /// says otherwise.
    pub fn times(attempts: usize) -> (r: Self)
        ensures
            r.attempts == attempts,
            r.pause == 0,
    {
        WriteAttempts { attempts, pause: 0 }
    }

    /// How long to wait between them.
    pub fn apart(self, pause: u64) -> (r: Self)
        ensures
            r.attempts == self.attempts,
            r.pause == pause,
    {
        WriteAttempts { pause, ..self }
    }

    /// Tried once, reported the moment it fails.
    pub fn once() -> (r: Self)
        ensures
            r.attempts == 1,
            r.pause == 0,
    {
        Self::times(1)
    }

    /// The longest a step spends waiting before the failure is reported.
    pub fn budget(self) -> (r: u64)
        requires
            budget_spec(self) <= u64::MAX,
        ensures
            r == budget_spec(self),
    {
        let gaps: u64 = self.attempts.saturating_sub(1) as u64;
        assert(gaps == 0 || gaps == self.attempts - 1);
        proof {
            if self.attempts == 0 {
                assert(gaps == 0);
                assert(self.pause * gaps == 0) by (nonlinear_arith)
                    requires
                        gaps == 0,
                ;
            } else {
                assert(gaps == self.attempts - 1);
            }
        }
        self.pause * gaps
    }
}

/// The two ways writing a file fails, and what each is worth waiting out.
///
/// A text engine writes the whole document to a file of its own and then
/// replaces the target with it, so a reader meets either the old file or the
/// new one. Those two steps fail for unrelated reasons and deserve unrelated
/// budgets.
#[derive(Debug, Clone, Copy, PartialEq, Eq, Structural)]
pub struct FileWritePolicy {
    /// Getting the bytes into a file of their own.
    pub write: WriteAttempts,
    /// Replacing the target with it.
    pub replace: WriteAttempts,
}

impl FileWritePolicy {
    /// How hard getting the bytes into a file of their own is fought.
    pub fn writing(self, attempts: WriteAttempts) -> (r: Self)
        ensures
            r.write == attempts,
            r.replace == self.replace,
    {
        FileWritePolicy { write: attempts, ..self }
    }

    /// How hard replacing the target with it is fought.
    pub fn replacing(self, attempts: WriteAttempts) -> (r: Self)
        ensures
            r.write == self.write,
            r.replace == attempts,
    {
        FileWritePolicy { replace: attempts, ..self }
    }
}

impl Default for FileWritePolicy {
    /// Three quick tries at writing, five slower ones at replacing.
    fn default() -> (r: Self)
        ensures
            r.write.attempts == 3,
            r.write.pause == 15 * MILLI,
            r.replace.attempts == 5,
            r.replace.pause == 100 * MILLI,
    {
        FileWritePolicy {
            write: WriteAttempts::times(3).apart(15 * MILLI),
            replace: WriteAttempts::times(5).apart(100 * MILLI),
        }
    }
}

/// What a store refuses to hold, beyond what its codec cannot.
#[derive(Debug, Clone, PartialEq, Eq)]
pub struct WriteLimits {
    /// How many levels a path may have, or no limit of the store's own.
    pub key_depth: Option<usize>,
    /// Engines this store's contents must remain readable on, beyond the one
    /// actually running.
    pub portable_across: Vec<Backend>,
}

/// The lowest codec ceiling among `engines`, with `running` counted in.
pub open spec fn lowest_ceiling(engines: Seq<Backend>, running: Backend) -> nat
    decreases engines.len(),
{
    if engines.len() == 0 {
        ceiling_spec(running)
    } else {
        let rest = lowest_ceiling(engines.drop_last(), running);
        let here = ceiling_spec(engines.last());
        if here < rest {
            here
        } else {
            rest
        }
    }
}

/// The lowest ceiling is one of the engines' ceilings, and none is lower.
pub proof fn lemma_lowest_ceiling(engines: Seq<Backend>, running: Backend)
    ensures
        lowest_ceiling(engines, running) <= ceiling_spec(running),
        forall|i: int| 0 <= i < engines.len() ==> lowest_ceiling(engines, running) <= ceiling_spec(
            #[trigger] engines[i],
        ),
        lowest_ceiling(engines, running) == ceiling_spec(running) || exists|i: int|
            0 <= i < engines.len() && lowest_ceiling(engines, running) == ceiling_spec(
                #[trigger] engines[i],
            ),
    decreases engines.len(),
{
    if engines.len() > 0 {
        lemma_lowest_ceiling(engines.drop_last(), running);
        let rest = lowest_ceiling(engines.drop_last(), running);
        assert forall|i: int| 0 <= i < engines.len() implies lowest_ceiling(engines, running)
            <= ceiling_spec(#[trigger] engines[i]) by {
            if i < engines.len() - 1 {
                assert(engines.drop_last()[i] == engines[i]);
            }
        }
        if lowest_ceiling(engines, running) != ceiling_spec(running) {
            if lowest_ceiling(engines, running) == ceiling_spec(engines.last()) {
                assert(engines[engines.len() - 1] == engines.last());
            } else {
                let i = choose|i: int|
                    0 <= i < engines.drop_last().len() && rest == ceiling_spec(
                        #[trigger] engines.drop_last()[i],
                    );
                assert(engines[i] == engines.drop_last()[i]);
            }
        }
    }
}

impl Default for WriteLimits {
    /// No limit of the store's own, and no promise beyond the running engine.
    fn default() -> (r: Self)
        ensures
            r.key_depth is None,
            r.portable_across@ == Seq::<Backend>::empty(),
    {
        WriteLimits { key_depth: None, portable_across: Vec::new() }
    }
}

impl WriteLimits {
    /// At most this many levels in a path.
    pub fn key_depth(self, levels: usize) -> (r: Self)
        ensures
            r.key_depth == Some(levels),
            r.portable_across@ == self.portable_across@,
    {
        WriteLimits { key_depth: Some(levels), portable_across: self.portable_across }
    }

    /// Refuse whatever these engines could not give back, whichever one is
    /// running.
    pub fn portable_across(self, engines: Vec<Backend>) -> (r: Self)
        ensures
            r.key_depth == self.key_depth,
            r.portable_across@ == engines@,
    {
        WriteLimits { key_depth: self.key_depth, portable_across: engines }
    }

    /// The deepest a path and its value may go together, given the engine that
    /// is running and whatever else this store promised to stay readable on.
    pub fn ceiling(&self, running: Backend) -> (r: usize)
        ensures
            r == lowest_ceiling(self.portable_across@, running),
    {
        let mut lowest: usize = running.depth_ceiling();
        let mut i: usize = 0;
        while i < self.portable_across.len()
            invariant
                i <= self.portable_across@.len(),
                lowest == lowest_ceiling(self.portable_across@.take(i as int), running),
            decreases self.portable_across@.len() - i,
        {
            let here = self.portable_across[i].depth_ceiling();
            proof {
                let s = self.portable_across@;
                assert(s.take(i + 1).drop_last() =~= s.take(i as int));
                assert(s.take(i + 1).last() == s[i as int]);
            }
            if here < lowest {
                lowest = here;
            }
            i = i + 1;
        }
        proof {
            assert(self.portable_across@.take(i as int) =~= self.portable_across@);
        }
        lowest
    }
}

/// Whether a `NaN` or an infinity survives on `running` and on every engine
/// in `engines`.
pub open spec fn all_hold_non_finite(engines: Seq<Backend>, running: Backend) -> bool {
    holds_non_finite_floats_spec(running) && forall|i: int|
        0 <= i < engines.len() ==> holds_non_finite_floats_spec(#[trigger] engines[i])
}

/// Whether an enum survives on `running` and on every engine in `engines`.
pub open spec fn all_hold_enums(engines: Seq<Backend>, running: Backend) -> bool {
    holds_enums_spec(running) && forall|i: int|
        0 <= i < engines.len() ==> holds_enums_spec(#[trigger] engines[i])
}

impl WriteLimits {
    /// Whether a `NaN` or an infinity survives on the running engine and on
    /// every engine this store promised to stay readable on.
    pub fn holds_non_finite_floats(&self, running: Backend) -> (r: bool)
        ensures
            r == all_hold_non_finite(self.portable_across@, running),
    {
        if !running.holds_non_finite_floats() {
            return false;
        }
        let mut i: usize = 0;
        while i < self.portable_across.len()
            invariant
                i <= self.portable_across@.len(),
                forall|j: int|
                    0 <= j < i ==> holds_non_finite_floats_spec(
                        #[trigger] self.portable_across@[j],
                    ),
            decreases self.portable_across@.len() - i,
        {
            if !self.portable_across[i].holds_non_finite_floats() {
                return false;
            }
            i = i + 1;
        }
        true
    }

    /// Whether an enum survives on the running engine and on every engine
    /// this store promised to stay readable on.
    pub fn holds_enums(&self, running: Backend) -> (r: bool)
        ensures
            r == all_hold_enums(self.portable_across@, running),
    {
        if !running.holds_enums() {
            return false;
        }
        let mut i: usize = 0;
        while i < self.portable_across.len()
            invariant
                i <= self.portable_across@.len(),
                forall|j: int| 0 <= j < i ==> holds_enums_spec(#[trigger] self.portable_across@[j]),
            decreases self.portable_across@.len() - i,
        {
            if !self.portable_across[i].holds_enums() {
                return false;
            }
            i = i + 1;
        }
        true
    }
}

/// What the store does about a flush that has been failing for longer than
/// the retry budget. It keeps retrying either way; this is only about who is
/// told.
#[derive(Debug, Clone, Copy, PartialEq, Eq, Structural)]
pub enum AfterGivingUp {
    /// Every later write fails, naming the reason, until a flush lands again.
    Fail,
    /// Say nothing to writers; the retry loop carries on.
    Ignore,
    /// Every later write panics wherever it is made.
    Poison,
}

/// What a store is opened with, but for the failure callback, which the
/// caller keeps beside it.
#[derive(Debug, Clone, PartialEq, Eq)]
pub struct StoreConfig {
    pub path: String,
    pub save_debounce: u64,
    pub watch_interval: u64,
    pub retry_policy: RetryPolicy,
    pub file_write: FileWritePolicy,
    pub limits: WriteLimits,
    pub parallel_reads: bool,
}

impl StoreConfig {
    /// A store at `path` with the standard settings: a write lands 300 ms
    /// after the last one, the file is watched every 500 ms, a failing flush
    /// is retried every 5 s and reported after a minute of failures.
    pub fn new(path: String) -> (r: Self)
        ensures
            r.path@ == path@,
            r.save_debounce == 300 * MILLI,
            r.watch_interval == 500 * MILLI,
            r.retry_policy.interval == 5 * SECOND,
            r.retry_policy.budget == 60 * SECOND,
            r.file_write.write.attempts == 3,
            r.file_write.write.pause == 15 * MILLI,
            r.file_write.replace.attempts == 5,
            r.file_write.replace.pause == 100 * MILLI,
            r.limits.key_depth is None,
            r.limits.portable_across@.len() == 0,
            !r.parallel_reads,
    {
        StoreConfig {
            path,
            save_debounce: 300 * MILLI,
            watch_interval: 500 * MILLI,
            retry_policy: RetryPolicy { interval: 5 * SECOND, budget: 60 * SECOND },
            file_write: FileWritePolicy::default(),
            limits: WriteLimits::default(),
            parallel_reads: false,
        }
    }
}

} // verus!
