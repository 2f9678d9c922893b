//! How deep a value is, learned while the codec writes it.
//!
//! Every codec here reads less deeply than it writes, so a write past the
//! reader's ceiling is accepted and cannot be read back. The depth is counted
//! as the value goes past: each level the serializer opens is an `enter`, each
//! it closes a `leave`, and the first `enter` past the limit is refused.
use crate::builder::{Backend, engine_for_spec};
use crate::config::{WriteLimits, all_hold_enums, all_hold_non_finite, lowest_ceiling};
use crate::errors::{DepthError, StorageError};
use crate::path::StorePath;
use crate::scan::CodecFormat;
use vstd::prelude::*;

verus! {

/// How deep one serialization has gone, and how deep it may go.
#[derive(Debug)]
pub struct Depth {
    depth: usize,
    deepest: usize,
    overflowed: bool,
    limit: usize,
    non_finite: bool,
    enum_seen: bool,
}

/// What a [`Depth`] holds, as plain values.
pub struct DepthView {
    /// How many levels are open now.
    pub depth: nat,
    /// The most that were ever open at once.
    pub deepest: nat,
    /// Whether a level past the limit was asked for.
    pub overflowed: bool,
    pub limit: nat,
    /// Whether a `NaN` or an infinity went past.
    pub non_finite: bool,
    /// Whether an enum went past.
    pub enum_seen: bool,
}

/// A count that has not started, with room for `limit` levels.
pub open spec fn fresh(limit: nat) -> DepthView {
    DepthView {
        depth: 0,
        deepest: 0,
        overflowed: false,
        limit,
        non_finite: false,
        enum_seen: false,
    }
}

/// Whether one more level fits.
pub open spec fn room_for_one(d: DepthView) -> bool {
    d.depth < d.limit
}

/// The count after a level is asked for: opened when it fits, otherwise the
/// overflow is recorded and nothing else moves.
pub open spec fn entered(d: DepthView) -> DepthView {
    if room_for_one(d) {
        DepthView {
            depth: d.depth + 1,
            deepest: if d.depth + 1 > d.deepest {
                d.depth + 1
            } else {
                d.deepest
            },
            ..d
        }
    } else {
        DepthView { overflowed: true, ..d }
    }
}

/// The count after a level closes; closing at the top is a no-op.
pub open spec fn left(d: DepthView) -> DepthView {
    DepthView {
        depth: if d.depth == 0 {
            0
        } else {
            (d.depth - 1) as nat
        },
        ..d
    }
}

/// `n` levels asked for one inside the other, nothing closed between.
pub open spec fn entered_times(d: DepthView, n: nat) -> DepthView
    decreases n,
{
    if n == 0 {
        d
    } else {
        entered(entered_times(d, (n - 1) as nat))
    }
}

/// What every count keeps: no more open than were ever open, and never more
/// than the limit.
pub open spec fn depth_wf(d: DepthView) -> bool {
    d.depth <= d.deepest && d.deepest <= d.limit
}

impl View for Depth {
    type V = DepthView;

    closed spec fn view(&self) -> DepthView {
        DepthView {
            depth: self.depth as nat,
            deepest: self.deepest as nat,
            overflowed: self.overflowed,
            limit: self.limit as nat,
            non_finite: self.non_finite,
            enum_seen: self.enum_seen,
        }
    }
}

impl Depth {
    /// Whether the count keeps its invariant.
    pub closed spec fn wf(&self) -> bool {
        depth_wf(self@)
    }

    /// A budget of `limit` levels.
    pub fn new(limit: usize) -> (r: Self)
        ensures
            r@ == fresh(limit as nat),
            r.wf(),
    {
        Depth {
            depth: 0,
            deepest: 0,
            overflowed: false,
            limit,
            non_finite: false,
            enum_seen: false,
        }
    }

    /// A budget nothing can exhaust, for the store's own writes.
    pub fn unlimited() -> (r: Self)
        ensures
            r@ == fresh(usize::MAX as nat),
            r.wf(),
    {
        Self::new(usize::MAX)
    }

    /// Whether the pass stopped because the value went past the limit.
    pub fn overflowed(&self) -> (r: bool)
        ensures
            r == self@.overflowed,
    {
        self.overflowed
    }

    /// The deepest level reached, once a pass has finished.
    pub fn deepest(&self) -> (r: usize)
        ensures
            r == self@.deepest,
    {
        self.deepest
    }

    /// How many levels are open now.
    pub fn current(&self) -> (r: usize)
        ensures
            r == self@.depth,
    {
        self.depth
    }

    /// How many levels the budget allows.
    pub fn limit(&self) -> (r: usize)
        ensures
            r == self@.limit,
    {
        self.limit
    }

    /// One level further in, or a refusal naming the limit if that is past it.
    pub fn enter(&mut self) -> (r: Result<(), DepthError>)
        requires
            old(self).wf(),
        ensures
            final(self).wf(),
            final(self)@ == entered(old(self)@),
            r is Ok <==> room_for_one(old(self)@),
            r is Err ==> (r matches Err(DepthError::TooDeep { limit }) && limit == old(self)@.limit),
    {
        if self.depth >= self.limit {
            self.overflowed = true;
            return Err(DepthError::TooDeep { limit: self.limit });
        }
        let now = self.depth + 1;
        self.depth = now;
        if now > self.deepest {
            self.deepest = now;
        }
        Ok(())
    }

    /// One level back out.
    pub fn leave(&mut self)
        requires
            old(self).wf(),
        ensures
            final(self).wf(),
            final(self)@ == left(old(self)@),
    {
        self.depth = self.depth.saturating_sub(1);
    }

    /// Records that a `NaN` or an infinity went past.
    pub fn note_non_finite_float(&mut self)
        requires
            old(self).wf(),
        ensures
            final(self).wf(),
            final(self)@ == (DepthView { non_finite: true, ..old(self)@ }),
    {
        self.non_finite = true;
    }

    /// Records that an enum went past.
    pub fn note_enum(&mut self)
        requires
            old(self).wf(),
        ensures
            final(self).wf(),
            final(self)@ == (DepthView { enum_seen: true, ..old(self)@ }),
    {
        self.enum_seen = true;
    }

    /// Whether a `NaN` or an infinity went past.
    pub fn saw_a_non_finite_float(&self) -> (r: bool)
        ensures
            r == self@.non_finite,
    {
        self.non_finite
    }

    /// Whether an enum went past.
    pub fn saw_an_enum(&self) -> (r: bool)
        ensures
            r == self@.enum_seen,
    {
        self.enum_seen
    }
}

/// From a fresh count, `n` levels one inside the other all fit exactly when
/// `n` is at most the limit - the limit itself is allowed - and the deepest
/// level reached is then `n`; one more than the limit is refused.
pub proof fn law_the_limit_itself_is_allowed(limit: nat, n: nat)
    ensures
        n <= limit ==> entered_times(fresh(limit), n) == (DepthView {
            depth: n,
            deepest: n,
            ..fresh(limit)
        }),
        n > limit ==> entered_times(fresh(limit), n).overflowed,
        n > limit ==> entered_times(fresh(limit), n).deepest == limit,
        n > limit ==> entered_times(fresh(limit), n).depth == limit,
        entered_times(fresh(limit), n).limit == limit,
    decreases n,
{
    if n > 0 {
        law_the_limit_itself_is_allowed(limit, (n - 1) as nat);
        let before = entered_times(fresh(limit), (n - 1) as nat);
        assert(entered_times(fresh(limit), n) == entered(before));
        if n - 1 <= limit {
            assert(before.depth == n - 1 && before.deepest == n - 1);
        } else {
            assert(before.depth == limit && before.deepest == limit);
        }
    }
}

/// Closing a level never lowers the deepest level reached, and a level that
/// was let in and closed again leaves as many open as before: the count is
/// of the deepest branch, not of the last one.
pub proof fn law_leaving_keeps_the_deepest(d: DepthView)
    requires
        depth_wf(d),
    ensures
        depth_wf(entered(d)),
        depth_wf(left(d)),
        left(d).deepest == d.deepest,
        room_for_one(d) ==> left(entered(d)).depth == d.depth,
        room_for_one(d) ==> left(entered(d)).deepest >= d.deepest,
        entered(d).deepest >= d.deepest,
{
}

/// How many levels are open after a run of steps, each `true` a level
/// opening and each `false` one closing.
pub open spec fn open_levels(steps: Seq<bool>) -> int
    decreases steps.len(),
{
    if steps.len() == 0 {
        0
    } else {
        open_levels(steps.drop_last()) + if steps.last() {
            1int
        } else {
            -1int
        }
    }
}

/// Whether no step closes a level that was not open: every value shape a
/// serializer walks opens and closes its levels this way.
pub open spec fn well_nested(steps: Seq<bool>) -> bool
    decreases steps.len(),
{
    steps.len() == 0 || (well_nested(steps.drop_last()) && open_levels(steps) >= 0)
}

/// The most levels open at once along a run of steps: how deeply the value
/// nests.
pub open spec fn nesting(steps: Seq<bool>) -> int
    decreases steps.len(),
{
    if steps.len() == 0 {
        0
    } else if nesting(steps.drop_last()) >= open_levels(steps) {
        nesting(steps.drop_last())
    } else {
        open_levels(steps)
    }
}

/// The count after a run of steps, each an `enter` or a `leave`.
pub open spec fn counted(d: DepthView, steps: Seq<bool>) -> DepthView
    decreases steps.len(),
{
    if steps.len() == 0 {
        d
    } else if steps.last() {
        entered(counted(d, steps.drop_last()))
    } else {
        left(counted(d, steps.drop_last()))
    }
}

proof fn lemma_counted(limit: nat, steps: Seq<bool>)
    requires
        well_nested(steps),
    ensures
        ({
            let c = counted(fresh(limit), steps);
            &&& depth_wf(c)
            &&& c.limit == limit
            &&& c.depth <= open_levels(steps)
            &&& 0 <= open_levels(steps) <= nesting(steps)
            &&& nesting(steps) <= limit ==> !c.overflowed && c.depth == open_levels(steps) && c.deepest == nesting(steps)
            &&& nesting(steps) > limit ==> c.overflowed && c.deepest == limit
        }),
    decreases steps.len(),
{
    if steps.len() > 0 {
        lemma_counted(limit, steps.drop_last());
    }
}

/// Whatever the value's shape, counting it from a fresh count refuses a level
/// exactly when the value nests deeper than the limit, and the deepest level
/// reached is the value's nesting or the limit, whichever is less. Levels
/// opened and closed along the way, and where in the value the deepest branch
/// lies, change nothing.
pub proof fn law_the_count_is_of_the_deepest_branch(limit: nat, steps: Seq<bool>)
    requires
        well_nested(steps),
    ensures
        counted(fresh(limit), steps).overflowed == (nesting(steps) > limit),
        counted(fresh(limit), steps).deepest == (if nesting(steps) <= limit {
            nesting(steps)
        } else {
            limit as int
        }),
{
    lemma_counted(limit, steps);
}

/// What one store may spend, worked out once when it opens.
///
/// The ceiling is the running codec's, lowered by anything the store promised
/// to stay readable on. `key_depth` is the store's own cap on paths.
#[derive(Debug, Clone, Copy, PartialEq, Eq, Structural)]
pub struct DepthBudget {
    pub ceiling: usize,
    pub key_depth: Option<usize>,
    /// Whether a `NaN` or an infinity survives on the running engine and on
    /// every engine this store promised to stay readable on.
    pub non_finite_floats: bool,
    /// The same for an enum of any shape.
    pub enums: bool,
}

/// The budget a store running on `engine` under `limits` gets.
pub open spec fn resolved(portable: Seq<Backend>, key_depth: Option<usize>, engine: Backend) -> (
    nat,
    Option<usize>,
    bool,
    bool,
) {
    (
        lowest_ceiling(portable, engine),
        key_depth,
        all_hold_non_finite(portable, engine),
        all_hold_enums(portable, engine),
    )
}

/// The same budget, as its four parts.
pub open spec fn budget_parts(b: DepthBudget) -> (nat, Option<usize>, bool, bool) {
    (b.ceiling as nat, b.key_depth, b.non_finite_floats, b.enums)
}

/// Whether a path of `levels` levels is within the store's own cap.
pub open spec fn path_allowed(key_depth: Option<usize>, levels: nat) -> bool {
    match key_depth {
        Some(cap) => levels <= cap,
        None => true,
    }
}

/// What a value at a path of `levels` levels has left to spend.
pub open spec fn left_for_value(ceiling: nat, levels: nat) -> nat {
    if levels >= ceiling {
        0
    } else {
        (ceiling - levels) as nat
    }
}

/// Why a finished pass cannot stand, if it cannot: a non-finite float where
/// one does not survive, else an enum where one does not.
pub open spec fn refusal(b: DepthBudget, d: DepthView) -> Option<StorageError> {
    if !b.non_finite_floats && d.non_finite {
        Some(StorageError::Codec)
    } else if !b.enums && d.enum_seen {
        Some(StorageError::Codec)
    } else {
        None
    }
}

impl DepthBudget {
    /// The budget for a store running on `engine` under `limits`.
    pub fn resolve(limits: &WriteLimits, engine: Backend) -> (r: Self)
        ensures
            budget_parts(r) == resolved(limits.portable_across@, limits.key_depth, engine),
    {
        DepthBudget {
            ceiling: limits.ceiling(engine),
            key_depth: limits.key_depth,
            non_finite_floats: limits.holds_non_finite_floats(engine),
            enums: limits.holds_enums(engine),
        }
    }

    /// The same for an engine known only by the codec it runs.
    pub fn for_codec(limits: &WriteLimits, codec: CodecFormat) -> (r: Self)
        ensures
            budget_parts(r) == resolved(
                limits.portable_across@,
                limits.key_depth,
                engine_for_spec(codec),
            ),
    {
        let engine = Backend::for_codec(codec);
        Self::resolve(limits, engine)
    }

    /// Whether a path is within the store's own cap on how deep a key may go.
    pub fn check_path(&self, path: &StorePath) -> (r: Result<(), StorageError>)
        ensures
            r is Ok <==> path_allowed(self.key_depth, path@.len()),
            r is Err ==> r == Err::<(), StorageError>(StorageError::Depth),
    {
        let levels = path.segment_count();
        match self.key_depth {
            Some(cap) => {
                if levels > cap {
                    return Err(StorageError::Depth);
                }
            },
            None => {},
        }
        Ok(())
    }

    /// What a value at `path` has left to spend, to be carried through the
    /// codec's own pass. The path is counted with the value because the
    /// budget is shared.
    pub fn for_value(&self, path: &StorePath) -> (r: Depth)
        ensures
            r@ == fresh(left_for_value(self.ceiling as nat, path@.len())),
            r.wf(),
    {
        Depth::new(self.ceiling.saturating_sub(path.segment_count()))
    }

    /// What a codec's error turns out to have been, once the count says it
    /// was the count's.
    pub fn too_deep(&self, path: &StorePath) -> (r: StorageError)
        ensures
            r == StorageError::Codec,
    {
        StorageError::Codec
    }

    /// Whether a pass that has finished wrote something this store cannot
    /// read back, or cannot promise elsewhere. Asked after a successful
    /// write: a codec with no spelling for a `NaN` writes `null` and reports
    /// success.
    pub fn refused(&self, depth: &Depth, path: &StorePath) -> (r: Option<StorageError>)
        ensures
            r == refusal(*self, depth@),
    {
        if !self.non_finite_floats && depth.saw_a_non_finite_float() {
            return Some(StorageError::Codec);
        }
        if !self.enums && depth.saw_an_enum() {
            return Some(StorageError::Codec);
        }
        None
    }
}

} // verus!
