//! What a flush of the buffer does to a flat engine's two tables: one
//! statement per buffered key, values to the data table, namespace flags to
//! the metadata table under their marker key.
use crate::buffer::{OpView, Pending, op_value, visible};
use crate::path::strings_view;
use crate::scan::init_key;
use vstd::prelude::*;

verus! {

/// One change to one of the two tables.
#[derive(Debug, Clone, PartialEq, Eq)]
pub enum Statement {
    /// Store `value` at `key` in the data table.
    Write { key: String, value: Vec<u8> },
    /// Take `key` out of the data table.
    Erase { key: String },
    /// Set the marker at `marker` in the metadata table.
    Mark { marker: String },
    /// Take the marker at `marker` out of the metadata table.
    Unmark { marker: String },
}

/// A statement, as plain values.
pub enum StatementView {
    Write { key: Seq<char>, value: Seq<u8> },
    Erase { key: Seq<char> },
    Mark { marker: Seq<char> },
    Unmark { marker: Seq<char> },
}

impl View for Statement {
    type V = StatementView;

    open spec fn view(&self) -> StatementView {
        match self {
            Statement::Write { key, value } => StatementView::Write { key: key@, value: value@ },
            Statement::Erase { key } => StatementView::Erase { key: key@ },
            Statement::Mark { marker } => StatementView::Mark { marker: marker@ },
            Statement::Unmark { marker } => StatementView::Unmark { marker: marker@ },
        }
    }
}

/// The marker key a namespace's flag is kept under.
pub open spec fn marker_of(namespace: Seq<char>) -> Seq<char> {
    "__init::"@ + namespace
}

/// The statement a buffered write at `key` becomes.
pub open spec fn statement_for(key: Seq<char>, op: OpView) -> StatementView {
    match op {
        OpView::Put(v) => StatementView::Write { key, value: v },
        OpView::Delete => StatementView::Erase { key },
        OpView::Init(true) => StatementView::Mark { marker: marker_of(key) },
        OpView::Init(false) => StatementView::Unmark { marker: marker_of(key) },
    }
}

/// The statements' views.
pub open spec fn statements_view(v: Seq<Statement>) -> Seq<StatementView> {
    Seq::new(v.len(), |i: int| v[i]@)
}

/// Whether `stmts` is the buffer `pend`, one statement for each of its keys
/// in the order `keys` lists them, and every key listed once.
pub open spec fn plans(stmts: Seq<StatementView>, keys: Seq<Seq<char>>, pend: Map<Seq<char>, OpView>) -> bool {
    &&& stmts.len() == keys.len()
    &&& keys.no_duplicates()
    &&& forall|k: Seq<char>| pend.contains_key(k) <==> keys.contains(k)
    &&& forall|i: int| 0 <= i < keys.len() ==> #[trigger] stmts[i] == statement_for(keys[i], pend[keys[i]])
}

/// The data table and the metadata table, as plain values.
pub struct Tables {
    pub data: Map<Seq<char>, Seq<u8>>,
    pub markers: Set<Seq<char>>,
}

/// The tables after one statement.
pub open spec fn apply_one(t: Tables, s: StatementView) -> Tables {
    match s {
        StatementView::Write { key, value } => Tables { data: t.data.insert(key, value), ..t },
        StatementView::Erase { key } => Tables { data: t.data.remove(key), ..t },
        StatementView::Mark { marker } => Tables { markers: t.markers.insert(marker), ..t },
        StatementView::Unmark { marker } => Tables { markers: t.markers.remove(marker), ..t },
    }
}

/// The tables after the statements, in order.
pub open spec fn apply_all(t: Tables, stmts: Seq<StatementView>) -> Tables
    decreases stmts.len(),
{
    if stmts.len() == 0 {
        t
    } else {
        apply_one(apply_all(t, stmts.drop_last()), stmts.last())
    }
}

/// The statements a flush of the whole buffer runs, one for each buffered
/// key: a value is written, a delete erases, a namespace flag is marked or
/// unmarked under its marker key.
pub fn flush_plan(pending: &Pending) -> (r: Vec<Statement>)
    requires
        pending.wf(),
    ensures
        exists|keys: Seq<Seq<char>>| plans(statements_view(r@), keys, pending@),
{
    let keys = pending.keys();
    let ghost kv = strings_view(keys@);
    let mut out: Vec<Statement> = Vec::new();
    let mut i: usize = 0;
    while i < keys.len()
        invariant
            pending.wf(),
            kv == strings_view(keys@),
            forall|k: Seq<char>|
                #![trigger pending@.contains_key(k)]
                pending@.contains_key(k) <==> kv.contains(k),
            i <= keys@.len(),
            out@.len() == i,
            forall|j: int|
                0 <= j < i ==> #[trigger] out@[j]@ == statement_for(kv[j], pending@[kv[j]]),
        decreases keys@.len() - i,
    {
        let key = keys[i].as_str();
        proof {
            assert(kv[i as int] == key@);
            assert(kv.contains(key@));
            assert(pending@.contains_key(key@));
        }
        let op = pending.get(key);
        let stmt = match op {
            Some(crate::buffer::PendingOp::Put(bytes)) => Statement::Write {
                key: crate::text::owned(key),
                value: crate::buffer::copy_bytes(bytes.as_slice()),
            },
            Some(crate::buffer::PendingOp::Delete) => Statement::Erase { key: crate::text::owned(key) },
            Some(crate::buffer::PendingOp::Init(seeded)) => {
                if *seeded {
                    Statement::Mark { marker: init_key(key) }
                } else {
                    Statement::Unmark { marker: init_key(key) }
                }
            },
            None => Statement::Erase { key: crate::text::owned(key) },
        };
        out.push(stmt);
        i = i + 1;
    }
    proof {
        let sv = statements_view(out@);
        assert forall|j: int| 0 <= j < kv.len() implies #[trigger] sv[j] == statement_for(
            kv[j],
            pending@[kv[j]],
        ) by {
            assert(sv[j] == out@[j]@);
        }
        assert(plans(sv, kv, pending@));
    }
    out
}

/// A flush lands the buffer: whatever a read saw through the buffer before
/// the flush, it reads from the data table after it, every key the buffer
/// does not hold reads as it did, and a namespace flag ends up set exactly
/// where the buffer set it or it was set and the buffer left it alone.
pub proof fn law_a_flush_lands_what_was_buffered(
    t: Tables,
    stmts: Seq<StatementView>,
    keys: Seq<Seq<char>>,
    pend: Map<Seq<char>, OpView>,
    k: Seq<char>,
)
    requires
        plans(stmts, keys, pend),
    ensures
        visible(pend, k) is Some ==> apply_all(t, stmts).data.contains_key(k) == (visible(
            pend,
            k,
        ).unwrap() is Some),
        visible(pend, k) is Some && visible(pend, k).unwrap() is Some ==> apply_all(t, stmts).data[k]
            == visible(pend, k).unwrap().unwrap(),
        visible(pend, k) is None ==> apply_all(t, stmts).data.contains_key(k) == t.data.contains_key(k),
        visible(pend, k) is None && t.data.contains_key(k) ==> apply_all(t, stmts).data[k] == t.data[k],
        apply_all(t, stmts).markers.contains(marker_of(k)) == if pend.contains_key(k)
            && pend[k] is Init {
            pend[k] == OpView::Init(true)
        } else {
            t.markers.contains(marker_of(k))
        },
{
    assert forall|i: int| 0 <= i < keys.len() implies pend.contains_key(#[trigger] keys[i]) by {
        assert(keys.contains(keys[i]));
    }
    lemma_apply_all(t, stmts, keys, pend, k);
}

/// Each key's statement is the only one that touches that key's row in
/// either table.
proof fn lemma_apply_all(
    t: Tables,
    stmts: Seq<StatementView>,
    keys: Seq<Seq<char>>,
    pend: Map<Seq<char>, OpView>,
    k: Seq<char>,
)
    requires
        stmts.len() == keys.len(),
        keys.no_duplicates(),
        forall|i: int| 0 <= i < keys.len() ==> #[trigger] stmts[i] == statement_for(keys[i], pend[keys[i]]),
        forall|i: int| 0 <= i < keys.len() ==> pend.contains_key(#[trigger] keys[i]),
    ensures
        keys.contains(k) && visible(pend, k) is Some ==> apply_all(t, stmts).data.contains_key(k)
            == (visible(pend, k).unwrap() is Some),
        keys.contains(k) && visible(pend, k) is Some && visible(pend, k).unwrap() is Some
            ==> apply_all(t, stmts).data[k] == visible(pend, k).unwrap().unwrap(),
        !(keys.contains(k) && visible(pend, k) is Some) ==> apply_all(t, stmts).data.contains_key(k)
            == t.data.contains_key(k),
        !(keys.contains(k) && visible(pend, k) is Some) && t.data.contains_key(k) ==> apply_all(
            t,
            stmts,
        ).data[k] == t.data[k],
        apply_all(t, stmts).markers.contains(marker_of(k)) == if keys.contains(k) && pend[k] is Init {
            pend[k] == OpView::Init(true)
        } else {
            t.markers.contains(marker_of(k))
        },
    decreases stmts.len(),
{
    if stmts.len() > 0 {
        let ks = keys.drop_last();
        let ss = stmts.drop_last();
        assert forall|i: int| 0 <= i < ks.len() implies #[trigger] ss[i] == statement_for(
            ks[i],
            pend[ks[i]],
        ) by {
            assert(ss[i] == stmts[i] && ks[i] == keys[i]);
        }
        assert forall|i: int| 0 <= i < ks.len() implies pend.contains_key(#[trigger] ks[i]) by {
            assert(ks[i] == keys[i]);
        }
        assert(pend.contains_key(keys[keys.len() - 1]));
        assert(ks.no_duplicates()) by {
            assert forall|a: int, b: int| 0 <= a < ks.len() && 0 <= b < ks.len() && a != b implies ks[a]
                != ks[b] by {
                assert(ks[a] == keys[a] && ks[b] == keys[b]);
            }
        }
        lemma_apply_all(t, ss, ks, pend, k);
        let last = keys.last();
        assert(stmts.last() == statement_for(last, pend[last])) by {
            assert(stmts[stmts.len() - 1] == statement_for(keys[keys.len() - 1], pend[keys[keys.len() - 1]]));
        }
        assert(keys.contains(k) == (ks.contains(k) || k == last)) by {
            if keys.contains(k) {
                let i = choose|i: int| 0 <= i < keys.len() && keys[i] == k;
                if i < keys.len() - 1 {
                    assert(ks[i] == k);
                }
            }
            if ks.contains(k) {
                let i = choose|i: int| 0 <= i < ks.len() && ks[i] == k;
                assert(keys[i] == k);
            }
            if k == last {
                assert(keys[keys.len() - 1] == k);
            }
        }
        if k == last {
            assert(!ks.contains(k)) by {
                if ks.contains(k) {
                    let i = choose|i: int| 0 <= i < ks.len() && ks[i] == k;
                    assert(keys[i] == keys[keys.len() - 1]);
                }
            }
        }
        assert(marker_of(last) == marker_of(k) ==> last == k) by {
            if marker_of(last) == marker_of(k) {
                reveal_strlit("__init::");
                assert(last =~= marker_of(last).subrange(8, marker_of(last).len() as int));
                assert(k =~= marker_of(k).subrange(8, marker_of(k).len() as int));
            }
        }
    }
}

/// How one attempt to commit the buffer ended.
#[derive(Debug, Clone, Copy, PartialEq, Eq, Structural)]
pub enum FlushOutcome {
    /// The commit landed.
    Landed,
    /// The engine's handle answered that an earlier I/O error spoiled it: it
    /// answers everything so until it is traded for a fresh one.
    PreviousIo,
    /// Any other failure.
    Failed,
}

/// What a commit does after an attempt.
#[derive(Debug, Clone, Copy, PartialEq, Eq, Structural)]
pub enum FlushNext {
    /// It is done and reports success.
    Done,
    /// It opens the database again and tries once more.
    ReopenAndRetry,
    /// It reports the failure.
    Fail,
}

/// What a commit does after an attempt: a handle spoiled by an earlier I/O
/// error is traded for a fresh one and the commit tried once more; a second
/// failure is the disk rather than the handle, and is reported.
pub open spec fn flush_next_spec(outcome: FlushOutcome, retried: bool) -> FlushNext {
    match outcome {
        FlushOutcome::Landed => FlushNext::Done,
        FlushOutcome::PreviousIo => if retried {
            FlushNext::Fail
        } else {
            FlushNext::ReopenAndRetry
        },
        FlushOutcome::Failed => FlushNext::Fail,
    }
}

/// What a commit does after an attempt, given how it ended and whether it
/// was already the retry. A retry never asks for another.
pub fn flush_next(outcome: FlushOutcome, retried: bool) -> (r: FlushNext)
    ensures
        r == flush_next_spec(outcome, retried),
        retried ==> r != FlushNext::ReopenAndRetry,
        outcome == FlushOutcome::Landed ==> r == FlushNext::Done,
        outcome == FlushOutcome::Failed ==> r == FlushNext::Fail,
        outcome == FlushOutcome::PreviousIo && !retried ==> r == FlushNext::ReopenAndRetry,
        r == FlushNext::Done <==> outcome == FlushOutcome::Landed,
{
    match outcome {
        FlushOutcome::Landed => FlushNext::Done,
        FlushOutcome::PreviousIo => {
            if retried {
                FlushNext::Fail
            } else {
                FlushNext::ReopenAndRetry
            }
        },
        FlushOutcome::Failed => FlushNext::Fail,
    }
}

} // verus!
