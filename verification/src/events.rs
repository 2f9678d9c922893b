//! What a store tells its subscribers after a change, and which of them hear
//! it.
use crate::buffer::copy_bytes;
use crate::scan::{StoreOp, SubscriptionKind, hears, matches_kind};
use vstd::prelude::*;

verus! {

/// One change, as a subscriber is told of it.
#[derive(Debug)]
pub struct StoreEvent {
    /// The path spelled out whole; for a subtree removal, the prefix.
    pub path: String,
    pub op: StoreOp,
    /// What was there before, encoded.
    pub old: Option<Vec<u8>>,
    /// What is there now, encoded.
    pub new: Option<Vec<u8>>,
    /// Who made the change, where the writer said.
    pub source: Option<u128>,
}

/// The bytes an optional value holds.
pub open spec fn bytes_of(v: Option<Vec<u8>>) -> Option<Seq<u8>> {
    match v {
        Some(b) => Some(b@),
        None => None,
    }
}

/// What a write at a path is reported as, from what the path held before
/// and after it: a value there now is a write; nothing there now is a delete
/// of what was there, and no event at all where nothing was.
pub open spec fn write_reported(old: Option<Seq<u8>>, new: Option<Seq<u8>>) -> Option<
    (StoreOp, Option<Seq<u8>>, Option<Seq<u8>>),
> {
    match new {
        Some(n) => Some((StoreOp::Put, old, Some(n))),
        None => match old {
            Some(o) => Some((StoreOp::Delete, Some(o), None)),
            None => None,
        },
    }
}

/// The parts of an event a contract speaks of.
pub open spec fn event_parts(e: StoreEvent) -> (StoreOp, Option<Seq<u8>>, Option<Seq<u8>>) {
    (e.op, bytes_of(e.old), bytes_of(e.new))
}

/// The event a write at `path` is reported as, given what the path held
/// before and after it; `None` where nothing is worth reporting.
pub fn write_event(
    path: &str,
    old: Option<Vec<u8>>,
    new: Option<Vec<u8>>,
    source: Option<u128>,
) -> (r: Option<StoreEvent>)
    ensures
        match r {
            Some(e) => write_reported(bytes_of(old), bytes_of(new)) == Some(event_parts(e))
                && e.path@ == path@ && e.source == source,
            None => write_reported(bytes_of(old), bytes_of(new)) is None,
        },
        r is None <==> (old is None && new is None),
        r matches Some(e) ==> bytes_of(e.old) == bytes_of(old) && bytes_of(e.new) == bytes_of(new),
        r matches Some(e) ==> (e.op == StoreOp::Put <==> new is Some) && (e.op == StoreOp::Delete <==> new is None),
{
    match new {
        Some(n) => Some(
            StoreEvent { path: crate::text::owned(path), op: StoreOp::Put, old, new: Some(n), source },
        ),
        None => match old {
            Some(o) => Some(
                StoreEvent {
                    path: crate::text::owned(path),
                    op: StoreOp::Delete,
                    old: Some(o),
                    new: None,
                    source,
                },
            ),
            None => None,
        },
    }
}

/// The event a delete at `path` is reported as: only where something was
/// there to delete.
pub fn delete_event(path: &str, old: Option<Vec<u8>>, source: Option<u128>) -> (r: Option<
    StoreEvent,
>)
    ensures
        match r {
            Some(e) => old is Some && e.op == StoreOp::Delete && bytes_of(e.old) == bytes_of(old)
                && e.new is None && e.path@ == path@ && e.source == source,
            None => old is None,
        },
{
    match old {
        Some(o) => Some(
            StoreEvent {
                path: crate::text::owned(path),
                op: StoreOp::Delete,
                old: Some(o),
                new: None,
                source,
            },
        ),
        None => None,
    }
}

/// The event a subtree removal is reported as: always one, at the prefix,
/// with no values.
pub fn prefix_event(prefix: &str, source: Option<u128>) -> (r: StoreEvent)
    ensures
        r.op == StoreOp::DeletePrefix,
        r.old is None,
        r.new is None,
        r.path@ == prefix@,
        r.source == source,
{
    StoreEvent {
        path: crate::text::owned(prefix),
        op: StoreOp::DeletePrefix,
        old: None,
        new: None,
        source,
    }
}

/// The event a buffered write is reported as: a write of `value`, with what
/// the buffer read there before.
pub fn buffered_write_event(path: &str, old: Option<Vec<u8>>, value: &[u8]) -> (r: StoreEvent)
    ensures
        r.op == StoreOp::Put,
        bytes_of(r.old) == bytes_of(old),
        bytes_of(r.new) == Some(value@),
        r.path@ == path@,
        r.source is None,
{
    StoreEvent {
        path: crate::text::owned(path),
        op: StoreOp::Put,
        old,
        new: Some(copy_bytes(value)),
        source: None,
    }
}

/// The positions, in order, of the subscriptions that hear about `path`.
pub fn listeners(kinds: &Vec<SubscriptionKind>, path: &str) -> (r: Vec<usize>)
    ensures
        forall|j: int| 0 <= j < r@.len() ==> (#[trigger] r@[j]) < kinds@.len() && hears(kinds@[r@[j] as int], path@),
        forall|i: int| 0 <= i < kinds@.len() && hears(#[trigger] kinds@[i], path@) ==> r@.contains(i as usize),
        forall|a: int, b: int| 0 <= a < b < r@.len() ==> r@[a] < r@[b],
{
    let mut out: Vec<usize> = Vec::new();
    let mut i: usize = 0;
    while i < kinds.len()
        invariant
            i <= kinds@.len(),
            forall|j: int| 0 <= j < out@.len() ==> (#[trigger] out@[j]) < i && hears(kinds@[out@[j] as int], path@),
            forall|c: int| 0 <= c < i && hears(#[trigger] kinds@[c], path@) ==> out@.contains(c as usize),
            forall|a: int, b: int| 0 <= a < b < out@.len() ==> out@[a] < out@[b],
        decreases kinds@.len() - i,
    {
        if matches_kind(&kinds[i], path) {
            let ghost before = out@;
            out.push(i);
            proof {
                assert forall|c: int| 0 <= c < i + 1 && hears(#[trigger] kinds@[c], path@) implies out@.contains(c as usize) by {
                    if c < i {
                        let k = choose|k: int| 0 <= k < before.len() && before[k] == c as usize;
                        assert(out@[k] == c as usize);
                    } else {
                        assert(out@[out@.len() - 1] == i);
                    }
                }
            }
        }
        i = i + 1;
    }
    out
}

/// A reported write hands on exactly what the path held before and after
/// it: the replaced value travels with every write and every delete, a value
/// there now makes it a write and none a delete, and a path that held nothing
/// before or after is not reported.
pub proof fn law_an_event_carries_what_was_replaced(old: Option<Seq<u8>>, new: Option<Seq<u8>>)
    ensures
        write_reported(old, new) is None <==> (old is None && new is None),
        write_reported(old, new) matches Some(t) ==> t.1 == old && t.2 == new,
        write_reported(old, new) matches Some(t) ==> (t.0 == StoreOp::Put <==> new is Some)
            && (t.0 == StoreOp::Delete <==> new is None),
{
}

} // verus!
