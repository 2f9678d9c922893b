//! A subscription being configured, and the two rules it runs by: which
//! changes a subscriber is spared, and what a queued subscriber is handed
//! when its queue is drained.
use vstd::prelude::*;

verus! {

/// Delivery: the callback runs wherever the change is emitted.
#[derive(Debug, Clone, Copy, PartialEq, Eq, Structural)]
pub struct Immediate;

/// Delivery: the change is queued and handed over when the queue is
/// drained; with `coalesce`, only the newest since the last drain.
#[derive(Debug, Clone, Copy, PartialEq, Eq, Structural)]
pub struct Local {
    pub coalesce: bool,
}

/// A subscription being configured over `source`.
pub struct Watch<W, D> {
    pub source: W,
    /// Whether changes the watched handle made itself are skipped.
    pub external: bool,
    pub delivery: D,
}

/// One key of a map, watched on its own.
pub struct KeyOf<W, K> {
    pub source: W,
    pub key: K,
}

/// Which changes a registered subscriber is spared: those made by the handle
/// it watches, where it asked to skip them.
#[derive(Debug, Clone, Copy, PartialEq, Eq, Structural)]
pub struct Listener {
    /// The watched handle, where its own changes are skipped.
    pub mine: Option<u128>,
}

/// Whether a subscriber skipping the changes of `mine` is handed a change
/// made by `source`: it is spared only a change its own handle made, and
/// only one that may be dropped - a key appearing or disappearing goes to
/// everyone.
pub open spec fn delivered(mine: Option<u128>, source: Option<u128>, filterable: bool) -> bool {
    !(mine is Some && source == mine && filterable)
}

impl<W> Watch<W, Immediate> {
    /// A subscription over `source`, delivered where the change happens.
    pub fn new(source: W) -> (r: Self)
        ensures
            r.source == source,
            !r.external,
    {
        Watch { source, external: false, delivery: Immediate }
    }

    /// Queues changes instead, to be handed over when the queue is drained;
    /// changes coalesce to the newest unless [`Watch::every`] says otherwise.
    pub fn local(self) -> (r: Watch<W, Local>)
        ensures
            r.source == self.source,
            r.external == self.external,
            r.delivery.coalesce,
    {
        Watch { source: self.source, external: self.external, delivery: Local { coalesce: true } }
    }

    /// Finishes the subscription over the handle `watch_id`: what it is
    /// spared.
    pub fn register(self, watch_id: u128) -> (r: Listener)
        ensures
            r.mine == (if self.external {
                Some(watch_id)
            } else {
                None
            }),
    {
        Listener { mine: if self.external { Some(watch_id) } else { None } }
    }
}

impl<W> Watch<W, Local> {
    /// Keeps every change instead of coalescing to the newest.
    pub fn every(self) -> (r: Self)
        ensures
            r.source == self.source,
            r.external == self.external,
            !r.delivery.coalesce,
    {
        Watch { source: self.source, external: self.external, delivery: Local { coalesce: false } }
    }

    /// Finishes the subscription over the handle `watch_id`: what it is
    /// spared, and the queue its changes wait in.
    pub fn register<T>(self, watch_id: u128) -> (r: (Listener, ChangeQueue<T>))
        ensures
            r.0.mine == (if self.external {
                Some(watch_id)
            } else {
                None
            }),
            r.1@ == Seq::<(T, Option<u128>)>::empty(),
            r.1.coalescing() == self.delivery.coalesce,
    {
        let listener = Listener { mine: if self.external { Some(watch_id) } else { None } };
        (listener, ChangeQueue::new(self.delivery.coalesce))
    }
}

impl<W, D> Watch<W, D> {
    /// Skips changes this handle made itself.
    pub fn external(self) -> (r: Self)
        ensures
            r.source == self.source,
            r.delivery == self.delivery,
            r.external,
    {
        Watch { source: self.source, external: true, delivery: self.delivery }
    }

    /// Narrows to one key instead of every change in the map.
    pub fn key<K>(self, key: K) -> (r: Watch<KeyOf<W, K>, D>)
        ensures
            r.source.source == self.source,
            r.source.key == key,
            r.external == self.external,
            r.delivery == self.delivery,
    {
        Watch { source: KeyOf { source: self.source, key }, external: self.external, delivery: self.delivery }
    }
}

impl Listener {
    /// Whether a change made by `source` is handed to the subscriber.
    pub fn passes(&self, source: Option<u128>, filterable: bool) -> (r: bool)
        ensures
            r == delivered(self.mine, source, filterable),
    {
        match self.mine {
            Some(m) => match source {
                Some(s) => !(s == m && filterable),
                None => true,
            },
            None => true,
        }
    }
}

/// Changes waiting for the next drain, each with who made it.
pub struct ChangeQueue<T> {
    items: Vec<(T, Option<u128>)>,
    coalesce: bool,
}

/// The queue after one change arrives: a coalescing queue keeps only the
/// newest.
pub open spec fn offered<T>(q: Seq<(T, Option<u128>)>, coalesce: bool, item: (T, Option<u128>)) -> Seq<
    (T, Option<u128>),
> {
    if coalesce {
        seq![item]
    } else {
        q.push(item)
    }
}

/// The queue after a run of changes arrives, oldest first.
pub open spec fn offered_all<T>(q: Seq<(T, Option<u128>)>, coalesce: bool, items: Seq<(T, Option<u128>)>) -> Seq<
    (T, Option<u128>),
>
    decreases items.len(),
{
    if items.len() == 0 {
        q
    } else {
        offered(offered_all(q, coalesce, items.drop_last()), coalesce, items.last())
    }
}

impl<T> View for ChangeQueue<T> {
    type V = Seq<(T, Option<u128>)>;

    closed spec fn view(&self) -> Seq<(T, Option<u128>)> {
        self.items@
    }
}

impl<T> ChangeQueue<T> {
    /// Whether the queue keeps only the newest change.
    pub closed spec fn coalescing(&self) -> bool {
        self.coalesce
    }

    /// An empty queue.
    pub fn new(coalesce: bool) -> (r: Self)
        ensures
            r@ == Seq::<(T, Option<u128>)>::empty(),
            r.coalescing() == coalesce,
    {
        ChangeQueue { items: Vec::new(), coalesce }
    }

    /// A change arrives.
    pub fn offer(&mut self, item: T, source: Option<u128>)
        ensures
            final(self)@ == offered(old(self)@, old(self).coalescing(), (item, source)),
            final(self).coalescing() == old(self).coalescing(),
    {
        if self.coalesce {
            self.items.clear();
        }
        self.items.push((item, source));
        proof {
            if self.coalesce {
                assert(self.items@ =~= seq![(item, source)]);
            }
        }
    }

    /// Everything waiting, oldest first, leaving the queue empty.
    pub fn drain(&mut self) -> (r: Vec<(T, Option<u128>)>)
        ensures
            r@ == old(self)@,
            final(self)@ == Seq::<(T, Option<u128>)>::empty(),
            final(self).coalescing() == old(self).coalescing(),
    {
        let mut taken: Vec<(T, Option<u128>)> = Vec::new();
        std::mem::swap(&mut taken, &mut self.items);
        taken
    }
}

/// What a drain hands over: a coalescing queue hands over the newest change
/// since the last drain, once, however many arrived; one that keeps every
/// change hands them all over, oldest first.
pub proof fn law_a_drain_hands_over_what_arrived<T>(coalesce: bool, items: Seq<(T, Option<u128>)>)
    ensures
        coalesce && items.len() > 0 ==> offered_all(Seq::empty(), coalesce, items) == seq![items.last()],
        !coalesce ==> offered_all(Seq::empty(), coalesce, items) == items,
    decreases items.len(),
{
    if items.len() > 0 {
        law_a_drain_hands_over_what_arrived(coalesce, items.drop_last());
        if !coalesce {
            assert(items.drop_last().push(items.last()) =~= items);
        }
    }
}

} // verus!
