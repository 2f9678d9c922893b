//! Whether a namespace has had its declared defaults written, and which
//! namespace a slice of state lives under.
use crate::buffer::{OpView, PendingOp};
use vstd::prelude::*;

verus! {

/// Whether a namespace has had its declared defaults written.
#[derive(Debug, Clone, Copy, PartialEq, Eq, Structural)]
pub enum InitState {
    /// The defaults have been written; do not write them again.
    Seeded,
    /// Nothing has been written here, so the next construction seeds it.
    Fresh,
}

impl InitState {
    /// Whether the defaults have been written.
    pub fn is_seeded(self) -> (r: bool)
        ensures
            r == (self == InitState::Seeded),
    {
        match self {
            InitState::Seeded => true,
            InitState::Fresh => false,
        }
    }

    /// The buffered write that records this state for a namespace.
    pub fn as_pending(self) -> (r: PendingOp)
        ensures
            r@ == OpView::Init(self == InitState::Seeded),
    {
        PendingOp::Init(self.is_seeded())
    }
}

/// A slice of state that lives under one prefix of the store.
pub trait StateScope {
    /// The prefix every path of the slice begins with.
    const PREFIX: &'static str;
}

} // verus!
