//! What a field or a map held in memory does when the store tells it of a
//! change: the decision, apart from the decoding and the callbacks around it.
use crate::path::{is_prefix, split_levels, StorePath};
use crate::scan::StoreOp;
use crate::start::Unread;
use vstd::prelude::*;

verus! {

/// What decoding one side of a change gave.
#[derive(Debug, Clone, Copy, PartialEq, Eq, Structural)]
pub enum Decoded {
    /// There was nothing on that side.
    Absent,
    /// It decoded.
    Read,
    /// It was there and did not decode.
    Unreadable,
}

/// What a field does when its path is removed.
#[derive(Debug, Clone, Copy, PartialEq, Eq, Structural)]
pub enum OnDelete {
    /// It goes back to its default.
    UseDefault,
    /// It keeps what it had.
    Keep,
}

/// What a field does with a change at its path.
#[derive(Debug, Clone, Copy, PartialEq, Eq, Structural)]
pub enum FieldReaction {
    /// It takes the new value and forgets any earlier refusal.
    Take,
    /// It keeps what it had, remembers why, and reports the change as refused.
    Refuse(Unread),
    /// The path was removed: it goes back to its default.
    Reset,
    /// The path was removed and it keeps what it had.
    Keep,
}

/// What a field does with a change: a new value that decodes is taken unless
/// its declared check, applied to edits from outside, refuses it; one that does
/// not decode is refused; a removal resets or keeps, as the field declared.
pub open spec fn field_reaction_spec(new: Decoded, refused_by_check: bool, on_delete: OnDelete) -> FieldReaction {
    match new {
        Decoded::Read => if refused_by_check {
            FieldReaction::Refuse(Unread::Refused)
        } else {
            FieldReaction::Take
        },
        Decoded::Unreadable => FieldReaction::Refuse(Unread::Undecodable),
        Decoded::Absent => match on_delete {
            OnDelete::UseDefault => FieldReaction::Reset,
            OnDelete::Keep => FieldReaction::Keep,
        },
    }
}

/// What a field does with a change at its path, given what the new value
/// decoded to, whether its check refused that value (asked only of edits from
/// outside), and what it does on a removal.
pub fn field_reaction(new: Decoded, refused_by_check: bool, on_delete: OnDelete) -> (r: FieldReaction)
    ensures
        r == field_reaction_spec(new, refused_by_check, on_delete),
        new == Decoded::Read && !refused_by_check ==> r == FieldReaction::Take,
        new == Decoded::Read && refused_by_check ==> r == FieldReaction::Refuse(Unread::Refused),
        new == Decoded::Unreadable ==> r == FieldReaction::Refuse(Unread::Undecodable),
        new == Decoded::Absent ==> r == (if on_delete == OnDelete::UseDefault {
            FieldReaction::Reset
        } else {
            FieldReaction::Keep
        }),
{
    match new {
        Decoded::Read => {
            if refused_by_check {
                FieldReaction::Refuse(Unread::Refused)
            } else {
                FieldReaction::Take
            }
        },
        Decoded::Unreadable => FieldReaction::Refuse(Unread::Undecodable),
        Decoded::Absent => match on_delete {
            OnDelete::UseDefault => FieldReaction::Reset,
            OnDelete::Keep => FieldReaction::Keep,
        },
    }
}

/// Where the value a map reports as replaced comes from.
#[derive(Debug, Clone, Copy, PartialEq, Eq, Structural)]
pub enum OldValue {
    /// The replaced value the store sent, decoded.
    Stored,
    /// The map's own copy, where the store sent none that decodes.
    Cached,
    /// Neither is there.
    Unknown,
}

/// Why a map did not take a change.
#[derive(Debug, Clone, Copy, PartialEq, Eq, Structural)]
pub enum MapRefusal {
    /// The changed path is not an entry of the map.
    NotAnEntry,
    /// The entry's name does not read as the map's key type.
    KeyUnreadable,
    /// The new value does not decode.
    ValueUnreadable,
    /// A write came with no value.
    NoValue,
}

/// What a map does with a change under its path.
#[derive(Debug, Clone, Copy, PartialEq, Eq, Structural)]
pub enum MapReaction {
    /// The whole map was removed: it empties.
    Clear,
    /// A key it did not hold gains a value.
    Insert,
    /// A key it held gets a new value.
    Update(OldValue),
    /// A key goes away.
    Remove(OldValue),
    /// It keeps what it had and reports why.
    Refuse(MapRefusal),
}

/// The replaced value a map reports: the one the store sent where it
/// decodes, otherwise the map's own copy where it holds the key.
pub open spec fn old_value_spec(old: Decoded, cached: bool) -> OldValue {
    if old == Decoded::Read {
        OldValue::Stored
    } else if cached {
        OldValue::Cached
    } else {
        OldValue::Unknown
    }
}

/// What a map does with a change: a removal of the map's own path empties it;
/// otherwise the path has to name an entry whose key reads, and a new value
/// there has to decode; a write then inserts or updates, as the map held the
/// key or not, and a removal removes.
pub open spec fn map_reaction_spec(
    op: StoreOp,
    at_the_map: bool,
    entry: bool,
    key_reads: bool,
    new: Decoded,
    old: Decoded,
    cached: bool,
) -> MapReaction {
    if op == StoreOp::DeletePrefix && at_the_map {
        MapReaction::Clear
    } else if !entry {
        MapReaction::Refuse(MapRefusal::NotAnEntry)
    } else if !key_reads {
        MapReaction::Refuse(MapRefusal::KeyUnreadable)
    } else if new == Decoded::Unreadable {
        MapReaction::Refuse(MapRefusal::ValueUnreadable)
    } else if op == StoreOp::Put {
        if new == Decoded::Absent {
            MapReaction::Refuse(MapRefusal::NoValue)
        } else if cached {
            MapReaction::Update(old_value_spec(old, cached))
        } else {
            MapReaction::Insert
        }
    } else {
        MapReaction::Remove(old_value_spec(old, cached))
    }
}

/// What a map does with a change under its path, given the change's
/// operation, whether it is at the map's own path, whether the path names an
/// entry of the map and that entry's key reads, what the new and the replaced
/// values decoded to, and whether the map holds the key.
pub fn map_reaction(
    op: StoreOp,
    at_the_map: bool,
    entry: bool,
    key_reads: bool,
    new: Decoded,
    old: Decoded,
    cached: bool,
) -> (r: MapReaction)
    ensures
        r == map_reaction_spec(op, at_the_map, entry, key_reads, new, old, cached),
        op != StoreOp::Put && !(op == StoreOp::DeletePrefix && at_the_map) && entry && key_reads
            && new != Decoded::Unreadable ==> r == MapReaction::Remove(
            if old == Decoded::Read {
                OldValue::Stored
            } else if cached {
                OldValue::Cached
            } else {
                OldValue::Unknown
            },
        ),
        op == StoreOp::DeletePrefix && at_the_map ==> r == MapReaction::Clear,
        !(op == StoreOp::DeletePrefix && at_the_map) && !entry ==> r == MapReaction::Refuse(MapRefusal::NotAnEntry),
        op == StoreOp::Put && entry && key_reads && new == Decoded::Read && !cached ==> r == MapReaction::Insert,
        op == StoreOp::Put && entry && key_reads && new == Decoded::Read && cached ==> r == MapReaction::Update(
            if old == Decoded::Read {
                OldValue::Stored
            } else {
                OldValue::Cached
            },
        ),
{
    let removes_all = match op {
        StoreOp::DeletePrefix => true,
        _ => false,
    };
    let writes = match op {
        StoreOp::Put => true,
        _ => false,
    };
    let old_value = match old {
        Decoded::Read => OldValue::Stored,
        _ => if cached {
            OldValue::Cached
        } else {
            OldValue::Unknown
        },
    };
    if removes_all && at_the_map {
        MapReaction::Clear
    } else if !entry {
        MapReaction::Refuse(MapRefusal::NotAnEntry)
    } else if !key_reads {
        MapReaction::Refuse(MapRefusal::KeyUnreadable)
    } else {
        match new {
            Decoded::Unreadable => MapReaction::Refuse(MapRefusal::ValueUnreadable),
            _ => {
                if writes {
                    match new {
                        Decoded::Absent => MapReaction::Refuse(MapRefusal::NoValue),
                        _ => {
                            if cached {
                                MapReaction::Update(old_value)
                            } else {
                                MapReaction::Insert
                            }
                        },
                    }
                } else {
                    MapReaction::Remove(old_value)
                }
            },
        }
    }
}

/// The entry of the map at `map` that a changed key names: the key read as
/// levels has to be well formed and be the map's levels with exactly one
/// more, which is the entry's name.
pub open spec fn entry_of(map: Seq<Seq<char>>, changed: Seq<char>) -> Option<Seq<char>> {
    let levels = split_levels(changed);
    if changed.len() > 0 && (forall|i: int| 0 <= i < levels.len() ==> (#[trigger] levels[i]).len() > 0)
        && levels.len() == map.len() + 1 && is_prefix(map, levels) {
        Some(levels[map.len() as int])
    } else {
        None
    }
}

/// The name of the entry of the map at `map` that the changed key names, or
/// `None` where the key is not an entry of that map: this is what decides a
/// map's `entry` in [`map_reaction`].
pub fn entry_name(map: &StorePath, changed: &str) -> (r: Option<String>)
    ensures
        match r {
            Some(name) => entry_of(map@, changed@) == Some(name@),
            None => entry_of(map@, changed@) is None,
        },
{
    match StorePath::parse_joined(changed) {
        Ok(p) => {
            let n = p.segment_count();
            if n > 0 && n - 1 == map.segment_count() && map.holds(&p) {
                let levels = p.levels();
                proof {
                    assert(crate::path::strings_view(levels@)[(n - 1) as int] == levels@[(n - 1) as int]@);
                    if changed@.len() == 0 {
                        assert(p@.len() == 0);
                    }
                }
                Some(crate::text::owned(levels[n - 1].as_str()))
            } else {
                proof {
                    if changed@.len() == 0 {
                    } else {
                        assert(p@ == split_levels(changed@));
                    }
                }
                None
            }
        },
        Err(_) => {
            proof {
                let levels = split_levels(changed@);
                if changed@.len() > 0 {
                    let i = choose|i: int| 0 <= i < levels.len() && (#[trigger] levels[i]).len() == 0;
                    assert(levels[i].len() == 0);
                }
            }
            None
        },
    }
}

/// A removal reports the value it removed by the same rule an update
/// reports the value it replaced: the one the store sent where it decodes,
/// otherwise the map's own copy where the map held the key. Where either is
/// there, the removal does not report the removed value as unknown.
pub proof fn law_a_removal_reports_what_it_removed(
    op: StoreOp,
    at_the_map: bool,
    new: Decoded,
    old: Decoded,
    cached: bool,
)
    requires
        op != StoreOp::Put,
        !(op == StoreOp::DeletePrefix && at_the_map),
        new != Decoded::Unreadable,
    ensures
        old == Decoded::Read ==> map_reaction_spec(op, at_the_map, true, true, new, old, cached)
            == MapReaction::Remove(OldValue::Stored),
        old != Decoded::Read && cached ==> map_reaction_spec(op, at_the_map, true, true, new, old, cached)
            == MapReaction::Remove(OldValue::Cached),
        (old == Decoded::Read || cached) ==> map_reaction_spec(op, at_the_map, true, true, new, old, cached)
            != MapReaction::Remove(OldValue::Unknown),
        cached && new == Decoded::Read ==> map_reaction_spec(StoreOp::Put, at_the_map, true, true, new, old, cached)
            == MapReaction::Update(old_value_spec(old, cached))
            && map_reaction_spec(op, at_the_map, true, true, new, old, cached)
            == MapReaction::Remove(old_value_spec(old, cached)),
{
}

} // verus!
