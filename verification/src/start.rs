//! What a field or a map starts on when it is built over the store: the
//! stored value, or the declared default, and whether the defaults are
//! written.
use crate::buffer::copy_bytes;
use crate::overlay::entries_of;
use vstd::prelude::*;

verus! {

/// The defaults a map writes when it is built: all of them where its
/// namespace was never seeded and nothing is stored under it, and none
/// otherwise. A map seeded once is not seeded again, even where everything
/// it held was removed since.
pub fn seed_defaults(
    initialized: bool,
    stored: &Vec<(String, Vec<u8>)>,
    defaults: &Vec<(String, Vec<u8>)>,
) -> (r: Vec<(String, Vec<u8>)>)
    ensures
        (initialized || stored@.len() > 0) ==> r@.len() == 0,
        !(initialized || stored@.len() > 0) ==> entries_of(r@) == entries_of(defaults@),
{
    let mut out: Vec<(String, Vec<u8>)> = Vec::new();
    if initialized || stored.len() > 0 {
        return out;
    }
    let mut i: usize = 0;
    while i < defaults.len()
        invariant
            i <= defaults@.len(),
            entries_of(out@) == entries_of(defaults@.take(i as int)),
        decreases defaults@.len() - i,
    {
        let ghost before = out@;
        out.push((crate::text::owned(defaults[i].0.as_str()), copy_bytes(defaults[i].1.as_slice())));
        proof {
            let t = defaults@.take(i + 1);
            assert(before.len() == i) by {
                assert(entries_of(before).len() == entries_of(defaults@.take(i as int)).len());
            }
            assert forall|j: int| 0 <= j < out@.len() implies #[trigger] entries_of(out@)[j] == entries_of(t)[j] by {
                if j < i {
                    assert(out@[j] == before[j]);
                    assert(entries_of(before)[j] == entries_of(defaults@.take(i as int))[j]);
                    assert(t[j] == defaults@.take(i as int)[j]);
                }
            }
            assert(entries_of(out@) =~= entries_of(t));
        }
        i = i + 1;
    }
    proof {
        assert(defaults@.take(i as int) =~= defaults@);
    }
    out
}

/// What a field does with a stored value it cannot take.
#[derive(Debug, Clone, Copy, PartialEq, Eq, Structural)]
pub enum OnUnreadable {
    /// Building the field fails.
    Refuse,
    /// The field starts on its default and remembers why.
    UseDefault,
}

/// What reading the field's path gave.
#[derive(Debug, Clone, Copy, PartialEq, Eq, Structural)]
pub enum StoredRead {
    /// Nothing is stored there.
    Absent,
    /// A value is stored there and decoded.
    Read,
    /// Something is stored there that does not decode as the field's type.
    Unreadable,
}

/// Why a field started on its default although something was stored.
#[derive(Debug, Clone, Copy, PartialEq, Eq, Structural)]
pub enum Unread {
    /// The stored value decoded and the field's check refused it.
    Refused,
    /// The stored value did not decode.
    Undecodable,
}

/// What a field starts on.
#[derive(Debug, Clone, Copy, PartialEq, Eq, Structural)]
pub enum FieldStart {
    /// The stored value.
    Stored,
    /// Nothing was stored: the default, which is also written.
    Seed,
    /// The default, remembering why the stored value was not taken.
    Default(Unread),
    /// Building fails: the stored value was refused.
    Refuse(Unread),
}

/// What a field starts on, given what was read, the verdict of its check on
/// a value that was read (`None` where it declares none), and its policy.
pub open spec fn field_start_spec(read: StoredRead, check_ok: Option<bool>, policy: OnUnreadable) -> FieldStart {
    match read {
        StoredRead::Absent => FieldStart::Seed,
        StoredRead::Read => match check_ok {
            Some(false) => if policy == OnUnreadable::Refuse {
                FieldStart::Refuse(Unread::Refused)
            } else {
                FieldStart::Default(Unread::Refused)
            },
            _ => FieldStart::Stored,
        },
        StoredRead::Unreadable => if policy == OnUnreadable::Refuse {
            FieldStart::Refuse(Unread::Undecodable)
        } else {
            FieldStart::Default(Unread::Undecodable)
        },
    }
}

/// What a field starts on: refused exactly where the stored value did not
/// decode or failed its check and the policy refuses; otherwise the default
/// where the value was not taken, remembering why; the stored value where it
/// read and passed; and the default, seeded, where nothing is stored.
pub fn field_start(read: StoredRead, check_ok: Option<bool>, policy: OnUnreadable) -> (r: FieldStart)
    ensures
        r == field_start_spec(read, check_ok, policy),
        read == StoredRead::Absent ==> r == FieldStart::Seed,
        read == StoredRead::Read && check_ok != Some(false) ==> r == FieldStart::Stored,
        read == StoredRead::Read && check_ok == Some(false) ==> r == (if policy == OnUnreadable::Refuse {
            FieldStart::Refuse(Unread::Refused)
        } else {
            FieldStart::Default(Unread::Refused)
        }),
        read == StoredRead::Unreadable ==> r == (if policy == OnUnreadable::Refuse {
            FieldStart::Refuse(Unread::Undecodable)
        } else {
            FieldStart::Default(Unread::Undecodable)
        }),
{
    let refuses = match policy {
        OnUnreadable::Refuse => true,
        OnUnreadable::UseDefault => false,
    };
    match read {
        StoredRead::Absent => FieldStart::Seed,
        StoredRead::Read => match check_ok {
            Some(false) => {
                if refuses {
                    FieldStart::Refuse(Unread::Refused)
                } else {
                    FieldStart::Default(Unread::Refused)
                }
            },
            _ => FieldStart::Stored,
        },
        StoredRead::Unreadable => {
            if refuses {
                FieldStart::Refuse(Unread::Undecodable)
            } else {
                FieldStart::Default(Unread::Undecodable)
            }
        },
    }
}

} // verus!
