//! Keys stored whole, and which of them are under a prefix.
use crate::buffer::{starts_with, str_starts_with};
use crate::errors::StorageError;
use crate::path::{joined, split_levels, str_eq, well_formed_levels, StorePath, SEPARATOR};
use vstd::prelude::*;

verus! {

/// What a store did to a path.
#[derive(Debug, Clone, Copy, PartialEq, Eq, Structural)]
pub enum StoreOp {
    /// A value was written.
    Put,
    Delete,
    /// Everything under a prefix went away as one operation. The event path is
    /// the prefix.
    DeletePrefix,
}

/// What a store subscription listens to.
#[derive(Debug, Clone, PartialEq, Eq)]
pub enum SubscriptionKind {
    Any,
    ExactPath(String),
    Prefix(String),
}

/// Which codec a store writes with.
#[derive(Debug, Clone, Copy, PartialEq, Eq, Structural)]
pub enum CodecFormat {
    MessagePack,
    Json,
    SonicJson,
    Toml,
    Ron,
}

/// Whether `k` is `p` itself or below it, a level boundary apart.
pub open spec fn at_or_below(k: Seq<char>, p: Seq<char>) -> bool {
    k == p || starts_with(k, p.push(SEPARATOR))
}

/// Whether a subscription of kind `kind` hears about `path`.
pub open spec fn hears(kind: SubscriptionKind, path: Seq<char>) -> bool {
    match kind {
        SubscriptionKind::Any => true,
        SubscriptionKind::ExactPath(p) => p@ == path,
        SubscriptionKind::Prefix(prefix) => at_or_below(path, prefix@),
    }
}

/// Whether `key` is `prefix` or below it.
pub fn is_at_or_below(key: &str, prefix: &str) -> (r: bool)
    ensures
        r == at_or_below(key@, prefix@),
{
    if str_eq(key, prefix) {
        return true;
    }
    let lp = prefix.unicode_len();
    let lk = key.unicode_len();
    if lk <= lp {
        return false;
    }
    let head = str_starts_with(key, prefix);
    let c = key.get_char(lp);
    proof {
        let pd = prefix@.push(SEPARATOR);
        if head && c == SEPARATOR {
            assert forall|j: int| 0 <= j < pd.len() implies key@.subrange(0, pd.len() as int)[j]
                == pd[j] by {
                if j < lp {
                    assert(key@.subrange(0, lp as int)[j] == prefix@[j]);
                }
            }
            assert(key@.subrange(0, pd.len() as int) =~= pd);
        }
        if starts_with(key@, pd) {
            assert(key@[lp as int] == key@.subrange(0, pd.len() as int)[lp as int]);
            assert(key@.subrange(0, lp as int) =~= prefix@) by {
                assert forall|j: int| 0 <= j < lp implies key@.subrange(0, lp as int)[j]
                    == prefix@[j] by {
                    assert(key@.subrange(0, pd.len() as int)[j] == pd[j]);
                }
            }
        }
    }
    head && c == SEPARATOR
}

/// Whether a subscription of kind `kind` hears about `path`.
pub fn matches_kind(kind: &SubscriptionKind, path: &str) -> (r: bool)
    ensures
        r == hears(*kind, path@),
{
    match kind {
        SubscriptionKind::Any => true,
        SubscriptionKind::ExactPath(p) => str_eq(p.as_str(), path),
        SubscriptionKind::Prefix(prefix) => is_at_or_below(path, prefix.as_str()),
    }
}

/// Where a subtree stops, for engines that store a key whole: the prefix and
/// a separator, or nothing at the root, where everything is under it.
pub fn subtree_bound(prefix: &StorePath) -> (r: Option<String>)
    ensures
        prefix@.len() == 0 ==> r is None,
        prefix@.len() > 0 ==> r is Some && r.unwrap()@ == joined(prefix@).push(SEPARATOR),
{
    if prefix.is_root() {
        None
    } else {
        let mut s = prefix.as_string();
        let ghost before = s@;
        s.append(".");
        proof {
            reveal_strlit(".");
            assert(s@ =~= before.push(SEPARATOR));
        }
        Some(s)
    }
}

/// Whether a stored key is under `prefix`, given the bound
/// [`subtree_bound`] made of it.
pub fn is_under(key: &str, prefix: &str, bound: &Option<String>) -> (r: bool)
    ensures
        r == match bound {
            Some(b) => key@ == prefix@ || starts_with(key@, b@),
            None => true,
        },
{
    match bound {
        Some(bound) => str_eq(key, prefix) || str_starts_with(key, bound.as_str()),
        None => true,
    }
}

/// The half-open key range a subtree occupies, for an engine that queries by
/// comparison: from the prefix itself to the prefix followed by the
/// separator's successor, or everything at the root.
pub fn key_range(prefix: &StorePath) -> (r: (String, String))
    ensures
        prefix@.len() == 0 ==> r.0@ == Seq::<char>::empty() && r.1@ == seq!['\u{10FFFF}'],
        prefix@.len() > 0 ==> r.0@ == joined(prefix@) && r.1@ == joined(prefix@).push('/'),
{
    if prefix.is_root() {
        let high = crate::text::owned("\u{10FFFF}");
        proof {
            reveal_strlit("\u{10FFFF}");
            assert(high@ =~= seq!['\u{10FFFF}']);
        }
        return (String::new(), high);
    }
    let low = prefix.as_string();
    let mut high = prefix.as_string();
    let ghost before = high@;
    high.append("/");
    proof {
        reveal_strlit("/");
        assert(high@ =~= before.push('/'));
    }
    (low, high)
}

/// The key a namespace's initialization marker is stored under.
pub fn init_key(namespace: &str) -> (r: String)
    ensures
        r@ == "__init::"@ + namespace@,
{
    crate::text::concat("__init::", namespace)
}

/// A key read back out of storage, as the path it claims to be, or a scan
/// failure where something else did the writing.
pub fn stored_path(key: &str) -> (r: Result<StorePath, StorageError>)
    ensures
        key@.len() == 0 ==> r is Ok && r.unwrap()@.len() == 0,
        key@.len() > 0 ==> match r {
            Ok(p) => p@ == split_levels(key@) && well_formed_levels(p@),
            Err(e) => e == StorageError::Scan && exists|i: int|
                0 <= i < split_levels(key@).len() && (#[trigger] split_levels(key@)[i]).len()
                    == 0,
        },
{
    match StorePath::parse_joined(key) {
        Ok(p) => Ok(p),
        Err(_) => Err(StorageError::Scan),
    }
}

} // verus!
