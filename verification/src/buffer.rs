//! The write buffer a flat engine keeps between flushes.
//!
//! A write lands here first and reaches the engine on the next flush. Reads
//! look here before the engine, so a buffered write is seen at once, and the
//! buffer is only cleared of what a flush actually committed.
use crate::path::{strings_view, SEPARATOR};
use vstd::prelude::*;

verus! {

/// One buffered write, waiting for the next flush.
///
/// `Init` targets the metadata table rather than the data one; keeping it in
/// the same buffer is what makes a namespace flag land in the same transaction
/// as the values it vouches for.
#[derive(Clone, Debug, PartialEq, Eq)]
pub enum PendingOp {
    Put(Vec<u8>),
    Delete,
    Init(bool),
}

/// A buffered write, as a value.
pub enum OpView {
    Put(Seq<u8>),
    Delete,
    Init(bool),
}

impl View for PendingOp {
    type V = OpView;

    open spec fn view(&self) -> OpView {
        match self {
            PendingOp::Put(b) => OpView::Put(b@),
            PendingOp::Delete => OpView::Delete,
            PendingOp::Init(s) => OpView::Init(*s),
        }
    }
}

/// What a reader sees of a buffered write, or `None` where the key is gone.
pub open spec fn op_value(op: OpView) -> Option<Seq<u8>> {
    match op {
        OpView::Put(b) => Some(b),
        _ => None,
    }
}

/// Whether a buffered write is about data rather than a namespace flag.
pub open spec fn op_is_data(op: OpView) -> bool {
    op is Put || op is Delete
}

/// Whether two byte strings are the same.
pub fn bytes_eq(a: &[u8], b: &[u8]) -> (r: bool)
    ensures
        r == (a@ == b@),
{
    if a.len() != b.len() {
        return false;
    }
    let mut i: usize = 0;
    while i < a.len()
        invariant
            a@.len() == b@.len(),
            i <= a@.len(),
            forall|j: int| 0 <= j < i ==> a@[j] == b@[j],
        decreases a@.len() - i,
    {
        if a[i] != b[i] {
            return false;
        }
        i = i + 1;
    }
    assert(a@ =~= b@);
    true
}

/// A copy of a byte string.
pub fn copy_bytes(a: &[u8]) -> (r: Vec<u8>)
    ensures
        r@ == a@,
{
    let mut out: Vec<u8> = Vec::new();
    let mut i: usize = 0;
    while i < a.len()
        invariant
            i <= a@.len(),
            out@ == a@.subrange(0, i as int),
        decreases a@.len() - i,
    {
        out.push(a[i]);
        assert(out@ =~= a@.subrange(0, i + 1));
        i = i + 1;
    }
    assert(out@ =~= a@);
    out
}

impl PendingOp {
    /// The value a reader should see, or `None` where the key is gone.
    pub fn value(&self) -> (r: Option<&[u8]>)
        ensures
            match r {
                Some(b) => op_value(self@) == Some(b@),
                None => op_value(self@) is None,
            },
    {
        match self {
            PendingOp::Put(bytes) => Some(bytes.as_slice()),
            PendingOp::Delete | PendingOp::Init(_) => None,
        }
    }

    /// Whether this is a write of data rather than a namespace flag.
    pub fn is_data(&self) -> (r: bool)
        ensures
            r == op_is_data(self@),
    {
        match self {
            PendingOp::Put(_) | PendingOp::Delete => true,
            PendingOp::Init(_) => false,
        }
    }

    /// A copy of this write.
    pub fn duplicate(&self) -> (r: PendingOp)
        ensures
            r@ == self@,
    {
        match self {
            PendingOp::Put(b) => PendingOp::Put(copy_bytes(b.as_slice())),
            PendingOp::Delete => PendingOp::Delete,
            PendingOp::Init(s) => PendingOp::Init(*s),
        }
    }

    /// Whether two writes are the same write.
    pub fn same(&self, other: &PendingOp) -> (r: bool)
        ensures
            r == (self@ == other@),
    {
        match (self, other) {
            (PendingOp::Put(a), PendingOp::Put(b)) => bytes_eq(a.as_slice(), b.as_slice()),
            (PendingOp::Delete, PendingOp::Delete) => true,
            (PendingOp::Init(a), PendingOp::Init(b)) => *a == *b,
            _ => false,
        }
    }
}

/// The buffer as key and write, in the order they are held.
pub open spec fn entries_view(s: Seq<(String, PendingOp)>) -> Seq<(Seq<char>, OpView)> {
    Seq::new(s.len(), |i: int| (s[i].0@, s[i].1@))
}

/// The buffer as a map from key to write.
pub open spec fn entries_map(s: Seq<(Seq<char>, OpView)>) -> Map<Seq<char>, OpView>
    decreases s.len(),
{
    if s.len() == 0 {
        Map::empty()
    } else {
        entries_map(s.drop_last()).insert(s.last().0, s.last().1)
    }
}

/// Whether no key is held twice.
pub open spec fn keys_distinct(s: Seq<(Seq<char>, OpView)>) -> bool {
    forall|i: int, j: int| 0 <= i < j < s.len() ==> (#[trigger] s[i]).0 != (#[trigger] s[j]).0
}

/// With every key held once, the map holds exactly the listed keys, each with
/// its listed write.
pub proof fn lemma_entries_map(s: Seq<(Seq<char>, OpView)>)
    requires
        keys_distinct(s),
    ensures
        forall|i: int| 0 <= i < s.len() ==> entries_map(s).contains_key(#[trigger] s[i].0) && entries_map(s)[s[i].0] == s[i].1,
        forall|k: Seq<char>|
            #![trigger entries_map(s).contains_key(k)]
            entries_map(s).contains_key(k) ==> exists|i: int| 0 <= i < s.len() && (#[trigger] s[i]).0 == k,
    decreases s.len(),
{
    if s.len() > 0 {
        let t = s.drop_last();
        assert(keys_distinct(t)) by {
            assert forall|i: int, j: int| 0 <= i < j < t.len() implies (#[trigger] t[i]).0 != (#[trigger] t[j]).0 by {
                assert(t[i] == s[i] && t[j] == s[j]);
            }
        }
        lemma_entries_map(t);
        assert forall|i: int| 0 <= i < s.len() implies entries_map(s).contains_key(#[trigger] s[i].0) && entries_map(s)[s[i].0] == s[i].1 by {
            if i < s.len() - 1 {
                assert(t[i] == s[i]);
                assert(s[i].0 != s.last().0);
            }
        }
        assert forall|k: Seq<char>| #![trigger entries_map(s).contains_key(k)] entries_map(s).contains_key(k) implies exists|i: int| 0 <= i < s.len() && (#[trigger] s[i]).0 == k by {
            if k != s.last().0 {
                assert(entries_map(t).contains_key(k));
                let i = choose|i: int| 0 <= i < t.len() && (#[trigger] t[i]).0 == k;
                assert(s[i] == t[i]);
            } else {
                assert(s[s.len() - 1].0 == k);
            }
        }
    }
}

/// Every write waiting for the next flush, by key.
///
/// Each key is held once: a later write to a key replaces the earlier one.
pub struct Pending {
    entries: Vec<(String, PendingOp)>,
}

impl Pending {
    /// What is buffered, by key.
    pub closed spec fn view(&self) -> Map<Seq<char>, OpView> {
        entries_map(entries_view(self.entries@))
    }

    /// Each key is held once.
    pub closed spec fn wf(&self) -> bool {
        keys_distinct(entries_view(self.entries@))
    }

    /// An empty buffer.
    pub fn new() -> (r: Pending)
        ensures
            r.wf(),
            r@ == Map::<Seq<char>, OpView>::empty(),
    {
        let r = Pending { entries: Vec::new() };
        assert(entries_view(r.entries@) =~= Seq::empty());
        r
    }

    /// How many keys are buffered.
    pub fn len(&self) -> (r: usize)
        requires
            self.wf(),
        ensures
            r == self@.dom().len(),
    {
        proof {
            self.lemma_dom_len();
        }
        self.entries.len()
    }

    /// Whether nothing is buffered.
    pub fn is_empty(&self) -> (r: bool)
        requires
            self.wf(),
        ensures
            r == (self@.dom().len() == 0),
    {
        self.len() == 0
    }

    proof fn lemma_dom_len(&self)
        requires
            self.wf(),
        ensures
            self@.dom().len() == self.entries@.len(),
            self@.dom().finite(),
    {
        lemma_map_len(entries_view(self.entries@));
    }

    /// Where `key` is held, if it is.
    fn position(&self, key: &str) -> (r: Option<usize>)
        requires
            self.wf(),
        ensures
            match r {
                Some(i) => i < self.entries@.len() && self.entries@[i as int].0@ == key@,
                None => !self@.contains_key(key@),
            },
    {
        proof {
            lemma_entries_map(entries_view(self.entries@));
        }
        let mut i: usize = 0;
        while i < self.entries.len()
            invariant
                self.wf(),
                i <= self.entries@.len(),
                forall|j: int| 0 <= j < i ==> (#[trigger] self.entries@[j]).0@ != key@,
            decreases self.entries@.len() - i,
        {
            if crate::path::str_eq(self.entries[i].0.as_str(), key) {
                return Some(i);
            }
            i = i + 1;
        }
        proof {
            if self@.contains_key(key@) {
                let v = entries_view(self.entries@);
                let j = choose|j: int| 0 <= j < v.len() && (#[trigger] v[j]).0 == key@;
                assert(self.entries@[j].0@ == key@);
            }
        }
        None
    }

    /// The write buffered at `key`, if there is one.
    pub fn get(&self, key: &str) -> (r: Option<&PendingOp>)
        requires
            self.wf(),
        ensures
            match r {
                Some(op) => self@.contains_key(key@) && self@[key@] == op@,
                None => !self@.contains_key(key@),
            },
    {
        proof {
            lemma_entries_map(entries_view(self.entries@));
        }
        match self.position(key) {
            Some(i) => {
                proof {
                    assert(entries_view(self.entries@)[i as int].0 == key@);
                }
                Some(&self.entries[i].1)
            },
            None => None,
        }
    }

    /// Whether `key` has a buffered write.
    pub fn contains_key(&self, key: &str) -> (r: bool)
        requires
            self.wf(),
        ensures
            r == self@.contains_key(key@),
    {
        self.get(key).is_some()
    }

    /// Buffers `op` at `key`, replacing whatever was buffered there.
    pub fn insert(&mut self, key: &str, op: PendingOp)
        requires
            old(self).wf(),
        ensures
            final(self).wf(),
            final(self)@ == old(self)@.insert(key@, op@),
    {
        let ghost before = entries_view(self.entries@);
        proof {
            lemma_entries_map(before);
        }
        match self.position(key) {
            Some(i) => {
                let _gone = self.entries.remove(i);
                self.entries.push((key.to_owned(), op));
                proof {
                    let after = entries_view(self.entries@);
                    let mid = before.remove(i as int);
                    assert(before[i as int].0 == key@);
                    assert(after =~= mid.push((key@, op@)));
                    assert(keys_distinct(after)) by {
                        assert forall|x: int, y: int| 0 <= x < y < after.len() implies (#[trigger] after[x]).0 != (#[trigger] after[y]).0 by {
                            if y == after.len() - 1 {
                                let xx = if x < i { x } else { x + 1 };
                                assert(after[x] == before[xx]);
                                assert(xx != i);
                                if xx < i {
                                    assert(before[xx].0 != before[i as int].0);
                                } else {
                                    assert(before[i as int].0 != before[xx].0);
                                }
                            } else {
                                let xx = if x < i { x } else { x + 1 };
                                let yy = if y < i { y } else { y + 1 };
                                assert(after[x] == before[xx]);
                                assert(after[y] == before[yy]);
                            }
                        }
                    }
                    lemma_entries_map(after);
                    lemma_entries_map(mid);
                    assert(self@ =~= old(self)@.insert(key@, op@)) by {
                        assert forall|k: Seq<char>| #![trigger self@.contains_key(k)] self@.contains_key(k) <==> old(self)@.insert(key@, op@).contains_key(k) by {
                            if k != key@ && old(self)@.contains_key(k) {
                                let j = choose|j: int| 0 <= j < before.len() && (#[trigger] before[j]).0 == k;
                                let jj = if j < i { j } else { j - 1 };
                                assert(after[jj] == before[j]);
                            }
                            if self@.contains_key(k) && k != key@ {
                                let j = choose|j: int| 0 <= j < after.len() && (#[trigger] after[j]).0 == k;
                                let jj = if j < i { j } else { j + 1 };
                                assert(after[j] == before[jj]);
                            }
                        }
                        assert forall|k: Seq<char>| self@.contains_key(k) implies #[trigger] self@[k] == old(self)@.insert(key@, op@)[k] by {
                            if k != key@ {
                                let j = choose|j: int| 0 <= j < after.len() && (#[trigger] after[j]).0 == k;
                                let jj = if j < i { j } else { j + 1 };
                                assert(after[j] == before[jj]);
                            }
                        }
                    }
                }
            },
            None => {
                self.entries.push((key.to_owned(), op));
                proof {
                    let after = entries_view(self.entries@);
                    assert(after =~= before.push((key@, op@)));
                    assert(after.drop_last() =~= before);
                    assert(keys_distinct(after)) by {
                        assert forall|x: int, y: int| 0 <= x < y < after.len() implies (#[trigger] after[x]).0 != (#[trigger] after[y]).0 by {
                            if y == after.len() - 1 {
                                assert(after[x] == before[x]);
                                assert(old(self)@.contains_key(before[x].0));
                            } else {
                                assert(after[x] == before[x]);
                                assert(after[y] == before[y]);
                            }
                        }
                    }
                }
            },
        }
    }

    /// Drops whatever is buffered at `key`.
    pub fn remove(&mut self, key: &str)
        requires
            old(self).wf(),
        ensures
            final(self).wf(),
            final(self)@ == old(self)@.remove(key@),
    {
        let ghost before = entries_view(self.entries@);
        proof {
            lemma_entries_map(before);
        }
        match self.position(key) {
            Some(i) => {
                let _gone = self.entries.remove(i);
                proof {
                    let after = entries_view(self.entries@);
                    assert(before[i as int].0 == key@);
                    assert(after =~= before.remove(i as int));
                    assert(keys_distinct(after)) by {
                        assert forall|x: int, y: int| 0 <= x < y < after.len() implies (#[trigger] after[x]).0 != (#[trigger] after[y]).0 by {
                            let xx = if x < i { x } else { x + 1 };
                            let yy = if y < i { y } else { y + 1 };
                            assert(after[x] == before[xx]);
                            assert(after[y] == before[yy]);
                        }
                    }
                    lemma_entries_map(after);
                    assert(self@ =~= old(self)@.remove(key@)) by {
                        assert forall|k: Seq<char>| #![trigger self@.contains_key(k)] self@.contains_key(k) <==> old(self)@.remove(key@).contains_key(k) by {
                            if k != key@ && old(self)@.contains_key(k) {
                                let j = choose|j: int| 0 <= j < before.len() && (#[trigger] before[j]).0 == k;
                                assert(j != i);
                                let jj = if j < i { j } else { j - 1 };
                                assert(after[jj] == before[j]);
                                assert(self@.contains_key(after[jj].0));
                            }
                            if self@.contains_key(k) {
                                let j = choose|j: int| 0 <= j < after.len() && (#[trigger] after[j]).0 == k;
                                let jj = if j < i { j } else { j + 1 };
                                assert(after[j] == before[jj]);
                                assert(jj != i);
                                assert(old(self)@.contains_key(before[jj].0));
                                if jj < i {
                                    assert(before[jj].0 != before[i as int].0);
                                } else {
                                    assert(before[i as int].0 != before[jj].0);
                                }
                            }
                        }
                        assert forall|k: Seq<char>| self@.contains_key(k) implies #[trigger] self@[k] == old(self)@.remove(key@)[k] by {
                            let j = choose|j: int| 0 <= j < after.len() && (#[trigger] after[j]).0 == k;
                            let jj = if j < i { j } else { j + 1 };
                            assert(after[j] == before[jj]);
                        }
                    }
                }
            },
            None => {
                assert(old(self)@.remove(key@) =~= old(self)@);
            },
        }
    }

    /// The key and write at position `i`, for a caller walking the buffer.
    pub fn entry(&self, i: usize) -> (r: (&String, &PendingOp))
        requires
            self.wf(),
            i < self@.dom().len(),
        ensures
            self@.contains_key(r.0@),
            self@[r.0@] == r.1@,
    {
        proof {
            self.lemma_dom_len();
            lemma_entries_map(entries_view(self.entries@));
            assert(entries_view(self.entries@)[i as int] == (self.entries@[i as int].0@, self.entries@[i as int].1@));
        }
        (&self.entries[i].0, &self.entries[i].1)
    }
}

impl Pending {
    /// Every buffered key, once each, in the order they are held.
    pub fn keys(&self) -> (r: Vec<String>)
        requires
            self.wf(),
        ensures
            forall|k: Seq<char>|
                #![trigger self@.contains_key(k)]
                self@.contains_key(k) <==> crate::path::strings_view(r@).contains(k),
            crate::path::strings_view(r@).no_duplicates(),
    {
        let ghost ev = entries_view(self.entries@);
        proof {
            lemma_entries_map(ev);
        }
        let mut out: Vec<String> = Vec::new();
        let mut i: usize = 0;
        while i < self.entries.len()
            invariant
                self.wf(),
                ev == entries_view(self.entries@),
                i <= self.entries@.len(),
                out@.len() == i,
                forall|j: int| 0 <= j < i ==> (#[trigger] out@[j])@ == ev[j].0,
            decreases self.entries@.len() - i,
        {
            out.push(self.entries[i].0.clone());
            i = i + 1;
        }
        proof {
            let sv = crate::path::strings_view(out@);
            assert forall|a: int, b: int| 0 <= a < sv.len() && 0 <= b < sv.len() && a != b implies sv[a]
                != sv[b] by {
                assert(sv[a] == ev[a].0 && sv[b] == ev[b].0);
                if a < b {
                    assert(ev[a].0 != ev[b].0);
                } else {
                    assert(ev[b].0 != ev[a].0);
                }
            }
            assert forall|k: Seq<char>| #![trigger self@.contains_key(k)] self@.contains_key(k)
                <==> sv.contains(k) by {
                if self@.contains_key(k) {
                    let j = choose|j: int| 0 <= j < ev.len() && (#[trigger] ev[j]).0 == k;
                    assert(sv[j] == k);
                }
                if sv.contains(k) {
                    let j = choose|j: int| 0 <= j < sv.len() && sv[j] == k;
                    assert(ev[j].0 == k);
                }
            }
        }
        out
    }
}

/// A map built from distinct keys has as many keys as entries.
proof fn lemma_map_len(s: Seq<(Seq<char>, OpView)>)
    requires
        keys_distinct(s),
    ensures
        entries_map(s).dom().len() == s.len(),
        entries_map(s).dom().finite(),
    decreases s.len(),
{
    if s.len() > 0 {
        let t = s.drop_last();
        assert(keys_distinct(t)) by {
            assert forall|i: int, j: int| 0 <= i < j < t.len() implies (#[trigger] t[i]).0 != (#[trigger] t[j]).0 by {
                assert(t[i] == s[i] && t[j] == s[j]);
            }
        }
        lemma_map_len(t);
        lemma_entries_map(t);
        assert(!entries_map(t).contains_key(s.last().0)) by {
            if entries_map(t).contains_key(s.last().0) {
                let i = choose|i: int| 0 <= i < t.len() && (#[trigger] t[i]).0 == s.last().0;
                assert(s[i] == t[i]);
            }
        }
    } else {
        assert(entries_map(s).dom() =~= Set::empty());
    }
}

/// Whether `k` begins with `p`.
pub open spec fn starts_with(k: Seq<char>, p: Seq<char>) -> bool {
    p.len() <= k.len() && k.subrange(0, p.len() as int) == p
}

/// Whether key `k` is under `prefix`: the whole buffer for an empty prefix,
/// otherwise the prefix itself or anything below it - a string prefix alone is
/// not enough, since `ab` is not under `a`.
pub open spec fn under_prefix(k: Seq<char>, prefix: Seq<char>) -> bool {
    prefix.len() == 0 || k == prefix || starts_with(k, prefix.push(SEPARATOR))
}

/// What is buffered under `prefix`.
pub open spec fn taken_under(m: Map<Seq<char>, OpView>, prefix: Seq<char>) -> Map<Seq<char>, OpView> {
    Map::new(|k: Seq<char>| m.contains_key(k) && under_prefix(k, prefix), |k: Seq<char>| m[k])
}

/// The buffer once `committed` has landed: a key goes exactly when what is
/// buffered there is still what was committed.
pub open spec fn cleared_of(m: Map<Seq<char>, OpView>, committed: Map<Seq<char>, OpView>) -> Map<
    Seq<char>,
    OpView,
> {
    Map::new(
        |k: Seq<char>| m.contains_key(k) && !(committed.contains_key(k) && committed[k] == m[k]),
        |k: Seq<char>| m[k],
    )
}

/// What a reader learns from the buffer about `k`: `None` when the engine has
/// to be asked, otherwise the value a buffered write left there, or that a
/// buffered delete left nothing.
pub open spec fn visible(m: Map<Seq<char>, OpView>, k: Seq<char>) -> Option<Option<Seq<u8>>> {
    if m.contains_key(k) && op_is_data(m[k]) {
        Some(op_value(m[k]))
    } else {
        None
    }
}

/// Whether `key` is `prefix` followed by anything.
pub fn str_starts_with(key: &str, prefix: &str) -> (r: bool)
    ensures
        r == starts_with(key@, prefix@),
{
    let lk = key.unicode_len();
    let lp = prefix.unicode_len();
    if lp > lk {
        return false;
    }
    let mut i: usize = 0;
    while i < lp
        invariant
            lk == key@.len(),
            lp == prefix@.len(),
            lp <= lk,
            i <= lp,
            forall|j: int| 0 <= j < i ==> key@[j] == prefix@[j],
        decreases lp - i,
    {
        if key.get_char(i) != prefix.get_char(i) {
            return false;
        }
        i = i + 1;
    }
    assert(key@.subrange(0, lp as int) =~= prefix@);
    true
}

/// Whether `key` is under `prefix`.
pub fn key_is_under(key: &str, prefix: &str) -> (r: bool)
    ensures
        r == under_prefix(key@, prefix@),
{
    let lp = prefix.unicode_len();
    if lp == 0 {
        return true;
    }
    if crate::path::str_eq(key, prefix) {
        return true;
    }
    let lk = key.unicode_len();
    if lk <= lp {
        return false;
    }
    let head = str_starts_with(key, prefix);
    let c = key.get_char(lp);
    let dot = c == SEPARATOR;
    proof {
        let pd = prefix@.push(SEPARATOR);
        assert(pd.len() == lp + 1);
        if head && dot {
            assert forall|j: int| 0 <= j < pd.len() implies key@.subrange(0, pd.len() as int)[j] == pd[j] by {
                if j < lp {
                    assert(key@.subrange(0, lp as int)[j] == prefix@[j]);
                }
            }
            assert(key@.subrange(0, pd.len() as int) =~= pd);
        }
        if starts_with(key@, pd) {
            assert(key@[lp as int] == key@.subrange(0, pd.len() as int)[lp as int]);
            assert(key@.subrange(0, lp as int) =~= prefix@) by {
                assert forall|j: int| 0 <= j < lp implies key@.subrange(0, lp as int)[j] == prefix@[j] by {
                    assert(key@.subrange(0, pd.len() as int)[j] == pd[j]);
                }
            }
        }
    }
    head && dot
}

/// Everything buffered under `prefix`, left in place.
///
/// The buffer is only cleared once the write has actually landed, by
/// [`clear_committed`]: taking entries out first meant any error below lost
/// them, from memory and disk both.
pub fn pending_prefix(pending: &Pending, prefix: &str) -> (r: Pending)
    requires
        pending.wf(),
    ensures
        r.wf(),
        r@ == taken_under(pending@, prefix@),
{
    let ghost ev = entries_view(pending.entries@);
    proof {
        lemma_entries_map(ev);
    }
    let mut out = Pending::new();
    let mut i: usize = 0;
    while i < pending.entries.len()
        invariant
            pending.wf(),
            out.wf(),
            ev == entries_view(pending.entries@),
            i <= pending.entries@.len(),
            forall|k: Seq<char>|
                #![trigger out@.contains_key(k)]
                out@.contains_key(k) ==> pending@.contains_key(k) && under_prefix(k, prefix@)
                    && out@[k] == pending@[k],
            forall|j: int|
                0 <= j < i && under_prefix((#[trigger] ev[j]).0, prefix@) ==> out@.contains_key(
                    ev[j].0,
                ),
        decreases pending.entries@.len() - i,
    {
        proof {
            lemma_entries_map(ev);
        }
        let key = &pending.entries[i].0;
        if key_is_under(key.as_str(), prefix) {
            let op = pending.entries[i].1.duplicate();
            proof {
                assert(ev[i as int] == (key@, pending.entries@[i as int].1@));
                assert(pending@.contains_key(ev[i as int].0));
                assert(pending@[key@] == op@);
            }
            out.insert(key.as_str(), op);
        }
        i = i + 1;
    }
    proof {
        assert(out@ =~= taken_under(pending@, prefix@)) by {
            assert forall|k: Seq<char>| #![trigger out@.contains_key(k)] out@.contains_key(k) <==> taken_under(pending@, prefix@).contains_key(k) by {
                if pending@.contains_key(k) && under_prefix(k, prefix@) {
                    let j = choose|j: int| 0 <= j < ev.len() && (#[trigger] ev[j]).0 == k;
                }
            }
        }
    }
    out
}

/// Drops from the buffer exactly what was committed.
///
/// A key whose buffered value has changed since is a write that landed while
/// the commit was in flight; it is not on disk, so it stays for the next one.
pub fn clear_committed(pending: &mut Pending, committed: &Pending)
    requires
        old(pending).wf(),
        committed.wf(),
    ensures
        final(pending).wf(),
        final(pending)@ == cleared_of(old(pending)@, committed@),
{
    let ghost start = pending@;
    let ghost cv = entries_view(committed.entries@);
    proof {
        lemma_entries_map(cv);
    }
    let mut c: usize = 0;
    while c < committed.entries.len()
        invariant
            pending.wf(),
            committed.wf(),
            cv == entries_view(committed.entries@),
            c <= committed.entries@.len(),
            forall|k: Seq<char>|
                #![trigger pending@.contains_key(k)]
                pending@.contains_key(k) <==> (start.contains_key(k) && !(exists|j: int|
                    0 <= j < c && (#[trigger] cv[j]).0 == k && cv[j].1 == start[k])),
            forall|k: Seq<char>| pending@.contains_key(k) ==> #[trigger] pending@[k] == start[k],
        decreases committed.entries@.len() - c,
    {
        let key = &committed.entries[c].0;
        let value = &committed.entries[c].1;
        let ghost before = pending@;
        let hit = match pending.get(key.as_str()) {
            Some(op) => op.same(value),
            None => false,
        };
        proof {
            assert(cv[c as int] == (key@, value@));
        }
        if hit {
            pending.remove(key.as_str());
        }
        proof {
            assert forall|k: Seq<char>| #![trigger pending@.contains_key(k)] pending@.contains_key(k) <==> (start.contains_key(k) && !(exists|j: int| 0 <= j < c + 1 && (#[trigger] cv[j]).0 == k && cv[j].1 == start[k])) by {
                if k != key@ {
                    if exists|j: int| 0 <= j < c + 1 && (#[trigger] cv[j]).0 == k && cv[j].1 == start[k] {
                        let j = choose|j: int| 0 <= j < c + 1 && (#[trigger] cv[j]).0 == k && cv[j].1 == start[k];
                        assert(j < c);
                    }
                } else {
                    if exists|j: int| 0 <= j < c && (#[trigger] cv[j]).0 == k && cv[j].1 == start[k] {
                        let j = choose|j: int| 0 <= j < c && (#[trigger] cv[j]).0 == k && cv[j].1 == start[k];
                        assert(cv[j].0 != cv[c as int].0);
                    }
                }
            }
        }
        c = c + 1;
    }
    proof {
        assert(pending@ =~= cleared_of(start, committed@)) by {
            assert forall|k: Seq<char>| #![trigger pending@.contains_key(k)] pending@.contains_key(k) <==> cleared_of(start, committed@).contains_key(k) by {
                if exists|j: int| 0 <= j < c && (#[trigger] cv[j]).0 == k && cv[j].1 == start[k] {
                    let j = choose|j: int| 0 <= j < c && (#[trigger] cv[j]).0 == k && cv[j].1 == start[k];
                    assert(committed@.contains_key(cv[j].0));
                }
                if committed@.contains_key(k) && start.contains_key(k) && committed@[k] == start[k] {
                    let j = choose|j: int| 0 <= j < cv.len() && (#[trigger] cv[j]).0 == k;
                    assert(committed@[cv[j].0] == cv[j].1);
                }
            }
        }
    }
}

impl Pending {
    /// Buffers a write of `value` at `key`, and says what a reader saw there
    /// in the buffer before it: the old value for a subscriber.
    pub fn stage_write(&mut self, key: &str, value: &[u8]) -> (r: Option<Vec<u8>>)
        requires
            old(self).wf(),
        ensures
            final(self).wf(),
            final(self)@ == old(self)@.insert(key@, OpView::Put(value@)),
            match r {
                Some(b) => old(self)@.contains_key(key@) && op_value(old(self)@[key@]) == Some(b@),
                None => !old(self)@.contains_key(key@) || op_value(old(self)@[key@]) is None,
            },
    {
        let previous = match self.get(key) {
            Some(op) => match op.value() {
                Some(bytes) => Some(copy_bytes(bytes)),
                None => None,
            },
            None => None,
        };
        self.insert(key, PendingOp::Put(copy_bytes(value)));
        previous
    }

    /// Buffers the removal of `key`.
    pub fn stage_delete(&mut self, key: &str)
        requires
            old(self).wf(),
        ensures
            final(self).wf(),
            final(self)@ == old(self)@.insert(key@, OpView::Delete),
    {
        self.insert(key, PendingOp::Delete);
    }

    /// Buffers the removal of every key listed, as removing a subtree does
    /// with the keys a scan of it found.
    pub fn stage_deletes(&mut self, keys: &Vec<String>)
        requires
            old(self).wf(),
        ensures
            final(self).wf(),
            forall|k: Seq<char>| #[trigger] final(self)@.contains_key(k) <==> old(self)@.contains_key(k)
                || strings_view(keys@).contains(k),
            forall|k: Seq<char>| strings_view(keys@).contains(k) ==> #[trigger] final(self)@[k] == OpView::Delete,
            forall|k: Seq<char>| !strings_view(keys@).contains(k) && old(self)@.contains_key(k)
                ==> #[trigger] final(self)@[k] == old(self)@[k],
    {
        let ghost start = self@;
        let mut i: usize = 0;
        while i < keys.len()
            invariant
                self.wf(),
                i <= keys@.len(),
                forall|k: Seq<char>| #[trigger] self@.contains_key(k) <==> start.contains_key(k)
                    || strings_view(keys@.take(i as int)).contains(k),
                forall|k: Seq<char>| strings_view(keys@.take(i as int)).contains(k) ==> #[trigger] self@[k] == OpView::Delete,
                forall|k: Seq<char>| !strings_view(keys@.take(i as int)).contains(k) && start.contains_key(k)
                    ==> #[trigger] self@[k] == start[k],
            decreases keys@.len() - i,
        {
            self.stage_delete(keys[i].as_str());
            proof {
                let before = strings_view(keys@.take(i as int));
                let after = strings_view(keys@.take(i + 1));
                assert(after =~= before.push(keys@[i as int]@));
                assert forall|k: Seq<char>| after.contains(k) <==> before.contains(k) || k == keys@[i as int]@ by {
                    if after.contains(k) {
                        let j = choose|j: int| 0 <= j < after.len() && after[j] == k;
                        if j < before.len() {
                            assert(before[j] == k);
                        }
                    }
                    if before.contains(k) {
                        let j = choose|j: int| 0 <= j < before.len() && before[j] == k;
                        assert(after[j] == k);
                    }
                    if k == keys@[i as int]@ {
                        assert(after[i as int] == k);
                    }
                }
            }
            i = i + 1;
        }
        proof {
            assert(keys@.take(i as int) =~= keys@);
        }
    }

    /// Buffers a namespace flag, set or cleared.
    pub fn stage_init(&mut self, namespace: &str, seeded: bool)
        requires
            old(self).wf(),
        ensures
            final(self).wf(),
            final(self)@ == old(self)@.insert(namespace@, OpView::Init(seeded)),
    {
        self.insert(namespace, PendingOp::Init(seeded));
    }

    /// What the buffer says about `key`: `None` when the engine has to be
    /// asked, otherwise what a buffered write or delete left there. The buffer
    /// wins where it has the key, since it holds the newer value.
    pub fn buffered_data(&self, key: &str) -> (r: Option<Option<&[u8]>>)
        requires
            self.wf(),
        ensures
            match r {
                None => visible(self@, key@) is None,
                Some(None) => visible(self@, key@) == Some(None::<Seq<u8>>),
                Some(Some(b)) => visible(self@, key@) == Some(Some(b@)),
            },
    {
        match self.get(key) {
            Some(op) => {
                if op.is_data() {
                    Some(op.value())
                } else {
                    None
                }
            },
            None => None,
        }
    }
}

/// A read gives back what a write wrote: once a value is buffered at a key, a
/// reader sees that value there, a buffered delete leaves nothing, and every
/// other key reads as it did.
pub proof fn law_a_read_sees_the_buffered_write(
    m: Map<Seq<char>, OpView>,
    k: Seq<char>,
    v: Seq<u8>,
    other: Seq<char>,
)
    requires
        other != k,
    ensures
        visible(m.insert(k, OpView::Put(v)), k) == Some(Some(v)),
        visible(m.insert(k, OpView::Delete), k) == Some(None::<Seq<u8>>),
        visible(m.insert(k, OpView::Put(v)), other) == visible(m, other),
        visible(m.insert(k, OpView::Delete), other) == visible(m, other),
{
}

/// Committing what was collected under a prefix and then clearing it leaves
/// nothing under the prefix and everything outside it as it was - unless a
/// newer write arrived at a key in the meantime, which stays buffered.
pub proof fn law_clearing_what_was_collected(m: Map<Seq<char>, OpView>, prefix: Seq<char>)
    ensures
        forall|k: Seq<char>|
            #![trigger cleared_of(m, taken_under(m, prefix)).contains_key(k)]
            cleared_of(m, taken_under(m, prefix)).contains_key(k) <==> (m.contains_key(k)
                && !under_prefix(k, prefix)),
{
}

/// A write that lands while a commit is in flight survives the clearing of
/// what that commit took: it is not on disk yet.
pub proof fn law_a_newer_write_survives(
    committed: Map<Seq<char>, OpView>,
    m: Map<Seq<char>, OpView>,
    k: Seq<char>,
    op: OpView,
)
    requires
        committed.contains_key(k) ==> committed[k] != op,
    ensures
        cleared_of(m.insert(k, op), committed).contains_key(k),
        cleared_of(m.insert(k, op), committed)[k] == op,
{
}

} // verus!
