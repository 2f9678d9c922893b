//! What a flat engine answers for a read or a scan: what it has committed,
//! with what is still buffered laid over it.
//!
//! A flat engine keeps each path as one key, spelled out whole. A scan reads
//! the committed keys from the prefix on, in key order, stopping at the first
//! key that no longer starts with the prefix's spelling; then the buffer
//! is laid over it, a buffered write replacing what was committed and a
//! buffered delete taking it away. The answer is in path order.
use crate::buffer::{OpView, Pending, op_is_data, op_value, starts_with, visible};
use crate::errors::StorageError;
use crate::path::{
    SEPARATOR, StorePath, joined, lemma_joined_split, lemma_path_lt_irreflexive,
    lemma_path_lt_total, lemma_path_lt_transitive, path_lt, split_levels, strings_view,
};
use crate::scan::{is_under, stored_path, subtree_bound};
use vstd::prelude::*;

verus! {

/// Whether stored key `k` is under `prefix`: everything is under the root,
/// otherwise the prefix's own key or anything past it and a separator.
pub open spec fn under_key(k: Seq<char>, prefix: Seq<Seq<char>>) -> bool {
    prefix.len() == 0 || k == joined(prefix) || starts_with(k, joined(prefix).push(SEPARATOR))
}

/// The path a stored key reads back as: the root for the empty key,
/// otherwise its pieces between separators.
pub open spec fn key_path(k: Seq<char>) -> Seq<Seq<char>> {
    if k.len() == 0 {
        Seq::empty()
    } else {
        split_levels(k)
    }
}

/// Whether a stored key reads back as a path: no piece of it is empty.
pub open spec fn key_ok(k: Seq<char>) -> bool {
    k.len() == 0 || forall|i: int|
        0 <= i < split_levels(k).len() ==> (#[trigger] split_levels(k)[i]).len() > 0
}

/// The committed entries a scan keeps from what it read: those under the
/// prefix, a later entry for a key replacing an earlier one.
pub open spec fn committed_map(entries: Seq<(Seq<char>, Seq<u8>)>, prefix: Seq<Seq<char>>) -> Map<
    Seq<char>,
    Seq<u8>,
>
    decreases entries.len(),
{
    if entries.len() == 0 {
        Map::empty()
    } else {
        let m = committed_map(entries.drop_last(), prefix);
        if under_key(entries.last().0, prefix) {
            m.insert(entries.last().0, entries.last().1)
        } else {
            m
        }
    }
}

/// Whether the buffer has a data write under `prefix` at `k`.
pub open spec fn buffered_under(
    pend: Map<Seq<char>, OpView>,
    k: Seq<char>,
    prefix: Seq<Seq<char>>,
) -> bool {
    pend.contains_key(k) && op_is_data(pend[k]) && under_key(k, prefix)
}

/// `m` with the buffer laid over it under `prefix`.
pub open spec fn overlaid(
    m: Map<Seq<char>, Seq<u8>>,
    pend: Map<Seq<char>, OpView>,
    prefix: Seq<Seq<char>>,
) -> Map<Seq<char>, Seq<u8>> {
    Map::new(
        |k: Seq<char>|
            if buffered_under(pend, k, prefix) {
                op_value(pend[k]) is Some
            } else {
                m.contains_key(k)
            },
        |k: Seq<char>|
            if buffered_under(pend, k, prefix) {
                op_value(pend[k]).unwrap()
            } else {
                m[k]
            },
    )
}

/// A map keyed by stored key, keyed by path instead.
pub open spec fn by_path(m: Map<Seq<char>, Seq<u8>>) -> Map<Seq<Seq<char>>, Seq<u8>> {
    Map::new(
        |p: Seq<Seq<char>>| m.contains_key(joined(p)) && key_path(joined(p)) == p,
        |p: Seq<Seq<char>>| m[joined(p)],
    )
}

/// What a scan of `prefix` finds: the committed entries it kept, with the
/// buffer laid over them, keyed by stored key.
pub open spec fn scan_result(
    committed: Seq<(Seq<char>, Seq<u8>)>,
    pend: Map<Seq<char>, OpView>,
    prefix: Seq<Seq<char>>,
) -> Map<Seq<char>, Seq<u8>> {
    overlaid(committed_map(committed, prefix), pend, prefix)
}

/// Whether some key a scan of `prefix` has to read back as a path does not
/// read as one.
pub open spec fn scan_fails(
    committed: Seq<(Seq<char>, Seq<u8>)>,
    pend: Map<Seq<char>, OpView>,
    prefix: Seq<Seq<char>>,
) -> bool {
    (exists|i: int|
        0 <= i < committed.len() && under_key(#[trigger] committed[i].0, prefix) && !key_ok(
            committed[i].0,
        )) || (exists|k: Seq<char>| #[trigger] buffered_under(pend, k, prefix) && !key_ok(k))
}

/// The committed entries, as key and bytes.
pub open spec fn entries_of(v: Seq<(String, Vec<u8>)>) -> Seq<(Seq<char>, Seq<u8>)> {
    Seq::new(v.len(), |i: int| (v[i].0@, v[i].1@))
}

/// What a list of distinct paths and values holds, by path.
pub open spec fn listed(v: Seq<(StorePath, Vec<u8>)>) -> Map<Seq<Seq<char>>, Seq<u8>> {
    Map::new(
        |p: Seq<Seq<char>>| exists|i: int| 0 <= i < v.len() && #[trigger] v[i].0@ == p,
        |p: Seq<Seq<char>>|
            v[choose|i: int| 0 <= i < v.len() && #[trigger] v[i].0@ == p].1@,
    )
}

/// Whether paths are in strictly increasing order.
pub open spec fn paths_sorted(s: Seq<Seq<Seq<char>>>) -> bool {
    forall|i: int, j: int| 0 <= i < j < s.len() ==> path_lt(#[trigger] s[i], #[trigger] s[j])
}

/// The key a path reads back from is the key it was read from.
pub proof fn lemma_key_path_inverse(k: Seq<char>)
    ensures
        joined(key_path(k)) == k,
{
    if k.len() > 0 {
        lemma_joined_split(k);
    }
}

/// A map in path order, as the sorted entries it keeps.
struct PathMap {
    entries: Vec<(StorePath, Vec<u8>)>,
}

/// The entries' paths.
pub open spec fn entry_paths(s: Seq<(StorePath, Vec<u8>)>) -> Seq<Seq<Seq<char>>> {
    Seq::new(s.len(), |i: int| s[i].0@)
}

impl PathMap {
    spec fn wf(&self) -> bool {
        paths_sorted(entry_paths(self.entries@))
    }

    spec fn view(&self) -> Map<Seq<Seq<char>>, Seq<u8>> {
        Map::new(
            |p: Seq<Seq<char>>| exists|i: int| 0 <= i < self.entries@.len() && #[trigger] self.entries@[i].0@ == p,
            |p: Seq<Seq<char>>| self.entries@[self.index_of(p)].1@,
        )
    }

    spec fn index_of(&self, p: Seq<Seq<char>>) -> int {
        choose|i: int| 0 <= i < self.entries@.len() && #[trigger] self.entries@[i].0@ == p
    }

    fn into_entries(self) -> (r: Vec<(StorePath, Vec<u8>)>)
        requires
            self.wf(),
        ensures
            paths_sorted(entry_paths(r@)),
            listed(r@) == self.view(),
    {
        let r = self.entries;
        proof {
            assert forall|p: Seq<Seq<char>>| #[trigger] listed(r@).contains_key(p) implies listed(r@)[p]
                == self.view()[p] by {
                let i = choose|i: int| 0 <= i < r@.len() && #[trigger] r@[i].0@ == p;
                self.lemma_at(i);
            }
            assert(listed(r@) =~= self.view());
        }
        r
    }

    fn new() -> (r: Self)
        ensures
            r.wf(),
            r.view() == Map::<Seq<Seq<char>>, Seq<u8>>::empty(),
    {
        let r = PathMap { entries: Vec::new() };
        assert(r.view() =~= Map::<Seq<Seq<char>>, Seq<u8>>::empty());
        r
    }

    /// Where `path` is, or where it would go.
    fn find(&self, path: &StorePath) -> (r: Result<usize, usize>)
        requires
            self.wf(),
        ensures
            match r {
                Ok(i) => i < self.entries@.len() && self.entries@[i as int].0@ == path@,
                Err(at) => at <= self.entries@.len() && (forall|i: int|
                    0 <= i < at ==> path_lt(#[trigger] self.entries@[i].0@, path@)) && (forall|
                    i: int,
                |
                    at <= i < self.entries@.len() ==> path_lt(
                        path@,
                        #[trigger] self.entries@[i].0@,
                    )),
            },
    {
        let ghost s = entry_paths(self.entries@);
        let mut lo: usize = 0;
        let mut hi: usize = self.entries.len();
        while lo < hi
            invariant
                self.wf(),
                s == entry_paths(self.entries@),
                hi <= self.entries@.len(),
                lo <= hi,
                forall|i: int| 0 <= i < lo ==> path_lt(#[trigger] self.entries@[i].0@, path@),
                forall|i: int|
                    hi <= i < self.entries@.len() ==> path_lt(
                        path@,
                        #[trigger] self.entries@[i].0@,
                    ),
            decreases hi - lo,
        {
            let mid = lo + (hi - lo) / 2;
            let here = &self.entries[mid].0;
            assert(s[mid as int] == here@);
            if here.same(path) {
                return Ok(mid);
            }
            if here.sorts_before(path) {
                proof {
                    assert forall|i: int| 0 <= i < mid + 1 implies path_lt(
                        #[trigger] self.entries@[i].0@,
                        path@,
                    ) by {
                        if i < mid {
                            assert(s[i] == self.entries@[i].0@);
                            lemma_path_lt_transitive(s[i], s[mid as int], path@);
                        }
                    }
                }
                lo = mid + 1;
            } else {
                proof {
                    lemma_path_lt_total(here@, path@);
                    assert forall|i: int| mid <= i < self.entries@.len() implies path_lt(
                        path@,
                        #[trigger] self.entries@[i].0@,
                    ) by {
                        if i > mid {
                            assert(s[i] == self.entries@[i].0@);
                            lemma_path_lt_transitive(path@, s[mid as int], s[i]);
                        }
                    }
                }
                hi = mid;
            }
        }
        Err(lo)
    }

    /// In a sorted map each path is held once, at one place.
    proof fn lemma_unique(&self, i: int, j: int)
        requires
            self.wf(),
            0 <= i < self.entries@.len(),
            0 <= j < self.entries@.len(),
            self.entries@[i].0@ == self.entries@[j].0@,
        ensures
            i == j,
    {
        let s = entry_paths(self.entries@);
        assert(s[i] == self.entries@[i].0@ && s[j] == self.entries@[j].0@);
        if i < j {
            lemma_path_lt_irreflexive(s[i]);
        } else if j < i {
            lemma_path_lt_irreflexive(s[i]);
        }
    }

    /// The value at entry `i` is what the map holds at its path.
    proof fn lemma_at(&self, i: int)
        requires
            self.wf(),
            0 <= i < self.entries@.len(),
        ensures
            self.view().contains_key(self.entries@[i].0@),
            self.view()[self.entries@[i].0@] == self.entries@[i].1@,
    {
        let p = self.entries@[i].0@;
        assert(exists|j: int| 0 <= j < self.entries@.len() && #[trigger] self.entries@[j].0@ == p);
        let j = self.index_of(p);
        self.lemma_unique(i, j);
    }

    fn insert(&mut self, path: StorePath, value: Vec<u8>)
        requires
            old(self).wf(),
        ensures
            final(self).wf(),
            final(self).view() == old(self).view().insert(path@, value@),
    {
        let ghost old_entries = self.entries@;
        let ghost p = path@;
        let ghost v = value@;
        match self.find(&path) {
            Ok(i) => {
                self.entries.set(i, (path, value));
                proof {
                    assert(entry_paths(self.entries@) =~= entry_paths(old_entries));
                    assert forall|q: Seq<Seq<char>>| #![trigger self.view().contains_key(q)]
                        self.view().contains_key(q) == old(self).view().insert(p, v).contains_key(q)
                        by {
                        if q != p && old(self).view().contains_key(q) {
                            let j = choose|j: int| 0 <= j < old_entries.len() && #[trigger] old_entries[j].0@ == q;
                            assert(self.entries@[j] == old_entries[j]);
                        }
                        if q == p {
                            assert(self.entries@[i as int].0@ == p);
                        }
                    }
                    assert forall|q: Seq<Seq<char>>| #[trigger] self.view().contains_key(q) implies self.view()[q]
                        == old(self).view().insert(p, v)[q] by {
                        let j = choose|j: int| 0 <= j < self.entries@.len() && #[trigger] self.entries@[j].0@ == q;
                        self.lemma_at(j);
                        if q != p {
                            assert(j != i);
                            assert(self.entries@[j] == old_entries[j]);
                            old(self).lemma_at(j);
                        } else {
                            self.lemma_unique(i as int, j);
                        }
                    }
                    assert(self.view() =~= old(self).view().insert(p, v));
                }
            },
            Err(at) => {
                self.entries.insert(at, (path, value));
                proof {
                    let s = entry_paths(self.entries@);
                    assert forall|a: int, b: int| 0 <= a < b < s.len() implies path_lt(
                        #[trigger] s[a],
                        #[trigger] s[b],
                    ) by {
                        let os = entry_paths(old_entries);
                        if b < at {
                            assert(s[a] == os[a] && s[b] == os[b]);
                        } else if b == at {
                            assert(s[a] == old_entries[a].0@);
                        } else if a == at {
                            assert(s[b] == old_entries[b - 1].0@);
                        } else if a < at {
                            assert(s[a] == os[a] && s[b] == os[b - 1]);
                        } else {
                            assert(s[a] == os[a - 1] && s[b] == os[b - 1]);
                        }
                    }
                    assert forall|q: Seq<Seq<char>>| #![trigger self.view().contains_key(q)]
                        self.view().contains_key(q) == old(self).view().insert(p, v).contains_key(q)
                        by {
                        if q != p && old(self).view().contains_key(q) {
                            let j = choose|j: int| 0 <= j < old_entries.len() && #[trigger] old_entries[j].0@ == q;
                            if j < at {
                                assert(self.entries@[j] == old_entries[j]);
                            } else {
                                assert(self.entries@[j + 1] == old_entries[j]);
                            }
                        }
                        if q == p {
                            assert(self.entries@[at as int].0@ == p);
                        }
                        if self.view().contains_key(q) && q != p {
                            let j = choose|j: int| 0 <= j < self.entries@.len() && #[trigger] self.entries@[j].0@ == q;
                            if j < at {
                                assert(old_entries[j] == self.entries@[j]);
                            } else if j > at {
                                assert(old_entries[j - 1] == self.entries@[j]);
                            }
                        }
                    }
                    assert forall|q: Seq<Seq<char>>| #[trigger] self.view().contains_key(q) implies self.view()[q]
                        == old(self).view().insert(p, v)[q] by {
                        let j = choose|j: int| 0 <= j < self.entries@.len() && #[trigger] self.entries@[j].0@ == q;
                        self.lemma_at(j);
                        if j < at {
                            assert(old_entries[j] == self.entries@[j]);
                            old(self).lemma_at(j);
                            assert(path_lt(q, p));
                            lemma_path_lt_irreflexive(q);
                        } else if j > at {
                            assert(old_entries[j - 1] == self.entries@[j]);
                            old(self).lemma_at(j - 1);
                            assert(path_lt(p, q));
                            lemma_path_lt_irreflexive(q);
                        }
                    }
                    assert(self.view() =~= old(self).view().insert(p, v));
                }
            },
        }
    }

    fn remove(&mut self, path: &StorePath)
        requires
            old(self).wf(),
        ensures
            final(self).wf(),
            final(self).view() == old(self).view().remove(path@),
    {
        let ghost old_entries = self.entries@;
        let ghost p = path@;
        match self.find(path) {
            Ok(i) => {
                self.entries.remove(i);
                proof {
                    let s = entry_paths(self.entries@);
                    let os = entry_paths(old_entries);
                    assert forall|a: int, b: int| 0 <= a < b < s.len() implies path_lt(
                        #[trigger] s[a],
                        #[trigger] s[b],
                    ) by {
                        if b < i {
                            assert(s[a] == os[a] && s[b] == os[b]);
                        } else if a < i {
                            assert(s[a] == os[a] && s[b] == os[b + 1]);
                        } else {
                            assert(s[a] == os[a + 1] && s[b] == os[b + 1]);
                        }
                    }
                    assert forall|q: Seq<Seq<char>>| #![trigger self.view().contains_key(q)]
                        self.view().contains_key(q) == old(self).view().remove(p).contains_key(q)
                        by {
                        if q != p && old(self).view().contains_key(q) {
                            let j = choose|j: int| 0 <= j < old_entries.len() && #[trigger] old_entries[j].0@ == q;
                            if j < i {
                                assert(self.entries@[j] == old_entries[j]);
                            } else {
                                assert(j != i);
                                assert(self.entries@[j - 1] == old_entries[j]);
                            }
                        }
                        if self.view().contains_key(q) {
                            let j = choose|j: int| 0 <= j < self.entries@.len() && #[trigger] self.entries@[j].0@ == q;
                            if j < i {
                                assert(old_entries[j] == self.entries@[j]);
                                if q == p {
                                    old(self).lemma_unique(j, i as int);
                                }
                            } else {
                                assert(old_entries[j + 1] == self.entries@[j]);
                                if q == p {
                                    old(self).lemma_unique(j + 1, i as int);
                                }
                            }
                        }
                    }
                    assert forall|q: Seq<Seq<char>>| #[trigger] self.view().contains_key(q) implies self.view()[q]
                        == old(self).view().remove(p)[q] by {
                        let j = choose|j: int| 0 <= j < self.entries@.len() && #[trigger] self.entries@[j].0@ == q;
                        self.lemma_at(j);
                        if j < i {
                            assert(old_entries[j] == self.entries@[j]);
                            old(self).lemma_at(j);
                        } else {
                            assert(old_entries[j + 1] == self.entries@[j]);
                            old(self).lemma_at(j + 1);
                        }
                    }
                    assert(self.view() =~= old(self).view().remove(p));
                }
            },
            Err(at) => {
                proof {
                    assert(!old(self).view().contains_key(p)) by {
                        if old(self).view().contains_key(p) {
                            let j = choose|j: int| 0 <= j < old_entries.len() && #[trigger] old_entries[j].0@ == p;
                            lemma_path_lt_irreflexive(p);
                        }
                    }
                    assert(self.view() =~= old(self).view().remove(p));
                }
            },
        }
    }
}


/// What a scan does with the next committed key it reads, in key order.
#[derive(Debug, Clone, Copy, PartialEq, Eq, Structural)]
pub enum ScanStep {
    /// It is under the prefix: keep it.
    Keep,
    /// It begins with the prefix's spelling without being under it, as `ab`
    /// begins with `a`: skip it and read on.
    Skip,
    /// It does not even begin with the prefix's spelling: nothing further on
    /// can be under the prefix.
    Stop,
}

/// What a scan of `prefix` does with stored key `k`.
pub open spec fn step_for(k: Seq<char>, prefix: Seq<Seq<char>>) -> ScanStep {
    if under_key(k, prefix) {
        ScanStep::Keep
    } else if starts_with(k, joined(prefix)) {
        ScanStep::Skip
    } else {
        ScanStep::Stop
    }
}

/// What a scan of `prefix` does with the committed key `key` it just read.
pub fn scan_step(key: &str, prefix: &StorePath) -> (r: ScanStep)
    ensures
        r == step_for(key@, prefix@),
{
    let bound = subtree_bound(prefix);
    let spelled = prefix.as_string();
    if is_under(key, spelled.as_str(), &bound) {
        ScanStep::Keep
    } else if crate::buffer::str_starts_with(key, spelled.as_str()) {
        ScanStep::Skip
    } else {
        ScanStep::Stop
    }
}

/// Laying a value at a key over a map keyed by key is laying it at the key's
/// path over the map keyed by path.
pub proof fn lemma_by_path_insert(m: Map<Seq<char>, Seq<u8>>, k: Seq<char>, v: Seq<u8>)
    ensures
        by_path(m.insert(k, v)) == by_path(m).insert(key_path(k), v),
{
    lemma_key_path_inverse(k);
    let l = by_path(m.insert(k, v));
    let r = by_path(m).insert(key_path(k), v);
    assert forall|p: Seq<Seq<char>>| #![trigger l.contains_key(p)] l.contains_key(p) == r.contains_key(p) by {
        if joined(p) == k && key_path(joined(p)) == p {
            assert(p == key_path(k));
        }
    }
    assert forall|p: Seq<Seq<char>>| #[trigger] l.contains_key(p) implies l[p] == r[p] by {
        if joined(p) == k {
            assert(p == key_path(k));
        }
    }
    assert(l =~= r);
}

/// Taking a key away is taking its path away.
pub proof fn lemma_by_path_remove(m: Map<Seq<char>, Seq<u8>>, k: Seq<char>)
    ensures
        by_path(m.remove(k)) == by_path(m).remove(key_path(k)),
{
    lemma_key_path_inverse(k);
    let l = by_path(m.remove(k));
    let r = by_path(m).remove(key_path(k));
    assert forall|p: Seq<Seq<char>>| #![trigger l.contains_key(p)] l.contains_key(p) == r.contains_key(p) by {
        if joined(p) == k && key_path(joined(p)) == p {
            assert(p == key_path(k));
        }
    }
    assert(l =~= r);
}

/// `m` with the buffered writes at `keys` laid over it, one key at a time.
pub open spec fn overlaid_keys(
    m: Map<Seq<char>, Seq<u8>>,
    keys: Seq<Seq<char>>,
    pend: Map<Seq<char>, OpView>,
    prefix: Seq<Seq<char>>,
) -> Map<Seq<char>, Seq<u8>>
    decreases keys.len(),
{
    if keys.len() == 0 {
        m
    } else {
        let before = overlaid_keys(m, keys.drop_last(), pend, prefix);
        let k = keys.last();
        if buffered_under(pend, k, prefix) {
            match op_value(pend[k]) {
                Some(v) => before.insert(k, v),
                None => before.remove(k),
            }
        } else {
            before
        }
    }
}

/// Laying the keys over one at a time leaves each listed key as the buffer
/// says and every other key as it was.
pub proof fn lemma_overlaid_keys(
    m: Map<Seq<char>, Seq<u8>>,
    keys: Seq<Seq<char>>,
    pend: Map<Seq<char>, OpView>,
    prefix: Seq<Seq<char>>,
)
    ensures
        overlaid_keys(m, keys, pend, prefix) == Map::new(
            |k: Seq<char>|
                if keys.contains(k) && buffered_under(pend, k, prefix) {
                    op_value(pend[k]) is Some
                } else {
                    m.contains_key(k)
                },
            |k: Seq<char>|
                if keys.contains(k) && buffered_under(pend, k, prefix) {
                    op_value(pend[k]).unwrap()
                } else {
                    m[k]
                },
        ),
    decreases keys.len(),
{
    let goal = Map::new(
        |k: Seq<char>|
            if keys.contains(k) && buffered_under(pend, k, prefix) {
                op_value(pend[k]) is Some
            } else {
                m.contains_key(k)
            },
        |k: Seq<char>|
            if keys.contains(k) && buffered_under(pend, k, prefix) {
                op_value(pend[k]).unwrap()
            } else {
                m[k]
            },
    );
    if keys.len() == 0 {
        assert(overlaid_keys(m, keys, pend, prefix) =~= goal);
    } else {
        let t = keys.drop_last();
        lemma_overlaid_keys(m, t, pend, prefix);
        let got = overlaid_keys(m, keys, pend, prefix);
        assert forall|k: Seq<char>| #![trigger got.contains_key(k)] got.contains_key(k) == goal.contains_key(k) by {
            assert(keys.contains(k) == (t.contains(k) || k == keys.last())) by {
                if keys.contains(k) {
                    let i = choose|i: int| 0 <= i < keys.len() && keys[i] == k;
                    if i < keys.len() - 1 {
                        assert(t[i] == k);
                    }
                }
                if t.contains(k) {
                    let i = choose|i: int| 0 <= i < t.len() && t[i] == k;
                    assert(keys[i] == k);
                }
                if k == keys.last() {
                    assert(keys[keys.len() - 1] == k);
                }
            }
        }
        assert forall|k: Seq<char>| #[trigger] got.contains_key(k) implies got[k] == goal[k] by {
            assert(keys.contains(k) == (t.contains(k) || k == keys.last())) by {
                if keys.contains(k) {
                    let i = choose|i: int| 0 <= i < keys.len() && keys[i] == k;
                    if i < keys.len() - 1 {
                        assert(t[i] == k);
                    }
                }
                if t.contains(k) {
                    let i = choose|i: int| 0 <= i < t.len() && t[i] == k;
                    assert(keys[i] == k);
                }
                if k == keys.last() {
                    assert(keys[keys.len() - 1] == k);
                }
            }
        }
        assert(got =~= goal);
    }
}

/// What a scan of `prefix` finds, from the committed entries it kept and the
/// buffer: in path order, or a scan failure where a key does not read back
/// as a path.
pub fn scan_prefix_from(
    committed: &Vec<(String, Vec<u8>)>,
    pending: &Pending,
    prefix: &StorePath,
) -> (r: Result<Vec<(StorePath, Vec<u8>)>, StorageError>)
    requires
        pending.wf(),
    ensures
        r is Err <==> scan_fails(entries_of(committed@), pending@, prefix@),
        r is Err ==> r == Err::<Vec<(StorePath, Vec<u8>)>, StorageError>(StorageError::Scan),
        r is Ok ==> paths_sorted(entry_paths(r.unwrap()@)) && listed(r.unwrap()@) == by_path(
            scan_result(entries_of(committed@), pending@, prefix@),
        ),
{
    let bound = subtree_bound(prefix);
    let spelled = prefix.as_string();
    let ghost cv = entries_of(committed@);
    let mut results = PathMap::new();
    let mut i: usize = 0;
    while i < committed.len()
        invariant
            cv == entries_of(committed@),
            spelled@ == joined(prefix@),
            prefix@.len() == 0 ==> bound is None,
            prefix@.len() > 0 ==> bound is Some && bound.unwrap()@ == joined(prefix@).push(SEPARATOR),
            i <= committed@.len(),
            results.wf(),
            results.view() == by_path(committed_map(cv.take(i as int), prefix@)),
            forall|j: int| 0 <= j < i && under_key(#[trigger] cv[j].0, prefix@) ==> key_ok(cv[j].0),
        decreases committed@.len() - i,
    {
        let key = committed[i].0.as_str();
        proof {
            assert(cv.take(i + 1).drop_last() =~= cv.take(i as int));
            assert(cv.take(i + 1).last() == cv[i as int]);
            assert(cv[i as int].0 == key@);
        }
        if is_under(key, spelled.as_str(), &bound) {
            match stored_path(key) {
                Ok(path) => {
                    proof {
                        lemma_by_path_insert(
                            committed_map(cv.take(i as int), prefix@),
                            key@,
                            committed@[i as int].1@,
                        );
                        assert(path@ == key_path(key@));
                        assert(key_ok(key@)) by {
                            if key@.len() > 0 {
                                assert forall|j: int| 0 <= j < split_levels(key@).len() implies (
                                #[trigger] split_levels(key@)[j]).len() > 0 by {
                                    assert(path@[j] == split_levels(key@)[j]);
                                }
                            }
                        }
                    }
                    results.insert(path, committed[i].1.clone());
                },
                Err(e) => {
                    proof {
                        assert(!key_ok(key@));
                        assert(under_key(cv[i as int].0, prefix@));
                    }
                    return Err(e);
                },
            }
        }
        i = i + 1;
    }
    proof {
        assert(cv.take(i as int) =~= cv);
    }
    let ghost m1 = committed_map(cv, prefix@);
    let keys = pending.keys();
    let ghost kv = strings_view(keys@);
    let mut j: usize = 0;
    while j < keys.len()
        invariant
            cv == entries_of(committed@),
            m1 == committed_map(cv, prefix@),
            kv == strings_view(keys@),
            pending.wf(),
            spelled@ == joined(prefix@),
            prefix@.len() == 0 ==> bound is None,
            prefix@.len() > 0 ==> bound is Some && bound.unwrap()@ == joined(prefix@).push(SEPARATOR),
            j <= keys@.len(),
            results.wf(),
            results.view() == by_path(overlaid_keys(m1, kv.take(j as int), pending@, prefix@)),
            forall|c: int| 0 <= c < cv.len() && under_key(#[trigger] cv[c].0, prefix@) ==> key_ok(cv[c].0),
            forall|c: int| 0 <= c < j && buffered_under(pending@, #[trigger] kv[c], prefix@) ==> key_ok(kv[c]),
            forall|k: Seq<char>|
                #![trigger pending@.contains_key(k)]
                pending@.contains_key(k) <==> kv.contains(k),
        decreases keys@.len() - j,
    {
        let key = keys[j].as_str();
        proof {
            assert(kv.take(j + 1).drop_last() =~= kv.take(j as int));
            assert(kv.take(j + 1).last() == kv[j as int]);
            assert(kv[j as int] == key@);
            assert(kv.contains(key@));
            assert(pending@.contains_key(key@));
        }
        match pending.get(key) {
            Some(op) => {
                if op.is_data() && is_under(key, spelled.as_str(), &bound) {
                    match stored_path(key) {
                        Ok(path) => {
                            proof {
                                assert(path@ == key_path(key@));
                                assert(key_ok(key@)) by {
                                    if key@.len() > 0 {
                                        assert forall|c: int| 0 <= c < split_levels(key@).len() implies (
                                        #[trigger] split_levels(key@)[c]).len() > 0 by {
                                            assert(path@[c] == split_levels(key@)[c]);
                                        }
                                    }
                                }
                            }
                            match op.value() {
                                Some(bytes) => {
                                    proof {
                                        lemma_by_path_insert(
                                            overlaid_keys(m1, kv.take(j as int), pending@, prefix@),
                                            key@,
                                            bytes@,
                                        );
                                    }
                                    results.insert(path, crate::buffer::copy_bytes(bytes));
                                },
                                None => {
                                    proof {
                                        lemma_by_path_remove(
                                            overlaid_keys(m1, kv.take(j as int), pending@, prefix@),
                                            key@,
                                        );
                                    }
                                    results.remove(&path);
                                },
                            }
                        },
                        Err(e) => {
                            proof {
                                assert(!key_ok(key@));
                                assert(buffered_under(pending@, key@, prefix@));
                            }
                            return Err(e);
                        },
                    }
                }
            },
            None => {},
        }
        j = j + 1;
    }
    proof {
        assert(kv.take(j as int) =~= kv);
        lemma_overlaid_keys(m1, kv, pending@, prefix@);
        assert(overlaid_keys(m1, kv, pending@, prefix@) =~= overlaid(m1, pending@, prefix@));
        assert(!scan_fails(cv, pending@, prefix@)) by {
            assert forall|k: Seq<char>| #[trigger] buffered_under(pending@, k, prefix@) implies key_ok(k) by {
                assert(kv.contains(k));
                let c = choose|c: int| 0 <= c < kv.len() && kv[c] == k;
            }
        }
    }
    Ok(results.into_entries())
}


/// Committed keys read without their values, as entries with nothing in them.
pub open spec fn keys_only(keys: Seq<String>) -> Seq<(Seq<char>, Seq<u8>)> {
    Seq::new(keys.len(), |i: int| (keys[i]@, Seq::<u8>::empty()))
}

/// Which paths a scan of `prefix` finds, from the committed keys it kept and
/// the buffer: in path order, or a scan failure where a key does not read
/// back as a path.
pub fn scan_keys_from(committed: &Vec<String>, pending: &Pending, prefix: &StorePath) -> (r: Result<
    Vec<StorePath>,
    StorageError,
>)
    requires
        pending.wf(),
    ensures
        r is Err <==> scan_fails(keys_only(committed@), pending@, prefix@),
        r is Err ==> r == Err::<Vec<StorePath>, StorageError>(StorageError::Scan),
        r is Ok ==> paths_sorted(crate::path::paths_view(r.unwrap()@)) && forall|p: Seq<Seq<char>>|
            #![trigger crate::path::paths_view(r.unwrap()@).contains(p)]
            crate::path::paths_view(r.unwrap()@).contains(p) <==> by_path(
                scan_result(keys_only(committed@), pending@, prefix@),
            ).contains_key(p),
{
    let mut entries: Vec<(String, Vec<u8>)> = Vec::new();
    let mut i: usize = 0;
    while i < committed.len()
        invariant
            i <= committed@.len(),
            entries_of(entries@) == keys_only(committed@).take(i as int),
        decreases committed@.len() - i,
    {
        let key = crate::text::owned(committed[i].as_str());
        let nothing: Vec<u8> = Vec::new();
        let ghost before = entries@;
        entries.push((key, nothing));
        proof {
            assert(entries_of(before).len() == before.len());
            assert(before.len() == i);
            assert(entries@ == before.push((key, nothing)));
            assert forall|c: int| 0 <= c < i + 1 implies #[trigger] entries_of(entries@)[c]
                == keys_only(committed@).take(i + 1)[c] by {
                if c < i {
                    assert(entries@[c] == before[c]);
                    assert(entries_of(before)[c] == keys_only(committed@).take(i as int)[c]);
                } else {
                    assert(nothing@ =~= Seq::<u8>::empty());
                }
            }
            assert(entries_of(entries@) =~= keys_only(committed@).take(i + 1));
        }
        i = i + 1;
    }
    proof {
        assert(keys_only(committed@).take(i as int) =~= keys_only(committed@));
    }
    match scan_prefix_from(&entries, pending, prefix) {
        Ok(found) => {
            let mut out: Vec<StorePath> = Vec::new();
            let mut j: usize = 0;
            while j < found.len()
                invariant
                    j <= found@.len(),
                    crate::path::paths_view(out@) == entry_paths(found@).take(j as int),
                decreases found@.len() - j,
            {
                let ghost before = out@;
                out.push(found[j].0.copy());
                proof {
                    assert(crate::path::paths_view(before).len() == before.len());
                    assert(before.len() == j);
                    assert forall|c: int| 0 <= c < j + 1 implies #[trigger] crate::path::paths_view(out@)[c]
                        == entry_paths(found@).take(j + 1)[c] by {
                        if c < j {
                            assert(out@[c] == before[c]);
                            assert(crate::path::paths_view(before)[c] == entry_paths(found@).take(j as int)[c]);
                        }
                    }
                    assert(crate::path::paths_view(out@) =~= entry_paths(found@).take(j + 1));
                }
                j = j + 1;
            }
            proof {
                let pv = crate::path::paths_view(out@);
                assert(pv =~= entry_paths(found@));
                assert forall|p: Seq<Seq<char>>| #![trigger pv.contains(p)] pv.contains(p)
                    <==> listed(found@).contains_key(p) by {
                    if pv.contains(p) {
                        let c = choose|c: int| 0 <= c < pv.len() && pv[c] == p;
                        assert(found@[c].0@ == p);
                    }
                    if listed(found@).contains_key(p) {
                        let c = choose|c: int| 0 <= c < found@.len() && #[trigger] found@[c].0@ == p;
                        assert(pv[c] == p);
                    }
                }
            }
            Ok(out)
        },
        Err(e) => Err(e),
    }
}

} // verus!
