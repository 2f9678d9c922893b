//! Laying the write buffer over what the engine holds, both already in path
//! order, in one pass down the two lists.
use crate::buffer::copy_bytes;
use crate::overlay::{entry_paths, paths_sorted};
use crate::path::{lemma_path_lt_irreflexive, lemma_path_lt_transitive, path_lt, StorePath};
use vstd::prelude::*;

verus! {

/// Whether `s` holds `v` at `p`.
pub open spec fn has_entry(s: Seq<(StorePath, Vec<u8>)>, p: Seq<Seq<char>>, v: Seq<u8>) -> bool {
    exists|k: int| 0 <= k < s.len() && #[trigger] s[k].0@ == p && s[k].1@ == v
}

/// Whether the buffer writes `v` at `p`.
pub open spec fn buffered_value(b: Seq<(StorePath, Option<Vec<u8>>)>, p: Seq<Seq<char>>, v: Seq<u8>) -> bool {
    exists|k: int| 0 <= k < b.len() && #[trigger] b[k].0@ == p && b[k].1 is Some && b[k].1->0@ == v
}

/// Whether the buffer holds anything, a write or a delete, at `p`.
pub open spec fn buffered_names(b: Seq<(StorePath, Option<Vec<u8>>)>, p: Seq<Seq<char>>) -> bool {
    exists|k: int| 0 <= k < b.len() && #[trigger] b[k].0@ == p
}

/// The buffer's paths, in order.
pub open spec fn buffered_paths(b: Seq<(StorePath, Option<Vec<u8>>)>) -> Seq<Seq<Seq<char>>> {
    Seq::new(b.len(), |i: int| b[i].0@)
}

/// Whether the buffer laid over the committed entries holds `v` at `p`: a
/// buffered write wins at its path, a buffered delete leaves nothing there,
/// and elsewhere the committed value stands.
pub open spec fn merged_holds(
    c: Seq<(StorePath, Vec<u8>)>,
    b: Seq<(StorePath, Option<Vec<u8>>)>,
    p: Seq<Seq<char>>,
    v: Seq<u8>,
) -> bool {
    buffered_value(b, p, v) || (!buffered_names(b, p) && has_entry(c, p, v))
}

proof fn lemma_has_entry_push(s: Seq<(StorePath, Vec<u8>)>, e: (StorePath, Vec<u8>))
    ensures
        forall|p: Seq<Seq<char>>, v: Seq<u8>| #[trigger] has_entry(s.push(e), p, v) <==> has_entry(s, p, v) || (e.0@ == p && e.1@ == v),
{
    assert forall|p: Seq<Seq<char>>, v: Seq<u8>| #[trigger] has_entry(s.push(e), p, v) <==> has_entry(s, p, v) || (e.0@ == p && e.1@ == v) by {
        let t = s.push(e);
        if has_entry(t, p, v) {
            let k = choose|k: int| 0 <= k < t.len() && #[trigger] t[k].0@ == p && t[k].1@ == v;
            if k < s.len() {
                assert(s[k] == t[k]);
            }
        }
        if has_entry(s, p, v) {
            let k = choose|k: int| 0 <= k < s.len() && #[trigger] s[k].0@ == p && s[k].1@ == v;
            assert(t[k] == s[k]);
        }
        if e.0@ == p && e.1@ == v {
            assert(t[s.len() as int] == e);
        }
    }
}

proof fn lemma_committed_take(c: Seq<(StorePath, Vec<u8>)>, i: int)
    requires
        0 <= i < c.len(),
    ensures
        forall|p: Seq<Seq<char>>, v: Seq<u8>| #[trigger] has_entry(c.take(i + 1), p, v) <==> has_entry(c.take(i), p, v) || (c[i].0@ == p && c[i].1@ == v),
{
    assert(c.take(i + 1) =~= c.take(i).push(c[i]));
    lemma_has_entry_push(c.take(i), c[i]);
}

proof fn lemma_buffered_take(b: Seq<(StorePath, Option<Vec<u8>>)>, j: int)
    requires
        0 <= j < b.len(),
    ensures
        forall|p: Seq<Seq<char>>, v: Seq<u8>| #[trigger] buffered_value(b.take(j + 1), p, v) <==> buffered_value(b.take(j), p, v)
            || (b[j].0@ == p && b[j].1 is Some && b[j].1->0@ == v),
        forall|p: Seq<Seq<char>>| #[trigger] buffered_names(b.take(j + 1), p) <==> buffered_names(b.take(j), p) || b[j].0@ == p,
{
    let t = b.take(j + 1);
    let u = b.take(j);
    assert forall|k: int| 0 <= k < j implies #[trigger] t[k] == u[k] by {}
    assert(t[j] == b[j]);
    assert forall|p: Seq<Seq<char>>, v: Seq<u8>| #[trigger] buffered_value(t, p, v) <==> buffered_value(u, p, v)
        || (b[j].0@ == p && b[j].1 is Some && b[j].1->0@ == v) by {
        if buffered_value(t, p, v) {
            let k = choose|k: int| 0 <= k < t.len() && #[trigger] t[k].0@ == p && t[k].1 is Some && t[k].1->0@ == v;
            if k < j {
                assert(u[k] == t[k]);
            }
        }
        if buffered_value(u, p, v) {
            let k = choose|k: int| 0 <= k < u.len() && #[trigger] u[k].0@ == p && u[k].1 is Some && u[k].1->0@ == v;
            assert(t[k] == u[k]);
        }
    }
    assert forall|p: Seq<Seq<char>>| #[trigger] buffered_names(t, p) <==> buffered_names(u, p) || b[j].0@ == p by {
        if buffered_names(t, p) {
            let k = choose|k: int| 0 <= k < t.len() && #[trigger] t[k].0@ == p;
            if k < j {
                assert(u[k] == t[k]);
            }
        }
        if buffered_names(u, p) {
            let k = choose|k: int| 0 <= k < u.len() && #[trigger] u[k].0@ == p;
            assert(t[k] == u[k]);
        }
    }
}

/// Lays the write buffer over the committed entries, both in strictly
/// increasing path order: a buffered write replaces the committed value at
/// its path, a buffered delete leaves nothing there, and the result keeps
/// path order, which is the order a scan promises.
#[verifier::rlimit(50)]
pub fn merge_buffered(
    committed: Vec<(StorePath, Vec<u8>)>,
    buffered: Vec<(StorePath, Option<Vec<u8>>)>,
) -> (r: Vec<(StorePath, Vec<u8>)>)
    requires
        paths_sorted(entry_paths(committed@)),
        paths_sorted(buffered_paths(buffered@)),
    ensures
        paths_sorted(entry_paths(r@)),
        forall|p: Seq<Seq<char>>, v: Seq<u8>|
            #![trigger has_entry(r@, p, v)]
            #![trigger merged_holds(committed@, buffered@, p, v)]
            has_entry(r@, p, v) <==> merged_holds(committed@, buffered@, p, v),
{
    let ghost c = committed@;
    let ghost b = buffered@;
    let n = committed.len();
    let m = buffered.len();
    let mut out: Vec<(StorePath, Vec<u8>)> = Vec::new();
    let mut i: usize = 0;
    let mut j: usize = 0;
    proof {
        assert forall|p: Seq<Seq<char>>, v: Seq<u8>| #[trigger] has_entry(out@, p, v) <==> merged_holds(c.take(0), b.take(0), p, v) by {
            assert(!has_entry(c.take(0), p, v));
            assert(!buffered_value(b.take(0), p, v));
        }
    }
    while i < n || j < m
        invariant
            c == committed@,
            b == buffered@,
            n == c.len(),
            m == b.len(),
            i <= n,
            j <= m,
            paths_sorted(entry_paths(c)),
            paths_sorted(buffered_paths(b)),
            paths_sorted(entry_paths(out@)),
            forall|k: int| 0 <= k < out@.len() && i < n ==> path_lt((#[trigger] out@[k]).0@, c[i as int].0@),
            forall|k: int| 0 <= k < out@.len() && j < m ==> path_lt((#[trigger] out@[k]).0@, b[j as int].0@),
            forall|k: int| 0 <= k < i && j < m ==> path_lt((#[trigger] c[k]).0@, b[j as int].0@),
            forall|k: int| 0 <= k < j && i < n ==> path_lt((#[trigger] b[k]).0@, c[i as int].0@),
            forall|p: Seq<Seq<char>>, v: Seq<u8>| #[trigger] has_entry(out@, p, v) <==> merged_holds(c.take(i as int), b.take(j as int), p, v),
        decreases (n - i) + (m - j),
    {
        let ghost before = out@;
        let take_committed = j >= m || (i < n && committed[i].0.sorts_before(&buffered[j].0));
        let same = i < n && j < m && committed[i].0.same(&buffered[j].0);
        if take_committed {
            let e = (committed[i].0.copy(), copy_bytes(committed[i].1.as_slice()));
            out.push(e);
            proof {
                lemma_has_entry_push(before, e);
                lemma_committed_take(c, i as int);
                let q = c[i as int].0@;
                assert(!buffered_names(b.take(j as int), q)) by {
                    if buffered_names(b.take(j as int), q) {
                        let k = choose|k: int| 0 <= k < j && #[trigger] b.take(j as int)[k].0@ == q;
                        assert(b.take(j as int)[k] == b[k]);
                        assert(path_lt(b[k].0@, q));
                        lemma_path_lt_irreflexive(q);
                    }
                }
                assert forall|k: int| 0 <= k < out@.len() && i + 1 < n implies path_lt((#[trigger] out@[k]).0@, c[i + 1].0@) by {
                    assert(path_lt(c[i as int].0@, c[i + 1].0@)) by {
                        assert(entry_paths(c)[i as int] == c[i as int].0@);
                        assert(entry_paths(c)[i + 1] == c[i + 1].0@);
                    }
                    if k < before.len() {
                        lemma_path_lt_transitive(out@[k].0@, c[i as int].0@, c[i + 1].0@);
                    }
                }
                assert forall|k: int| 0 <= k < j && i + 1 < n implies path_lt((#[trigger] b[k]).0@, c[i + 1].0@) by {
                    assert(entry_paths(c)[i as int] == c[i as int].0@);
                    assert(entry_paths(c)[i + 1] == c[i + 1].0@);
                    lemma_path_lt_transitive(b[k].0@, c[i as int].0@, c[i + 1].0@);
                }
                assert(paths_sorted(entry_paths(out@))) by {
                    assert forall|a: int, z: int| 0 <= a < z < out@.len() implies path_lt(#[trigger] entry_paths(out@)[a], #[trigger] entry_paths(out@)[z]) by {
                        if z < before.len() {
                            assert(entry_paths(before)[a] == entry_paths(out@)[a]);
                            assert(entry_paths(before)[z] == entry_paths(out@)[z]);
                        }
                    }
                }
                assert forall|p: Seq<Seq<char>>, v: Seq<u8>| #[trigger] has_entry(out@, p, v) <==> merged_holds(c.take(i + 1), b.take(j as int), p, v) by {
                    if p == q {
                        assert(!buffered_value(b.take(j as int), p, v)) by {
                            if buffered_value(b.take(j as int), p, v) {
                                let k = choose|k: int| 0 <= k < j && #[trigger] b.take(j as int)[k].0@ == p && b.take(j as int)[k].1 is Some && b.take(j as int)[k].1->0@ == v;
                                assert(buffered_names(b.take(j as int), p));
                            }
                        }
                    }
                }
            }
            i = i + 1;
        } else {
            if same {
                proof {
                    lemma_committed_take(c, i as int);
                }
            }
            match &buffered[j].1 {
                Some(v) => {
                    let e = (buffered[j].0.copy(), copy_bytes(v.as_slice()));
                    out.push(e);
                    proof {
                        lemma_has_entry_push(before, e);
                    }
                },
                None => {},
            }
            proof {
                lemma_buffered_take(b, j as int);
                let q = b[j as int].0@;
                if !same {
                    // The head of the buffer comes first.
                    lemma_path_lt_total_here(c, b, i as int, j as int, n as int);
                    if i < n {
                        assert(path_lt(q, c[i as int].0@));
                    }
                }
                assert forall|k: int| 0 <= k < out@.len() && j + 1 < m implies path_lt((#[trigger] out@[k]).0@, b[j + 1].0@) by {
                    assert(buffered_paths(b)[j as int] == b[j as int].0@);
                    assert(buffered_paths(b)[j + 1] == b[j + 1].0@);
                    if k < before.len() {
                        lemma_path_lt_transitive(out@[k].0@, b[j as int].0@, b[j + 1].0@);
                    }
                }
                assert forall|k: int| 0 <= k < i + (if same { 1int } else { 0int }) && j + 1 < m implies path_lt((#[trigger] c[k]).0@, b[j + 1].0@) by {
                    assert(buffered_paths(b)[j as int] == b[j as int].0@);
                    assert(buffered_paths(b)[j + 1] == b[j + 1].0@);
                    if k < i {
                        lemma_path_lt_transitive(c[k].0@, b[j as int].0@, b[j + 1].0@);
                    }
                }
                if same {
                    assert forall|k: int| 0 <= k < j + 1 && i + 1 < n implies path_lt((#[trigger] b[k]).0@, c[i + 1].0@) by {
                        assert(entry_paths(c)[i as int] == c[i as int].0@);
                        assert(entry_paths(c)[i + 1] == c[i + 1].0@);
                        if k < j {
                            lemma_path_lt_transitive(b[k].0@, c[i as int].0@, c[i + 1].0@);
                        }
                    }
                    assert forall|k: int| 0 <= k < out@.len() && i + 1 < n implies path_lt((#[trigger] out@[k]).0@, c[i + 1].0@) by {
                        assert(entry_paths(c)[i as int] == c[i as int].0@);
                        assert(entry_paths(c)[i + 1] == c[i + 1].0@);
                        if k < before.len() {
                            lemma_path_lt_transitive(out@[k].0@, c[i as int].0@, c[i + 1].0@);
                        }
                    }
                }
                assert(paths_sorted(entry_paths(out@))) by {
                    assert forall|a: int, z: int| 0 <= a < z < out@.len() implies path_lt(#[trigger] entry_paths(out@)[a], #[trigger] entry_paths(out@)[z]) by {
                        if z < before.len() {
                            assert(entry_paths(before)[a] == entry_paths(out@)[a]);
                            assert(entry_paths(before)[z] == entry_paths(out@)[z]);
                        }
                    }
                }
                assert forall|p: Seq<Seq<char>>, v: Seq<u8>| #[trigger] has_entry(out@, p, v) <==> merged_holds(c.take(i + (if same { 1int } else { 0int })), b.take(j + 1), p, v) by {
                    if p == q && !same {
                        assert(!has_entry(c.take(i as int), p, v)) by {
                            if has_entry(c.take(i as int), p, v) {
                                let k = choose|k: int| 0 <= k < i && #[trigger] c.take(i as int)[k].0@ == p && c.take(i as int)[k].1@ == v;
                                assert(c.take(i as int)[k] == c[k]);
                                lemma_path_lt_irreflexive(q);
                            }
                        }
                    }
                    if p == q && same {
                        assert(!has_entry(c.take(i as int), p, v)) by {
                            if has_entry(c.take(i as int), p, v) {
                                let k = choose|k: int| 0 <= k < i && #[trigger] c.take(i as int)[k].0@ == p && c.take(i as int)[k].1@ == v;
                                assert(c.take(i as int)[k] == c[k]);
                                lemma_path_lt_irreflexive(q);
                            }
                        }
                    }
                }
            }
            if same {
                i = i + 1;
            }
            j = j + 1;
        }
    }
    proof {
        assert(c.take(n as int) =~= c);
        assert(b.take(m as int) =~= b);
    }
    out
}

/// Where neither head comes first by the committed side, the buffer's does.
proof fn lemma_path_lt_total_here(
    c: Seq<(StorePath, Vec<u8>)>,
    b: Seq<(StorePath, Option<Vec<u8>>)>,
    i: int,
    j: int,
    n: int,
)
    ensures
        i < n && 0 <= i < c.len() && 0 <= j < b.len() && c[i].0@ != b[j].0@ && !path_lt(c[i].0@, b[j].0@)
            ==> path_lt(b[j].0@, c[i].0@),
{
    crate::path::lemma_path_lt_total(c[i].0@, b[j].0@);
}

} // verus!
