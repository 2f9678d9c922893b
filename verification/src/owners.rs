//! Who owns what, so that two owners cannot write over each other.
use crate::path::{
    is_prefix, lemma_path_lt_irreflexive, lemma_path_lt_total, lemma_path_lt_transitive,
    lemma_seq_lt_total, lemma_seq_lt_transitive, overlaps, path_lt, StorePath,
};
use vstd::prelude::*;

verus! {

/// A stored path and the schema that claimed it.
#[derive(Debug, Clone, PartialEq, Eq)]
pub struct Claimed {
    pub path: StorePath,
    pub by: String,
}

/// A claim and who made it, as values.
pub struct ClaimView {
    pub path: Seq<Seq<char>>,
    pub by: Seq<char>,
}

impl View for Claimed {
    type V = ClaimView;

    open spec fn view(&self) -> ClaimView {
        ClaimView { path: self.path@, by: self.by@ }
    }
}

/// A claim refused, naming the one that stands in its way and itself.
#[derive(Debug, Clone, PartialEq, Eq)]
pub struct Refused {
    pub standing: Claimed,
    pub wanted: Claimed,
}

/// Who owns what.
///
/// A claim is made where a path is composed, and belongs to the name that
/// made it: the same schema claiming the same path again is a no-op, and a
/// claim stands for the life of the store.
pub struct Owners {
    /// Sorted by path, always, and no two of them by different owners meet.
    claims: Vec<Claimed>,
}

/// The views of a list of claims.
pub open spec fn claims_view(v: Seq<Claimed>) -> Seq<ClaimView> {
    Seq::new(v.len(), |i: int| v[i]@)
}

/// Whether the claims are in strictly increasing path order.
pub open spec fn sorted_by_path(s: Seq<ClaimView>) -> bool {
    forall|i: int, j: int| 0 <= i < j < s.len() ==> path_lt(#[trigger] s[i].path, #[trigger] s[j].path)
}

/// Whether no two claims by different owners meet.
pub open spec fn owners_apart(s: Seq<ClaimView>) -> bool {
    forall|i: int, j: int|
        0 <= i < s.len() && 0 <= j < s.len() && (#[trigger] s[i]).by != (#[trigger] s[j]).by
            ==> !overlaps(s[i].path, s[j].path)
}

/// Whether a standing claim refuses `path` for `by`: it is another owner's,
/// and one of the two places holds the other.
pub open spec fn refuses(c: ClaimView, path: Seq<Seq<char>>, by: Seq<char>) -> bool {
    c.by != by && overlaps(c.path, path)
}

/// Whether some standing claim refuses `path` for `by`.
pub open spec fn met_by_another(s: Seq<ClaimView>, path: Seq<Seq<char>>, by: Seq<char>) -> bool {
    exists|i: int| 0 <= i < s.len() && refuses(#[trigger] s[i], path, by)
}

/// Everything below a path sorts after it, and nothing that sorts between it
/// and something below it is outside it: a subtree is one contiguous run.
pub proof fn lemma_subtree_is_a_run(p: Seq<Seq<char>>, x: Seq<Seq<char>>, d: Seq<Seq<char>>)
    requires
        is_prefix(p, d),
        !path_lt(x, p),
        path_lt(x, d),
    ensures
        is_prefix(p, x),
    decreases p.len(),
{
    if p.len() > 0 {
        assert(d.len() > 0);
        assert(d[0] == p[0]);
        if x.len() == 0 {
        } else if x[0] != p[0] {
            lemma_seq_lt_total(x[0], p[0]);
            lemma_seq_lt_total(x[0], d[0]);
        } else {
            assert(d.drop_first().subrange(0, p.drop_first().len() as int) =~= p.drop_first());
            lemma_subtree_is_a_run(p.drop_first(), x.drop_first(), d.drop_first());
            assert(x.subrange(0, p.len() as int) =~= seq![x[0]] + x.drop_first().subrange(
                0,
                p.drop_first().len() as int,
            ));
            assert(p =~= seq![p[0]] + p.drop_first());
        }
    } else {
        assert(x.subrange(0, 0) =~= p);
    }
}

/// A place sorts no later than anything it holds.
pub proof fn lemma_prefix_not_after(p: Seq<Seq<char>>, d: Seq<Seq<char>>)
    requires
        is_prefix(p, d),
    ensures
        !path_lt(d, p),
    decreases p.len(),
{
    if p.len() > 0 {
        assert(d[0] == p[0]);
        assert(d.drop_first().subrange(0, p.drop_first().len() as int) =~= p.drop_first());
        lemma_prefix_not_after(p.drop_first(), d.drop_first());
    }
}

impl Owners {
    /// No claims at all.
    pub fn new() -> (r: Owners)
        ensures
            r.wf(),
            r@.len() == 0,
    {
        Owners { claims: Vec::new() }
    }

    /// The claims, in path order.
    pub closed spec fn view(&self) -> Seq<ClaimView> {
        claims_view(self.claims@)
    }

    /// The claims stay sorted, and no two owners' claims meet.
    pub closed spec fn wf(&self) -> bool {
        sorted_by_path(claims_view(self.claims@)) && owners_apart(claims_view(self.claims@))
    }

    /// How many claims stand.
    pub fn len(&self) -> (r: usize)
        ensures
            r == self@.len(),
    {
        self.claims.len()
    }

    /// The claim at position `i`, in path order.
    pub fn get(&self, i: usize) -> (r: &Claimed)
        requires
            i < self@.len(),
        ensures
            r@ == self@[i as int],
    {
        &self.claims[i]
    }

    /// Where `path` is, or where it would go.
    fn find(&self, path: &StorePath) -> (r: Result<usize, usize>)
        requires
            self.wf(),
        ensures
            match r {
                Ok(i) => i < self@.len() && self@[i as int].path == path@,
                Err(at) => at <= self@.len() && (forall|i: int|
                    0 <= i < at ==> path_lt(#[trigger] self@[i].path, path@)) && (forall|i: int|
                    at <= i < self@.len() ==> path_lt(path@, #[trigger] self@[i].path)),
            },
    {
        let ghost s = self@;
        let mut lo: usize = 0;
        let mut hi: usize = self.claims.len();
        while lo < hi
            invariant
                self.wf(),
                s == self@,
                hi <= self@.len(),
                lo <= hi,
                forall|i: int| 0 <= i < lo ==> path_lt(#[trigger] s[i].path, path@),
                forall|i: int| hi <= i < s.len() ==> path_lt(path@, #[trigger] s[i].path),
            decreases hi - lo,
        {
            let mid = lo + (hi - lo) / 2;
            let here = &self.claims[mid].path;
            assert(s[mid as int].path == here@);
            if here.same(path) {
                return Ok(mid);
            }
            if here.sorts_before(path) {
                proof {
                    assert forall|i: int| 0 <= i < mid + 1 implies path_lt(
                        #[trigger] s[i].path,
                        path@,
                    ) by {
                        if i < mid {
                            lemma_path_lt_transitive(s[i].path, s[mid as int].path, path@);
                        }
                    }
                }
                lo = mid + 1;
            } else {
                proof {
                    lemma_path_lt_total(here@, path@);
                    assert forall|i: int| mid <= i < s.len() implies path_lt(
                        path@,
                        #[trigger] s[i].path,
                    ) by {
                        if i > mid {
                            lemma_path_lt_transitive(path@, s[mid as int].path, s[i].path);
                        }
                    }
                }
                hi = mid;
            }
        }
        Err(lo)
    }

    /// Records that `by` owns `path` and everything under it, or refuses.
    ///
    /// Two places meet when one holds the other, so a standing claim can meet
    /// this one in exactly two ways, and the search is those two: at `path` or
    /// one of its ancestors, each looked up by name, and under `path`, which is
    /// the contiguous run of claims that sort right after it.
    pub fn claim(&mut self, path: &StorePath, by: &str) -> (r: Result<(), Refused>)
        requires
            old(self).wf(),
        ensures
            final(self).wf(),
            r is Err <==> met_by_another(old(self)@, path@, by@),
            match r {
                Err(e) => {
                    &&& final(self)@ == old(self)@
                    &&& e.wanted@ == ClaimView { path: path@, by: by@ }
                    &&& old(self)@.contains(e.standing@)
                    &&& refuses(e.standing@, path@, by@)
                },
                Ok(()) => {
                    &&& forall|c: ClaimView|
                        #![trigger final(self)@.contains(c)]
                        final(self)@.contains(c) <==> (old(self)@.contains(c) || c == ClaimView {
                            path: path@,
                            by: by@,
                        })
                    &&& old(self)@.contains(ClaimView { path: path@, by: by@ }) ==> final(self)@
                        == old(self)@
                },
            },
    {
        let ghost s = self@;
        let ghost n = path@.len();
        let mut above: StorePath = path.copy();
        let mut checked: usize = path.segment_count();
        loop
            invariant_except_break
                self.wf(),
                self@ == s,
                above@ == path@.subrange(0, checked as int),
                checked <= n,
                n == path@.len(),
                forall|i: int|
                    0 <= i < s.len() && is_prefix(#[trigger] s[i].path, path@) && s[i].path.len()
                        > checked ==> s[i].by == by@ && s[i].path.len() < n,
            ensures
                self.wf(),
                self@ == s,
                forall|i: int|
                    0 <= i < s.len() && is_prefix(#[trigger] s[i].path, path@) ==> s[i].by == by@
                        && s[i].path.len() < n,
            decreases checked,
        {
            let res = self.find(&above);
            match res {
                Ok(found) => {
                    let other = &self.claims[found];
                    if !crate::path::str_eq(other.by.as_str(), by) {
                        let standing = Claimed { path: other.path.copy(), by: other.by.clone() };
                        let wanted = Claimed { path: path.copy(), by: by.to_owned() };
                        proof {
                            assert(s[found as int].path =~= path@.subrange(0, checked as int));
                            assert(is_prefix(s[found as int].path, path@));
                            assert(refuses(s[found as int], path@, by@));
                            assert(s.contains(standing@));
                        }
                        return Err(Refused { standing, wanted });
                    }
                    if other.path.same(path) {
                        proof {
                            let mine = ClaimView { path: path@, by: by@ };
                            assert(s[found as int] == mine);
                            assert(!met_by_another(s, path@, by@)) by {
                                if met_by_another(s, path@, by@) {
                                    let k = choose|k: int|
                                        0 <= k < s.len() && refuses(#[trigger] s[k], path@, by@);
                                    assert(overlaps(s[k].path, s[found as int].path));
                                }
                            }
                        }
                        return Ok(());
                    }
                },
                Err(_) => {},
            }
            proof {
                assert forall|i: int|
                    0 <= i < s.len() && is_prefix(#[trigger] s[i].path, path@) && s[i].path.len()
                        > checked - 1 implies s[i].by == by@ && s[i].path.len() < n by {
                    if s[i].path.len() == checked {
                        assert(s[i].path =~= above@);
                        assert(path@.subrange(0, n as int) =~= path@);
                        lemma_path_lt_irreflexive(above@);
                        match res {
                            Ok(found) => {
                                if found != i {
                                    if found < i {
                                        assert(path_lt(s[found as int].path, s[i].path));
                                    } else {
                                        assert(path_lt(s[i].path, s[found as int].path));
                                    }
                                }
                            },
                            Err(at) => {
                                if i < at {
                                    assert(path_lt(s[i].path, above@));
                                } else {
                                    assert(path_lt(above@, s[i].path));
                                }
                            },
                        }
                    }
                }
            }
            if checked == 0 {
                break;
            }
            let parent = above.parent();
            match parent {
                Some(p) => {
                    above = p;
                },
                None => {
                    break;
                },
            }
            proof {
                assert(above@ =~= path@.subrange(0, checked - 1));
            }
            checked = checked - 1;
        }
        let at = match self.find(path) {
            Ok(i) => {
                proof {
                    assert(path@.subrange(0, path@.len() as int) =~= path@);
                    assert(is_prefix(s[i as int].path, path@));
                }
                return Ok(());
            },
            Err(at) => at,
        };
        let mut i: usize = at;
        while i < self.claims.len() && path.holds(&self.claims[i].path)
            invariant
                self.wf(),
                self@ == s,
                at <= i <= s.len(),
                forall|k: int| 0 <= k < at ==> path_lt(#[trigger] s[k].path, path@),
                forall|k: int| at <= k < s.len() ==> path_lt(path@, #[trigger] s[k].path),
                forall|k: int| at <= k < i ==> is_prefix(path@, (#[trigger] s[k]).path) && s[k].by == by@,
            decreases s.len() - i,
        {
            let other = &self.claims[i];
            if !crate::path::str_eq(other.by.as_str(), by) {
                let standing = Claimed { path: other.path.copy(), by: other.by.clone() };
                let wanted = Claimed { path: path.copy(), by: by.to_owned() };
                proof {
                    assert(refuses(s[i as int], path@, by@));
                    assert(s.contains(standing@));
                }
                return Err(Refused { standing, wanted });
            }
            i = i + 1;
        }
        let ghost mine = ClaimView { path: path@, by: by@ };
        proof {
            assert(!met_by_another(s, path@, by@)) by {
                if met_by_another(s, path@, by@) {
                    let k = choose|k: int| 0 <= k < s.len() && refuses(#[trigger] s[k], path@, by@);
                    if is_prefix(s[k].path, path@) {
                    } else {
                        assert(is_prefix(path@, s[k].path));
                        lemma_prefix_not_after(path@, s[k].path);
                        if k < at {
                        } else if k < i {
                        } else {
                            assert(i < s.len());
                            assert(!is_prefix(path@, s[i as int].path));
                            lemma_path_lt_total(path@, s[i as int].path);
                            if k > i {
                                lemma_subtree_is_a_run(path@, s[i as int].path, s[k].path);
                            }
                        }
                    }
                }
            }
            assert(!s.contains(mine)) by {
                if s.contains(mine) {
                    let k = choose|k: int| 0 <= k < s.len() && s[k] == mine;
                    lemma_path_lt_irreflexive(path@);
                    if k < at {
                        assert(path_lt(s[k].path, path@));
                    } else {
                        assert(path_lt(path@, s[k].path));
                    }
                }
            }
        }
        let entry = Claimed { path: path.copy(), by: by.to_owned() };
        self.claims.insert(at, entry);
        proof {
            let t = self@;
            assert(t =~= s.insert(at as int, mine));
            assert forall|x: int, y: int| 0 <= x < y < t.len() implies path_lt(
                #[trigger] t[x].path,
                #[trigger] t[y].path,
            ) by {
                if y < at {
                } else if x < at && y == at {
                } else if x < at {
                    lemma_path_lt_transitive(s[x].path, path@, s[y - 1].path);
                } else if x == at {
                } else {
                }
            }
            assert forall|x: int, y: int|
                0 <= x < t.len() && 0 <= y < t.len() && (#[trigger] t[x]).by != (
                #[trigger] t[y]).by implies !overlaps(t[x].path, t[y].path) by {
                if x == at && y != at {
                    let yy = if y < at {
                        y
                    } else {
                        y - 1
                    };
                    assert(t[y] == s[yy]);
                    assert(!refuses(s[yy], path@, by@));
                } else if y == at && x != at {
                    let xx = if x < at {
                        x
                    } else {
                        x - 1
                    };
                    assert(t[x] == s[xx]);
                    assert(!refuses(s[xx], path@, by@));
                } else if x != at && y != at {
                    let xx = if x < at {
                        x
                    } else {
                        x - 1
                    };
                    let yy = if y < at {
                        y
                    } else {
                        y - 1
                    };
                    assert(t[x] == s[xx]);
                    assert(t[y] == s[yy]);
                }
            }
            assert forall|c: ClaimView| #![trigger t.contains(c)] t.contains(c) <==> (s.contains(c)
                || c == mine) by {
                if t.contains(c) {
                    let k = choose|k: int| 0 <= k < t.len() && t[k] == c;
                    if k < at {
                        assert(s[k] == c);
                    } else if k > at {
                        assert(s[k - 1] == c);
                    }
                }
                if s.contains(c) {
                    let k = choose|k: int| 0 <= k < s.len() && s[k] == c;
                    if k < at {
                        assert(t[k] == c);
                    } else {
                        assert(t[k + 1] == c);
                    }
                }
                if c == mine {
                    assert(t[at as int] == c);
                }
            }
        }
        Ok(())
    }

    /// The schema that claimed exactly `path`, if one did.
    pub fn declared_by(&self, path: &StorePath) -> (r: Option<String>)
        requires
            self.wf(),
        ensures
            match r {
                Some(by) => self@.contains(ClaimView { path: path@, by: by@ }),
                None => forall|i: int| 0 <= i < self@.len() ==> (#[trigger] self@[i]).path != path@,
            },
    {
        match self.find(path) {
            Ok(i) => {
                let by = self.claims[i].by.clone();
                proof {
                    assert(self@[i as int] == ClaimView { path: path@, by: by@ });
                }
                Some(by)
            },
            Err(_) => {
                proof {
                    assert forall|i: int| 0 <= i < self@.len() implies (
                    #[trigger] self@[i]).path != path@ by {
                        lemma_path_lt_irreflexive(path@);
                    }
                }
                None
            },
        }
    }
}

/// The claims stay sorted by path, whatever arrived and in whatever order:
/// every lookup rests on this.
pub proof fn law_claims_stay_sorted(owners: &Owners)
    requires
        owners.wf(),
    ensures
        sorted_by_path(owners@),
        owners_apart(owners@),
{
}

/// Claiming is idempotent for the owner that already holds the place: such a
/// claim is never refused, and (by `claim`'s contract) leaves the claims as
/// they were.
pub proof fn law_claiming_twice_is_one_claim(
    owners: &Owners,
    path: Seq<Seq<char>>,
    by: Seq<char>,
)
    requires
        owners.wf(),
        owners@.contains(ClaimView { path, by }),
    ensures
        !met_by_another(owners@, path, by),
{
    let s = owners@;
    let k = choose|k: int| 0 <= k < s.len() && s[k] == ClaimView { path, by };
    if met_by_another(s, path, by) {
        let j = choose|j: int| 0 <= j < s.len() && refuses(#[trigger] s[j], path, by);
        assert(s[j].by != s[k].by);
    }
}

/// One owner may take any set of places at all: a claim is only ever refused
/// on account of somebody else's.
pub proof fn law_one_owner_takes_any_set(owners: &Owners, path: Seq<Seq<char>>, by: Seq<char>)
    requires
        forall|i: int| 0 <= i < owners@.len() ==> (#[trigger] owners@[i]).by == by,
    ensures
        !met_by_another(owners@, path, by),
{
}

} // verus!
