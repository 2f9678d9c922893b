//! Turning a comparison round: what one direction releases, the other
//! claims. A rename cannot be told from a removal beside an addition, and
//! this is the same statement said from the other end.
use crate::fields::{FieldDescriptor, Role};
use crate::meta::StoredFieldEntry;
use crate::moved::{
    claimed_at, first_named, named_in, old_one, places_one, places_spec, released_at,
    stored_places_one, stored_places_spec, walk_new, walk_old, walk_spec, MovedView, What,
};
use vstd::multiset::Multiset;
use vstd::prelude::*;

verus! {

/// The places a list of differences releases, as many times as it does.
pub open spec fn released_in(ms: Seq<MovedView>) -> Multiset<Seq<Seq<char>>>
    decreases ms.len(),
{
    if ms.len() == 0 {
        Multiset::empty()
    } else {
        released_in(ms.drop_last()).add(
            if ms.last().what == What::Released {
                Multiset::singleton(ms.last().at)
            } else {
                Multiset::empty()
            },
        )
    }
}

/// The places a list of differences claims, as many times as it does.
pub open spec fn claimed_in(ms: Seq<MovedView>) -> Multiset<Seq<Seq<char>>>
    decreases ms.len(),
{
    if ms.len() == 0 {
        Multiset::empty()
    } else {
        claimed_in(ms.drop_last()).add(
            if ms.last().what == What::Claimed {
                Multiset::singleton(ms.last().at)
            } else {
                Multiset::empty()
            },
        )
    }
}

/// A list of places, as many times as each occurs.
pub open spec fn bag(p: Seq<Seq<Seq<char>>>) -> Multiset<Seq<Seq<char>>>
    decreases p.len(),
{
    if p.len() == 0 {
        Multiset::empty()
    } else {
        bag(p.drop_last()).insert(p.last())
    }
}

/// Whether a recorded tree is what a declared tree was written down as:
/// the same names, roles and layout, level by level.
pub open spec fn same_tree(s: Seq<StoredFieldEntry>, f: Seq<FieldDescriptor>) -> bool
    decreases s,
{
    &&& s.len() == f.len()
    &&& s.len() > 0 ==> same_tree(s.drop_last(), f.drop_last()) && same_one(s.last(), f.last())
}

pub open spec fn same_one(e: StoredFieldEntry, d: FieldDescriptor) -> bool
    decreases e,
{
    &&& e.name@ == d.name@
    &&& e.shape.role == d.role
    &&& e.shape.flattened == d.flattened
    &&& e.shape.optional == d.optional
    &&& same_tree(e.shape.children@, d.children@)
}

/// Whether no two entries at any level of a recorded tree share a name,
/// which no declaration can write.
pub open spec fn stored_distinct(s: Seq<StoredFieldEntry>) -> bool
    decreases s,
{
    if s.len() == 0 {
        true
    } else {
        &&& stored_distinct(s.drop_last())
        &&& !named_in(s.drop_last(), s.last().name@)
        &&& stored_distinct_one(s.last())
    }
}

pub open spec fn stored_distinct_one(e: StoredFieldEntry) -> bool
    decreases e,
{
    stored_distinct(e.shape.children@)
}

proof fn lemma_released_add(x: Seq<MovedView>, y: Seq<MovedView>)
    ensures
        released_in(x + y) =~= released_in(x).add(released_in(y)),
        claimed_in(x + y) =~= claimed_in(x).add(claimed_in(y)),
    decreases y.len(),
{
    if y.len() == 0 {
        assert(x + y =~= x);
    } else {
        lemma_released_add(x, y.drop_last());
        assert((x + y).drop_last() =~= x + y.drop_last());
        assert((x + y).last() == y.last());
    }
}

proof fn lemma_marked(p: Seq<Seq<Seq<char>>>)
    ensures
        released_in(released_at(p)) =~= bag(p),
        claimed_in(released_at(p)) =~= Multiset::empty(),
        claimed_in(claimed_at(p)) =~= bag(p),
        released_in(claimed_at(p)) =~= Multiset::empty(),
    decreases p.len(),
{
    if p.len() > 0 {
        lemma_marked(p.drop_last());
        assert(released_at(p).drop_last() =~= released_at(p.drop_last()));
        assert(claimed_at(p).drop_last() =~= claimed_at(p.drop_last()));
    } else {
        assert(released_at(p) =~= Seq::empty());
        assert(claimed_at(p) =~= Seq::empty());
    }
}

proof fn lemma_same_tree_index(s: Seq<StoredFieldEntry>, f: Seq<FieldDescriptor>)
    requires
        same_tree(s, f),
    ensures
        s.len() == f.len(),
        forall|i: int| 0 <= i < s.len() ==> same_one(#[trigger] s[i], f[i]),
    decreases s.len(),
{
    if s.len() > 0 {
        lemma_same_tree_index(s.drop_last(), f.drop_last());
        assert forall|i: int| 0 <= i < s.len() implies same_one(#[trigger] s[i], f[i]) by {
            if i < s.len() - 1 {
                assert(s.drop_last()[i] == s[i]);
                assert(f.drop_last()[i] == f[i]);
            }
        }
    }
}

proof fn lemma_distinct_index(s: Seq<StoredFieldEntry>)
    requires
        stored_distinct(s),
    ensures
        forall|i: int| 0 <= i < s.len() ==> stored_distinct(#[trigger] s[i].shape.children@),
        forall|i: int, j: int| 0 <= i < j < s.len() ==> (#[trigger] s[i]).name@ != (#[trigger] s[j]).name@,
    decreases s.len(),
{
    if s.len() > 0 {
        let t = s.drop_last();
        lemma_distinct_index(t);
        assert(stored_distinct_one(s.last()));
        assert forall|i: int| 0 <= i < s.len() implies stored_distinct(#[trigger] s[i].shape.children@) by {
            if i < s.len() - 1 {
                assert(t[i] == s[i]);
            } else {
                assert(s[i] == s.last());
            }
        }
        assert forall|i: int, j: int| 0 <= i < j < s.len() implies (#[trigger] s[i]).name@ != (#[trigger] s[j]).name@ by {
            assert(t[i] == s[i]);
            if j < s.len() - 1 {
                assert(t[j] == s[j]);
            } else if s[i].name@ == s[j].name@ {
                assert(named_in(t, s.last().name@));
            }
        }
    }
}

proof fn lemma_first_named_full(now: Seq<FieldDescriptor>, name: Seq<Seq<char>>)
    ensures
        0 <= first_named(now, name) <= now.len(),
        first_named(now, name) < now.len() ==> now[first_named(now, name)].name@ == name,
        forall|i: int| 0 <= i < first_named(now, name) ==> (#[trigger] now[i]).name@ != name,
    decreases now.len(),
{
    if now.len() > 0 {
        let t = now.drop_last();
        lemma_first_named_full(t, name);
        assert forall|i: int| 0 <= i < first_named(now, name) implies (#[trigger] now[i]).name@ != name by {
            if i < now.len() - 1 {
                assert(t[i] == now[i]);
            }
        }
        let k = first_named(t, name);
        if k < now.len() - 1 {
            assert(t[k] == now[k]);
        }
    }
}

/// Whether an entry is matched across the two trees: recorded by name on
/// one side exactly where declared by name on the other.
proof fn lemma_matched(s: Seq<StoredFieldEntry>, f: Seq<FieldDescriptor>, name: Seq<Seq<char>>)
    requires
        same_tree(s, f),
    ensures
        named_in(s, name) <==> first_named(f, name) < f.len(),
        first_named(f, name) < f.len() ==> s[first_named(f, name)].name@ == name,
{
    lemma_same_tree_index(s, f);
    lemma_first_named_full(f, name);
    if named_in(s, name) {
        let i = choose|i: int| 0 <= i < s.len() && (#[trigger] s[i]).name@ == name;
        assert(same_one(s[i], f[i]));
        assert(f[i].name@ == name);
    }
    if first_named(f, name) < f.len() {
        let j = first_named(f, name);
        assert(same_one(s[j], f[j]));
        assert(s[j].name@ == name);
    }
}

/// A recorded tree and the declaration it was written from hold the same
/// places.
proof fn lemma_same_places(under: Seq<Seq<char>>, s: Seq<StoredFieldEntry>, f: Seq<FieldDescriptor>)
    requires
        same_tree(s, f),
    ensures
        stored_places_spec(under, s) == places_spec(under, f),
    decreases s, 1int,
{
    if s.len() > 0 {
        lemma_same_places(under, s.drop_last(), f.drop_last());
        lemma_same_places_one(under, s.last(), f.last());
    }
}

proof fn lemma_same_places_one(under: Seq<Seq<char>>, e: StoredFieldEntry, d: FieldDescriptor)
    requires
        same_one(e, d),
    ensures
        stored_places_one(under, e) == places_one(under, d),
    decreases e, 0int,
{
    if e.shape.role == Role::Node {
        lemma_same_places(crate::moved::stored_below(e, under), e.shape.children@, d.children@);
    }
}

/// Nothing a walk's claims part releases.
proof fn lemma_walk_new_releases_nothing(under: Seq<Seq<char>>, was: Seq<StoredFieldEntry>, now: Seq<FieldDescriptor>)
    ensures
        released_in(walk_new(under, was, now)) =~= Multiset::empty(),
    decreases now.len(),
{
    if now.len() > 0 {
        lemma_walk_new_releases_nothing(under, was, now.drop_last());
        let f = now.last();
        let tail = if named_in(was, f.name@) {
            Seq::empty()
        } else {
            claimed_at(places_one(under, f))
        };
        lemma_marked(places_one(under, f));
        lemma_released_add(walk_new(under, was, now.drop_last()), tail);
        assert(released_in(Seq::<MovedView>::empty()) =~= Multiset::empty());
    } else {
        assert(walk_new(under, was, now) =~= Seq::empty());
    }
}

/// Against nothing declared, a recorded tree claims nothing.
proof fn lemma_walk_old_against_nothing_claims_nothing(under: Seq<Seq<char>>, was: Seq<StoredFieldEntry>)
    ensures
        claimed_in(walk_old(under, was, Seq::empty())) =~= Multiset::empty(),
    decreases was.len(),
{
    if was.len() > 0 {
        let e = was.last();
        lemma_walk_old_against_nothing_claims_nothing(under, was.drop_last());
        assert(first_named(Seq::<FieldDescriptor>::empty(), e.name@) == 0);
        lemma_marked(crate::moved::stored_places_spec(crate::moved::stored_below(e, under), e.shape.children@));
        assert(claimed_in(old_one(under, e, Seq::empty())) =~= Multiset::empty()) by {
            if e.shape.role != Role::Node {
                let one = seq![MovedView { at: under + e.name@, what: What::Released }];
                assert(one.drop_last() =~= Seq::<MovedView>::empty());
                assert(claimed_in(one.drop_last()) =~= Multiset::empty());
                assert(one.last().what != What::Claimed);
                assert(claimed_in(one) =~= Multiset::empty());
            }
        }
        lemma_released_add(walk_old(under, was.drop_last(), Seq::empty()), old_one(under, e, Seq::empty()));
    } else {
        assert(walk_old(under, was, Seq::empty()) =~= Seq::empty());
    }
}

/// The claims of the entries of `bs` named `x`, in `af`'s terms.
pub open spec fn claims_named(
    under: Seq<Seq<char>>,
    bs: Seq<StoredFieldEntry>,
    af: Seq<FieldDescriptor>,
    x: Seq<Seq<char>>,
) -> Multiset<Seq<Seq<char>>>
    decreases bs.len(),
{
    if bs.len() == 0 {
        Multiset::empty()
    } else {
        claims_named(under, bs.drop_last(), af, x).add(
            if bs.last().name@ == x {
                claimed_in(old_one(under, bs.last(), af))
            } else {
                Multiset::empty()
            },
        )
    }
}

/// An entry of a name the last declaration does not have sees the same
/// thing with or without it.
proof fn lemma_old_one_without_last(under: Seq<Seq<char>>, b: StoredFieldEntry, af: Seq<FieldDescriptor>)
    requires
        af.len() > 0,
        af.last().name@ != b.name@,
    ensures
        old_one(under, b, af) == old_one(under, b, af.drop_last()),
{
    let t = af.drop_last();
    let k = first_named(t, b.name@);
    lemma_first_named_full(t, b.name@);
    if k < af.len() - 1 {
        assert(t[k] == af[k]);
        assert(first_named(af, b.name@) == k);
    } else {
        assert(first_named(af, b.name@) == af.len());
    }
}

/// Adding a last declaration adds to what the recorded entries claim only
/// through the entries of its name.
proof fn lemma_claims_with_last(under: Seq<Seq<char>>, bs: Seq<StoredFieldEntry>, af: Seq<FieldDescriptor>)
    requires
        af.len() > 0,
        forall|i: int| 0 <= i < af.len() - 1 ==> (#[trigger] af[i]).name@ != af.last().name@,
    ensures
        claimed_in(walk_old(under, bs, af)) =~= claimed_in(walk_old(under, bs, af.drop_last())).add(
            claims_named(under, bs, af, af.last().name@),
        ),
    decreases bs.len(),
{
    let t = af.drop_last();
    let x = af.last().name@;
    if bs.len() > 0 {
        let b = bs.last();
        lemma_claims_with_last(under, bs.drop_last(), af);
        lemma_released_add(walk_old(under, bs.drop_last(), af), old_one(under, b, af));
        lemma_released_add(walk_old(under, bs.drop_last(), t), old_one(under, b, t));
        if b.name@ != x {
            lemma_old_one_without_last(under, b, af);
        } else {
            lemma_first_named_full(t, x);
            assert(first_named(t, x) == t.len()) by {
                if first_named(t, x) < t.len() {
                    assert(t[first_named(t, x)] == af[first_named(t, x)]);
                }
            }
            lemma_marked(crate::moved::stored_places_spec(crate::moved::stored_below(b, under), b.shape.children@));
            assert(claimed_in(old_one(under, b, t)) =~= Multiset::empty()) by {
                if b.shape.role != Role::Node {
                    let one = seq![MovedView { at: under + b.name@, what: What::Released }];
                    assert(one.drop_last() =~= Seq::<MovedView>::empty());
                    assert(claimed_in(one.drop_last()) =~= Multiset::empty());
                    assert(one.last().what != What::Claimed);
                    assert(claimed_in(one) =~= Multiset::empty());
                }
            }
        }
    } else {
        assert(walk_old(under, bs, af) =~= Seq::empty());
        assert(walk_old(under, bs, t) =~= Seq::empty());
    }
}

proof fn lemma_claims_named_unique(under: Seq<Seq<char>>, bs: Seq<StoredFieldEntry>, af: Seq<FieldDescriptor>, x: Seq<Seq<char>>, j: int)
    requires
        forall|a: int, b: int| 0 <= a < b < bs.len() ==> (#[trigger] bs[a]).name@ != (#[trigger] bs[b]).name@,
        -1 <= j < bs.len(),
        j >= 0 ==> bs[j].name@ == x,
        j < 0 ==> !named_in(bs, x),
    ensures
        claims_named(under, bs, af, x) =~= (if j >= 0 {
            claimed_in(old_one(under, bs[j], af))
        } else {
            Multiset::empty()
        }),
    decreases bs.len(),
{
    if bs.len() > 0 {
        let t = bs.drop_last();
        assert forall|a: int, b: int| 0 <= a < b < t.len() implies (#[trigger] t[a]).name@ != (#[trigger] t[b]).name@ by {
            assert(t[a] == bs[a] && t[b] == bs[b]);
        }
        if j == bs.len() - 1 {
            assert(!named_in(t, x)) by {
                if named_in(t, x) {
                    let i = choose|i: int| 0 <= i < t.len() && (#[trigger] t[i]).name@ == x;
                    assert(t[i] == bs[i]);
                }
            }
            lemma_claims_named_unique(under, t, af, x, -1);
        } else {
            if j >= 0 {
                assert(t[j] == bs[j]);
                assert(bs.last().name@ != x);
            } else {
                assert(!named_in(t, x)) by {
                    if named_in(t, x) {
                        let i = choose|i: int| 0 <= i < t.len() && (#[trigger] t[i]).name@ == x;
                        assert(t[i] == bs[i]);
                    }
                }
                assert(bs.last().name@ != x) by {
                    if bs.last().name@ == x {
                        assert(bs[bs.len() - 1].name@ == x);
                    }
                }
            }
            lemma_claims_named_unique(under, t, af, x, j);
        }
    }
}


/// What a recorded entry and the declaration of its name have below them.
pub open spec fn below_of(under: Seq<Seq<char>>, old: StoredFieldEntry, new: FieldDescriptor) -> Seq<MovedView> {
    if old.shape.flattened == new.flattened {
        walk_spec(
            if new.flattened {
                under
            } else {
                under + old.name@
            },
            old.shape.children@,
            new.children@,
        )
    } else {
        Seq::empty()
    }
}

proof fn lemma_single(m: MovedView)
    ensures
        released_in(seq![m]) =~= (if m.what == What::Released {
            Multiset::singleton(m.at)
        } else {
            Multiset::empty()
        }),
        claimed_in(seq![m]) =~= (if m.what == What::Claimed {
            Multiset::singleton(m.at)
        } else {
            Multiset::empty()
        }),
{
    let one = seq![m];
    assert(one.drop_last() =~= Seq::<MovedView>::empty());
    assert(released_in(one.drop_last()) =~= Multiset::empty());
    assert(claimed_in(one.drop_last()) =~= Multiset::empty());
    assert(one.last() == m);
}

/// A matched entry releases and claims only what its children do.
proof fn lemma_old_one_matched(under: Seq<Seq<char>>, old: StoredFieldEntry, now: Seq<FieldDescriptor>)
    requires
        first_named(now, old.name@) < now.len(),
    ensures
        released_in(old_one(under, old, now)) =~= released_in(below_of(under, old, now[first_named(now, old.name@)])),
        claimed_in(old_one(under, old, now)) =~= claimed_in(below_of(under, old, now[first_named(now, old.name@)])),
{
    lemma_first_named_full(now, old.name@);
    let j = first_named(now, old.name@);
    let new = now[j];
    let at = under + old.name@;
    let has_a_place = !(old.shape.role == Role::Node && new.role == Role::Node);
    let role_part = if has_a_place && old.shape.role != new.role {
        seq![MovedView { at, what: What::Role { was: old.shape.role, now: new.role } }]
    } else {
        Seq::empty()
    };
    let flat_part = if old.shape.flattened != new.flattened {
        seq![MovedView { at, what: What::Flattened { now: new.flattened } }]
    } else {
        Seq::empty()
    };
    let optional_part = if has_a_place && old.shape.optional != new.optional {
        seq![MovedView { at, what: What::Optional { now: new.optional } }]
    } else {
        Seq::empty()
    };
    let below = below_of(under, old, new);
    assert(old_one(under, old, now) == role_part + flat_part + optional_part + below);
    lemma_single(MovedView { at, what: What::Role { was: old.shape.role, now: new.role } });
    lemma_single(MovedView { at, what: What::Flattened { now: new.flattened } });
    lemma_single(MovedView { at, what: What::Optional { now: new.optional } });
    assert(released_in(Seq::<MovedView>::empty()) =~= Multiset::empty());
    assert(claimed_in(Seq::<MovedView>::empty()) =~= Multiset::empty());
    lemma_released_add(role_part, flat_part);
    lemma_released_add(role_part + flat_part, optional_part);
    lemma_released_add(role_part + flat_part + optional_part, below);
}

/// An unmatched entry releases every place it held and claims nothing.
proof fn lemma_old_one_unmatched(under: Seq<Seq<char>>, old: StoredFieldEntry, now: Seq<FieldDescriptor>)
    requires
        first_named(now, old.name@) >= now.len(),
    ensures
        released_in(old_one(under, old, now)) =~= bag(stored_places_one(under, old)),
        claimed_in(old_one(under, old, now)) =~= Multiset::empty(),
{
    if old.shape.role == Role::Node {
        lemma_marked(stored_places_spec(crate::moved::stored_below(old, under), old.shape.children@));
    } else {
        let m = MovedView { at: under + old.name@, what: What::Released };
        lemma_single(m);
        let p = seq![under + old.name@];
        assert(p.drop_last() =~= Seq::<Seq<Seq<char>>>::empty());
        assert(bag(p.drop_last()) =~= Multiset::empty());
        assert(bag(p) =~= Multiset::singleton(under + old.name@));
    }
}

proof fn lemma_mirror(
    under: Seq<Seq<char>>,
    as_: Seq<StoredFieldEntry>,
    af: Seq<FieldDescriptor>,
    bs: Seq<StoredFieldEntry>,
    bf: Seq<FieldDescriptor>,
)
    requires
        same_tree(as_, af),
        same_tree(bs, bf),
        stored_distinct(as_),
        stored_distinct(bs),
    ensures
        released_in(walk_spec(under, as_, bf)) =~= claimed_in(walk_spec(under, bs, af)),
    decreases as_, 2int,
{
    lemma_mirror_old(under, as_, af, bs, bf);
    lemma_walk_new_releases_nothing(under, as_, bf);
    lemma_released_add(walk_old(under, as_, bf), walk_new(under, as_, bf));
    lemma_released_add(walk_old(under, bs, af), walk_new(under, bs, af));
}

proof fn lemma_mirror_old(
    under: Seq<Seq<char>>,
    as_: Seq<StoredFieldEntry>,
    af: Seq<FieldDescriptor>,
    bs: Seq<StoredFieldEntry>,
    bf: Seq<FieldDescriptor>,
)
    requires
        same_tree(as_, af),
        same_tree(bs, bf),
        stored_distinct(as_),
        stored_distinct(bs),
    ensures
        released_in(walk_old(under, as_, bf)) =~= claimed_in(walk_old(under, bs, af)).add(
            claimed_in(walk_new(under, bs, af)),
        ),
    decreases as_, 1int,
{
    if as_.len() == 0 {
        assert(af =~= Seq::<FieldDescriptor>::empty());
        lemma_walk_old_against_nothing_claims_nothing(under, bs);
        assert(walk_new(under, bs, af) =~= Seq::empty());
        assert(walk_old(under, as_, bf) =~= Seq::empty());
        assert(released_in(Seq::<MovedView>::empty()) =~= Multiset::empty());
        assert(claimed_in(Seq::<MovedView>::empty()) =~= Multiset::empty());
    } else {
        let a = as_.last();
        let d = af.last();
        let as1 = as_.drop_last();
        let af1 = af.drop_last();
        assert(same_one(a, d));
        assert(stored_distinct_one(a));
        lemma_mirror_old(under, as1, af1, bs, bf);
        lemma_same_tree_index(as_, af);
        lemma_distinct_index(as_);
        assert forall|i: int| 0 <= i < af.len() - 1 implies (#[trigger] af[i]).name@ != af.last().name@ by {
            assert(same_one(as_[i], af[i]));
            assert(same_one(as_[as_.len() - 1], af[af.len() - 1]));
            assert(as_[i].name@ != as_[as_.len() - 1].name@);
        }
        lemma_claims_with_last(under, bs, af);
        lemma_released_add(walk_old(under, as1, bf), old_one(under, a, bf));
        let tail = if named_in(bs, d.name@) {
            Seq::empty()
        } else {
            claimed_at(places_one(under, d))
        };
        assert(walk_new(under, bs, af) == walk_new(under, bs, af1) + tail);
        lemma_released_add(walk_new(under, bs, af1), tail);
        lemma_matched(bs, bf, a.name@);
        lemma_distinct_index(bs);
        lemma_same_tree_index(bs, bf);
        lemma_first_named_full(bf, a.name@);
        let j = first_named(bf, a.name@);
        if j >= bf.len() {
            lemma_old_one_unmatched(under, a, bf);
            lemma_same_places_one(under, a, d);
            lemma_marked(places_one(under, d));
            lemma_claims_named_unique(under, bs, af, d.name@, -1);
        } else {
            let b = bs[j];
            let g = bf[j];
            assert(same_one(b, g));
            lemma_claims_named_unique(under, bs, af, d.name@, j);
            lemma_old_one_matched(under, a, bf);
            lemma_first_named_full(af, b.name@);
            assert(first_named(af, b.name@) == af.len() - 1) by {
                let k = first_named(af, b.name@);
                if k < af.len() - 1 {
                    assert(af[k].name@ == a.name@);
                }
                assert(af[af.len() - 1].name@ == b.name@);
            }
            lemma_old_one_matched(under, b, af);
            assert(af[af.len() - 1] == d);
            if a.shape.flattened == g.flattened {
                lemma_mirror(
                    if g.flattened {
                        under
                    } else {
                        under + a.name@
                    },
                    a.shape.children@,
                    d.children@,
                    b.shape.children@,
                    g.children@,
                );
            } else {
                assert(released_in(Seq::<MovedView>::empty()) =~= Multiset::empty());
                assert(claimed_in(Seq::<MovedView>::empty()) =~= Multiset::empty());
            }
            assert(released_in(Seq::<MovedView>::empty()) =~= Multiset::empty());
            assert(claimed_in(Seq::<MovedView>::empty()) =~= Multiset::empty());
        }
    }
}

/// Turn a comparison round and a release becomes a claim: what comparing
/// tree `a` as recorded against tree `b` as declared releases is exactly
/// what comparing `b` as recorded against `a` as declared claims, and the
/// other way about. A rename reads the same from either end, a release of
/// the old name beside a claim of the new.
pub proof fn law_release_and_claim_are_mirror_images(
    a_stored: Seq<StoredFieldEntry>,
    a_declared: Seq<FieldDescriptor>,
    b_stored: Seq<StoredFieldEntry>,
    b_declared: Seq<FieldDescriptor>,
)
    requires
        same_tree(a_stored, a_declared),
        same_tree(b_stored, b_declared),
        stored_distinct(a_stored),
        stored_distinct(b_stored),
    ensures
        released_in(walk_spec(Seq::empty(), a_stored, b_declared)) == claimed_in(
            walk_spec(Seq::empty(), b_stored, a_declared),
        ),
        claimed_in(walk_spec(Seq::empty(), a_stored, b_declared)) == released_in(
            walk_spec(Seq::empty(), b_stored, a_declared),
        ),
{
    lemma_mirror(Seq::empty(), a_stored, a_declared, b_stored, b_declared);
    lemma_mirror(Seq::empty(), b_stored, b_declared, a_stored, a_declared);
}


proof fn lemma_walk_new_all_named(under: Seq<Seq<char>>, was: Seq<StoredFieldEntry>, now: Seq<FieldDescriptor>)
    requires
        forall|i: int| 0 <= i < now.len() ==> named_in(was, (#[trigger] now[i]).name@),
    ensures
        walk_new(under, was, now) =~= Seq::empty(),
    decreases now.len(),
{
    if now.len() > 0 {
        let t = now.drop_last();
        assert forall|i: int| 0 <= i < t.len() implies named_in(was, (#[trigger] t[i]).name@) by {
            assert(t[i] == now[i]);
        }
        lemma_walk_new_all_named(under, was, t);
        assert(named_in(was, now[now.len() - 1].name@));
    }
}

proof fn lemma_same_twice(under: Seq<Seq<char>>, s: Seq<StoredFieldEntry>, f: Seq<FieldDescriptor>)
    requires
        same_tree(s, f),
        stored_distinct(s),
    ensures
        walk_spec(under, s, f) =~= Seq::empty(),
    decreases s, 2int,
{
    lemma_same_tree_index(s, f);
    lemma_distinct_index(s);
    assert forall|i: int| 0 <= i < f.len() implies named_in(s, (#[trigger] f[i]).name@) by {
        assert(same_one(s[i], f[i]));
        assert(s[i].name@ == f[i].name@);
    }
    lemma_walk_new_all_named(under, s, f);
    assert forall|i: int| 0 <= i < s.len() implies first_named(f, (#[trigger] s[i]).name@) == i by {
        lemma_first_named_full(f, s[i].name@);
        let k = first_named(f, s[i].name@);
        assert(same_one(s[i], f[i]));
        if k < i {
            assert(same_one(s[k], f[k]));
            assert(s[k].name@ != s[i].name@);
        } else if k > i {
            assert(f[i].name@ == s[i].name@);
        }
    }
    lemma_old_same(under, s, s.len() as int, f);
    assert(s.take(s.len() as int) =~= s);
}

proof fn lemma_old_same(under: Seq<Seq<char>>, s: Seq<StoredFieldEntry>, n: int, f: Seq<FieldDescriptor>)
    requires
        0 <= n <= s.len(),
        s.len() == f.len(),
        forall|i: int| 0 <= i < s.len() ==> same_one(#[trigger] s[i], f[i]),
        forall|i: int| 0 <= i < s.len() ==> stored_distinct(#[trigger] s[i].shape.children@),
        forall|i: int| 0 <= i < s.len() ==> first_named(f, (#[trigger] s[i]).name@) == i,
    ensures
        walk_old(under, s.take(n), f) =~= Seq::empty(),
    decreases s, 1int, n,
{
    if n > 0 {
        let t = s.take(n);
        assert(t.drop_last() =~= s.take(n - 1));
        lemma_old_same(under, s, n - 1, f);
        let e = s[n - 1];
        assert(t.last() == e);
        assert(same_one(e, f[n - 1]));
        assert(first_named(f, e.name@) == n - 1);
        let g = f[n - 1];
        lemma_same_twice(
            if g.flattened {
                under
            } else {
                under + e.name@
            },
            e.shape.children@,
            g.children@,
        );
        assert(old_one(under, e, f) =~= Seq::empty());
    }
}

/// Nothing moved between a tree and itself: a recorded tree compared
/// against the declaration it was written from reports no difference.
pub proof fn law_the_same_tree_twice_has_moved_nothing(stored: Seq<StoredFieldEntry>, declared: Seq<FieldDescriptor>)
    requires
        same_tree(stored, declared),
        stored_distinct(stored),
    ensures
        walk_spec(Seq::empty(), stored, declared) == Seq::<MovedView>::empty(),
{
    lemma_same_twice(Seq::empty(), stored, declared);
}

} // verus!
