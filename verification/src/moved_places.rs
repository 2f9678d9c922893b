//! The paths two trees of declarations lay out, and the law that a
//! comparison between them names none but those.
use crate::fields::{below_spec, FieldDescriptor, Role};
use crate::meta::StoredFieldEntry;
use crate::moved::{
    first_named, old_one, verdict_of, Verdict, What, places_one, places_spec, stored_below, stored_places_one,
    stored_places_spec, walk_new, walk_old, walk_spec, MovedView,
};
use vstd::prelude::*;

verus! {

/// Every path a recorded tree lays out under `under`: each entry its own,
/// and its children under it; a flattened entry lends its children no
/// segment and has no path of its own.
pub open spec fn stored_paths(under: Seq<Seq<char>>, was: Seq<StoredFieldEntry>) -> Seq<
    Seq<Seq<char>>,
>
    decreases was,
{
    if was.len() == 0 {
        Seq::empty()
    } else {
        stored_paths(under, was.drop_last()) + stored_paths_one(under, was.last())
    }
}

pub open spec fn stored_paths_one(under: Seq<Seq<char>>, e: StoredFieldEntry) -> Seq<
    Seq<Seq<char>>,
>
    decreases e,
{
    if e.shape.flattened {
        stored_paths(under, e.shape.children@)
    } else {
        seq![under + e.name@] + stored_paths(under + e.name@, e.shape.children@)
    }
}

/// The same, for the tree the code declares.
pub open spec fn declared_paths(under: Seq<Seq<char>>, now: Seq<FieldDescriptor>) -> Seq<
    Seq<Seq<char>>,
>
    decreases now,
{
    if now.len() == 0 {
        Seq::empty()
    } else {
        declared_paths(under, now.drop_last()) + declared_paths_one(under, now.last())
    }
}

pub open spec fn declared_paths_one(under: Seq<Seq<char>>, f: FieldDescriptor) -> Seq<
    Seq<Seq<char>>,
>
    decreases f,
{
    if f.flattened {
        declared_paths(under, f.children@)
    } else {
        seq![under + f.name@] + declared_paths(under + f.name@, f.children@)
    }
}

/// Whether only nodes are flattened, all the way down a recorded tree.
pub open spec fn stored_flat_ok(was: Seq<StoredFieldEntry>) -> bool
    decreases was,
{
    if was.len() == 0 {
        true
    } else {
        stored_flat_ok(was.drop_last()) && stored_flat_ok_one(was.last())
    }
}

pub open spec fn stored_flat_ok_one(e: StoredFieldEntry) -> bool
    decreases e,
{
    (e.shape.flattened ==> e.shape.role == Role::Node) && stored_flat_ok(e.shape.children@)
}

/// Whether only nodes are flattened, all the way down a declared tree.
pub open spec fn declared_flat_ok(now: Seq<FieldDescriptor>) -> bool
    decreases now,
{
    if now.len() == 0 {
        true
    } else {
        declared_flat_ok(now.drop_last()) && declared_flat_ok_one(now.last())
    }
}

pub open spec fn declared_flat_ok_one(f: FieldDescriptor) -> bool
    decreases f,
{
    (f.flattened ==> f.role == Role::Node) && declared_flat_ok(f.children@)
}

proof fn lemma_contains_add<A>(a: Seq<A>, b: Seq<A>)
    ensures
        forall|x: A| #[trigger] (a + b).contains(x) <==> a.contains(x) || b.contains(x),
{
    assert forall|x: A| #[trigger] (a + b).contains(x) <==> a.contains(x) || b.contains(x) by {
        if (a + b).contains(x) {
            let k = choose|k: int| 0 <= k < (a + b).len() && (a + b)[k] == x;
            if k < a.len() {
                assert(a[k] == x);
            } else {
                assert(b[k - a.len()] == x);
            }
        }
        if a.contains(x) {
            let k = choose|k: int| 0 <= k < a.len() && a[k] == x;
            assert((a + b)[k] == x);
        }
        if b.contains(x) {
            let k = choose|k: int| 0 <= k < b.len() && b[k] == x;
            assert((a + b)[k + a.len()] == x);
        }
    }
}

proof fn lemma_stored_member(under: Seq<Seq<char>>, was: Seq<StoredFieldEntry>, i: int)
    requires
        0 <= i < was.len(),
        stored_flat_ok(was),
    ensures
        stored_flat_ok_one(was[i]),
        forall|x: Seq<Seq<char>>| #[trigger] stored_paths_one(under, was[i]).contains(x) ==> stored_paths(under, was).contains(x),
    decreases was.len(),
{
    let t = was.drop_last();
    lemma_contains_add(stored_paths(under, t), stored_paths_one(under, was.last()));
    if i < was.len() - 1 {
        assert(t[i] == was[i]);
        lemma_stored_member(under, t, i);
    }
}

proof fn lemma_declared_member(under: Seq<Seq<char>>, now: Seq<FieldDescriptor>, i: int)
    requires
        0 <= i < now.len(),
        declared_flat_ok(now),
    ensures
        declared_flat_ok_one(now[i]),
        forall|x: Seq<Seq<char>>| #[trigger] declared_paths_one(under, now[i]).contains(x) ==> declared_paths(under, now).contains(x),
    decreases now.len(),
{
    let t = now.drop_last();
    lemma_contains_add(declared_paths(under, t), declared_paths_one(under, now.last()));
    if i < now.len() - 1 {
        assert(t[i] == now[i]);
        lemma_declared_member(under, t, i);
    }
}

/// Within one entry, the paths of its children sit among its own.
proof fn lemma_stored_children(under: Seq<Seq<char>>, e: StoredFieldEntry)
    ensures
        forall|x: Seq<Seq<char>>| #[trigger] stored_paths(stored_below(e, under), e.shape.children@).contains(x)
            ==> stored_paths_one(under, e).contains(x),
        !e.shape.flattened ==> stored_paths_one(under, e).contains(under + e.name@),
{
    if !e.shape.flattened {
        lemma_contains_add(seq![under + e.name@], stored_paths(under + e.name@, e.shape.children@));
        assert(seq![under + e.name@].contains(under + e.name@)) by {
            assert(seq![under + e.name@][0] == under + e.name@);
        }
    }
}

proof fn lemma_declared_children(under: Seq<Seq<char>>, f: FieldDescriptor)
    ensures
        forall|x: Seq<Seq<char>>| #[trigger] declared_paths(below_spec(&f, under), f.children@).contains(x)
            ==> declared_paths_one(under, f).contains(x),
        !f.flattened ==> declared_paths_one(under, f).contains(under + f.name@),
{
    if !f.flattened {
        lemma_contains_add(seq![under + f.name@], declared_paths(under + f.name@, f.children@));
        assert(seq![under + f.name@].contains(under + f.name@)) by {
            assert(seq![under + f.name@][0] == under + f.name@);
        }
    }
}

/// What a recorded tree holds is among the paths it lays out.
proof fn lemma_stored_places(under: Seq<Seq<char>>, was: Seq<StoredFieldEntry>)
    requires
        stored_flat_ok(was),
    ensures
        forall|x: Seq<Seq<char>>| #[trigger] stored_places_spec(under, was).contains(x) ==> stored_paths(under, was).contains(x),
    decreases was, 1int,
{
    if was.len() > 0 {
        let t = was.drop_last();
        let e = was.last();
        lemma_stored_places(under, t);
        lemma_stored_places_one(under, e);
        lemma_contains_add(stored_places_spec(under, t), stored_places_one(under, e));
        lemma_contains_add(stored_paths(under, t), stored_paths_one(under, e));
    }
}

proof fn lemma_stored_places_one(under: Seq<Seq<char>>, e: StoredFieldEntry)
    requires
        stored_flat_ok_one(e),
    ensures
        forall|x: Seq<Seq<char>>| #[trigger] stored_places_one(under, e).contains(x) ==> stored_paths_one(under, e).contains(x),
    decreases e, 0int,
{
    lemma_stored_children(under, e);
    if e.shape.role == Role::Node {
        lemma_stored_places(stored_below(e, under), e.shape.children@);
        assert(stored_places_one(under, e) == stored_places_spec(stored_below(e, under), e.shape.children@));
        assert forall|x: Seq<Seq<char>>| #[trigger] stored_places_one(under, e).contains(x) implies stored_paths_one(under, e).contains(x) by {
            assert(stored_paths(stored_below(e, under), e.shape.children@).contains(x));
        }
    } else {
        assert forall|x: Seq<Seq<char>>| #[trigger] stored_places_one(under, e).contains(x) implies stored_paths_one(under, e).contains(x) by {
            let k = choose|k: int| 0 <= k < stored_places_one(under, e).len() && stored_places_one(under, e)[k] == x;
            assert(x == under + e.name@);
        }
    }
}

/// What a declared tree owns is among the paths it lays out.
proof fn lemma_declared_places(under: Seq<Seq<char>>, now: Seq<FieldDescriptor>)
    requires
        declared_flat_ok(now),
    ensures
        forall|x: Seq<Seq<char>>| #[trigger] places_spec(under, now).contains(x) ==> declared_paths(under, now).contains(x),
    decreases now, 1int,
{
    if now.len() > 0 {
        let t = now.drop_last();
        let f = now.last();
        lemma_declared_places(under, t);
        lemma_declared_places_one(under, f);
        lemma_contains_add(places_spec(under, t), places_one(under, f));
        lemma_contains_add(declared_paths(under, t), declared_paths_one(under, f));
    }
}

proof fn lemma_declared_places_one(under: Seq<Seq<char>>, f: FieldDescriptor)
    requires
        declared_flat_ok_one(f),
    ensures
        forall|x: Seq<Seq<char>>| #[trigger] places_one(under, f).contains(x) ==> declared_paths_one(under, f).contains(x),
    decreases f, 0int,
{
    lemma_declared_children(under, f);
    if f.role == Role::Node {
        lemma_declared_places(below_spec(&f, under), f.children@);
        assert(places_one(under, f) == places_spec(below_spec(&f, under), f.children@));
        assert forall|x: Seq<Seq<char>>| #[trigger] places_one(under, f).contains(x) implies declared_paths_one(under, f).contains(x) by {
            assert(declared_paths(below_spec(&f, under), f.children@).contains(x));
        }
    } else {
        assert forall|x: Seq<Seq<char>>| #[trigger] places_one(under, f).contains(x) implies declared_paths_one(under, f).contains(x) by {
            let k = choose|k: int| 0 <= k < places_one(under, f).len() && places_one(under, f)[k] == x;
            assert(x == under + f.name@);
        }
    }
}

/// Whether every difference in `ms` is at a path of one of two lists.
pub open spec fn all_at(ms: Seq<MovedView>, a: Seq<Seq<Seq<char>>>, b: Seq<Seq<Seq<char>>>) -> bool {
    forall|k: int| 0 <= k < ms.len() ==> a.contains((#[trigger] ms[k]).at) || b.contains(ms[k].at)
}

proof fn lemma_all_at_add(x: Seq<MovedView>, y: Seq<MovedView>, a: Seq<Seq<Seq<char>>>, b: Seq<Seq<Seq<char>>>)
    requires
        all_at(x, a, b),
        all_at(y, a, b),
    ensures
        all_at(x + y, a, b),
{
    assert forall|k: int| 0 <= k < (x + y).len() implies a.contains((#[trigger] (x + y)[k]).at) || b.contains((x + y)[k].at) by {
        if k < x.len() {
            assert((x + y)[k] == x[k]);
        } else {
            assert((x + y)[k] == y[k - x.len()]);
        }
    }
}

proof fn lemma_all_at_widen(ms: Seq<MovedView>, a: Seq<Seq<Seq<char>>>, b: Seq<Seq<Seq<char>>>, a2: Seq<Seq<Seq<char>>>, b2: Seq<Seq<Seq<char>>>)
    requires
        all_at(ms, a, b),
        forall|x: Seq<Seq<char>>| #[trigger] a.contains(x) ==> a2.contains(x) || b2.contains(x),
        forall|x: Seq<Seq<char>>| #[trigger] b.contains(x) ==> a2.contains(x) || b2.contains(x),
    ensures
        all_at(ms, a2, b2),
{
    assert forall|k: int| 0 <= k < ms.len() implies a2.contains((#[trigger] ms[k]).at) || b2.contains(ms[k].at) by {
        if a.contains(ms[k].at) {
        } else {
            assert(b.contains(ms[k].at));
        }
    }
}

proof fn lemma_walk_paths(under: Seq<Seq<char>>, was: Seq<StoredFieldEntry>, now: Seq<FieldDescriptor>)
    requires
        stored_flat_ok(was),
        declared_flat_ok(now),
    ensures
        all_at(walk_spec(under, was, now), stored_paths(under, was), declared_paths(under, now)),
    decreases was, 2int,
{
    lemma_walk_old_paths(under, was, now);
    lemma_walk_new_paths(under, was, now);
    lemma_all_at_add(walk_old(under, was, now), walk_new(under, was, now), stored_paths(under, was), declared_paths(under, now));
}

proof fn lemma_walk_old_paths(under: Seq<Seq<char>>, was: Seq<StoredFieldEntry>, now: Seq<FieldDescriptor>)
    requires
        stored_flat_ok(was),
        declared_flat_ok(now),
    ensures
        all_at(walk_old(under, was, now), stored_paths(under, was), declared_paths(under, now)),
    decreases was, 1int,
{
    if was.len() > 0 {
        let t = was.drop_last();
        let e = was.last();
        lemma_walk_old_paths(under, t, now);
        lemma_old_one_paths(under, e, now);
        lemma_contains_add(stored_paths(under, t), stored_paths_one(under, e));
        lemma_all_at_widen(walk_old(under, t, now), stored_paths(under, t), declared_paths(under, now), stored_paths(under, was), declared_paths(under, now));
        lemma_all_at_widen(old_one(under, e, now), stored_paths_one(under, e), declared_paths(under, now), stored_paths(under, was), declared_paths(under, now));
        lemma_all_at_add(walk_old(under, t, now), old_one(under, e, now), stored_paths(under, was), declared_paths(under, now));
    } else {
        assert(walk_old(under, was, now) =~= Seq::empty());
    }
}

proof fn lemma_old_one_paths(under: Seq<Seq<char>>, old: StoredFieldEntry, now: Seq<FieldDescriptor>)
    requires
        stored_flat_ok_one(old),
        declared_flat_ok(now),
    ensures
        all_at(old_one(under, old, now), stored_paths_one(under, old), declared_paths(under, now)),
    decreases old, 0int,
{
    let at = under + old.name@;
    let j = first_named(now, old.name@);
    lemma_first_named_bounds(now, old.name@);
    lemma_stored_children(under, old);
    let sp = stored_paths_one(under, old);
    let dp = declared_paths(under, now);
    if j >= now.len() {
        if old.shape.role == Role::Node {
            let pl = stored_places_spec(stored_below(old, under), old.shape.children@);
            lemma_stored_places(stored_below(old, under), old.shape.children@);
            assert forall|k: int| 0 <= k < old_one(under, old, now).len() implies sp.contains((#[trigger] old_one(under, old, now)[k]).at) || dp.contains(old_one(under, old, now)[k].at) by {
                assert(old_one(under, old, now)[k].at == pl[k]);
                assert(pl.contains(pl[k]));
            }
        } else {
            assert forall|k: int| 0 <= k < old_one(under, old, now).len() implies sp.contains((#[trigger] old_one(under, old, now)[k]).at) || dp.contains(old_one(under, old, now)[k].at) by {
                assert(old_one(under, old, now)[k].at == at);
            }
        }
    } else {
        let new = now[j];
        lemma_declared_member(under, now, j);
        lemma_declared_children(under, new);
        assert(new.name@ == old.name@);
        let has_a_place = !(old.shape.role == Role::Node && new.role == Role::Node);
        // The path of the entry itself is laid out by whichever side is not
        // flattened, and one is wherever something about it is reported.
        assert((has_a_place || old.shape.flattened != new.flattened) ==> sp.contains(at) || dp.contains(at)) by {
            if !old.shape.flattened {
            } else if !new.flattened {
                assert(declared_paths_one(under, new).contains(at));
            } else {
                assert(old.shape.role == Role::Node && new.role == Role::Node);
            }
        }
        let role_part = if has_a_place && old.shape.role != new.role {
            seq![MovedView { at, what: crate::moved::What::Role { was: old.shape.role, now: new.role } }]
        } else {
            Seq::empty()
        };
        let flat_part = if old.shape.flattened != new.flattened {
            seq![MovedView { at, what: crate::moved::What::Flattened { now: new.flattened } }]
        } else {
            Seq::empty()
        };
        let optional_part = if has_a_place && old.shape.optional != new.optional {
            seq![MovedView { at, what: crate::moved::What::Optional { now: new.optional } }]
        } else {
            Seq::empty()
        };
        let below = if new.flattened {
            under
        } else {
            at
        };
        let below_part = if old.shape.flattened == new.flattened {
            walk_spec(below, old.shape.children@, new.children@)
        } else {
            Seq::empty()
        };
        assert(old_one(under, old, now) == role_part + flat_part + optional_part + below_part);
        assert(all_at(role_part, sp, dp));
        assert(all_at(flat_part, sp, dp));
        assert(all_at(optional_part, sp, dp));
        if old.shape.flattened == new.flattened {
            lemma_walk_paths(below, old.shape.children@, new.children@);
            assert(stored_below(old, under) == below);
            assert(below_spec(&new, under) == below);
            lemma_all_at_widen(below_part, stored_paths(below, old.shape.children@), declared_paths(below, new.children@), sp, dp);
        } else {
            assert(below_part =~= Seq::empty());
        }
        lemma_all_at_add(role_part, flat_part, sp, dp);
        lemma_all_at_add(role_part + flat_part, optional_part, sp, dp);
        lemma_all_at_add(role_part + flat_part + optional_part, below_part, sp, dp);
    }
}

proof fn lemma_first_named_bounds(now: Seq<FieldDescriptor>, name: Seq<Seq<char>>)
    ensures
        0 <= first_named(now, name) <= now.len(),
        first_named(now, name) < now.len() ==> now[first_named(now, name)].name@ == name,
    decreases now.len(),
{
    if now.len() > 0 {
        lemma_first_named_bounds(now.drop_last(), name);
        let k = first_named(now.drop_last(), name);
        if k < now.len() - 1 {
            assert(now.drop_last()[k] == now[k]);
        }
    }
}

proof fn lemma_walk_new_paths(under: Seq<Seq<char>>, was: Seq<StoredFieldEntry>, now: Seq<FieldDescriptor>)
    requires
        declared_flat_ok(now),
    ensures
        all_at(walk_new(under, was, now), stored_paths(under, was), declared_paths(under, now)),
    decreases now.len(),
{
    if now.len() > 0 {
        let t = now.drop_last();
        let f = now.last();
        lemma_walk_new_paths(under, was, t);
        lemma_declared_member(under, now, now.len() - 1);
        lemma_contains_add(declared_paths(under, t), declared_paths_one(under, f));
        lemma_all_at_widen(walk_new(under, was, t), stored_paths(under, was), declared_paths(under, t), stored_paths(under, was), declared_paths(under, now));
        let tail = if crate::moved::named_in(was, f.name@) {
            Seq::empty()
        } else {
            crate::moved::claimed_at(places_one(under, f))
        };
        assert(walk_new(under, was, now) == walk_new(under, was, t) + tail);
        lemma_declared_places_one(under, f);
        assert forall|k: int| 0 <= k < tail.len() implies stored_paths(under, was).contains((#[trigger] tail[k]).at) || declared_paths(under, now).contains(tail[k].at) by {
            assert(tail[k].at == places_one(under, f)[k]);
            assert(places_one(under, f).contains(places_one(under, f)[k]));
        }
        lemma_all_at_add(walk_new(under, was, t), tail, stored_paths(under, was), declared_paths(under, now));
    } else {
        assert(walk_new(under, was, now) =~= Seq::empty());
    }
}

/// Every place a comparison names is a path one of the two trees lays out:
/// it reports where things sit and does not invent a path. A flattened
/// entry lends its children no segment, so a walk that added one would
/// name a path neither tree has.
///
/// It holds of every tree a declaration can be written as, where only a node
/// is ever flattened. A flattened leaf, which no declaration writes, is
/// released at its own name while the layout gives it none.
pub proof fn law_every_reported_place_is_in_one_of_the_trees(was: Seq<StoredFieldEntry>, now: Seq<FieldDescriptor>)
    requires
        stored_flat_ok(was),
        declared_flat_ok(now),
    ensures
        forall|k: int|
            0 <= k < walk_spec(Seq::empty(), was, now).len() ==> stored_paths(Seq::empty(), was).contains(
                (#[trigger] walk_spec(Seq::empty(), was, now)[k]).at,
            ) || declared_paths(Seq::empty(), now).contains(walk_spec(Seq::empty(), was, now)[k].at),
{
    lemma_walk_paths(Seq::empty(), was, now);
}

proof fn lemma_first_named_is(now: Seq<FieldDescriptor>, name: Seq<Seq<char>>, j: int)
    requires
        0 <= j < now.len(),
        now[j].name@ == name,
        forall|k: int| 0 <= k < j ==> (#[trigger] now[k]).name@ != name,
    ensures
        first_named(now, name) == j,
    decreases now.len(),
{
    if j < now.len() - 1 {
        let t = now.drop_last();
        assert forall|k: int| 0 <= k < j implies (#[trigger] t[k]).name@ != name by {
            assert(t[k] == now[k]);
        }
        assert(t[j] == now[j]);
        lemma_first_named_is(t, name, j);
    } else {
        let t = now.drop_last();
        lemma_first_named_bounds(t, name);
        let k = first_named(t, name);
        if k < t.len() {
            assert(t[k] == now[k]);
        }
    }
}

proof fn lemma_walk_old_holds(under: Seq<Seq<char>>, was: Seq<StoredFieldEntry>, now: Seq<FieldDescriptor>, i: int)
    requires
        0 <= i < was.len(),
    ensures
        forall|m: MovedView| #[trigger] old_one(under, was[i], now).contains(m) ==> walk_old(under, was, now).contains(m),
    decreases was.len(),
{
    let t = was.drop_last();
    lemma_contains_add(walk_old(under, t, now), old_one(under, was.last(), now));
    if i < was.len() - 1 {
        assert(t[i] == was[i]);
        lemma_walk_old_holds(under, t, now, i);
    }
}

/// Where both trees declare a name and exactly one of them declares a node
/// there, the place changed role, and the comparison says so: a value stored
/// at a plain field that became a node, or the fields under a node that
/// became a plain field, are no longer under the declaration that wrote them,
/// which breaks.
pub proof fn law_a_place_that_became_or_stopped_being_a_node_changed_role(
    under: Seq<Seq<char>>,
    was: Seq<StoredFieldEntry>,
    now: Seq<FieldDescriptor>,
    i: int,
    j: int,
)
    requires
        0 <= i < was.len(),
        0 <= j < now.len(),
        now[j].name@ == was[i].name@,
        forall|k: int| 0 <= k < j ==> (#[trigger] now[k]).name@ != was[i].name@,
        (was[i].shape.role == Role::Node) != (now[j].role == Role::Node),
    ensures
        walk_spec(under, was, now).contains(
            MovedView { at: under + was[i].name@, what: What::Role { was: was[i].shape.role, now: now[j].role } },
        ),
        exists|k: int| 0 <= k < walk_spec(under, was, now).len()
            && verdict_of(#[trigger] walk_spec(under, was, now)[k].what) == Verdict::Breaks,
{
    let old = was[i];
    let new = now[j];
    let m = MovedView { at: under + old.name@, what: What::Role { was: old.shape.role, now: new.role } };
    lemma_first_named_is(now, old.name@, j);
    let one = old_one(under, old, now);
    assert(one[0] == m);
    assert(one.contains(m));
    lemma_walk_old_holds(under, was, now, i);
    assert(walk_old(under, was, now).contains(m));
    lemma_contains_add(walk_old(under, was, now), walk_new(under, was, now));
    assert(walk_spec(under, was, now).contains(m));
    let w = walk_spec(under, was, now);
    let k = choose|k: int| 0 <= k < w.len() && w[k] == m;
    assert(verdict_of(w[k].what) == Verdict::Breaks);
}

/// What the comparison reports at a name both trees declare: a node that
/// gained or lost its own segment is reported as flattened or unflattened,
/// and a place (not a node on both sides) that may now hold nothing where it
/// could not, or the reverse, is reported with what it may do now.
pub proof fn law_a_matched_place_reports_its_layout_and_optionality(
    under: Seq<Seq<char>>,
    was: Seq<StoredFieldEntry>,
    now: Seq<FieldDescriptor>,
    i: int,
    j: int,
)
    requires
        0 <= i < was.len(),
        0 <= j < now.len(),
        now[j].name@ == was[i].name@,
        forall|k: int| 0 <= k < j ==> (#[trigger] now[k]).name@ != was[i].name@,
    ensures
        was[i].shape.flattened != now[j].flattened ==> walk_spec(under, was, now).contains(
            MovedView { at: under + was[i].name@, what: What::Flattened { now: now[j].flattened } },
        ),
        !(was[i].shape.role == Role::Node && now[j].role == Role::Node) && was[i].shape.optional != now[j].optional
            ==> walk_spec(under, was, now).contains(
            MovedView { at: under + was[i].name@, what: What::Optional { now: now[j].optional } },
        ),
{
    let old = was[i];
    let new = now[j];
    let at = under + old.name@;
    lemma_first_named_is(now, old.name@, j);
    let has_a_place = !(old.shape.role == Role::Node && new.role == Role::Node);
    let role_part = if has_a_place && old.shape.role != new.role {
        seq![MovedView { at, what: What::Role { was: old.shape.role, now: new.role } }]
    } else {
        Seq::empty()
    };
    let flat_part = if old.shape.flattened != new.flattened {
        seq![MovedView { at, what: What::Flattened { now: new.flattened } }]
    } else {
        Seq::empty()
    };
    let optional_part = if has_a_place && old.shape.optional != new.optional {
        seq![MovedView { at, what: What::Optional { now: new.optional } }]
    } else {
        Seq::empty()
    };
    let below_part = if old.shape.flattened == new.flattened {
        walk_spec(if new.flattened { under } else { at }, old.shape.children@, new.children@)
    } else {
        Seq::empty()
    };
    let one = old_one(under, old, now);
    assert(one == role_part + flat_part + optional_part + below_part);
    lemma_contains_add(role_part, flat_part);
    lemma_contains_add(role_part + flat_part, optional_part);
    lemma_contains_add(role_part + flat_part + optional_part, below_part);
    lemma_walk_old_holds(under, was, now, i);
    lemma_contains_add(walk_old(under, was, now), walk_new(under, was, now));
    let fm = MovedView { at, what: What::Flattened { now: new.flattened } };
    let om = MovedView { at, what: What::Optional { now: new.optional } };
    if old.shape.flattened != new.flattened {
        assert(flat_part[0] == fm);
        assert(flat_part.contains(fm));
        assert(one.contains(fm));
    }
    if has_a_place && old.shape.optional != new.optional {
        assert(optional_part[0] == om);
        assert(optional_part.contains(om));
        assert(one.contains(om));
    }
}

/// A plain field or map that the new tree no longer names is released at
/// its own place: the value stored there is out from under any declaration.
pub proof fn law_a_place_no_longer_declared_is_released(
    under: Seq<Seq<char>>,
    was: Seq<StoredFieldEntry>,
    now: Seq<FieldDescriptor>,
    i: int,
)
    requires
        0 <= i < was.len(),
        was[i].shape.role != Role::Node,
        forall|k: int| 0 <= k < now.len() ==> (#[trigger] now[k]).name@ != was[i].name@,
    ensures
        walk_spec(under, was, now).contains(MovedView { at: under + was[i].name@, what: What::Released }),
{
    let old = was[i];
    let m = MovedView { at: under + old.name@, what: What::Released };
    lemma_first_named_bounds(now, old.name@);
    assert(first_named(now, old.name@) >= now.len()) by {
        let f = first_named(now, old.name@);
        if f < now.len() {
            assert(now[f].name@ == old.name@);
        }
    }
    let one = old_one(under, old, now);
    assert(one[0] == m);
    assert(one.contains(m));
    lemma_walk_old_holds(under, was, now, i);
    lemma_contains_add(walk_old(under, was, now), walk_new(under, was, now));
}

} // verus!
