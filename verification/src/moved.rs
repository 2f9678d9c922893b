//! What changed between the places a struct declared last time and the places
//! it declares now.
//!
//! The comparison is over the tree of declared places and nothing else. What
//! is judged here is where things sit: data that is no longer under any
//! declaration.
use crate::fields::{below_spec, owns_spec, FieldDescriptor, Role};
use crate::meta::{SchemaSnapshot, StoredFieldEntry};
use crate::path::StorePath;
use vstd::prelude::*;

verus! {

/// One difference between the two trees.
#[derive(Debug, Clone, PartialEq)]
pub struct Moved {
    /// Where it is, under the struct's prefix.
    pub at: StorePath,
    pub what: What,
}

#[derive(Debug, Clone, Copy, PartialEq, Eq, Structural)]
pub enum What {
    /// A place nothing declared before. It takes the subtree beneath it.
    Claimed,
    /// A place that was declared and is not any more.
    Released,
    /// The same place, holding a different kind of thing.
    Role { was: Role, now: Role },
    /// A node that gained or lost its own segment, which moves every path
    /// under it.
    Flattened { now: bool },
    /// A place that may now hold nothing where it could not, or the reverse.
    Optional { now: bool },
}

/// What one difference amounts to.
#[derive(Debug, Clone, Copy, PartialEq, Eq, Structural)]
pub enum Verdict {
    /// Data written by the old declaration is not under the new one.
    Breaks,
    /// A place was taken that nothing declared before; whether that matters
    /// depends on what is stored there, which this comparison cannot see.
    LookAtTheGround,
    /// Neither. The places are where they were.
    Harmless,
}

/// A difference, as a place and what happened there.
pub struct MovedView {
    pub at: Seq<Seq<char>>,
    pub what: What,
}

impl View for Moved {
    type V = MovedView;

    open spec fn view(&self) -> MovedView {
        MovedView { at: self.at@, what: self.what }
    }
}

/// The views of a list of differences.
pub open spec fn moved_view(v: Seq<Moved>) -> Seq<MovedView> {
    Seq::new(v.len(), |i: int| v[i]@)
}

/// What a difference of kind `what` amounts to.
pub open spec fn verdict_of(what: What) -> Verdict {
    match what {
        What::Released | What::Role { .. } | What::Flattened { .. } => Verdict::Breaks,
        What::Claimed => Verdict::LookAtTheGround,
        What::Optional { .. } => Verdict::Harmless,
    }
}

impl Moved {
    pub fn verdict(&self) -> (r: Verdict)
        ensures
            r == verdict_of(self.what),
    {
        match self.what {
            What::Released | What::Role { .. } | What::Flattened { .. } => Verdict::Breaks,
            What::Claimed => Verdict::LookAtTheGround,
            What::Optional { .. } => Verdict::Harmless,
        }
    }
}

/// Every place a set of declared fields owns under `under`, a node
/// contributing none of its own.
pub open spec fn places_spec(under: Seq<Seq<char>>, fields: Seq<FieldDescriptor>) -> Seq<
    Seq<Seq<char>>,
>
    decreases fields,
{
    if fields.len() == 0 {
        Seq::empty()
    } else {
        places_spec(under, fields.drop_last()) + places_one(under, fields.last())
    }
}

pub open spec fn places_one(under: Seq<Seq<char>>, f: FieldDescriptor) -> Seq<Seq<Seq<char>>>
    decreases f,
{
    match owns_spec(&f, under) {
        Some(at) => seq![at],
        None => places_spec(below_spec(&f, under), f.children@),
    }
}

/// Where the paths under a recorded entry sit.
pub open spec fn stored_below(e: StoredFieldEntry, under: Seq<Seq<char>>) -> Seq<Seq<char>> {
    if e.shape.flattened {
        under
    } else {
        under + e.name@
    }
}

/// Every place a recorded tree owns under `under`.
pub open spec fn stored_places_spec(under: Seq<Seq<char>>, fields: Seq<StoredFieldEntry>) -> Seq<
    Seq<Seq<char>>,
>
    decreases fields,
{
    if fields.len() == 0 {
        Seq::empty()
    } else {
        stored_places_spec(under, fields.drop_last()) + stored_places_one(under, fields.last())
    }
}

pub open spec fn stored_places_one(under: Seq<Seq<char>>, e: StoredFieldEntry) -> Seq<
    Seq<Seq<char>>,
>
    decreases e,
{
    if e.shape.role == Role::Node {
        stored_places_spec(stored_below(e, under), e.shape.children@)
    } else {
        seq![under + e.name@]
    }
}

/// The same places, each marked as taken.
pub open spec fn claimed_at(places: Seq<Seq<Seq<char>>>) -> Seq<MovedView> {
    Seq::new(places.len(), |i: int| MovedView { at: places[i], what: What::Claimed })
}

/// The same places, each marked as let go.
pub open spec fn released_at(places: Seq<Seq<Seq<char>>>) -> Seq<MovedView> {
    Seq::new(places.len(), |i: int| MovedView { at: places[i], what: What::Released })
}

/// The first index in `now` declaring `name`, or `now.len()` when none does.
pub open spec fn first_named(now: Seq<FieldDescriptor>, name: Seq<Seq<char>>) -> int
    decreases now.len(),
{
    if now.len() == 0 {
        0
    } else {
        let k = first_named(now.drop_last(), name);
        if k < now.len() - 1 {
            k
        } else if now.last().name@ == name {
            now.len() - 1
        } else {
            now.len() as int
        }
    }
}

/// Whether a recorded entry at this level is called `name`.
pub open spec fn named_in(was: Seq<StoredFieldEntry>, name: Seq<Seq<char>>) -> bool {
    exists|i: int| 0 <= i < was.len() && (#[trigger] was[i]).name@ == name
}

/// Every difference between `was` and `now` at the level `under`, in the
/// order the walk meets them: first what was recorded, then what is new.
pub open spec fn walk_spec(
    under: Seq<Seq<char>>,
    was: Seq<StoredFieldEntry>,
    now: Seq<FieldDescriptor>,
) -> Seq<MovedView>
    decreases was, 2int,
{
    walk_old(under, was, now) + walk_new(under, was, now)
}

/// The differences the recorded entries at this level account for.
pub open spec fn walk_old(
    under: Seq<Seq<char>>,
    was: Seq<StoredFieldEntry>,
    now: Seq<FieldDescriptor>,
) -> Seq<MovedView>
    decreases was, 1int,
{
    if was.len() == 0 {
        Seq::empty()
    } else {
        walk_old(under, was.drop_last(), now) + old_one(under, was.last(), now)
    }
}

/// What one recorded entry accounts for.
pub open spec fn old_one(under: Seq<Seq<char>>, old: StoredFieldEntry, now: Seq<FieldDescriptor>) -> Seq<
    MovedView,
>
    decreases old, 0int,
{
    let at = under + old.name@;
    let j = first_named(now, old.name@);
    if j < 0 || j >= now.len() {
        if old.shape.role == Role::Node {
            released_at(stored_places_spec(stored_below(old, under), old.shape.children@))
        } else {
            seq![MovedView { at, what: What::Released }]
        }
    } else {
        let new = now[j];
        let has_a_place = !(old.shape.role == Role::Node && new.role == Role::Node);
        let role_part = if has_a_place && old.shape.role != new.role {
            seq![MovedView { at, what: What::Role { was: old.shape.role, now: new.role } }]
        } else {
            Seq::empty()
        };
        let flat_part = if old.shape.flattened != new.flattened {
            seq![MovedView { at, what: What::Flattened { now: new.flattened } }]
        } else {
            Seq::empty()
        };
        let optional_part = if has_a_place && old.shape.optional != new.optional {
            seq![MovedView { at, what: What::Optional { now: new.optional } }]
        } else {
            Seq::empty()
        };
        let below_part = if old.shape.flattened == new.flattened {
            walk_spec(
                if new.flattened {
                    under
                } else {
                    at
                },
                old.shape.children@,
                new.children@,
            )
        } else {
            Seq::empty()
        };
        role_part + flat_part + optional_part + below_part
    }
}

/// The differences the new declarations at this level account for: each one
/// nothing recorded here has the name of is a claim.
pub open spec fn walk_new(
    under: Seq<Seq<char>>,
    was: Seq<StoredFieldEntry>,
    now: Seq<FieldDescriptor>,
) -> Seq<MovedView>
    decreases now,
{
    if now.len() == 0 {
        Seq::empty()
    } else {
        walk_new(under, was, now.drop_last()) + if named_in(was, now.last().name@) {
            Seq::empty()
        } else {
            claimed_at(places_one(under, now.last()))
        }
    }
}

proof fn lemma_first_named(now: Seq<FieldDescriptor>, name: Seq<Seq<char>>)
    ensures
        0 <= first_named(now, name) <= now.len(),
        first_named(now, name) < now.len() ==> now[first_named(now, name)].name@ == name,
        forall|j: int|
            0 <= j < first_named(now, name) ==> (#[trigger] now[j]).name@ != name,
    decreases now.len(),
{
    if now.len() > 0 {
        lemma_first_named(now.drop_last(), name);
        assert forall|j: int| 0 <= j < now.len() - 1 implies now.drop_last()[j] == now[j] by {}
    }
}

proof fn lemma_moved_view_push(v: Seq<Moved>, m: Moved)
    ensures
        moved_view(v.push(m)) == moved_view(v).push(m@),
{
    assert(moved_view(v.push(m)) =~= moved_view(v).push(m@));
}

proof fn lemma_claimed_at_add(a: Seq<Seq<Seq<char>>>, b: Seq<Seq<Seq<char>>>)
    ensures
        claimed_at(a + b) == claimed_at(a) + claimed_at(b),
{
    assert(claimed_at(a + b) =~= claimed_at(a) + claimed_at(b));
}

proof fn lemma_released_at_add(a: Seq<Seq<Seq<char>>>, b: Seq<Seq<Seq<char>>>)
    ensures
        released_at(a + b) == released_at(a) + released_at(b),
{
    assert(released_at(a + b) =~= released_at(a) + released_at(b));
}

/// Appends a difference to the list.
fn note(found: &mut Vec<Moved>, at: StorePath, what: What)
    ensures
        moved_view(final(found)@) == moved_view(old(found)@).push(MovedView { at: at@, what }),
{
    let m = Moved { at, what };
    proof {
        lemma_moved_view_push(found@, m);
    }
    found.push(m);
}

/// The first index in `now` declaring `name`.
fn find_declared(now: &[FieldDescriptor], name: &StorePath) -> (r: Option<usize>)
    ensures
        match r {
            Some(j) => j == first_named(now@, name@) && j < now@.len(),
            None => first_named(now@, name@) == now@.len(),
        },
{
    proof {
        lemma_first_named(now@, name@);
    }
    let mut i: usize = 0;
    while i < now.len()
        invariant
            i <= now@.len(),
            0 <= first_named(now@, name@) <= now@.len(),
            first_named(now@, name@) < now@.len() ==> now@[first_named(now@, name@)].name@
                == name@,
            forall|j: int| 0 <= j < first_named(now@, name@) ==> (#[trigger] now@[j]).name@ != name@,
            forall|j: int| 0 <= j < i ==> (#[trigger] now@[j]).name@ != name@,
        decreases now@.len() - i,
    {
        if now[i].name.same(name) {
            assert(first_named(now@, name@) == i as int);
            return Some(i);
        }
        i = i + 1;
    }
    None
}

/// Whether a recorded entry at this level is called `name`.
fn is_named_in(was: &[StoredFieldEntry], name: &StorePath) -> (r: bool)
    ensures
        r == named_in(was@, name@),
{
    let mut i: usize = 0;
    while i < was.len()
        invariant
            i <= was@.len(),
            forall|j: int| 0 <= j < i ==> (#[trigger] was@[j]).name@ != name@,
        decreases was@.len() - i,
    {
        if was[i].name.same(name) {
            return true;
        }
        i = i + 1;
    }
    false
}

/// Every place under `under` the declared `fields` own, a node contributing
/// none of its own.
fn places(under: &StorePath, fields: &[FieldDescriptor]) -> (r: Vec<StorePath>)
    ensures
        crate::path::paths_view(r@) == places_spec(under@, fields@),
    decreases fields@,
{
    let mut found: Vec<StorePath> = Vec::new();
    let mut i: usize = 0;
    while i < fields.len()
        invariant
            i <= fields@.len(),
            crate::path::paths_view(found@) == places_spec(under@, fields@.subrange(0, i as int)),
        decreases fields@.len() - i,
    {
        let field = &fields[i];
        let ghost before = found@;
        match field.owns(under) {
            Some(owned) => {
                found.push(owned);
                proof {
                    assert(crate::path::paths_view(found@) =~= crate::path::paths_view(before)
                        + places_one(under@, fields@[i as int]));
                }
            },
            None => {
                proof {
                    assert(decreases_to!(fields@ => fields@[i as int]));
                }
                let below = field.below(under);
                let deeper = places(&below, field.children.as_slice());
                let mut k: usize = 0;
                while k < deeper.len()
                    invariant
                        k <= deeper@.len(),
                        crate::path::paths_view(found@) == crate::path::paths_view(before)
                            + crate::path::paths_view(deeper@).subrange(0, k as int),
                    decreases deeper@.len() - k,
                {
                    let ghost before_k = found@;
                    let c = deeper[k].copy();
                    found.push(c);
                    proof {
                        assert(crate::path::paths_view(found@) =~= crate::path::paths_view(before_k).push(deeper@[k as int]@));
                        assert(crate::path::paths_view(deeper@).subrange(0, k + 1)
                            =~= crate::path::paths_view(deeper@).subrange(0, k as int).push(
                            deeper@[k as int]@,
                        ));
                        assert(crate::path::paths_view(found@) =~= crate::path::paths_view(before)
                            + crate::path::paths_view(deeper@).subrange(0, k + 1));
                    }
                    k = k + 1;
                }
                proof {
                    assert(crate::path::paths_view(deeper@).subrange(0, deeper@.len() as int)
                        =~= crate::path::paths_view(deeper@));
                    assert(places_one(under@, fields@[i as int]) == places_spec(below@, field.children@));
                }
            },
        }
        proof {
            let pre = fields@.subrange(0, i + 1);
            assert(pre.drop_last() =~= fields@.subrange(0, i as int));
            assert(pre.last() == fields@[i as int]);
            assert(places_spec(under@, pre) == places_spec(under@, pre.drop_last()) + places_one(under@, pre.last()));
        }
        i = i + 1;
    }
    proof {
        assert(fields@.subrange(0, fields@.len() as int) =~= fields@);
    }
    found
}

/// Every place under `under` a recorded tree owns.
fn stored_places(under: &StorePath, fields: &[StoredFieldEntry]) -> (r: Vec<StorePath>)
    ensures
        crate::path::paths_view(r@) == stored_places_spec(under@, fields@),
    decreases fields@,
{
    let mut found: Vec<StorePath> = Vec::new();
    let mut i: usize = 0;
    while i < fields.len()
        invariant
            i <= fields@.len(),
            crate::path::paths_view(found@) == stored_places_spec(
                under@,
                fields@.subrange(0, i as int),
            ),
        decreases fields@.len() - i,
    {
        let field = &fields[i];
        let ghost before = found@;
        let at = under.join(&field.name);
        if field.shape.role == Role::Node {
            proof {
                assert(decreases_to!(fields@ => fields@[i as int]));
            }
            let below = if field.shape.flattened {
                under.copy()
            } else {
                at
            };
            let deeper = stored_places(&below, field.shape.children.as_slice());
            let mut k: usize = 0;
            while k < deeper.len()
                invariant
                    k <= deeper@.len(),
                    crate::path::paths_view(found@) == crate::path::paths_view(before)
                        + crate::path::paths_view(deeper@).subrange(0, k as int),
                decreases deeper@.len() - k,
            {
                let ghost before_k = found@;
                let c = deeper[k].copy();
                found.push(c);
                proof {
                    assert(crate::path::paths_view(found@) =~= crate::path::paths_view(before_k).push(deeper@[k as int]@));
                    assert(crate::path::paths_view(deeper@).subrange(0, k + 1)
                        =~= crate::path::paths_view(deeper@).subrange(0, k as int).push(
                        deeper@[k as int]@,
                    ));
                    assert(crate::path::paths_view(found@) =~= crate::path::paths_view(before)
                        + crate::path::paths_view(deeper@).subrange(0, k + 1));
                }
                k = k + 1;
            }
            proof {
                assert(crate::path::paths_view(deeper@).subrange(0, deeper@.len() as int)
                    =~= crate::path::paths_view(deeper@));
                assert(stored_places_one(under@, fields@[i as int]) == stored_places_spec(below@, field.shape.children@));
            }
        } else {
            found.push(at);
            proof {
                assert(crate::path::paths_view(found@) =~= crate::path::paths_view(before)
                    + stored_places_one(under@, fields@[i as int]));
            }
        }
        proof {
            let pre = fields@.subrange(0, i + 1);
            assert(pre.drop_last() =~= fields@.subrange(0, i as int));
            assert(pre.last() == fields@[i as int]);
            assert(stored_places_spec(under@, pre) == stored_places_spec(under@, pre.drop_last()) + stored_places_one(under@, pre.last()));
        }
        i = i + 1;
    }
    proof {
        assert(fields@.subrange(0, fields@.len() as int) =~= fields@);
    }
    found
}

/// Marks each place as taken, at the end of `found`.
fn note_all(found: &mut Vec<Moved>, places: Vec<StorePath>, what: What)
    ensures
        moved_view(final(found)@) == moved_view(old(found)@) + Seq::new(
            places@.len(),
            |i: int| MovedView { at: places@[i]@, what },
        ),
{
    let ghost start = moved_view(found@);
    let mut k: usize = 0;
    while k < places.len()
        invariant
            k <= places@.len(),
            moved_view(found@) == start + Seq::new(
                k as nat,
                |i: int| MovedView { at: places@[i]@, what },
            ),
        decreases places@.len() - k,
    {
        note(found, places[k].copy(), what);
        proof {
            assert(moved_view(found@) =~= start + Seq::new(
                (k + 1) as nat,
                |i: int| MovedView { at: places@[i]@, what },
            ));
        }
        k = k + 1;
    }
}

/// Every difference between what was declared and what is declared, in the
/// order the paths appear.
///
/// Both sides are trees, and a node is compared to the node of the same name.
/// A rename is therefore a [`What::Released`] beside a [`What::Claimed`].
/// A flattened node contributes no segment, so what is under it is compared at
/// the level the node itself sits at; where the two sides disagree about that,
/// the node's own [`What::Flattened`] is the report.
pub fn between(was: &[StoredFieldEntry], now: &[FieldDescriptor]) -> (r: Vec<Moved>)
    ensures
        moved_view(r@) == walk_spec(Seq::empty(), was@, now@),
{
    let mut found: Vec<Moved> = Vec::new();
    let root = StorePath::root();
    walk(&root, was, now, &mut found);
    assert(moved_view(found@) =~= walk_spec(Seq::empty(), was@, now@));
    found
}

fn walk(under: &StorePath, was: &[StoredFieldEntry], now: &[FieldDescriptor], found: &mut Vec<Moved>)
    ensures
        moved_view(final(found)@) == moved_view(old(found)@) + walk_spec(under@, was@, now@),
    decreases was@,
{
    let ghost start = moved_view(found@);
    let mut i: usize = 0;
    while i < was.len()
        invariant
            i <= was@.len(),
            moved_view(found@) == start + walk_old(under@, was@.subrange(0, i as int), now@),
        decreases was@.len() - i,
    {
        let old_e = &was[i];
        let ghost before = moved_view(found@);
        let at = under.join(&old_e.name);
        proof {
            lemma_first_named(now@, old_e.name@);
            assert(decreases_to!(was@ => was@[i as int]));
        }
        match find_declared(now, &old_e.name) {
            None => {
                if old_e.shape.role == Role::Node {
                    let below = if old_e.shape.flattened {
                        under.copy()
                    } else {
                        at
                    };
                    let gone = stored_places(&below, old_e.shape.children.as_slice());
                    note_all(found, gone, What::Released);
                    proof {
                        assert(moved_view(found@) =~= before + old_one(under@, was@[i as int], now@));
                    }
                } else {
                    note(found, at, What::Released);
                    proof {
                        assert(moved_view(found@) =~= before + old_one(under@, was@[i as int], now@));
                    }
                }
            },
            Some(j) => {
                let new = &now[j];
                let has_a_place = !(old_e.shape.role == Role::Node && new.role == Role::Node);
                if has_a_place && old_e.shape.role != new.role {
                    note(found, at.copy(), What::Role { was: old_e.shape.role, now: new.role });
                }
                if old_e.shape.flattened != new.flattened {
                    note(found, at.copy(), What::Flattened { now: new.flattened });
                }
                if has_a_place && old_e.shape.optional != new.optional {
                    note(found, at.copy(), What::Optional { now: new.optional });
                }
                let ghost mid = moved_view(found@);
                if old_e.shape.flattened == new.flattened {
                    let below = if new.flattened {
                        under.copy()
                    } else {
                        at
                    };
                    walk(&below, old_e.shape.children.as_slice(), new.children.as_slice(), found);
                }
                proof {
                    assert(moved_view(found@) =~= before + old_one(under@, was@[i as int], now@));
                }
            },
        }
        proof {
            let pre = was@.subrange(0, i + 1);
            assert(pre.drop_last() =~= was@.subrange(0, i as int));
            assert(pre.last() == was@[i as int]);
            assert(moved_view(found@) =~= start + walk_old(under@, pre, now@));
        }
        i = i + 1;
    }
    proof {
        assert(was@.subrange(0, was@.len() as int) =~= was@);
    }
    let ghost after_old = moved_view(found@);
    let mut k: usize = 0;
    while k < now.len()
        invariant
            k <= now@.len(),
            after_old == start + walk_old(under@, was@, now@),
            moved_view(found@) == after_old + walk_new(under@, was@, now@.subrange(0, k as int)),
        decreases now@.len() - k,
    {
        let new = &now[k];
        let ghost before = moved_view(found@);
        if !is_named_in(was, &new.name) {
            match new.owns(under) {
                Some(at) => {
                    note(found, at, What::Claimed);
                    proof {
                        assert(moved_view(found@) =~= before + claimed_at(
                            places_one(under@, now@[k as int]),
                        ));
                    }
                },
                None => {
                    let below = new.below(under);
                    let taken = places(&below, new.children.as_slice());
                    note_all(found, taken, What::Claimed);
                    proof {
                        assert(moved_view(found@) =~= before + claimed_at(
                            places_one(under@, now@[k as int]),
                        ));
                    }
                },
            }
        }
        proof {
            let pre = now@.subrange(0, k + 1);
            assert(pre.drop_last() =~= now@.subrange(0, k as int));
            assert(pre.last() == now@[k as int]);
            assert(moved_view(found@) =~= after_old + walk_new(under@, was@, pre));
        }
        k = k + 1;
    }
    proof {
        assert(now@.subrange(0, now@.len() as int) =~= now@);
    }
}

proof fn lemma_walk_new_against_nothing(under: Seq<Seq<char>>, now: Seq<FieldDescriptor>)
    ensures
        walk_new(under, Seq::empty(), now) == claimed_at(places_spec(under, now)),
    decreases now.len(),
{
    if now.len() > 0 {
        lemma_walk_new_against_nothing(under, now.drop_last());
        assert(!named_in(Seq::<StoredFieldEntry>::empty(), now.last().name@));
        lemma_claimed_at_add(places_spec(under, now.drop_last()), places_one(under, now.last()));
    } else {
        assert(claimed_at(places_spec(under, now)) =~= Seq::empty());
    }
}

proof fn lemma_walk_old_against_nothing(under: Seq<Seq<char>>, was: Seq<StoredFieldEntry>)
    ensures
        walk_old(under, was, Seq::empty()) == released_at(stored_places_spec(under, was)),
    decreases was.len(),
{
    if was.len() > 0 {
        lemma_walk_old_against_nothing(under, was.drop_last());
        lemma_released_at_add(
            stored_places_spec(under, was.drop_last()),
            stored_places_one(under, was.last()),
        );
        let e = was.last();
        assert(first_named(Seq::<FieldDescriptor>::empty(), e.name@) == 0);
        if e.shape.role != Role::Node {
            assert(released_at(seq![under + e.name@]) =~= seq![
                MovedView { at: under + e.name@, what: What::Released },
            ]);
        }
        assert(old_one(under, e, Seq::empty()) == released_at(stored_places_one(under, e)));
    } else {
        assert(released_at(stored_places_spec(under, was)) =~= Seq::empty());
    }
}

/// A store opened for the first time claims what the code declares and
/// releases nothing: compared against no recorded tree, every difference is a
/// claim, and the places claimed are the shallowest places the declaration
/// owns - a node is not a place, so what is claimed is what it brings.
pub proof fn law_against_nothing_a_tree_claims_its_places(now: Seq<FieldDescriptor>)
    ensures
        walk_spec(Seq::empty(), Seq::empty(), now) == claimed_at(places_spec(Seq::empty(), now)),
{
    lemma_walk_new_against_nothing(Seq::empty(), now);
    assert(walk_old(Seq::empty(), Seq::<StoredFieldEntry>::empty(), now) =~= Seq::empty());
    assert(walk_spec(Seq::empty(), Seq::empty(), now) =~= claimed_at(
        places_spec(Seq::empty(), now),
    ));
}

/// Code that declares nothing releases every place the store was holding,
/// and each of those differences breaks.
pub proof fn law_against_nothing_declared_every_place_is_released(was: Seq<StoredFieldEntry>)
    ensures
        walk_spec(Seq::empty(), was, Seq::empty()) == released_at(
            stored_places_spec(Seq::empty(), was),
        ),
        forall|i: int|
            0 <= i < walk_spec(Seq::empty(), was, Seq::empty()).len() ==> verdict_of(
                (#[trigger] walk_spec(Seq::empty(), was, Seq::empty())[i]).what,
            ) == Verdict::Breaks,
{
    lemma_walk_old_against_nothing(Seq::empty(), was);
    assert(walk_new(Seq::empty(), was, Seq::<FieldDescriptor>::empty()) =~= Seq::empty());
    assert(walk_spec(Seq::empty(), was, Seq::empty()) =~= released_at(
        stored_places_spec(Seq::empty(), was),
    ));
}

/// Whether any place in `a` is also in `b`.
fn shares_a_place(a: &Vec<StorePath>, b: &Vec<StorePath>) -> (r: bool)
    ensures
        r == shares(crate::path::paths_view(a@), crate::path::paths_view(b@)),
{
    let mut i: usize = 0;
    while i < a.len()
        invariant
            i <= a@.len(),
            forall|x: int, y: int|
                0 <= x < i && 0 <= y < b@.len() ==> (#[trigger] a@[x])@ != (#[trigger] b@[y])@,
        decreases a@.len() - i,
    {
        let mut j: usize = 0;
        while j < b.len()
            invariant
                i < a@.len(),
                j <= b@.len(),
                forall|x: int, y: int|
                    0 <= x < i && 0 <= y < b@.len() ==> (#[trigger] a@[x])@ != (#[trigger] b@[y])@,
                forall|y: int| 0 <= y < j ==> a@[i as int]@ != (#[trigger] b@[y])@,
            decreases b@.len() - j,
        {
            if a[i].same(&b[j]) {
                proof {
                    let av = crate::path::paths_view(a@);
                    let bv = crate::path::paths_view(b@);
                    assert(av[i as int] == bv[j as int]);
                }
                return true;
            }
            j = j + 1;
        }
        i = i + 1;
    }
    proof {
        let av = crate::path::paths_view(a@);
        let bv = crate::path::paths_view(b@);
        assert forall|x: int, y: int| 0 <= x < av.len() && 0 <= y < bv.len() implies av[x]
            != bv[y] by {
            assert(a@[x]@ != b@[y]@);
        }
    }
    false
}

/// Whether some place is in both lists.
pub open spec fn shares(a: Seq<Seq<Seq<char>>>, b: Seq<Seq<Seq<char>>>) -> bool {
    exists|x: int, y: int| 0 <= x < a.len() && 0 <= y < b.len() && a[x] == b[y]
}

/// Whether a recorded declaration owns a place in common with `claimed`.
pub open spec fn meets(was: SchemaSnapshot, claimed: Seq<Seq<Seq<char>>>) -> bool {
    shares(stored_places_spec(Seq::empty(), was.fields@), claimed)
}

/// The first recorded declaration that owns a place in common with
/// `claimed`.
fn first_meeting(recorded: &[SchemaSnapshot], claimed: &Vec<StorePath>) -> (r: Option<usize>)
    ensures
        match r {
            Some(i) => i < recorded@.len() && meets(
                recorded@[i as int],
                crate::path::paths_view(claimed@),
            ) && forall|j: int|
                0 <= j < i ==> !meets(
                    #[trigger] recorded@[j],
                    crate::path::paths_view(claimed@),
                ),
            None => forall|j: int|
                0 <= j < recorded@.len() ==> !meets(
                    #[trigger] recorded@[j],
                    crate::path::paths_view(claimed@),
                ),
        },
{
    let root = StorePath::root();
    let mut i: usize = 0;
    while i < recorded.len()
        invariant
            i <= recorded@.len(),
            root@.len() == 0,
            forall|j: int|
                0 <= j < i ==> !meets(#[trigger] recorded@[j], crate::path::paths_view(claimed@)),
        decreases recorded@.len() - i,
    {
        let theirs = stored_places(&root, recorded[i].fields.as_slice());
        proof {
            assert(root@ =~= Seq::<Seq<char>>::empty());
        }
        if shares_a_place(&theirs, claimed) {
            return Some(i);
        }
        i = i + 1;
    }
    None
}

/// The recorded tree that is the same declaration as `now`, if one is.
///
/// A declaration is the places it owns, so two trees are the same one when
/// they own a place in common.
pub fn same_declaration(recorded: &[SchemaSnapshot], now: &[FieldDescriptor]) -> (r: Option<
    usize,
>)
    ensures
        match r {
            Some(i) => i < recorded@.len() && meets(
                recorded@[i as int],
                places_spec(Seq::empty(), now@),
            ) && forall|j: int|
                0 <= j < i ==> !meets(#[trigger] recorded@[j], places_spec(Seq::empty(), now@)),
            None => forall|j: int|
                0 <= j < recorded@.len() ==> !meets(
                    #[trigger] recorded@[j],
                    places_spec(Seq::empty(), now@),
                ),
        },
{
    let root = StorePath::root();
    let claimed = places(&root, now);
    proof {
        assert(root@ =~= Seq::<Seq<char>>::empty());
    }
    first_meeting(recorded, &claimed)
}

/// [`same_declaration`] between two recorded trees.
pub fn same_declaration_stored(recorded: &[SchemaSnapshot], now: &[StoredFieldEntry]) -> (r:
    Option<usize>)
    ensures
        match r {
            Some(i) => i < recorded@.len() && meets(
                recorded@[i as int],
                stored_places_spec(Seq::empty(), now@),
            ) && forall|j: int|
                0 <= j < i ==> !meets(
                    #[trigger] recorded@[j],
                    stored_places_spec(Seq::empty(), now@),
                ),
            None => forall|j: int|
                0 <= j < recorded@.len() ==> !meets(
                    #[trigger] recorded@[j],
                    stored_places_spec(Seq::empty(), now@),
                ),
        },
{
    let root = StorePath::root();
    let claimed = stored_places(&root, now);
    proof {
        assert(root@ =~= Seq::<Seq<char>>::empty());
    }
    first_meeting(recorded, &claimed)
}

} // verus!
