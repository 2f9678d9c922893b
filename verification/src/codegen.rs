//! Folding the steps the code declares into a migration builder: each
//! prefix gets every declared step above version zero, the union of the
//! dependencies its steps name, and the schema of its newest step.
use crate::fields::FieldDescriptor;
use crate::path::{str_eq, strings_view};
use crate::plan::{steps_views, MigrationBuilder, StepEntry};
use vstd::prelude::*;

verus! {

/// Where a step of `version` goes among step views in version order: after
/// every step of that version or below.
pub open spec fn view_slot<F>(s: Seq<(u32, Seq<char>, F)>, version: u32) -> int
    decreases s.len(),
{
    if s.len() == 0 {
        0
    } else if s.last().0 <= version {
        s.len() as int
    } else {
        view_slot(s.drop_last(), version)
    }
}

/// Whether entry `i` is the newest its prefix declares: no entry for the
/// same prefix has a higher version, and none after it the same version.
pub open spec fn is_newest<F>(es: Seq<StepEntry<F>>, i: int) -> bool {
    &&& 0 <= i < es.len()
    &&& forall|j: int|
        0 <= j < es.len() && j != i && (#[trigger] es[j]).prefix@ == es[i].prefix@ ==> (j < i
            ==> es[j].target_version <= es[i].target_version) && (i < j ==> es[j].target_version
            < es[i].target_version)
}

/// Whether some entry is for prefix `p`.
pub open spec fn declares<F>(es: Seq<StepEntry<F>>, p: Seq<char>) -> bool {
    exists|i: int| 0 <= i < es.len() && (#[trigger] es[i]).prefix@ == p
}

/// The steps of `p` once each entry for `p` above version zero has been
/// added, in the entries' order, to `start`.
pub open spec fn with_entry_steps<F>(
    start: Seq<(u32, Seq<char>, F)>,
    es: Seq<StepEntry<F>>,
    p: Seq<char>,
) -> Seq<(u32, Seq<char>, F)>
    decreases es.len(),
{
    if es.len() == 0 {
        start
    } else {
        let prev = with_entry_steps(start, es.drop_last(), p);
        let e = es.last();
        if e.prefix@ == p && e.target_version > 0 {
            prev.insert(view_slot(prev, e.target_version), (e.target_version, e.description@, e.run))
        } else {
            prev
        }
    }
}

/// Every dependency that an entry for `p` names.
pub open spec fn entry_deps<F>(es: Seq<StepEntry<F>>, p: Seq<char>) -> Set<Seq<char>> {
    Set::new(
        |d: Seq<char>|
            exists|i: int|
                0 <= i < es.len() && (#[trigger] es[i]).prefix@ == p && strings_view(
                    es[i].dependencies@,
                ).contains(d),
    )
}

proof fn lemma_view_slot<F>(s: Seq<crate::plan::PlanStep<F>>, version: u32)
    ensures
        crate::plan::slot_for(s, version) == view_slot(steps_views(s), version),
    decreases s.len(),
{
    if s.len() > 0 {
        assert(steps_views(s).drop_last() =~= steps_views(s.drop_last()));
        lemma_view_slot(s.drop_last(), version);
    }
}

/// Every prefix that some entry is for has a newest entry.
pub proof fn lemma_newest_exists<F>(es: Seq<StepEntry<F>>, p: Seq<char>)
    requires
        declares(es, p),
    ensures
        exists|i: int| #[trigger] is_newest(es, i) && es[i].prefix@ == p,
    decreases es.len(),
{
    let t = es.drop_last();
    let n = es.len() - 1;
    if declares(t, p) {
        lemma_newest_exists(t, p);
        let j = choose|j: int| #[trigger] is_newest(t, j) && t[j].prefix@ == p;
        assert forall|m: int| 0 <= m < n implies #[trigger] es[m] == t[m] by {}
        if es[n].prefix@ == p && es[n].target_version >= es[j].target_version {
            assert forall|m: int|
                0 <= m < es.len() && m != n && (#[trigger] es[m]).prefix@ == es[n].prefix@ implies (m
                < n ==> es[m].target_version <= es[n].target_version) && (n < m
                ==> es[m].target_version < es[n].target_version) by {
                assert(t[m] == es[m]);
                if m != j {
                    assert(t[m].prefix@ == t[j].prefix@);
                }
            }
            assert(is_newest(es, n));
        } else {
            assert forall|m: int|
                0 <= m < es.len() && m != j && (#[trigger] es[m]).prefix@ == es[j].prefix@ implies (m
                < j ==> es[m].target_version <= es[j].target_version) && (j < m
                ==> es[m].target_version < es[j].target_version) by {
                if m < n {
                    assert(t[m] == es[m]);
                }
            }
            assert(is_newest(es, j));
        }
    } else {
        let i = choose|i: int| 0 <= i < es.len() && (#[trigger] es[i]).prefix@ == p;
        if i < n {
            assert(t[i] == es[i]);
        }
        assert forall|m: int|
            0 <= m < es.len() && m != n && (#[trigger] es[m]).prefix@ == es[n].prefix@ implies false by {
            assert(t[m] == es[m]);
        }
        assert(is_newest(es, n));
    }
}

impl<F> MigrationBuilder<F> {
    /// Folds one declared step into the plan for its prefix: the step
    /// where its version is above zero, its dependencies, and, where it is
    /// the newest of its prefix, its schema.
    fn absorb_entry(&mut self, e: StepEntry<F>, newest: bool)
        requires
            old(self).wf(),
        ensures
            final(self).wf(),
            final(self).others_kept(&*old(self), e.prefix@),
            old(self).plan_for(e.prefix@) is Some ==> final(self).plan_for(e.prefix@) is Some,
            newest ==> final(self).plan_for(e.prefix@) is Some,
            steps_views(final(self).steps_of(e.prefix@)) == (if e.target_version > 0 {
                steps_views(old(self).steps_of(e.prefix@)).insert(
                    view_slot(steps_views(old(self).steps_of(e.prefix@)), e.target_version),
                    (e.target_version, e.description@, e.run),
                )
            } else {
                steps_views(old(self).steps_of(e.prefix@))
            }),
            final(self).deps_of(e.prefix@) == old(self).deps_of(e.prefix@) + strings_view(
                e.dependencies@,
            ).to_set(),
            newest ==> final(self).hash_of(e.prefix@) == e.schema_hash,
            newest ==> final(self).fields_of(e.prefix@) == e.fields@,
            !newest ==> final(self).hash_of(e.prefix@) == old(self).hash_of(e.prefix@),
            !newest ==> final(self).fields_of(e.prefix@) == old(self).fields_of(e.prefix@),
    {
        let ghost ev = e;
        let ghost start = *self;
        let ghost p = e.prefix@;
        let StepEntry { prefix, target_version, description, schema_hash, fields, dependencies, run } =
            e;
        if target_version > 0 {
            proof {
                lemma_view_slot(self.steps_of(p), target_version);
            }
            self.step(prefix.as_str(), target_version, description.as_str(), run);
        }
        let ghost mid = *self;
        let mut j: usize = 0;
        while j < dependencies.len()
            invariant
                self.wf(),
                p == prefix@,
                j <= dependencies@.len(),
                ev.target_version > 0 ==> self.plan_for(p) is Some,
                mid.plan_for(p) is Some ==> self.plan_for(p) is Some,
                self.others_kept(&mid, p),
                self.steps_of(p) == mid.steps_of(p),
                self.hash_of(p) == mid.hash_of(p),
                self.fields_of(p) == mid.fields_of(p),
                self.deps_of(p) == mid.deps_of(p) + strings_view(dependencies@.take(j as int)).to_set(),
            decreases dependencies@.len() - j,
        {
            let ghost before = *self;
            self.depends_on_raw(prefix.as_str(), dependencies[j].as_str());
            proof {
                assert(strings_view(dependencies@.take(j + 1)) =~= strings_view(
                    dependencies@.take(j as int),
                ).push(dependencies@[j as int]@));
                strings_view(dependencies@.take(j as int)).lemma_push_to_set_commute(dependencies@[j as int]@);
                assert(self.deps_of(p) =~= mid.deps_of(p) + strings_view(
                    dependencies@.take(j + 1),
                ).to_set());
                assert forall|q: Seq<char>| q != p implies #[trigger] self.plan_for(q) == mid.plan_for(
                    q,
                ) by {
                    assert(self.plan_for(q) == before.plan_for(q));
                    assert(before.plan_for(q) == mid.plan_for(q));
                }
            }
            j = j + 1;
        }
        proof {
            assert(dependencies@.take(j as int) =~= dependencies@);
        }
        let ghost after_deps = *self;
        if newest {
            self.set_latest(prefix.as_str(), schema_hash, fields);
            proof {
                assert forall|q: Seq<char>| q != p implies #[trigger] self.plan_for(q)
                    == start.plan_for(q) by {
                    assert(self.plan_for(q) == after_deps.plan_for(q));
                    assert(after_deps.plan_for(q) == mid.plan_for(q));
                    assert(mid.plan_for(q) == start.plan_for(q));
                }
            }
        } else {
            proof {
                assert forall|q: Seq<char>| q != p implies #[trigger] self.plan_for(q)
                    == start.plan_for(q) by {
                    assert(after_deps.plan_for(q) == mid.plan_for(q));
                    assert(mid.plan_for(q) == start.plan_for(q));
                }
            }
        }
    }
}


/// Whether some entry for `p` before `k` is the newest of its prefix.
pub open spec fn newest_below<F>(es: Seq<StepEntry<F>>, k: int, p: Seq<char>) -> bool {
    exists|m: int| 0 <= m < k && #[trigger] is_newest(es, m) && es[m].prefix@ == p
}

/// A prefix has at most one newest entry.
proof fn lemma_newest_unique<F>(es: Seq<StepEntry<F>>, a: int, b: int)
    requires
        is_newest(es, a),
        is_newest(es, b),
        es[a].prefix@ == es[b].prefix@,
    ensures
        a == b,
{
    if a != b {
        assert(es[b].prefix@ == es[a].prefix@);
        assert(es[a].prefix@ == es[b].prefix@);
    }
}

/// Taking one more entry adds its prefix to those declared, and its
/// dependencies to those of its prefix.
proof fn lemma_take_one_more<F>(es: Seq<StepEntry<F>>, k: int)
    requires
        0 <= k < es.len(),
    ensures
        es.take(k + 1).drop_last() =~= es.take(k),
        es.take(k + 1).last() == es[k],
        forall|p: Seq<char>| declares(es.take(k + 1), p) <==> declares(es.take(k), p) || es[k].prefix@ == p,
        forall|p: Seq<char>| entry_deps(es.take(k + 1), p) == entry_deps(es.take(k), p) + (if es[k].prefix@ == p {
            strings_view(es[k].dependencies@).to_set()
        } else {
            Set::empty()
        }),
{
    let t = es.take(k + 1);
    let u = es.take(k);
    assert forall|m: int| 0 <= m < k implies #[trigger] t[m] == u[m] by {}
    assert forall|p: Seq<char>| declares(t, p) <==> declares(u, p) || es[k].prefix@ == p by {
        if declares(t, p) {
            let m = choose|m: int| 0 <= m < t.len() && (#[trigger] t[m]).prefix@ == p;
            if m < k {
                assert(u[m] == t[m]);
            }
        }
        if declares(u, p) {
            let m = choose|m: int| 0 <= m < u.len() && (#[trigger] u[m]).prefix@ == p;
            assert(t[m] == u[m]);
        }
        if es[k].prefix@ == p {
            assert(t[k] == es[k]);
        }
    }
    assert forall|p: Seq<char>| entry_deps(t, p) == entry_deps(u, p) + (if es[k].prefix@ == p {
        strings_view(es[k].dependencies@).to_set()
    } else {
        Set::empty()
    }) by {
        let extra = if es[k].prefix@ == p {
            strings_view(es[k].dependencies@).to_set()
        } else {
            Set::empty()
        };
        assert forall|d: Seq<char>| entry_deps(t, p).contains(d) <==> (entry_deps(u, p) + extra).contains(d) by {
            if entry_deps(t, p).contains(d) {
                let m = choose|m: int|
                    0 <= m < t.len() && (#[trigger] t[m]).prefix@ == p && strings_view(t[m].dependencies@).contains(d);
                if m < k {
                    assert(u[m] == t[m]);
                    assert(entry_deps(u, p).contains(d));
                } else {
                    assert(t[m] == es[k]);
                    assert(extra.contains(d));
                }
            }
            if entry_deps(u, p).contains(d) {
                let m = choose|m: int|
                    0 <= m < u.len() && (#[trigger] u[m]).prefix@ == p && strings_view(u[m].dependencies@).contains(d);
                assert(t[m] == u[m]);
                assert(entry_deps(t, p).contains(d));
            }
            if extra.contains(d) {
                assert(t[k] == es[k]);
                assert(entry_deps(t, p).contains(d));
            }
        }
        assert(entry_deps(t, p) =~= entry_deps(u, p) + extra);
    }
}

impl<F> MigrationBuilder<F> {
    /// Folds the steps the code declares into the plans: for each prefix,
    /// every declared step above version zero in the order declared, the
    /// dependencies its steps name, and the schema hash and fields of its
    /// newest step, the last of the highest version.
    #[verifier::rlimit(60)]
    pub fn collect_codegen(&mut self, entries: Vec<StepEntry<F>>)
        requires
            old(self).wf(),
        ensures
            final(self).wf(),
            forall|p: Seq<char>| #[trigger] final(self).plan_for(p) is Some <==> (old(self).plan_for(p) is Some
                || declares(entries@, p)),
            forall|p: Seq<char>| steps_views(#[trigger] final(self).steps_of(p)) == with_entry_steps(
                steps_views(old(self).steps_of(p)),
                entries@,
                p,
            ),
            forall|p: Seq<char>| #[trigger] final(self).deps_of(p) == old(self).deps_of(p) + entry_deps(entries@, p),
            forall|p: Seq<char>| declares(entries@, p) ==> exists|i: int| #[trigger] is_newest(entries@, i) && entries@[i].prefix@ == p,
            forall|i: int| #[trigger] is_newest(entries@, i) ==> final(self).hash_of(entries@[i].prefix@) == entries@[i].schema_hash,
            forall|i: int| #[trigger] is_newest(entries@, i) ==> final(self).fields_of(entries@[i].prefix@) == entries@[i].fields@,
            forall|p: Seq<char>| !declares(entries@, p) ==> #[trigger] final(self).hash_of(p) == old(self).hash_of(p),
            forall|p: Seq<char>| !declares(entries@, p) ==> #[trigger] final(self).fields_of(p) == old(self).fields_of(p),
    {
        let ghost es = entries@;
        let ghost start = *self;
        let n = entries.len();
        let mut flags: Vec<bool> = Vec::new();
        let mut i: usize = 0;
        while i < n
            invariant
                n == es.len(),
                entries@ == es,
                i <= n,
                flags@.len() == i,
                forall|m: int| 0 <= m < i ==> flags@[m] == #[trigger] is_newest(es, m),
            decreases n - i,
        {
            let mut ok = true;
            let mut j: usize = 0;
            while j < n
                invariant
                    n == es.len(),
                    entries@ == es,
                    i < n,
                    j <= n,
                    ok <==> forall|m: int|
                        0 <= m < j && m != i && (#[trigger] es[m]).prefix@ == es[i as int].prefix@ ==> (m < i
                            ==> es[m].target_version <= es[i as int].target_version) && (i < m
                            ==> es[m].target_version < es[i as int].target_version),
                decreases n - j,
            {
                if j != i && str_eq(entries[j].prefix.as_str(), entries[i].prefix.as_str()) {
                    if j < i && entries[j].target_version > entries[i].target_version {
                        ok = false;
                    }
                    if j > i && entries[j].target_version >= entries[i].target_version {
                        ok = false;
                    }
                }
                j = j + 1;
            }
            flags.push(ok);
            i = i + 1;
        }
        let mut rest = entries;
        let mut k: usize = 0;
        proof {
            assert(es.take(0) =~= Seq::<StepEntry<F>>::empty());
            assert forall|p: Seq<char>| #[trigger] self.deps_of(p) == start.deps_of(p) + entry_deps(es.take(0), p) by {
                assert(entry_deps(es.take(0), p) =~= Set::empty());
                assert(self.deps_of(p) =~= start.deps_of(p) + entry_deps(es.take(0), p));
            }
            assert(rest@ =~= es.subrange(0, n as int));
        }
        while k < n
            invariant
                self.wf(),
                k <= n,
                n == es.len(),
                rest@ == es.subrange(k as int, n as int),
                flags@.len() == n,
                forall|m: int| 0 <= m < n ==> flags@[m] == #[trigger] is_newest(es, m),
                forall|p: Seq<char>| #[trigger] self.plan_for(p) is Some ==> start.plan_for(p) is Some || declares(es.take(k as int), p),
                forall|p: Seq<char>| start.plan_for(p) is Some ==> #[trigger] self.plan_for(p) is Some,
                forall|m: int| 0 <= m < k && #[trigger] is_newest(es, m) ==> self.plan_for(es[m].prefix@) is Some,
                forall|p: Seq<char>| steps_views(#[trigger] self.steps_of(p)) == with_entry_steps(
                    steps_views(start.steps_of(p)),
                    es.take(k as int),
                    p,
                ),
                forall|p: Seq<char>| #[trigger] self.deps_of(p) == start.deps_of(p) + entry_deps(es.take(k as int), p),
                forall|m: int| 0 <= m < k && #[trigger] is_newest(es, m) ==> self.hash_of(es[m].prefix@) == es[m].schema_hash,
                forall|m: int| 0 <= m < k && #[trigger] is_newest(es, m) ==> self.fields_of(es[m].prefix@) == es[m].fields@,
                forall|p: Seq<char>| !newest_below(es, k as int, p) ==> #[trigger] self.hash_of(p) == start.hash_of(p),
                forall|p: Seq<char>| !newest_below(es, k as int, p) ==> #[trigger] self.fields_of(p) == start.fields_of(p),
            decreases n - k,
        {
            let e = rest.remove(0);
            let ghost ev = e;
            let ghost before = *self;
            proof {
                assert(ev == es[k as int]);
                assert(rest@ =~= es.subrange(k + 1, n as int));
                lemma_take_one_more(es, k as int);
            }
            let newest = flags[k];
            self.absorb_entry(e, newest);
            proof {
                let pk = ev.prefix@;
                let t = es.take(k + 1);
                let u = es.take(k as int);
                assert forall|p: Seq<char>| #[trigger] self.plan_for(p) is Some implies start.plan_for(p) is Some
                    || declares(t, p) by {
                    if p != pk {
                        assert(self.plan_for(p) == before.plan_for(p));
                    }
                }
                assert forall|p: Seq<char>| start.plan_for(p) is Some implies #[trigger] self.plan_for(p) is Some by {
                    assert(before.plan_for(p) is Some);
                    if p != pk {
                        assert(self.plan_for(p) == before.plan_for(p));
                    }
                }
                assert forall|m: int| 0 <= m < k + 1 && #[trigger] is_newest(es, m) implies self.plan_for(es[m].prefix@) is Some by {
                    if m < k && es[m].prefix@ != pk {
                        assert(self.plan_for(es[m].prefix@) == before.plan_for(es[m].prefix@));
                    }
                }
                assert forall|p: Seq<char>| steps_views(#[trigger] self.steps_of(p)) == with_entry_steps(
                    steps_views(start.steps_of(p)),
                    t,
                    p,
                ) by {
                    assert(with_entry_steps(steps_views(start.steps_of(p)), t, p) == (if pk == p && ev.target_version > 0 {
                        let prev = with_entry_steps(steps_views(start.steps_of(p)), u, p);
                        prev.insert(view_slot(prev, ev.target_version), (ev.target_version, ev.description@, ev.run))
                    } else {
                        with_entry_steps(steps_views(start.steps_of(p)), u, p)
                    }));
                    assert(steps_views(before.steps_of(p)) == with_entry_steps(steps_views(start.steps_of(p)), u, p));
                    if p != pk {
                        assert(self.plan_for(p) == before.plan_for(p));
                    }
                }
                assert forall|p: Seq<char>| #[trigger] self.deps_of(p) == start.deps_of(p) + entry_deps(t, p) by {
                    assert(before.deps_of(p) == start.deps_of(p) + entry_deps(u, p));
                    if p != pk {
                        assert(self.plan_for(p) == before.plan_for(p));
                        assert(entry_deps(t, p) =~= entry_deps(u, p));
                    } else {
                        assert(self.deps_of(p) =~= start.deps_of(p) + entry_deps(t, p));
                    }
                }
                assert forall|m: int| 0 <= m < k + 1 && #[trigger] is_newest(es, m) implies self.hash_of(es[m].prefix@)
                    == es[m].schema_hash && self.fields_of(es[m].prefix@) == es[m].fields@ by {
                    if m < k {
                        if es[m].prefix@ == pk {
                            if newest {
                                lemma_newest_unique(es, m, k as int);
                            }
                        } else {
                            assert(self.plan_for(es[m].prefix@) == before.plan_for(es[m].prefix@));
                        }
                    }
                }
                assert forall|p: Seq<char>| !newest_below(es, k + 1, p) implies self.hash_of(p)
                    == start.hash_of(p) && self.fields_of(p) == start.fields_of(p) by {
                    assert(!newest_below(es, k as int, p)) by {
                        if newest_below(es, k as int, p) {
                            let m = choose|m: int| 0 <= m < k && #[trigger] is_newest(es, m) && es[m].prefix@ == p;
                            assert(0 <= m < k + 1 && is_newest(es, m) && es[m].prefix@ == p);
                        }
                    }
                    assert(before.hash_of(p) == start.hash_of(p));
                    assert(before.fields_of(p) == start.fields_of(p));
                    if p != pk {
                        assert(self.plan_for(p) == before.plan_for(p));
                    } else if is_newest(es, k as int) {
                        assert(newest_below(es, k + 1, p));
                    }
                }
                assert forall|p: Seq<char>| !newest_below(es, k + 1, p) implies #[trigger] self.hash_of(p)
                    == start.hash_of(p) by {
                    assert(self.hash_of(p) == start.hash_of(p) && self.fields_of(p) == start.fields_of(p));
                }
                assert forall|p: Seq<char>| !newest_below(es, k + 1, p) implies #[trigger] self.fields_of(p)
                    == start.fields_of(p) by {
                    assert(self.hash_of(p) == start.hash_of(p) && self.fields_of(p) == start.fields_of(p));
                }
            }
            k = k + 1;
        }
        proof {
            assert(es.take(n as int) =~= es);
            assert forall|p: Seq<char>| declares(es, p) implies exists|i: int| #[trigger] is_newest(es, i) && es[i].prefix@ == p by {
                lemma_newest_exists(es, p);
            }
            assert forall|p: Seq<char>| #[trigger] self.plan_for(p) is Some <== (start.plan_for(p) is Some
                || declares(es, p)) by {
                if declares(es, p) {
                    lemma_newest_exists(es, p);
                    let m = choose|m: int| #[trigger] is_newest(es, m) && es[m].prefix@ == p;
                }
            }
            assert forall|p: Seq<char>| !declares(es, p) implies !newest_below(es, n as int, p) by {
                if newest_below(es, n as int, p) {
                    let m = choose|m: int| 0 <= m < n && #[trigger] is_newest(es, m) && es[m].prefix@ == p;
                    assert(es[m].prefix@ == p);
                }
            }
        }
    }
}

} // verus!
