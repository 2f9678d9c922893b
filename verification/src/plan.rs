//! Migration plans: the steps of each prefix in version order, what each
//! prefix depends on, and the schema its newest step declares.
//!
//! A step is carried as an opaque payload `F`, the code that runs it.
use crate::fields::FieldDescriptor;
use crate::path::{
    lemma_seq_lt_irreflexive, lemma_seq_lt_total, lemma_seq_lt_transitive, seq_lt, str_eq, str_lt,
    strings_view,
};
use vstd::prelude::*;

verus! {

/// One migration step: the version it brings a prefix to, what it does,
/// and the code that does it.
pub struct PlanStep<F> {
    pub version: u32,
    pub description: String,
    pub run: F,
}

/// Whether steps are in version order.
pub open spec fn in_version_order<F>(s: Seq<PlanStep<F>>) -> bool {
    forall|i: int, j: int| 0 <= i <= j < s.len() ==> (#[trigger] s[i]).version <= (#[trigger] s[j]).version
}

/// How many steps come no later than `version`: where a new step for it
/// goes, after every step of the same version already there.
pub open spec fn slot_for<F>(s: Seq<PlanStep<F>>, version: u32) -> int
    decreases s.len(),
{
    if s.len() == 0 {
        0
    } else if s.last().version <= version {
        s.len() as int
    } else {
        slot_for(s.drop_last(), version)
    }
}

proof fn lemma_slot_for<F>(s: Seq<PlanStep<F>>, version: u32)
    requires
        in_version_order(s),
    ensures
        0 <= slot_for(s, version) <= s.len(),
        forall|i: int| 0 <= i < slot_for(s, version) ==> (#[trigger] s[i]).version <= version,
        forall|i: int| slot_for(s, version) <= i < s.len() ==> (#[trigger] s[i]).version > version,
    decreases s.len(),
{
    if s.len() > 0 {
        let t = s.drop_last();
        assert(in_version_order(t)) by {
            assert forall|i: int, j: int| 0 <= i <= j < t.len() implies (#[trigger] t[i]).version
                <= (#[trigger] t[j]).version by {
                assert(t[i] == s[i] && t[j] == s[j]);
            }
        }
        lemma_slot_for(t, version);
        if s.last().version <= version {
            assert forall|i: int| 0 <= i < s.len() implies (#[trigger] s[i]).version <= version by {
                assert(s[i].version <= s[s.len() - 1].version);
            }
        } else {
            assert forall|i: int| 0 <= i < slot_for(s, version) implies (#[trigger] s[i]).version <= version by {
                assert(s[i] == t[i]);
            }
            assert forall|i: int| slot_for(s, version) <= i < s.len() implies (#[trigger] s[i]).version > version by {
                if i < s.len() - 1 {
                    assert(s[i] == t[i]);
                }
            }
        }
    }
}

/// A step as its version, its description and its code.
pub open spec fn step_view<F>(s: PlanStep<F>) -> (u32, Seq<char>, F) {
    (s.version, s.description@, s.run)
}

/// The steps' views.
pub open spec fn steps_views<F>(s: Seq<PlanStep<F>>) -> Seq<(u32, Seq<char>, F)> {
    Seq::new(s.len(), |i: int| step_view(s[i]))
}

/// The steps of one prefix, in the order they run.
pub struct MigrationPlan<F> {
    steps: Vec<PlanStep<F>>,
}

impl<F> MigrationPlan<F> {
    /// The steps, in the order they run.
    pub closed spec fn steps_view(&self) -> Seq<PlanStep<F>> {
        self.steps@
    }

    /// Whether the steps are in version order.
    pub open spec fn wf(&self) -> bool {
        in_version_order(self.steps_view())
    }

    /// A plan with no steps.
    pub fn new() -> (r: Self)
        ensures
            r.wf(),
            r.steps_view() == Seq::<PlanStep<F>>::empty(),
    {
        MigrationPlan { steps: Vec::new() }
    }

    /// Adds a step, keeping the plan in version order; a step for a version
    /// already planned goes after the ones already there.
    pub fn step(self, version: u32, description: &str, run: F) -> (r: Self)
        requires
            self.wf(),
        ensures
            r.wf(),
            steps_views(r.steps_view()) == steps_views(self.steps_view()).insert(
                slot_for(self.steps_view(), version),
                (version, description@, run),
            ),
    {
        let mut steps = self.steps;
        let mut at: usize = steps.len();
        while at > 0 && steps[at - 1].version > version
            invariant
                at <= steps@.len(),
                in_version_order(steps@),
                forall|i: int| at <= i < steps@.len() ==> (#[trigger] steps@[i]).version > version,
            decreases at,
        {
            at = at - 1;
        }
        let ghost before = steps@;
        proof {
            assert forall|i: int| 0 <= i < at implies (#[trigger] before[i]).version <= version by {
                assert(before[i].version <= before[at - 1].version);
            }
            lemma_slot_for(before, version);
            let k = slot_for(before, version);
            if k < at {
                assert(before[k].version > version);
            } else if k > at {
                assert(before[at as int].version <= version);
            }
        }
        let desc = crate::text::owned(description);
        steps.insert(at, PlanStep { version, description: desc, run });
        proof {
            assert(steps_views(steps@) =~= steps_views(before).insert(at as int, (version, description@, run)));
            assert forall|i: int, j: int| 0 <= i <= j < steps@.len() implies (#[trigger] steps@[i]).version
                <= (#[trigger] steps@[j]).version by {
                if i < at && j < at {
                    assert(steps@[i] == before[i] && steps@[j] == before[j]);
                } else if i < at && j == at {
                    assert(steps@[i] == before[i]);
                } else if i < at && j > at {
                    assert(steps@[i] == before[i] && steps@[j] == before[j - 1]);
                } else if i == at && j > at {
                    assert(steps@[j] == before[j - 1]);
                } else if i > at {
                    assert(steps@[i] == before[i - 1] && steps@[j] == before[j - 1]);
                }
            }
        }
        MigrationPlan { steps }
    }

    /// The steps, in the order they run.
    pub fn into_steps(self) -> (r: Vec<PlanStep<F>>)
        ensures
            r@ == self.steps_view(),
    {
        self.steps
    }

    /// How many steps there are.
    pub fn len(&self) -> (r: usize)
        ensures
            r == self.steps_view().len(),
    {
        self.steps.len()
    }
}

/// Names in increasing order, each once.
pub struct NameSet {
    names: Vec<String>,
}

/// Whether names are in strictly increasing order.
pub open spec fn names_sorted(s: Seq<Seq<char>>) -> bool {
    forall|i: int, j: int| 0 <= i < j < s.len() ==> seq_lt(#[trigger] s[i], #[trigger] s[j])
}

impl NameSet {
    /// The names, in order.
    pub closed spec fn names_view(&self) -> Seq<Seq<char>> {
        strings_view(self.names@)
    }

    /// Whether the names are in strictly increasing order.
    pub open spec fn wf(&self) -> bool {
        names_sorted(self.names_view())
    }

    /// No names.
    pub fn new() -> (r: NameSet)
        ensures
            r.wf(),
            r.names_view() == Seq::<Seq<char>>::empty(),
    {
        let r = NameSet { names: Vec::new() };
        assert(r.names_view() =~= Seq::<Seq<char>>::empty());
        r
    }

    /// Adds `name`, if it is not there already.
    pub fn insert(&mut self, name: &str)
        requires
            old(self).wf(),
        ensures
            final(self).wf(),
            final(self).names_view().to_set() == old(self).names_view().to_set().insert(name@),
    {
        let ghost before = strings_view(self.names@);
        let mut at: usize = 0;
        while at < self.names.len() && str_lt(self.names[at].as_str(), name)
            invariant
                at <= self.names@.len(),
                before == strings_view(self.names@),
                names_sorted(before),
                forall|i: int| 0 <= i < at ==> seq_lt(#[trigger] before[i], name@),
            decreases self.names@.len() - at,
        {
            assert(before[at as int] == self.names@[at as int]@);
            at = at + 1;
        }
        if at < self.names.len() && str_eq(self.names[at].as_str(), name) {
            proof {
                assert(before[at as int] == name@);
                assert(before.to_set().insert(name@) =~= before.to_set()) by {
                    assert(before.contains(name@));
                }
            }
            return;
        }
        proof {
            if at < before.len() {
                assert(before[at as int] == self.names@[at as int]@);
                lemma_seq_lt_total(before[at as int], name@);
                assert forall|k: int| at <= k < before.len() implies seq_lt(name@, #[trigger] before[k]) by {
                    if k > at {
                        lemma_seq_lt_transitive(name@, before[at as int], before[k]);
                    }
                }
            }
        }
        self.names.insert(at, crate::text::owned(name));
        proof {
            let s = strings_view(self.names@);
            assert(s =~= before.insert(at as int, name@));
            assert forall|i: int, j: int| 0 <= i < j < s.len() implies seq_lt(#[trigger] s[i], #[trigger] s[j]) by {
                if j < at {
                    assert(s[i] == before[i] && s[j] == before[j]);
                } else if j == at {
                    assert(s[i] == before[i]);
                } else if i < at {
                    assert(s[i] == before[i] && s[j] == before[j - 1]);
                    assert(seq_lt(before[i], name@));
                    assert(seq_lt(name@, before[j - 1]));
                    lemma_seq_lt_transitive(before[i], name@, before[j - 1]);
                } else if i == at {
                    assert(s[j] == before[j - 1]);
                } else {
                    assert(s[i] == before[i - 1] && s[j] == before[j - 1]);
                }
            }
            assert(s.to_set() =~= before.to_set().insert(name@)) by {
                assert forall|x: Seq<char>| s.to_set().contains(x) <==> before.to_set().insert(name@).contains(x) by {
                    if s.contains(x) {
                        let k = choose|k: int| 0 <= k < s.len() && s[k] == x;
                        if k < at {
                            assert(before[k] == x);
                        } else if k > at {
                            assert(before[k - 1] == x);
                        }
                    }
                    if before.contains(x) {
                        let k = choose|k: int| 0 <= k < before.len() && before[k] == x;
                        if k < at {
                            assert(s[k] == x);
                        } else {
                            assert(s[k + 1] == x);
                        }
                    }
                    if x == name@ {
                        assert(s[at as int] == x);
                    }
                }
            }
        }
    }

    /// The names, in order.
    pub fn into_names(self) -> (r: Vec<String>)
        ensures
            strings_view(r@) == self.names_view(),
            self.wf() ==> names_sorted(strings_view(r@)),
    {
        self.names
    }
}


/// The plan for one prefix: its steps, what it depends on, and the schema
/// its newest step declares.
pub struct PrefixPlan<F> {
    pub migrator: MigrationPlan<F>,
    pub dependencies: NameSet,
    pub fields: Vec<FieldDescriptor>,
    pub schema_hash: u32,
}

impl<F> PrefixPlan<F> {
    /// Whether the steps are in order and the dependencies each named once.
    pub open spec fn wf(&self) -> bool {
        self.migrator.wf() && self.dependencies.wf()
    }

    /// Nothing planned.
    pub fn new() -> (r: Self)
        ensures
            r.wf(),
            r.migrator.steps_view().len() == 0,
            r.dependencies.names_view().len() == 0,
            r.fields@.len() == 0,
            r.schema_hash == 0,
    {
        PrefixPlan {
            migrator: MigrationPlan::new(),
            dependencies: NameSet::new(),
            fields: Vec::new(),
            schema_hash: 0,
        }
    }
}

/// One step the code declares for a prefix, as the registry of steps lists
/// it.
pub struct StepEntry<F> {
    pub prefix: String,
    pub target_version: u32,
    pub description: String,
    pub schema_hash: u32,
    pub fields: Vec<FieldDescriptor>,
    pub dependencies: Vec<String>,
    pub run: F,
}

/// Where the first plan for `p` is, or -1.
pub open spec fn plan_pos<F>(s: Seq<(String, PrefixPlan<F>)>, p: Seq<char>) -> int
    decreases s.len(),
{
    if s.len() == 0 {
        -1
    } else if s.last().0@ == p {
        if plan_pos(s.drop_last(), p) >= 0 {
            plan_pos(s.drop_last(), p)
        } else {
            s.len() - 1
        }
    } else {
        plan_pos(s.drop_last(), p)
    }
}

proof fn lemma_plan_pos<F>(s: Seq<(String, PrefixPlan<F>)>, p: Seq<char>)
    ensures
        -1 <= plan_pos(s, p) < s.len(),
        plan_pos(s, p) >= 0 ==> s[plan_pos(s, p)].0@ == p,
        forall|i: int| 0 <= i < s.len() && (plan_pos(s, p) < 0 || i < plan_pos(s, p)) ==> (#[trigger] s[i]).0@ != p,
    decreases s.len(),
{
    if s.len() > 0 {
        let t = s.drop_last();
        lemma_plan_pos(t, p);
        assert forall|i: int| 0 <= i < s.len() && (plan_pos(s, p) < 0 || i < plan_pos(s, p)) implies (#[trigger] s[i]).0@ != p by {
            if i < s.len() - 1 {
                assert(s[i] == t[i]);
            }
        }
    }
}

proof fn lemma_plan_pos_is<F>(s: Seq<(String, PrefixPlan<F>)>, p: Seq<char>, k: int)
    requires
        -1 <= k < s.len(),
        k >= 0 ==> s[k].0@ == p,
        forall|i: int| 0 <= i < s.len() && (k < 0 || i < k) ==> (#[trigger] s[i]).0@ != p,
    ensures
        plan_pos(s, p) == k,
{
    lemma_plan_pos(s, p);
    let q = plan_pos(s, p);
    if q >= 0 && k >= 0 {
        if q < k {
            assert(s[q].0@ != p);
        } else if k < q {
            assert(s[k].0@ != p);
        }
    } else if q >= 0 {
        assert(s[q].0@ != p);
    } else if k >= 0 {
        assert(s[k].0@ != p);
    }
}

/// Plans by prefix, in the order the prefixes were first named.
pub struct MigrationBuilder<F> {
    prefixes: Vec<(String, PrefixPlan<F>)>,
}

impl<F> MigrationBuilder<F> {
    /// The plans, in the order the prefixes were first named.
    pub closed spec fn plans_view(&self) -> Seq<(String, PrefixPlan<F>)> {
        self.prefixes@
    }

    /// Whether every plan is well formed and each prefix has one.
    pub closed spec fn wf(&self) -> bool {
        &&& forall|i: int| 0 <= i < self.prefixes@.len() ==> (#[trigger] self.prefixes@[i]).1.wf()
        &&& forall|i: int, j: int| 0 <= i < j < self.prefixes@.len() ==> (#[trigger] self.prefixes@[i]).0@ != (#[trigger] self.prefixes@[j]).0@
    }

    /// The plan for `p`, where one was started.
    pub open spec fn plan_for(&self, p: Seq<char>) -> Option<PrefixPlan<F>> {
        let k = plan_pos(self.plans_view(), p);
        if k < 0 {
            None
        } else {
            Some(self.plans_view()[k].1)
        }
    }

    /// Nothing planned.
    pub fn new() -> (r: Self)
        ensures
            r.wf(),
            r.plans_view().len() == 0,
    {
        MigrationBuilder { prefixes: Vec::new() }
    }

    /// Takes the plan for `prefix` out, or an empty one where there is none,
    /// and where it stood.
    fn take_plan(&mut self, prefix: &str) -> (r: (usize, PrefixPlan<F>))
        requires
            old(self).wf(),
        ensures
            r.1.wf(),
            match old(self).plan_for(prefix@) {
                Some(pl) => r.1 == pl && r.0 == plan_pos(old(self).plans_view(), prefix@)
                    && final(self).plans_view() == old(self).plans_view().update(r.0 as int, (old(self).plans_view()[r.0 as int].0, final(self).plans_view()[r.0 as int].1)),
                None => r.1.migrator.steps_view().len() == 0 && r.1.dependencies.names_view().len() == 0
                    && r.1.fields@.len() == 0 && r.1.schema_hash == 0 && r.0 == old(self).plans_view().len()
                    && final(self).plans_view().len() == old(self).plans_view().len() + 1
                    && final(self).plans_view().subrange(0, r.0 as int) == old(self).plans_view()
                    && final(self).plans_view()[r.0 as int].0@ == prefix@,
            },
            final(self).wf(),
            r.0 < final(self).plans_view().len(),
    {
        proof {
            lemma_plan_pos(self.prefixes@, prefix@);
        }
        let mut i: usize = 0;
        while i < self.prefixes.len()
            invariant
                i <= self.prefixes@.len(),
                self.prefixes@ == old(self).prefixes@,
                old(self).wf(),
                forall|j: int| 0 <= j < i ==> (#[trigger] self.prefixes@[j]).0@ != prefix@,
            decreases self.prefixes@.len() - i,
        {
            if str_eq(self.prefixes[i].0.as_str(), prefix) {
                proof {
                    lemma_plan_pos_is(self.prefixes@, prefix@, i as int);
                }
                let (name, plan) = self.prefixes.remove(i);
                let ghost removed = self.prefixes@;
                self.prefixes.insert(i, (name, PrefixPlan::new()));
                proof {
                    assert forall|j: int| 0 <= j < self.prefixes@.len() implies (#[trigger] self.prefixes@[j]).1.wf() by {
                        if j != i {
                            assert(self.prefixes@[j] == old(self).prefixes@[j]);
                        }
                    }
                    assert(self.prefixes@ =~= old(self).prefixes@.update(i as int, (old(self).prefixes@[i as int].0, self.prefixes@[i as int].1)));
                    assert forall|a: int, b: int| 0 <= a < b < self.prefixes@.len() implies (#[trigger] self.prefixes@[a]).0@ != (#[trigger] self.prefixes@[b]).0@ by {
                        assert(self.prefixes@[a].0 == old(self).prefixes@[a].0);
                        assert(self.prefixes@[b].0 == old(self).prefixes@[b].0);
                    }
                }
                return (i, plan);
            }
            i = i + 1;
        }
        proof {
            lemma_plan_pos_is(self.prefixes@, prefix@, -1);
        }
        self.prefixes.push((crate::text::owned(prefix), PrefixPlan::new()));
        proof {
            assert(self.prefixes@.subrange(0, i as int) =~= old(self).prefixes@);
            assert forall|j: int| 0 <= j < self.prefixes@.len() implies (#[trigger] self.prefixes@[j]).1.wf() by {
                if j < i {
                    assert(self.prefixes@[j] == old(self).prefixes@[j]);
                }
            }
            assert forall|a: int, b: int| 0 <= a < b < self.prefixes@.len() implies (#[trigger] self.prefixes@[a]).0@ != (#[trigger] self.prefixes@[b]).0@ by {
                assert(self.prefixes@[a] == old(self).prefixes@[a]);
                if b < i {
                    assert(self.prefixes@[b] == old(self).prefixes@[b]);
                }
            }
        }
        (i, PrefixPlan::new())
    }

    /// Puts a plan back where it was taken from.
    fn put_plan(&mut self, at: usize, plan: PrefixPlan<F>)
        requires
            old(self).wf(),
            plan.wf(),
            at < old(self).plans_view().len(),
        ensures
            final(self).wf(),
            final(self).plans_view() == old(self).plans_view().update(at as int, (old(self).plans_view()[at as int].0, plan)),
    {
        let (name, _) = self.prefixes.remove(at);
        self.prefixes.insert(at, (name, plan));
        proof {
            assert forall|j: int| 0 <= j < self.prefixes@.len() implies (#[trigger] self.prefixes@[j]).1.wf() by {
                if j != at {
                    assert(self.prefixes@[j] == old(self).prefixes@[j]);
                }
            }
            assert forall|a: int, b: int| 0 <= a < b < self.prefixes@.len() implies (#[trigger] self.prefixes@[a]).0@ != (#[trigger] self.prefixes@[b]).0@ by {
                assert(self.prefixes@[a].0 == old(self).prefixes@[a].0);
                assert(self.prefixes@[b].0 == old(self).prefixes@[b].0);
            }
            assert(self.prefixes@ =~= old(self).prefixes@.update(at as int, (old(self).prefixes@[at as int].0, plan)));
        }
    }

    /// The steps planned for `p` so far; none where nothing is planned.
    pub open spec fn steps_of(&self, p: Seq<char>) -> Seq<PlanStep<F>> {
        match self.plan_for(p) {
            Some(pl) => pl.migrator.steps_view(),
            None => Seq::empty(),
        }
    }

    /// What `p` depends on so far.
    pub open spec fn deps_of(&self, p: Seq<char>) -> Set<Seq<char>> {
        match self.plan_for(p) {
            Some(pl) => pl.dependencies.names_view().to_set(),
            None => Set::empty(),
        }
    }

    /// The schema hash recorded for `p` so far; zero where nothing is planned.
    pub open spec fn hash_of(&self, p: Seq<char>) -> u32 {
        match self.plan_for(p) {
            Some(pl) => pl.schema_hash,
            None => 0,
        }
    }

    /// The fields recorded for `p` so far; none where nothing is planned.
    pub open spec fn fields_of(&self, p: Seq<char>) -> Seq<FieldDescriptor> {
        match self.plan_for(p) {
            Some(pl) => pl.fields@,
            None => Seq::empty(),
        }
    }

    /// Whether every prefix but `p` keeps the plan it had.
    pub open spec fn others_kept(&self, before: &Self, p: Seq<char>) -> bool {
        forall|q: Seq<char>| q != p ==> #[trigger] self.plan_for(q) == before.plan_for(q)
    }

    /// After a plan was taken out and put back changed, it is the plan for
    /// its prefix, and every other prefix keeps its own.
    proof fn lemma_put_back(o: Seq<(String, PrefixPlan<F>)>, f: Seq<(String, PrefixPlan<F>)>, at: int, p: Seq<char>, plan: PrefixPlan<F>)
        requires
            forall|a: int, b: int| 0 <= a < b < o.len() ==> (#[trigger] o[a]).0@ != (#[trigger] o[b]).0@,
            (plan_pos(o, p) >= 0 && at == plan_pos(o, p) && f == o.update(at, (o[at].0, plan)))
                || (plan_pos(o, p) < 0 && at == o.len() && f.len() == o.len() + 1 && f.subrange(0, at) == o
                    && f[at].0@ == p && f[at].1 == plan),
        ensures
            plan_pos(f, p) == at,
            f[at].1 == plan,
            forall|q: Seq<char>| q != p ==> #[trigger] plan_pos(f, q) == plan_pos(o, q),
            forall|q: Seq<char>| q != p && plan_pos(o, q) >= 0 ==> f[#[trigger] plan_pos(o, q)].1 == o[plan_pos(o, q)].1,
    {
        lemma_plan_pos(o, p);
        if plan_pos(o, p) >= 0 {
            assert forall|i: int| 0 <= i < f.len() && i < at implies (#[trigger] f[i]).0@ != p by {
                assert(f[i] == o[i]);
            }
            lemma_plan_pos_is(f, p, at);
        } else {
            assert forall|i: int| 0 <= i < f.len() && i < at implies (#[trigger] f[i]).0@ != p by {
                assert(f.subrange(0, at)[i] == f[i]);
            }
            lemma_plan_pos_is(f, p, at);
        }
        assert forall|q: Seq<char>| q != p implies #[trigger] plan_pos(f, q) == plan_pos(o, q) by {
            lemma_plan_pos(o, q);
            let k = plan_pos(o, q);
            if k >= 0 {
                assert(k != at);
                if plan_pos(o, p) >= 0 {
                    assert(f[k] == o[k]);
                } else {
                    assert(f.subrange(0, at)[k] == f[k]);
                }
                assert forall|i: int| 0 <= i < f.len() && i < k implies (#[trigger] f[i]).0@ != q by {
                    if i != at {
                        if plan_pos(o, p) >= 0 {
                            assert(f[i] == o[i]);
                        } else {
                            assert(f.subrange(0, at)[i] == f[i]);
                        }
                    } else {
                        assert(f[i].0@ == o[i].0@ || f[i].0@ == p);
                    }
                }
                lemma_plan_pos_is(f, q, k);
            } else {
                assert forall|i: int| 0 <= i < f.len() implies (#[trigger] f[i]).0@ != q by {
                    if i != at {
                        if plan_pos(o, p) >= 0 {
                            assert(f[i] == o[i]);
                        } else {
                            assert(f.subrange(0, at)[i] == f[i]);
                        }
                    } else if plan_pos(o, p) >= 0 {
                        assert(f[i].0 == o[i].0);
                    }
                }
                lemma_plan_pos_is(f, q, -1);
            }
        }
        assert forall|q: Seq<char>| q != p && plan_pos(o, q) >= 0 implies f[#[trigger] plan_pos(o, q)].1 == o[plan_pos(o, q)].1 by {
            lemma_plan_pos(o, q);
            let k = plan_pos(o, q);
            assert(k != at);
            if plan_pos(o, p) >= 0 {
                assert(f[k] == o[k]);
            } else {
                assert(f.subrange(0, at)[k] == f[k]);
            }
        }
    }

    /// Adds a step to the plan for `prefix`.
    pub fn step(&mut self, prefix: &str, target_version: u32, description: &str, run: F)
        requires
            old(self).wf(),
        ensures
            final(self).wf(),
            final(self).plan_for(prefix@) is Some,
            steps_views(final(self).steps_of(prefix@)) == steps_views(old(self).steps_of(prefix@)).insert(
                slot_for(old(self).steps_of(prefix@), target_version),
                (target_version, description@, run),
            ),
            final(self).deps_of(prefix@) == old(self).deps_of(prefix@),
            final(self).hash_of(prefix@) == old(self).hash_of(prefix@),
            final(self).fields_of(prefix@) == old(self).fields_of(prefix@),
            final(self).others_kept(&*old(self), prefix@),
    {
        let ghost o = self.prefixes@;
        let (at, mut plan) = self.take_plan(prefix);
        let ghost m = self.prefixes@;
        proof {
            if old(self).plan_for(prefix@) is None {
                assert(plan.migrator.steps_view() =~= Seq::<PlanStep<F>>::empty());
                assert(plan.dependencies.names_view().to_set() =~= Set::<Seq<char>>::empty());
                assert(plan.fields@ =~= Seq::<FieldDescriptor>::empty());
            }
        }
        plan.migrator = plan.migrator.step(target_version, description, run);
        let ghost pv = plan;
        self.put_plan(at, plan);
        proof {
            lemma_plan_pos(o, prefix@);
            if plan_pos(o, prefix@) < 0 {
                assert(self.prefixes@.subrange(0, at as int) =~= m.subrange(0, at as int));
                assert(m.subrange(0, at as int) == o);
                assert(self.prefixes@[at as int].0 == m[at as int].0);
            } else {
                assert(self.prefixes@ =~= o.update(at as int, (o[at as int].0, pv)));
            }
            Self::lemma_put_back(o, self.prefixes@, at as int, prefix@, pv);
        }
    }

    /// Records that the plan for `prefix` runs after the one for `dependency`.
    pub fn depends_on_raw(&mut self, prefix: &str, dependency: &str)
        requires
            old(self).wf(),
        ensures
            final(self).wf(),
            final(self).plan_for(prefix@) is Some,
            final(self).deps_of(prefix@) == old(self).deps_of(prefix@).insert(dependency@),
            final(self).steps_of(prefix@) == old(self).steps_of(prefix@),
            final(self).hash_of(prefix@) == old(self).hash_of(prefix@),
            final(self).fields_of(prefix@) == old(self).fields_of(prefix@),
            final(self).others_kept(&*old(self), prefix@),
    {
        let ghost o = self.prefixes@;
        let (at, mut plan) = self.take_plan(prefix);
        let ghost m = self.prefixes@;
        proof {
            if old(self).plan_for(prefix@) is None {
                assert(plan.migrator.steps_view() =~= Seq::<PlanStep<F>>::empty());
                assert(plan.dependencies.names_view().to_set() =~= Set::<Seq<char>>::empty());
                assert(plan.fields@ =~= Seq::<FieldDescriptor>::empty());
            }
        }
        plan.dependencies.insert(dependency);
        let ghost pv = plan;
        self.put_plan(at, plan);
        proof {
            lemma_plan_pos(o, prefix@);
            if plan_pos(o, prefix@) < 0 {
                assert(self.prefixes@.subrange(0, at as int) =~= m.subrange(0, at as int));
                assert(m.subrange(0, at as int) == o);
                assert(self.prefixes@[at as int].0 == m[at as int].0);
            } else {
                assert(self.prefixes@ =~= o.update(at as int, (o[at as int].0, pv)));
            }
            Self::lemma_put_back(o, self.prefixes@, at as int, prefix@, pv);
        }
    }

    /// Records the schema the newest step for `prefix` declares.
    pub fn set_latest(&mut self, prefix: &str, schema_hash: u32, fields: Vec<FieldDescriptor>)
        requires
            old(self).wf(),
        ensures
            final(self).wf(),
            final(self).plan_for(prefix@) is Some,
            final(self).hash_of(prefix@) == schema_hash,
            final(self).fields_of(prefix@) == fields@,
            final(self).steps_of(prefix@) == old(self).steps_of(prefix@),
            final(self).deps_of(prefix@) == old(self).deps_of(prefix@),
            final(self).others_kept(&*old(self), prefix@),
    {
        let ghost o = self.prefixes@;
        let (at, mut plan) = self.take_plan(prefix);
        let ghost m = self.prefixes@;
        proof {
            if old(self).plan_for(prefix@) is None {
                assert(plan.migrator.steps_view() =~= Seq::<PlanStep<F>>::empty());
                assert(plan.dependencies.names_view().to_set() =~= Set::<Seq<char>>::empty());
            }
        }
        plan.schema_hash = schema_hash;
        plan.fields = fields;
        let ghost pv = plan;
        self.put_plan(at, plan);
        proof {
            lemma_plan_pos(o, prefix@);
            if plan_pos(o, prefix@) < 0 {
                assert(self.prefixes@.subrange(0, at as int) =~= m.subrange(0, at as int));
                assert(m.subrange(0, at as int) == o);
                assert(self.prefixes@[at as int].0 == m[at as int].0);
            } else {
                assert(self.prefixes@ =~= o.update(at as int, (o[at as int].0, pv)));
            }
            Self::lemma_put_back(o, self.prefixes@, at as int, prefix@, pv);
        }
    }

    /// The plans, each prefix once, in increasing order of prefix.
    #[verifier::rlimit(30)]
    pub fn into_set(self) -> (r: Vec<(String, PrefixPlan<F>)>)
        requires
            self.wf(),
        ensures
            names_sorted(plan_names(r@)),
            forall|i: int| 0 <= i < r@.len() ==> self.plan_for((#[trigger] r@[i]).0@) == Some(r@[i].1),
            forall|p: Seq<char>| #[trigger] self.plan_for(p) is Some ==> exists|i: int| 0 <= i < r@.len() && (#[trigger] r@[i]).0@ == p,
    {
        let ghost all = self.prefixes@;
        let mut rest = self.prefixes;
        let mut out: Vec<(String, PrefixPlan<F>)> = Vec::new();
        let mut taken: usize = 0;
        let total = rest.len();
        proof {
            assert(plan_names(out@) =~= Seq::<Seq<char>>::empty());
            assert(all.len() == total);
        }
        while rest.len() > 0
            invariant
                taken + rest@.len() == all.len(),
                all.len() <= usize::MAX,
                rest@ == all.subrange(taken as int, all.len() as int),
                forall|a: int, b: int| 0 <= a < b < all.len() ==> (#[trigger] all[a]).0@ != (#[trigger] all[b]).0@,
                names_sorted(plan_names(out@)),
                forall|x: (String, PrefixPlan<F>)| out@.contains(x) <==> all.subrange(0, taken as int).contains(x),
            decreases rest@.len(),
        {
            let e = rest.remove(0);
            proof {
                assert(e == all[taken as int]);
                assert forall|j: int| 0 <= j < out@.len() implies (#[trigger] out@[j]).0@ != e.0@ by {
                    assert(out@.contains(out@[j]));
                    let k = choose|k: int| 0 <= k < taken && all.subrange(0, taken as int)[k] == out@[j];
                    assert(all[k] == out@[j]);
                }
                assert(rest@ =~= all.subrange(taken + 1, all.len() as int));
            }
            insert_by_name(&mut out, e);
            proof {
                let t = all.subrange(0, taken + 1);
                assert forall|x: (String, PrefixPlan<F>)| out@.contains(x) <==> t.contains(x) by {
                    if x == e {
                        assert(t[taken as int] == x);
                    }
                    if all.subrange(0, taken as int).contains(x) {
                        let k = choose|k: int| 0 <= k < taken && all.subrange(0, taken as int)[k] == x;
                        assert(t[k] == x);
                    }
                    if t.contains(x) {
                        let k = choose|k: int| 0 <= k < taken + 1 && t[k] == x;
                        if k < taken {
                            assert(all.subrange(0, taken as int)[k] == x);
                        }
                    }
                }
            }
            taken = taken + 1;
        }
        proof {
            assert(all.subrange(0, taken as int) =~= all);
            assert forall|i: int| 0 <= i < out@.len() implies self.plan_for((#[trigger] out@[i]).0@) == Some(out@[i].1) by {
                assert(out@.contains(out@[i]));
                let k = choose|k: int| 0 <= k < all.len() && all[k] == out@[i];
                assert forall|m: int| 0 <= m < all.len() && m < k implies (#[trigger] all[m]).0@ != out@[i].0@ by {
                    assert(all[m].0@ != all[k].0@);
                }
                lemma_plan_pos_is(all, out@[i].0@, k);
            }
            assert forall|p: Seq<char>| #[trigger] self.plan_for(p) is Some implies exists|i: int| 0 <= i < out@.len() && (#[trigger] out@[i]).0@ == p by {
                lemma_plan_pos(all, p);
                let k = plan_pos(all, p);
                assert(all.subrange(0, taken as int)[k] == all[k]);
                assert(all.subrange(0, taken as int).contains(all[k]));
                assert(out@.contains(all[k]));
                let j = choose|j: int| 0 <= j < out@.len() && out@[j] == all[k];
                assert(out@[j].0@ == p);
            }
        }
        out
    }
}

/// The prefixes of a list of plans, in order.
pub open spec fn plan_names<F>(v: Seq<(String, PrefixPlan<F>)>) -> Seq<Seq<char>> {
    Seq::new(v.len(), |i: int| v[i].0@)
}

/// Puts `e` into `out` where its prefix sorts.
fn insert_by_name<F>(out: &mut Vec<(String, PrefixPlan<F>)>, e: (String, PrefixPlan<F>))
    requires
        names_sorted(plan_names(old(out)@)),
        forall|j: int| 0 <= j < old(out)@.len() ==> (#[trigger] old(out)@[j]).0@ != e.0@,
    ensures
        names_sorted(plan_names(final(out)@)),
        forall|x: (String, PrefixPlan<F>)| #[trigger] final(out)@.contains(x) <==> old(out)@.contains(x) || x == e,
{
    let ghost names = plan_names(out@);
    let ghost before = out@;
    let mut at: usize = 0;
    while at < out.len() && str_lt(out[at].0.as_str(), e.0.as_str())
        invariant
            at <= out@.len(),
            out@ == before,
            names == plan_names(out@),
            forall|i: int| 0 <= i < at ==> seq_lt(#[trigger] names[i], e.0@),
        decreases out@.len() - at,
    {
        at = at + 1;
    }
    proof {
        if at < out@.len() {
            assert(names[at as int] == out@[at as int].0@);
            lemma_seq_lt_total(names[at as int], e.0@);
            assert forall|m: int| at <= m < names.len() implies seq_lt(e.0@, #[trigger] names[m]) by {
                if m > at {
                    lemma_seq_lt_transitive(e.0@, names[at as int], names[m]);
                }
            }
        }
    }
    let ghost ev = e;
    out.insert(at, e);
    proof {
        let ns = plan_names(out@);
        assert forall|a: int, b: int| 0 <= a < b < ns.len() implies seq_lt(#[trigger] ns[a], #[trigger] ns[b]) by {
            if b < at {
                assert(ns[a] == names[a] && ns[b] == names[b]);
            } else if b == at {
                assert(ns[a] == names[a]);
            } else if a < at {
                assert(ns[a] == names[a] && ns[b] == names[b - 1]);
                lemma_seq_lt_transitive(names[a], ev.0@, names[b - 1]);
            } else if a == at {
                assert(ns[b] == names[b - 1]);
            } else {
                assert(ns[a] == names[a - 1] && ns[b] == names[b - 1]);
            }
        }
        assert(before == old(out)@);
        assert(ev == e);
        assert forall|x: (String, PrefixPlan<F>)| #[trigger] out@.contains(x) <==> before.contains(x) || x == ev by {
            if out@.contains(x) {
                let k = choose|k: int| 0 <= k < out@.len() && out@[k] == x;
                if k < at {
                    assert(before[k] == x);
                } else if k > at {
                    assert(before[k - 1] == x);
                }
            }
            if before.contains(x) {
                let k = choose|k: int| 0 <= k < before.len() && before[k] == x;
                if k < at {
                    assert(out@[k] == x);
                } else {
                    assert(out@[k + 1] == x);
                }
            }
            if x == ev {
                assert(out@[at as int] == x);
            }
        }
    }
}

} // verus!
