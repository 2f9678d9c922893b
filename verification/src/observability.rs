//! Names for what an inspector shows: which struct an instance is, and which
//! struct, field and type a stored path belongs to.
use crate::path::str_eq;
use std::collections::HashMap;
use vstd::prelude::*;

verus! {

broadcast use vstd::std_specs::hash::group_hash_axioms;

/// Where the last `::` in `s` starts, or -1.
pub open spec fn last_colons(s: Seq<char>) -> int
    decreases s.len(),
{
    if s.len() < 2 {
        -1
    } else if s[s.len() - 2] == ':' && s[s.len() - 1] == ':' {
        s.len() - 2
    } else {
        last_colons(s.drop_last())
    }
}

/// A type's name without the module path before it: what follows the last
/// `::`, or the whole name where there is none.
pub open spec fn short_name(s: Seq<char>) -> Seq<char> {
    if last_colons(s) < 0 {
        s
    } else {
        s.subrange(last_colons(s) + 2, s.len() as int)
    }
}

/// Where the last `.` in `s` is, or -1.
pub open spec fn last_dot(s: Seq<char>) -> int
    decreases s.len(),
{
    if s.len() == 0 {
        -1
    } else if s.last() == '.' {
        s.len() - 1
    } else {
        last_dot(s.drop_last())
    }
}

/// A path's last level: what follows the last `.`, or the whole path.
pub open spec fn last_level(s: Seq<char>) -> Seq<char> {
    s.subrange(last_dot(s) + 1, s.len() as int)
}

/// A type's name without its module path.
pub fn short_type_name(full: &str) -> (r: String)
    ensures
        r@ == short_name(full@),
{
    let n = full.unicode_len();
    let mut end: usize = n;
    proof {
        assert(full@.subrange(0, n as int) =~= full@);
    }
    while end >= 2
        invariant
            n == full@.len(),
            end <= n,
            last_colons(full@.subrange(0, end as int)) == last_colons(full@),
        decreases end,
    {
        let a = full.get_char(end - 2);
        let b = full.get_char(end - 1);
        let ghost pre = full@.subrange(0, end as int);
        if a == ':' && b == ':' {
            proof {
                assert(pre[pre.len() - 2] == a && pre[pre.len() - 1] == b);
            }
            let rest = full.substring_char(end, n);
            return crate::text::owned(rest);
        }
        proof {
            assert(pre.drop_last() =~= full@.subrange(0, end - 1));
        }
        end = end - 1;
    }
    crate::text::owned(full)
}

/// A path's last level.
pub fn last_level_of(path: &str) -> (r: String)
    ensures
        r@ == last_level(path@),
{
    let n = path.unicode_len();
    let mut end: usize = n;
    proof {
        assert(path@.subrange(0, n as int) =~= path@);
    }
    while end > 0
        invariant
            n == path@.len(),
            end <= n,
            last_dot(path@.subrange(0, end as int)) == last_dot(path@),
        decreases end,
    {
        let c = path.get_char(end - 1);
        let ghost pre = path@.subrange(0, end as int);
        if c == '.' {
            proof {
                assert(pre.last() == c);
            }
            return crate::text::owned(path.substring_char(end, n));
        }
        proof {
            assert(pre.drop_last() =~= path@.subrange(0, end - 1));
        }
        end = end - 1;
    }
    proof {
        assert(path@.subrange(0, n as int) =~= path@);
    }
    crate::text::owned(path)
}

/// Which struct, field and type a stored path belongs to.
#[derive(Debug, Clone, PartialEq, Eq)]
pub struct FieldMeta {
    pub struct_type_name: String,
    pub field_name: String,
    pub value_type_name: String,
}

/// A field's names, as plain values.
pub open spec fn meta_view(m: FieldMeta) -> (Seq<char>, Seq<char>, Seq<char>) {
    (m.struct_type_name@, m.field_name@, m.value_type_name@)
}

/// What an inspector knows: each live instance's struct, and each registered
/// path's field.
pub struct Registry {
    instances: HashMap<u128, String>,
    fields: Vec<(String, FieldMeta)>,
}

impl Registry {
    /// The instances, by id.
    pub closed spec fn instances_view(&self) -> Map<u128, Seq<char>> {
        Map::new(|id: u128| self.instances@.contains_key(id), |id: u128| self.instances@[id]@)
    }

    /// The registered fields, by path.
    pub closed spec fn fields_view(&self) -> Map<Seq<char>, (Seq<char>, Seq<char>, Seq<char>)> {
        Map::new(
            |p: Seq<char>| exists|i: int| 0 <= i < self.fields@.len() && #[trigger] self.fields@[i].0@ == p,
            |p: Seq<char>| meta_view(self.fields@[self.field_index(p)].1),
        )
    }

    spec fn field_index(&self, p: Seq<char>) -> int {
        choose|i: int| 0 <= i < self.fields@.len() && #[trigger] self.fields@[i].0@ == p
    }

    /// Each id and each path is held once.
    pub closed spec fn wf(&self) -> bool {
        &&& forall|i: int, j: int|
            0 <= i < j < self.fields@.len() ==> (#[trigger] self.fields@[i]).0@ != (#[trigger] self.fields@[j]).0@
    }

    proof fn lemma_field_at(&self, i: int)
        requires
            self.wf(),
            0 <= i < self.fields@.len(),
        ensures
            self.fields_view().contains_key(self.fields@[i].0@),
            self.fields_view()[self.fields@[i].0@] == meta_view(self.fields@[i].1),
    {
        let p = self.fields@[i].0@;
        assert(exists|j: int| 0 <= j < self.fields@.len() && #[trigger] self.fields@[j].0@ == p);
        let j = self.field_index(p);
        if i < j {
            assert(self.fields@[i].0@ != self.fields@[j].0@);
        } else if j < i {
            assert(self.fields@[j].0@ != self.fields@[i].0@);
        }
    }

    /// An empty registry.
    pub fn new() -> (r: Registry)
        ensures
            r.wf(),
            r.instances_view() == Map::<u128, Seq<char>>::empty(),
            r.fields_view() == Map::<Seq<char>, (Seq<char>, Seq<char>, Seq<char>)>::empty(),
    {
        let r = Registry { instances: HashMap::new(), fields: Vec::new() };
        assert(r.instances_view() =~= Map::<u128, Seq<char>>::empty());
        assert(r.fields_view() =~= Map::<Seq<char>, (Seq<char>, Seq<char>, Seq<char>)>::empty());
        r
    }

    fn field_position(&self, path: &str) -> (r: Option<usize>)
        requires
            self.wf(),
        ensures
            match r {
                Some(i) => i < self.fields@.len() && self.fields@[i as int].0@ == path@,
                None => !self.fields_view().contains_key(path@),
            },
    {
        let mut i: usize = 0;
        while i < self.fields.len()
            invariant
                i <= self.fields@.len(),
                forall|j: int| 0 <= j < i ==> (#[trigger] self.fields@[j]).0@ != path@,
            decreases self.fields@.len() - i,
        {
            if str_eq(self.fields[i].0.as_str(), path) {
                return Some(i);
            }
            i = i + 1;
        }
        None
    }

    /// Records which struct the instance `id` is; a later call for the same
    /// id replaces it.
    pub fn register_instance(&mut self, id: u128, struct_type_name: &str)
        requires
            old(self).wf(),
        ensures
            final(self).wf(),
            final(self).instances_view() == old(self).instances_view().insert(id, struct_type_name@),
            final(self).fields_view() == old(self).fields_view(),
    {
        let name = crate::text::owned(struct_type_name);
        self.instances.insert(id, name);
        proof {
            assert(self.instances_view() =~= old(self).instances_view().insert(id, struct_type_name@));
        }
    }

    /// Forgets the instance `id`.
    pub fn deregister_instance(&mut self, id: u128)
        requires
            old(self).wf(),
        ensures
            final(self).wf(),
            final(self).instances_view() == old(self).instances_view().remove(id),
            final(self).fields_view() == old(self).fields_view(),
    {
        self.instances.remove(&id);
        proof {
            assert(self.instances_view() =~= old(self).instances_view().remove(id));
        }
    }

    /// Which struct the instance `id` is, if it is registered.
    pub fn resolve_instance(&self, id: u128) -> (r: Option<String>)
        requires
            self.wf(),
        ensures
            match r {
                Some(n) => self.instances_view().contains_key(id) && self.instances_view()[id] == n@,
                None => !self.instances_view().contains_key(id),
            },
    {
        match self.instances.get(&id) {
            Some(name) => Some(crate::text::owned(name.as_str())),
            None => None,
        }
    }

    /// The same, without the module path.
    pub fn resolve_instance_short(&self, id: u128) -> (r: Option<String>)
        requires
            self.wf(),
        ensures
            match r {
                Some(n) => self.instances_view().contains_key(id) && short_name(self.instances_view()[id]) == n@,
                None => !self.instances_view().contains_key(id),
            },
    {
        match self.resolve_instance(id) {
            Some(n) => Some(short_type_name(n.as_str())),
            None => None,
        }
    }

    /// Records which struct, field and type `path` belongs to, taking the
    /// struct from the instance that registers it. An instance nobody
    /// registered records nothing, and a path already recorded keeps what it
    /// was first recorded with.
    pub fn register_field(&mut self, path: &str, instance_id: u128, value_type_name: &str)
        requires
            old(self).wf(),
        ensures
            final(self).wf(),
            final(self).instances_view() == old(self).instances_view(),
            !old(self).instances_view().contains_key(instance_id) || old(self).fields_view().contains_key(path@)
                ==> final(self).fields_view() == old(self).fields_view(),
            old(self).instances_view().contains_key(instance_id) && !old(self).fields_view().contains_key(path@)
                ==> final(self).fields_view() == old(self).fields_view().insert(
                path@,
                (old(self).instances_view()[instance_id], last_level(path@), value_type_name@),
            ),
    {
        let struct_type_name = match self.resolve_instance(instance_id) {
            Some(n) => n,
            None => return,
        };
        match self.field_position(path) {
            Some(i) => {
                proof {
                    self.lemma_field_at(i as int);
                }
                return;
            },
            None => {},
        }
        let ghost before = self.fields@;
        let meta = FieldMeta {
            struct_type_name,
            field_name: last_level_of(path),
            value_type_name: crate::text::owned(value_type_name),
        };
        self.fields.push((crate::text::owned(path), meta));
        proof {
            assert forall|a: int, b: int| 0 <= a < b < self.fields@.len() implies (#[trigger] self.fields@[a]).0@
                != (#[trigger] self.fields@[b]).0@ by {
                if b < before.len() {
                    assert(self.fields@[a] == before[a] && self.fields@[b] == before[b]);
                } else {
                    assert(self.fields@[a] == before[a]);
                }
            }
            let m = self.fields_view();
            let want = old(self).fields_view().insert(
                path@,
                (old(self).instances_view()[instance_id], last_level(path@), value_type_name@),
            );
            assert forall|k: Seq<char>| #![trigger m.contains_key(k)] m.contains_key(k) == want.contains_key(k) by {
                if want.contains_key(k) && k != path@ {
                    let j = old(self).field_index(k);
                    assert(self.fields@[j] == before[j]);
                }
                if k == path@ {
                    assert(self.fields@[before.len() as int].0@ == path@);
                }
                if m.contains_key(k) && k != path@ {
                    let j = self.field_index(k);
                    assert(self.fields@[j] == before[j]);
                }
            }
            assert forall|k: Seq<char>| #[trigger] m.contains_key(k) implies m[k] == want[k] by {
                let j = self.field_index(k);
                self.lemma_field_at(j);
                if j < before.len() {
                    assert(self.fields@[j] == before[j]);
                    old(self).lemma_field_at(j);
                }
            }
            assert(m =~= want);
            assert(self.instances_view() =~= old(self).instances_view());
        }
    }

    /// Which struct, field and type `path` belongs to, if it was registered.
    pub fn resolve_field(&self, path: &str) -> (r: Option<FieldMeta>)
        requires
            self.wf(),
        ensures
            match r {
                Some(m) => self.fields_view().contains_key(path@) && self.fields_view()[path@] == meta_view(m),
                None => !self.fields_view().contains_key(path@),
            },
    {
        match self.field_position(path) {
            Some(i) => {
                proof {
                    self.lemma_field_at(i as int);
                }
                let m = &self.fields[i].1;
                Some(
                    FieldMeta {
                        struct_type_name: crate::text::owned(m.struct_type_name.as_str()),
                        field_name: crate::text::owned(m.field_name.as_str()),
                        value_type_name: crate::text::owned(m.value_type_name.as_str()),
                    },
                )
            },
            None => None,
        }
    }
}

} // verus!
