//! What a struct declares: the paths it owns and what each one holds.
use crate::path::{joined, StorePath};
use vstd::prelude::*;

verus! {

/// What a declared path is, as far as the store is concerned.
///
/// Not what the value is - that is the value's business and the disk's. This
/// says whether the path holds one value, or is the level a map's entries sit
/// under, or is only a level on the way to other declared paths.
#[derive(Clone, Copy, PartialEq, Eq, Debug, Structural)]
pub enum Role {
    /// One value lives here. Anything under it in a document is the inside of
    /// that value, not a path.
    Field,
    /// A map's entries live one level under here. This path itself holds
    /// nothing.
    Mapping,
    /// A level on the way to declared paths, holding nothing itself.
    Node,
}

/// The name a role is written under.
pub open spec fn role_name(role: Role) -> Seq<char> {
    match role {
        Role::Field => "field"@,
        Role::Mapping => "map"@,
        Role::Node => "node"@,
    }
}

impl Role {
    /// `==` spelled as a method.
    pub fn same(self, other: Self) -> (r: bool)
        ensures
            r == (self == other),
    {
        self == other
    }

    /// The name the role is written under.
    pub fn as_str(self) -> (r: &'static str)
        ensures
            r@ == role_name(self),
    {
        match self {
            Role::Field => "field",
            Role::Mapping => "map",
            Role::Node => "node",
        }
    }

    /// The role written under `name`, or the message refusing it.
    pub fn from_name(name: &str) -> (r: Result<Role, String>)
        ensures
            match r {
                Ok(role) => role_name(role) == name@,
                Err(msg) => name@ != "field"@ && name@ != "map"@ && name@ != "node"@ && msg@
                    == "no such role: "@ + name@,
            },
    {
        if crate::path::str_eq(name, "field") {
            Ok(Role::Field)
        } else if crate::path::str_eq(name, "map") {
            Ok(Role::Mapping)
        } else if crate::path::str_eq(name, "node") {
            Ok(Role::Node)
        } else {
            let mut msg = String::new();
            msg.append("no such role: ");
            msg.append(name);
            Err(msg)
        }
    }
}

/// One declared path, and for a node, the paths under it.
pub struct FieldDescriptor {
    /// Where it is stored, as levels relative to whatever holds it.
    pub name: StorePath,
    /// The name in the source, which is what the code calls it.
    pub declared: String,
    pub value_type: String,
    pub role: Role,
    /// Whether the path may hold nothing and still be a path.
    pub optional: bool,
    /// For a [`Role::Node`], the fields that live under it; empty otherwise.
    pub children: Vec<FieldDescriptor>,
    /// Whether this node gives the paths under it a segment of its own. A
    /// flattened node does not: its children sit at its holder's level.
    pub flattened: bool,
}

impl FieldDescriptor {
    /// A path holding one value, which is what most declared paths are.
    pub fn leaf(name: StorePath, value_type: &str) -> (r: FieldDescriptor)
        ensures
            r.name@ == name@,
            r.declared@ == joined(name@),
            r.value_type@ == value_type@,
            r.role == Role::Field,
            !r.optional,
            r.children@.len() == 0,
            !r.flattened,
    {
        let declared = name.as_string();
        FieldDescriptor {
            name,
            declared,
            value_type: value_type.to_owned(),
            role: Role::Field,
            optional: false,
            children: Vec::new(),
            flattened: false,
        }
    }

    /// The place this field owns under `under`, or `None` for a node, which
    /// owns nothing itself and is only the way to what is under it.
    pub fn owns(&self, under: &StorePath) -> (r: Option<StorePath>)
        ensures
            r is Some <==> owns_spec(self, under@) is Some,
            r is Some ==> r.unwrap()@ == owns_spec(self, under@).unwrap(),
    {
        if self.role == Role::Node {
            None
        } else {
            Some(under.join(&self.name))
        }
    }

    /// Where the fields under this one sit: under its own segment, or at its
    /// holder's level when it is flattened.
    pub fn below(&self, under: &StorePath) -> (r: StorePath)
        ensures
            r@ == below_spec(self, under@),
    {
        if self.flattened {
            under.copy()
        } else {
            under.join(&self.name)
        }
    }
}

/// The place `f` owns under `under`, if it is a place at all.
pub open spec fn owns_spec(f: &FieldDescriptor, under: Seq<Seq<char>>) -> Option<
    Seq<Seq<char>>,
> {
    if f.role == Role::Node {
        None
    } else {
        Some(under + f.name@)
    }
}

/// Where the fields under `f` sit.
pub open spec fn below_spec(f: &FieldDescriptor, under: Seq<Seq<char>>) -> Seq<Seq<char>> {
    if f.flattened {
        under
    } else {
        under + f.name@
    }
}

/// Whether `fields` puts a path called `name` at its own level, reaching
/// through flattened nodes, which contribute no segment.
pub open spec fn brings_spec(fields: Seq<FieldDescriptor>, name: Seq<char>) -> bool
    decreases fields,
{
    if fields.len() == 0 {
        false
    } else {
        brings_spec(fields.drop_last(), name) || brings_one(fields.last(), name)
    }
}

/// Whether one field puts `name` at the level it sits on.
pub open spec fn brings_one(f: FieldDescriptor, name: Seq<char>) -> bool
    decreases f,
{
    if f.flattened {
        brings_spec(f.children@, name)
    } else {
        joined(f.name@) == name
    }
}

/// Whether two sets of fields, flattened into the same level, would land on
/// a name in common.
pub open spec fn overlap_spec(a: Seq<FieldDescriptor>, b: Seq<FieldDescriptor>) -> bool
    decreases a,
{
    if a.len() == 0 {
        false
    } else {
        overlap_spec(a.drop_last(), b) || overlap_one(a.last(), b)
    }
}

/// Whether one field of the first set lands on a name `b` brings.
pub open spec fn overlap_one(f: FieldDescriptor, b: Seq<FieldDescriptor>) -> bool
    decreases f,
{
    if f.flattened {
        overlap_spec(f.children@, b)
    } else {
        brings_spec(b, joined(f.name@))
    }
}

/// Whether `fields` puts a path called `name` at its own level.
///
/// Reached through flattened nodes, which contribute no segment: a name a
/// flattened grandchild brings up arrives here as if it were written here.
pub fn brings(fields: &[FieldDescriptor], name: &str) -> (r: bool)
    ensures
        r == brings_spec(fields@, name@),
    decreases fields@,
{
    let mut i: usize = 0;
    while i < fields.len()
        invariant
            i <= fields@.len(),
            !brings_spec(fields@.subrange(0, i as int), name@),
        decreases fields@.len() - i,
    {
        let f = &fields[i];
        let hit = if f.flattened {
            proof {
                assert(decreases_to!(fields@ => fields@[i as int]));
            }
            brings(f.children.as_slice(), name)
        } else {
            let spelled = f.name.as_string();
            crate::path::str_eq(spelled.as_str(), name)
        };
        proof {
            let pre = fields@.subrange(0, i + 1);
            assert(pre.drop_last() =~= fields@.subrange(0, i as int));
            assert(pre.last() == fields@[i as int]);
            assert(hit == brings_one(fields@[i as int], name@));
            assert(brings_spec(pre, name@) == (brings_spec(pre.drop_last(), name@) || brings_one(pre.last(), name@)));
        }
        if hit {
            proof {
                lemma_brings_prefix(fields@, i + 1, name@);
            }
            return true;
        }
        i = i + 1;
    }
    assert(fields@.subrange(0, fields@.len() as int) =~= fields@);
    false
}

/// Bringing a name from a prefix of a level brings it from the level.
pub proof fn lemma_brings_prefix(fields: Seq<FieldDescriptor>, n: int, name: Seq<char>)
    requires
        0 <= n <= fields.len(),
        brings_spec(fields.subrange(0, n), name),
    ensures
        brings_spec(fields, name),
    decreases fields.len() - n,
{
    if n < fields.len() {
        assert(fields.subrange(0, n + 1).drop_last() =~= fields.subrange(0, n));
        lemma_brings_prefix(fields, n + 1, name);
    } else {
        assert(fields.subrange(0, n) =~= fields);
    }
}

/// Overlap found from a prefix of the first set is overlap of the whole.
pub proof fn lemma_overlap_prefix(a: Seq<FieldDescriptor>, n: int, b: Seq<FieldDescriptor>)
    requires
        0 <= n <= a.len(),
        overlap_spec(a.subrange(0, n), b),
    ensures
        overlap_spec(a, b),
    decreases a.len() - n,
{
    if n < a.len() {
        assert(a.subrange(0, n + 1).drop_last() =~= a.subrange(0, n));
        lemma_overlap_prefix(a, n + 1, b);
    } else {
        assert(a.subrange(0, n) =~= a);
    }
}

proof fn lemma_overlap_set(a: Seq<FieldDescriptor>, b: Seq<FieldDescriptor>)
    ensures
        overlap_spec(a, b) ==> exists|n: Seq<char>| #[trigger] brings_spec(a, n) && brings_spec(b, n),
        forall|n: Seq<char>| #[trigger] brings_spec(a, n) && brings_spec(b, n) ==> overlap_spec(a, b),
    decreases a, 1int,
{
    if a.len() > 0 {
        lemma_overlap_set(a.drop_last(), b);
        lemma_overlap_field(a.last(), b);
        assert forall|n: Seq<char>| #[trigger] brings_spec(a, n) && brings_spec(b, n) implies overlap_spec(a, b) by {
            if brings_spec(a.drop_last(), n) {
                assert(overlap_spec(a.drop_last(), b));
            } else {
                assert(brings_one(a.last(), n));
                assert(overlap_one(a.last(), b));
            }
        }
        if overlap_spec(a, b) {
            if overlap_spec(a.drop_last(), b) {
                let n = choose|n: Seq<char>| #[trigger] brings_spec(a.drop_last(), n) && brings_spec(b, n);
                assert(brings_spec(a, n));
            } else {
                let n = choose|n: Seq<char>| #[trigger] brings_one(a.last(), n) && brings_spec(b, n);
                assert(brings_spec(a, n));
            }
        }
    }
}

proof fn lemma_overlap_field(f: FieldDescriptor, b: Seq<FieldDescriptor>)
    ensures
        overlap_one(f, b) ==> exists|n: Seq<char>| #[trigger] brings_one(f, n) && brings_spec(b, n),
        forall|n: Seq<char>| #[trigger] brings_one(f, n) && brings_spec(b, n) ==> overlap_one(f, b),
    decreases f, 0int,
{
    if f.flattened {
        lemma_overlap_set(f.children@, b);
        if overlap_one(f, b) {
            let n = choose|n: Seq<char>| #[trigger] brings_spec(f.children@, n) && brings_spec(b, n);
            assert(brings_one(f, n));
        }
        assert forall|n: Seq<char>| #[trigger] brings_one(f, n) && brings_spec(b, n) implies overlap_one(f, b) by {
            assert(brings_spec(f.children@, n));
        }
    } else {
        if overlap_one(f, b) {
            assert(brings_one(f, joined(f.name@)));
        }
        assert forall|n: Seq<char>| #[trigger] brings_one(f, n) && brings_spec(b, n) implies overlap_one(f, b) by {
            assert(joined(f.name@) == n);
        }
    }
}

/// Two sets of fields overlap exactly when some name is brought by both, so
/// overlap is symmetric: which of the two is asked about first does not
/// matter.
pub proof fn law_overlap_is_a_name_both_bring(a: Seq<FieldDescriptor>, b: Seq<FieldDescriptor>)
    ensures
        overlap_spec(a, b) <==> exists|n: Seq<char>| #[trigger] brings_spec(a, n) && brings_spec(b, n),
        overlap_spec(a, b) == overlap_spec(b, a),
{
    lemma_overlap_set(a, b);
    lemma_overlap_set(b, a);
    if overlap_spec(a, b) {
        let n = choose|n: Seq<char>| #[trigger] brings_spec(a, n) && brings_spec(b, n);
        assert(brings_spec(b, n) && brings_spec(a, n));
    }
    if overlap_spec(b, a) {
        let n = choose|n: Seq<char>| #[trigger] brings_spec(b, n) && brings_spec(a, n);
        assert(brings_spec(a, n) && brings_spec(b, n));
    }
}

/// Whether two sets of fields, flattened into the same level, would land on a
/// name in common.
pub fn overlap(a: &[FieldDescriptor], b: &[FieldDescriptor]) -> (r: bool)
    ensures
        r == overlap_spec(a@, b@),
    decreases a@,
{
    let mut i: usize = 0;
    while i < a.len()
        invariant
            i <= a@.len(),
            !overlap_spec(a@.subrange(0, i as int), b@),
        decreases a@.len() - i,
    {
        let f = &a[i];
        let hit = if f.flattened {
            proof {
                assert(decreases_to!(a@ => a@[i as int]));
            }
            overlap(f.children.as_slice(), b)
        } else {
            let spelled = f.name.as_string();
            brings(b, spelled.as_str())
        };
        proof {
            let pre = a@.subrange(0, i + 1);
            assert(pre.drop_last() =~= a@.subrange(0, i as int));
            assert(pre.last() == a@[i as int]);
            assert(hit == overlap_one(a@[i as int], b@));
            assert(overlap_spec(pre, b@) == (overlap_spec(pre.drop_last(), b@) || overlap_one(pre.last(), b@)));
        }
        if hit {
            proof {
                lemma_overlap_prefix(a@, i + 1, b@);
            }
            return true;
        }
        i = i + 1;
    }
    assert(a@.subrange(0, a@.len() as int) =~= a@);
    false
}

/// Whether a name already spelled at this level is also brought up by
/// `fields`.
pub fn brings_any(fields: &[FieldDescriptor], names: &[&str]) -> (r: bool)
    ensures
        r == exists|i: int| 0 <= i < names@.len() && brings_spec(fields@, (#[trigger] names@[i])@),
{
    let mut i: usize = 0;
    while i < names.len()
        invariant
            i <= names@.len(),
            forall|j: int| 0 <= j < i ==> !brings_spec(fields@, (#[trigger] names@[j])@),
        decreases names@.len() - i,
    {
        if brings(fields, names[i]) {
            return true;
        }
        i = i + 1;
    }
    false
}

} // verus!
