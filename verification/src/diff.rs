//! What subscribers are told when a document is edited from outside: every
//! leaf that changed between the document as it was and as it is now, in key
//! order.
use crate::buffer::{bytes_eq, copy_bytes};
use crate::document::{kids_of, kids_view, lemma_branch_view, Node, NodeView};
use crate::events::{bytes_of, event_parts, StoreEvent};
use crate::path::{lemma_seq_lt_irreflexive, seq_lt, strings_view};
use crate::plan::{names_sorted, NameSet};
use crate::scan::StoreOp;
use vstd::prelude::*;

verus! {

/// A document's leaves by key, each with its encoding where it has one; of
/// two leaves listed under one key the later is the one kept.
pub open spec fn scanned_map(s: Seq<(String, Option<Vec<u8>>)>) -> Map<Seq<char>, Option<Seq<u8>>>
    decreases s.len(),
{
    if s.len() == 0 {
        Map::empty()
    } else {
        scanned_map(s.drop_last()).insert(s.last().0@, bytes_of(s.last().1))
    }
}

/// The keys of a scan, in order.
pub open spec fn leaf_keys(s: Seq<(String, Option<Vec<u8>>)>) -> Seq<Seq<char>> {
    Seq::new(s.len(), |i: int| s[i].0@)
}

/// What an edit is reported as at key `k`: a write where the leaf is there
/// now and was not, or was there with other bytes; a removal where it was
/// there and is not now; nothing otherwise.
pub open spec fn document_change(
    old: Map<Seq<char>, Option<Seq<u8>>>,
    new: Map<Seq<char>, Option<Seq<u8>>>,
    k: Seq<char>,
) -> Option<(StoreOp, Option<Seq<u8>>, Option<Seq<u8>>)> {
    if old.contains_key(k) && new.contains_key(k) {
        if old[k] != new[k] {
            Some((StoreOp::Put, old[k], new[k]))
        } else {
            None
        }
    } else if old.contains_key(k) {
        Some((StoreOp::Delete, old[k], None))
    } else if new.contains_key(k) {
        Some((StoreOp::Put, None, new[k]))
    } else {
        None
    }
}

proof fn lemma_scanned_contains(s: Seq<(String, Option<Vec<u8>>)>, k: Seq<char>)
    ensures
        scanned_map(s).contains_key(k) <==> exists|j: int| 0 <= j < s.len() && (#[trigger] s[j]).0@ == k,
    decreases s.len(),
{
    if s.len() > 0 {
        let t = s.drop_last();
        lemma_scanned_contains(t, k);
        if scanned_map(s).contains_key(k) && s.last().0@ != k {
            let j = choose|j: int| 0 <= j < t.len() && (#[trigger] t[j]).0@ == k;
            assert(s[j] == t[j]);
        }
        if s.last().0@ == k {
            assert(s[s.len() - 1].0@ == k);
        }
        if exists|j: int| 0 <= j < s.len() && (#[trigger] s[j]).0@ == k {
            let j = choose|j: int| 0 <= j < s.len() && (#[trigger] s[j]).0@ == k;
            if j < s.len() - 1 {
                assert(t[j] == s[j]);
            }
        }
    }
}

proof fn lemma_scanned_last(s: Seq<(String, Option<Vec<u8>>)>, k: Seq<char>, j: int)
    requires
        0 <= j < s.len(),
        s[j].0@ == k,
        forall|m: int| j < m < s.len() ==> (#[trigger] s[m]).0@ != k,
    ensures
        scanned_map(s).contains_key(k),
        scanned_map(s)[k] == bytes_of(s[j].1),
    decreases s.len(),
{
    if j < s.len() - 1 {
        let t = s.drop_last();
        assert(s[s.len() - 1].0@ != k);
        assert(t[j] == s[j]);
        assert forall|m: int| j < m < t.len() implies (#[trigger] t[m]).0@ != k by {
            assert(t[m] == s[m]);
        }
        lemma_scanned_last(t, k, j);
    }
}

/// The leaf at `key` in a scan: `None` where there is none, otherwise the
/// encoding of the last one listed.
fn scanned_at(s: &Vec<(String, Option<Vec<u8>>)>, key: &str) -> (r: Option<Option<Vec<u8>>>)
    ensures
        match r {
            None => !scanned_map(s@).contains_key(key@),
            Some(b) => scanned_map(s@).contains_key(key@) && scanned_map(s@)[key@] == bytes_of(b),
        },
{
    proof {
        lemma_scanned_contains(s@, key@);
    }
    let mut i: usize = s.len();
    while i > 0
        invariant
            i <= s@.len(),
            forall|m: int| i <= m < s@.len() ==> (#[trigger] s@[m]).0@ != key@,
        decreases i,
    {
        if crate::path::str_eq(s[i - 1].0.as_str(), key) {
            let b = match &s[i - 1].1 {
                Some(v) => Some(copy_bytes(v.as_slice())),
                None => None,
            };
            proof {
                assert(s@[i - 1].0@ == key@);
                lemma_scanned_last(s@, key@, i - 1);
                assert(bytes_of(b) == bytes_of(s@[i - 1].1));
            }
            return Some(b);
        }
        i = i - 1;
    }
    None
}

/// Whether two optional encodings are the same.
fn same_bytes(a: &Option<Vec<u8>>, b: &Option<Vec<u8>>) -> (r: bool)
    ensures
        r == (bytes_of(*a) == bytes_of(*b)),
{
    match (a, b) {
        (Some(x), Some(y)) => bytes_eq(x.as_slice(), y.as_slice()),
        (None, None) => true,
        _ => false,
    }
}

/// The events an edit from outside is reported as, given the document's
/// leaves before and after it, each with its encoding: one per key whose
/// leaf changed, in increasing key order, none of them with a source.
#[verifier::rlimit(40)]
pub fn diff_documents(
    old: &Vec<(String, Option<Vec<u8>>)>,
    new: &Vec<(String, Option<Vec<u8>>)>,
) -> (r: Vec<StoreEvent>)
    ensures
        forall|a: int, b: int| 0 <= a < b < r@.len() ==> seq_lt((#[trigger] r@[a]).path@, (#[trigger] r@[b]).path@),
        forall|t: int|
            0 <= t < r@.len() ==> document_change(scanned_map(old@), scanned_map(new@), (#[trigger] r@[t]).path@)
                == Some(event_parts(r@[t])) && r@[t].source is None,
        forall|k: Seq<char>|
            #[trigger] document_change(scanned_map(old@), scanned_map(new@), k) is Some ==> exists|t: int|
                0 <= t < r@.len() && (#[trigger] r@[t]).path@ == k,
{
    let ghost om = scanned_map(old@);
    let ghost nm = scanned_map(new@);
    let mut keys = NameSet::new();
    let mut i: usize = 0;
    while i < old.len()
        invariant
            keys.wf(),
            i <= old@.len(),
            keys.names_view().to_set() == leaf_keys(old@.take(i as int)).to_set(),
        decreases old@.len() - i,
    {
        keys.insert(old[i].0.as_str());
        proof {
            assert(leaf_keys(old@.take(i + 1)) =~= leaf_keys(old@.take(i as int)).push(old@[i as int].0@));
            leaf_keys(old@.take(i as int)).lemma_push_to_set_commute(old@[i as int].0@);
        }
        i = i + 1;
    }
    proof {
        assert(old@.take(old@.len() as int) =~= old@);
        assert(leaf_keys(new@.take(0)).to_set() =~= Set::empty());
        assert(keys.names_view().to_set() =~= leaf_keys(old@).to_set() + leaf_keys(new@.take(0)).to_set());
    }
    let mut i: usize = 0;
    while i < new.len()
        invariant
            keys.wf(),
            i <= new@.len(),
            keys.names_view().to_set() == leaf_keys(old@).to_set() + leaf_keys(new@.take(i as int)).to_set(),
        decreases new@.len() - i,
    {
        keys.insert(new[i].0.as_str());
        proof {
            assert(leaf_keys(new@.take(i + 1)) =~= leaf_keys(new@.take(i as int)).push(new@[i as int].0@));
            leaf_keys(new@.take(i as int)).lemma_push_to_set_commute(new@[i as int].0@);
            assert(keys.names_view().to_set() =~= leaf_keys(old@).to_set() + leaf_keys(new@.take(i + 1)).to_set());
        }
        i = i + 1;
    }
    proof {
        assert(old@.take(old@.len() as int) =~= old@);
        assert(new@.take(new@.len() as int) =~= new@);
    }
    let ghost all = keys.names_view();
    let names = keys.into_names();
    let mut out: Vec<StoreEvent> = Vec::new();
    let mut idx: usize = 0;
    while idx < names.len()
        invariant
            strings_view(names@) == all,
            names_sorted(all),
            idx <= names@.len(),
            om == scanned_map(old@),
            nm == scanned_map(new@),
            forall|t: int| 0 <= t < out@.len() ==> exists|j: int| 0 <= j < idx && all[j] == (#[trigger] out@[t]).path@,
            forall|a: int, b: int| 0 <= a < b < out@.len() ==> seq_lt((#[trigger] out@[a]).path@, (#[trigger] out@[b]).path@),
            forall|t: int|
                0 <= t < out@.len() ==> document_change(om, nm, (#[trigger] out@[t]).path@) == Some(event_parts(out@[t]))
                    && out@[t].source is None,
            forall|j: int|
                0 <= j < idx && (#[trigger] document_change(om, nm, all[j])) is Some ==> exists|t: int|
                    0 <= t < out@.len() && (#[trigger] out@[t]).path@ == all[j],
        decreases names@.len() - idx,
    {
        let key = names[idx].as_str();
        proof {
            assert(all[idx as int] == key@);
        }
        let was = scanned_at(old, key);
        let now = scanned_at(new, key);
        let event = match (was, now) {
            (Some(o), Some(n)) => {
                if same_bytes(&o, &n) {
                    None
                } else {
                    Some(StoreEvent { path: crate::text::owned(key), op: StoreOp::Put, old: o, new: n, source: None })
                }
            },
            (Some(o), None) => Some(StoreEvent { path: crate::text::owned(key), op: StoreOp::Delete, old: o, new: None, source: None }),
            (None, Some(n)) => Some(StoreEvent { path: crate::text::owned(key), op: StoreOp::Put, old: None, new: n, source: None }),
            (None, None) => None,
        };
        let ghost before = out@;
        match event {
            Some(e) => {
                proof {
                    assert(document_change(om, nm, key@) == Some(event_parts(e)));
                }
                out.push(e);
                proof {
                    let n = before.len() as int;
                    assert(out@[n].path@ == key@);
                    assert forall|t: int| 0 <= t < out@.len() implies exists|j: int| 0 <= j < idx + 1 && all[j] == (#[trigger] out@[t]).path@ by {
                        if t < n {
                            assert(out@[t] == before[t]);
                            let j = choose|j: int| 0 <= j < idx && all[j] == before[t].path@;
                            assert(all[j] == out@[t].path@);
                        } else {
                            assert(all[idx as int] == out@[t].path@);
                        }
                    }
                    assert forall|a: int, b: int| 0 <= a < b < out@.len() implies seq_lt((#[trigger] out@[a]).path@, (#[trigger] out@[b]).path@) by {
                        assert(out@[a] == before[a]);
                        if b < n {
                            assert(out@[b] == before[b]);
                        } else {
                            let j = choose|j: int| 0 <= j < idx && all[j] == before[a].path@;
                            assert(seq_lt(all[j], all[idx as int]));
                        }
                    }
                    assert forall|t: int| 0 <= t < out@.len() implies document_change(om, nm, (#[trigger] out@[t]).path@)
                        == Some(event_parts(out@[t])) && out@[t].source is None by {
                        if t < n {
                            assert(out@[t] == before[t]);
                        }
                    }
                    assert forall|j: int|
                        0 <= j < idx + 1 && (#[trigger] document_change(om, nm, all[j])) is Some implies exists|t: int|
                            0 <= t < out@.len() && (#[trigger] out@[t]).path@ == all[j] by {
                        if j < idx {
                            let t = choose|t: int| 0 <= t < before.len() && (#[trigger] before[t]).path@ == all[j];
                            assert(out@[t] == before[t]);
                        } else {
                            assert(out@[n].path@ == all[j]);
                        }
                    }
                }
            },
            None => {
                proof {
                    assert(document_change(om, nm, key@) is None);
                    assert forall|t: int| 0 <= t < out@.len() implies exists|j: int| 0 <= j < idx + 1 && all[j] == (#[trigger] out@[t]).path@ by {
                        let j = choose|j: int| 0 <= j < idx && all[j] == out@[t].path@;
                    }
                }
            },
        }
        idx = idx + 1;
    }
    proof {
        assert forall|k: Seq<char>|
            #[trigger] document_change(om, nm, k) is Some implies exists|t: int| 0 <= t < out@.len() && (#[trigger] out@[t]).path@ == k by {
            lemma_scanned_contains(old@, k);
            lemma_scanned_contains(new@, k);
            let in_old = om.contains_key(k);
            assert(all.to_set().contains(k)) by {
                if in_old {
                    let j = choose|j: int| 0 <= j < old@.len() && (#[trigger] old@[j]).0@ == k;
                    assert(leaf_keys(old@)[j] == k);
                    assert(leaf_keys(old@).to_set().contains(k));
                } else {
                    let j = choose|j: int| 0 <= j < new@.len() && (#[trigger] new@[j]).0@ == k;
                    assert(leaf_keys(new@)[j] == k);
                    assert(leaf_keys(new@).to_set().contains(k));
                }
            }
            let j = choose|j: int| 0 <= j < all.len() && all[j] == k;
            assert(document_change(om, nm, all[j]) is Some);
        }
    }
    out
}


/// The key a child named `name` has under `prefix`: the name alone at the
/// top, otherwise the prefix, a dot and the name.
pub open spec fn leaf_key(prefix: Seq<char>, name: Seq<char>) -> Seq<char> {
    if prefix.len() == 0 {
        name
    } else {
        prefix + "."@ + name
    }
}

/// Every leaf under the children `kids` of the node at `prefix`, in document
/// order: a child with children of its own is walked into, and any other,
/// a value or an empty branch, is a leaf.
pub open spec fn leaves_under(prefix: Seq<char>, kids: Seq<(Seq<char>, NodeView)>) -> Seq<(Seq<char>, NodeView)>
    decreases kids,
{
    if kids.len() == 0 {
        Seq::empty()
    } else {
        leaves_under(prefix, kids.drop_last()) + leaves_one(prefix, kids.last())
    }
}

pub open spec fn leaves_one(prefix: Seq<char>, kid: (Seq<char>, NodeView)) -> Seq<(Seq<char>, NodeView)>
    decreases kid,
{
    let key = leaf_key(prefix, kid.0);
    match kid.1 {
        NodeView::Branch(ks) => if ks.len() > 0 {
            leaves_under(key, ks)
        } else {
            seq![(key, kid.1)]
        },
        NodeView::Value(_) => seq![(key, kid.1)],
    }
}

/// Every leaf of a document, keyed by its whole path; the root itself is
/// never one.
pub open spec fn scanned_all(root: NodeView) -> Seq<(Seq<char>, NodeView)> {
    leaves_under(Seq::empty(), kids_of(root))
}

/// A list of leaves as plain values.
pub open spec fn leaf_views(v: Seq<(String, Node)>) -> Seq<(Seq<char>, NodeView)> {
    Seq::new(v.len(), |i: int| (v[i].0@, v[i].1@))
}

fn child_key(prefix: &str, name: &str) -> (r: String)
    ensures
        r@ == leaf_key(prefix@, name@),
{
    if prefix.unicode_len() == 0 {
        crate::text::owned(name)
    } else {
        let mut out = crate::text::concat(prefix, ".");
        out.append(name);
        proof {
            reveal_strlit(".");
        }
        out
    }
}

/// Appends the leaves under the node `node`, which sits at `prefix`.
fn collect_leaves(prefix: &str, node: &Node, out: &mut Vec<(String, Node)>)
    ensures
        leaf_views(final(out)@) == leaf_views(old(out)@) + leaves_under(prefix@, kids_of(node@)),
    decreases node,
{
    match node {
        Node::Value(_) => {
            proof {
                assert(leaf_views(out@) + leaves_under(prefix@, kids_of(node@)) =~= leaf_views(out@));
            }
        },
        Node::Branch(kids) => {
            proof {
                lemma_branch_view(*kids);
            }
            let ghost base = leaf_views(out@);
            let ghost kv = kids_view(kids@);
            let mut i: usize = 0;
            proof {
                assert(kv.take(0) =~= Seq::<(Seq<char>, NodeView)>::empty());
                assert(leaf_views(out@) =~= base + leaves_under(prefix@, kv.take(0)));
            }
            while i < kids.len()
                invariant
                    *node == Node::Branch(*kids),
                    kv == kids_view(kids@),
                    kids_of(node@) == kv,
                    i <= kids@.len(),
                    leaf_views(out@) == base + leaves_under(prefix@, kv.take(i as int)),
                decreases kids@.len() - i,
            {
                proof {
                    broadcast use vstd::std_specs::vec::group_vec_axioms;
                    broadcast use vstd::seq::group_seq_axioms;

                    assert(decreases_to!(*node => node->Branch_0));
                    assert(node->Branch_0 == *kids);
                    assert(decreases_to!(*kids => kids@));
                    assert(decreases_to!(kids@ => kids@[i as int]));
                    assert(decreases_to!(node => kids@[i as int].1));
                }
                let key = child_key(prefix, kids[i].0.as_str());
                let child = &kids[i].1;
                let ghost before = leaf_views(out@);
                let ghost kid = kv[i as int];
                proof {
                    assert(kid == (kids@[i as int].0@, kids@[i as int].1@));
                    assert(kv.take(i + 1).drop_last() =~= kv.take(i as int));
                    assert(kv.take(i + 1).last() == kid);
                }
                let walk_in = match child {
                    Node::Branch(ks) => ks.len() > 0,
                    Node::Value(_) => false,
                };
                proof {
                    assert(leaves_under(prefix@, kv.take(i + 1)) == leaves_under(prefix@, kv.take(i as int))
                        + leaves_one(prefix@, kid));
                    assert(kid.1 == child@);
                    if let Node::Branch(ks) = child {
                        lemma_branch_view(*ks);
                        assert(kids_view(ks@).len() == ks@.len());
                    }
                    if walk_in {
                        assert(leaves_one(prefix@, kid) == leaves_under(key@, kids_of(child@)));
                    } else {
                        assert(leaves_one(prefix@, kid) == seq![(key@, child@)]);
                    }
                }
                if walk_in {
                    collect_leaves(key.as_str(), child, out);
                } else {
                    let c = child.copy();
                    out.push((key, c));
                    proof {
                        assert(leaf_views(out@) =~= before + seq![(key@, child@)]);
                    }
                }
                proof {
                    assert(leaf_views(out@) =~= base + leaves_under(prefix@, kv.take(i + 1)));
                }
                i = i + 1;
            }
            proof {
                assert(kv.take(kids@.len() as int) =~= kv);
            }
        },
    }
}

/// Every leaf of a document, keyed by its whole path, in document order.
pub fn document_leaves(root: &Node) -> (r: Vec<(String, Node)>)
    ensures
        leaf_views(r@) == scanned_all(root@),
{
    let mut out: Vec<(String, Node)> = Vec::new();
    collect_leaves("", root, &mut out);
    proof {
        reveal_strlit("");
        assert(""@ =~= Seq::<char>::empty());
        assert(leaf_views(Seq::<(String, Node)>::empty()) =~= Seq::empty());
        assert(Seq::<(Seq<char>, NodeView)>::empty() + scanned_all(root@) =~= scanned_all(root@));
    }
    out
}

/// Whether a text store takes in an edit made to its file from outside:
/// only when every write it has made is on disk, so that an unsaved write is
/// never overwritten by what was read, and only when the file says something
/// other than what the store holds.
pub open spec fn adopts_spec(writes: u64, persisted: u64, held: Seq<char>, on_disk: Seq<char>) -> bool {
    writes == persisted && held != on_disk
}

/// Whether a text store takes in an outside edit, given how many writes it
/// has made and how many of them are on disk, and the document it holds and
/// the one on disk, each written out.
pub fn adopts_outside_edit(writes: u64, persisted: u64, held: &str, on_disk: &str) -> (r: bool)
    ensures
        r == adopts_spec(writes, persisted, held@, on_disk@),
{
    writes == persisted && !crate::path::str_eq(held, on_disk)
}

/// An outside edit is reported at exactly the keys whose leaf appeared,
/// went away, or now encodes differently; each report hands on what was
/// there before and what is there now, and is a removal exactly where
/// nothing is there now.
pub proof fn law_an_edit_reports_exactly_what_changed(
    old: Map<Seq<char>, Option<Seq<u8>>>,
    new: Map<Seq<char>, Option<Seq<u8>>>,
    k: Seq<char>,
)
    ensures
        document_change(old, new, k) is Some <==> (old.contains_key(k) || new.contains_key(k))
            && !(old.contains_key(k) && new.contains_key(k) && old[k] == new[k]),
        document_change(old, new, k) matches Some(t) ==> t.1 == (if old.contains_key(k) {
            old[k]
        } else {
            None
        }) && t.2 == (if new.contains_key(k) {
            new[k]
        } else {
            None
        }),
        document_change(old, new, k) matches Some(t) ==> (t.0 == StoreOp::Delete <==> !new.contains_key(k))
            && (t.0 == StoreOp::Put <==> new.contains_key(k)),
{
}

} // verus!
