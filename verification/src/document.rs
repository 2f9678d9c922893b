//! A text engine's document: a tree whose branches name their children and
//! whose leaves hold values.
//!
//! A path walks the tree a level at a time. Writing at a path makes a branch
//! of every level on the way that is not one already - a value standing in
//! the way is replaced - and puts the node at the end, in place of whatever
//! was there. A leaf holds the codec's encoding of the value.
use crate::buffer::copy_bytes;
use crate::errors::StorageError;
use crate::path::{SEPARATOR, joined, strings_view};
use vstd::prelude::*;

verus! {

/// A document node, as plain values.
pub enum NodeView {
    /// A value, as the codec encodes it.
    Value(Seq<u8>),
    /// Named children, in document order.
    Branch(Seq<(Seq<char>, NodeView)>),
}

/// A document node.
#[derive(Debug)]
pub enum Node {
    /// A value, as the codec encodes it.
    Value(Vec<u8>),
    /// Named children, in document order.
    Branch(Vec<(String, Node)>),
}

impl Node {
    /// The node as plain values.
    pub open spec fn view_of(&self) -> NodeView
        decreases self,
    {
        match self {
            Node::Value(b) => NodeView::Value(b@),
            Node::Branch(kids) => NodeView::Branch(
                Seq::new(
                    kids@.len(),
                    |i: int|
                        if 0 <= i < kids@.len() {
                            (kids@[i].0@, kids@[i].1.view_of())
                        } else {
                            (Seq::empty(), NodeView::Value(Seq::empty()))
                        },
                ),
            ),
        }
    }
}

impl View for Node {
    type V = NodeView;

    open spec fn view(&self) -> NodeView {
        self.view_of()
    }
}

/// The children of a node: a value has none.
pub open spec fn kids_of(n: NodeView) -> Seq<(Seq<char>, NodeView)> {
    match n {
        NodeView::Branch(kids) => kids,
        NodeView::Value(_) => Seq::empty(),
    }
}

/// Where the first child named `name` is, or -1.
pub open spec fn kid_pos(kids: Seq<(Seq<char>, NodeView)>, name: Seq<char>) -> int
    decreases kids.len(),
{
    if kids.len() == 0 {
        -1
    } else if kids[0].0 == name {
        0
    } else {
        let r = kid_pos(kids.drop_first(), name);
        if r < 0 {
            -1
        } else {
            r + 1
        }
    }
}

/// The node at `path` under `n`.
pub open spec fn node_at(n: NodeView, path: Seq<Seq<char>>) -> Option<NodeView>
    decreases path.len(),
{
    if path.len() == 0 {
        Some(n)
    } else {
        let kids = kids_of(n);
        let pos = kid_pos(kids, path[0]);
        if pos < 0 {
            None
        } else {
            node_at(kids[pos].1, path.drop_first())
        }
    }
}

/// `n` with `v` written at `path`: every level on the way made a branch if
/// it is not one, a missing level added as an empty branch, and `v` put in
/// place of whatever was at the end.
pub open spec fn set_at(n: NodeView, path: Seq<Seq<char>>, v: NodeView) -> NodeView
    decreases path.len(),
{
    if path.len() == 0 {
        v
    } else {
        let kids = kids_of(n);
        let pos = kid_pos(kids, path[0]);
        if pos < 0 {
            NodeView::Branch(
                kids.push((path[0], set_at(NodeView::Branch(Seq::empty()), path.drop_first(), v))),
            )
        } else {
            NodeView::Branch(
                kids.update(pos, (path[0], set_at(kids[pos].1, path.drop_first(), v))),
            )
        }
    }
}

/// `n` with the node at `path` taken out, and that node; nothing changes, and
/// nothing comes back, where there is nothing at `path`.
pub open spec fn delete_at(n: NodeView, path: Seq<Seq<char>>) -> (NodeView, Option<NodeView>)
    decreases path.len(),
{
    if path.len() == 0 {
        (n, None)
    } else {
        let kids = kids_of(n);
        let pos = kid_pos(kids, path[0]);
        if pos < 0 {
            (n, None)
        } else if path.len() == 1 {
            (NodeView::Branch(kids.remove(pos)), Some(kids[pos].1))
        } else {
            let (child, gone) = delete_at(kids[pos].1, path.drop_first());
            (NodeView::Branch(kids.update(pos, (path[0], child))), gone)
        }
    }
}

/// A path of one `"."` stands for the whole document, as the empty path does.
pub open spec fn normal(parts: Seq<Seq<char>>) -> Seq<Seq<char>> {
    if parts == seq![seq![SEPARATOR]] {
        Seq::empty()
    } else {
        parts
    }
}

/// Where `kid_pos` answers, the child has that name, and none before it does.
pub proof fn lemma_kid_pos(kids: Seq<(Seq<char>, NodeView)>, name: Seq<char>)
    ensures
        -1 <= kid_pos(kids, name) < kids.len(),
        kid_pos(kids, name) >= 0 ==> kids[kid_pos(kids, name)].0 == name,
        forall|i: int| 0 <= i < kids.len() && (kid_pos(kids, name) < 0 || i < kid_pos(kids, name))
            ==> (#[trigger] kids[i]).0 != name,
    decreases kids.len(),
{
    if kids.len() > 0 && kids[0].0 != name {
        lemma_kid_pos(kids.drop_first(), name);
        assert forall|i: int| 0 <= i < kids.len() && (kid_pos(kids, name) < 0 || i < kid_pos(kids, name))
            implies (#[trigger] kids[i]).0 != name by {
            if i > 0 {
                assert(kids[i] == kids.drop_first()[i - 1]);
            }
        }
    }
}

/// Exactly the characterization of `kid_pos`: the first child named `name`.
pub proof fn lemma_kid_pos_is(kids: Seq<(Seq<char>, NodeView)>, name: Seq<char>, p: int)
    requires
        -1 <= p < kids.len(),
        p >= 0 ==> kids[p].0 == name,
        forall|i: int| 0 <= i < kids.len() && (p < 0 || i < p) ==> (#[trigger] kids[i]).0 != name,
    ensures
        kid_pos(kids, name) == p,
{
    lemma_kid_pos(kids, name);
    let q = kid_pos(kids, name);
    if q >= 0 && p >= 0 {
        if q < p {
            assert(kids[q].0 != name);
        } else if p < q {
            assert(kids[p].0 != name);
        }
    } else if q >= 0 {
        assert(kids[q].0 != name);
    } else if p >= 0 {
        assert(kids[p].0 != name);
    }
}

/// Two paths with the same first level meet exactly where their remainders
/// meet; a path meets the empty one always.
pub proof fn lemma_overlaps_step(path: Seq<Seq<char>>, other: Seq<Seq<char>>)
    ensures
        path.len() == 0 ==> crate::path::overlaps(path, other),
        other.len() == 0 ==> crate::path::overlaps(path, other),
        path.len() > 0 && other.len() > 0 && path[0] == other[0] ==> (crate::path::overlaps(
            path,
            other,
        ) == crate::path::overlaps(path.drop_first(), other.drop_first())),
{
    if path.len() == 0 {
        assert(other.subrange(0, 0) =~= path);
    }
    if other.len() == 0 {
        assert(path.subrange(0, 0) =~= other);
    }
    if path.len() > 0 && other.len() > 0 && path[0] == other[0] {
        let (a, b) = (path.drop_first(), other.drop_first());
        if crate::path::is_prefix(a, b) {
            assert forall|k: int| 0 <= k < path.len() implies other.subrange(0, path.len() as int)[k]
                == path[k] by {
                if k > 0 {
                    assert(b.subrange(0, a.len() as int)[k - 1] == a[k - 1]);
                }
            }
            assert(other.subrange(0, path.len() as int) =~= path);
        }
        if crate::path::is_prefix(b, a) {
            assert forall|k: int| 0 <= k < other.len() implies path.subrange(0, other.len() as int)[k]
                == other[k] by {
                if k > 0 {
                    assert(a.subrange(0, b.len() as int)[k - 1] == b[k - 1]);
                }
            }
            assert(path.subrange(0, other.len() as int) =~= other);
        }
        if crate::path::is_prefix(path, other) {
            assert forall|k: int| 0 <= k < a.len() implies b.subrange(0, a.len() as int)[k] == a[k] by {
                assert(other.subrange(0, path.len() as int)[k + 1] == path[k + 1]);
            }
            assert(b.subrange(0, a.len() as int) =~= a);
        }
        if crate::path::is_prefix(other, path) {
            assert forall|k: int| 0 <= k < b.len() implies a.subrange(0, b.len() as int)[k] == b[k] by {
                assert(path.subrange(0, other.len() as int)[k + 1] == other[k + 1]);
            }
            assert(a.subrange(0, b.len() as int) =~= b);
        }
    }
}

/// A read gives back what a write wrote: right after `v` is written at
/// `path`, the node at `path` is `v`.
pub proof fn law_a_read_sees_the_write(n: NodeView, path: Seq<Seq<char>>, v: NodeView)
    ensures
        node_at(set_at(n, path, v), path) == Some(v),
    decreases path.len(),
{
    if path.len() > 0 {
        let kids = kids_of(n);
        let pos = kid_pos(kids, path[0]);
        lemma_kid_pos(kids, path[0]);
        let after = set_at(n, path, v);
        let nk = kids_of(after);
        if pos < 0 {
            law_a_read_sees_the_write(NodeView::Branch(Seq::empty()), path.drop_first(), v);
            assert forall|i: int| 0 <= i < nk.len() && i < kids.len() implies (#[trigger] nk[i]).0
                != path[0] by {
                assert(nk[i] == kids[i]);
            }
            lemma_kid_pos_is(nk, path[0], kids.len() as int);
        } else {
            law_a_read_sees_the_write(kids[pos].1, path.drop_first(), v);
            assert forall|i: int| 0 <= i < nk.len() && i < pos implies (#[trigger] nk[i]).0 != path[0] by {
                assert(nk[i] == kids[i]);
            }
            lemma_kid_pos_is(nk, path[0], pos);
        }
    }
}

/// A write touches nothing beside its own path: a path that neither holds
/// nor is held by the written one reads as it did.
pub proof fn law_a_write_leaves_other_paths(
    n: NodeView,
    path: Seq<Seq<char>>,
    v: NodeView,
    other: Seq<Seq<char>>,
)
    requires
        !crate::path::overlaps(path, other),
    ensures
        node_at(set_at(n, path, v), other) == node_at(n, other),
    decreases path.len(),
{
    lemma_overlaps_step(path, other);
    let kids = kids_of(n);
    lemma_kid_pos(kids, path[0]);
    let pos = kid_pos(kids, path[0]);
    let after = set_at(n, path, v);
    let nk = kids_of(after);
    lemma_kid_pos(kids, other[0]);
    lemma_kid_pos(nk, other[0]);
    if other[0] != path[0] {
        // The other path leaves at the first level: its child is untouched,
        // and a value standing in the way had no children to begin with.
        let q = kid_pos(kids, other[0]);
        if pos < 0 {
            assert forall|i: int| 0 <= i < nk.len() && (q < 0 || i < q) implies (#[trigger] nk[i]).0
                != other[0] by {
                if i < kids.len() {
                    assert(nk[i] == kids[i]);
                }
            }
            if q >= 0 {
                assert(nk[q] == kids[q]);
            }
            lemma_kid_pos_is(nk, other[0], q);
        } else {
            assert forall|i: int| 0 <= i < nk.len() && (q < 0 || i < q) implies (#[trigger] nk[i]).0
                != other[0] by {
                if i != pos {
                    assert(nk[i] == kids[i]);
                }
            }
            if q >= 0 {
                assert(q != pos);
                assert(nk[q] == kids[q]);
            }
            lemma_kid_pos_is(nk, other[0], q);
        }
    } else {
        // Same first level: the paths part further down.
        lemma_overlaps_step(path.drop_first(), other.drop_first());
        if pos < 0 {
            law_a_write_leaves_other_paths(
                NodeView::Branch(Seq::empty()),
                path.drop_first(),
                v,
                other.drop_first(),
            );
            assert forall|i: int| 0 <= i < nk.len() && i < kids.len() implies (#[trigger] nk[i]).0
                != path[0] by {
                assert(nk[i] == kids[i]);
            }
            lemma_kid_pos_is(nk, path[0], kids.len() as int);
            lemma_empty_has_nothing(other.drop_first().drop_first());
            assert(node_at(NodeView::Branch(Seq::empty()), other.drop_first()) == None::<NodeView>) by {
                assert(kid_pos(Seq::<(Seq<char>, NodeView)>::empty(), other[1]) == -1);
            }
        } else {
            law_a_write_leaves_other_paths(kids[pos].1, path.drop_first(), v, other.drop_first());
            assert forall|i: int| 0 <= i < nk.len() && i < pos implies (#[trigger] nk[i]).0 != path[0] by {
                assert(nk[i] == kids[i]);
            }
            lemma_kid_pos_is(nk, path[0], pos);
        }
    }
}

/// An empty branch has nothing under it.
proof fn lemma_empty_has_nothing(path: Seq<Seq<char>>)
    ensures
        path.len() > 0 ==> node_at(NodeView::Branch(Seq::empty()), path) == None::<NodeView>,
{
}

/// Whether every branch along `path` names each child once.
pub open spec fn distinct_along(n: NodeView, path: Seq<Seq<char>>) -> bool
    decreases path.len(),
{
    let kids = kids_of(n);
    &&& forall|i: int, j: int| 0 <= i < j < kids.len() ==> (#[trigger] kids[i]).0 != (#[trigger] kids[j]).0
    &&& path.len() > 0 && kid_pos(kids, path[0]) >= 0 ==> distinct_along(
        kids[kid_pos(kids, path[0])].1,
        path.drop_first(),
    )
}

/// A delete takes away what is at its path and gives it back, and leaves
/// every path apart from it as it was.
pub proof fn law_a_delete_takes_what_was_there(
    n: NodeView,
    path: Seq<Seq<char>>,
    other: Seq<Seq<char>>,
)
    requires
        path.len() > 0,
        distinct_along(n, path),
    ensures
        delete_at(n, path).1 == node_at(n, path),
        node_at(delete_at(n, path).0, path) == None::<NodeView>,
        !crate::path::overlaps(path, other) ==> node_at(delete_at(n, path).0, other) == node_at(
            n,
            other,
        ),
    decreases path.len(),
{
    let kids = kids_of(n);
    lemma_kid_pos(kids, path[0]);
    let pos = kid_pos(kids, path[0]);
    if pos >= 0 {
        let after = delete_at(n, path).0;
        let nk = kids_of(after);
        if path.len() == 1 {
            assert(path.drop_first().len() == 0);
            assert(node_at(kids[pos].1, path.drop_first()) == Some(kids[pos].1));
            // The child is gone, and no later child has its name.
            assert forall|i: int| 0 <= i < nk.len() implies (#[trigger] nk[i]).0 != path[0] by {
                if i < pos {
                    assert(nk[i] == kids[i]);
                } else {
                    assert(nk[i] == kids[i + 1]);
                    assert(kids[i + 1].0 != kids[pos].0);
                }
            }
            lemma_kid_pos_is(nk, path[0], -1);
            lemma_overlaps_step(path, other);
            if !crate::path::overlaps(path, other) {
                assert(other[0] != path[0]) by {
                    if other[0] == path[0] {
                        lemma_overlaps_step(path.drop_first(), other.drop_first());
                    }
                }
                lemma_kid_pos(kids, other[0]);
                let q = kid_pos(kids, other[0]);
                if q >= 0 {
                    let nq = if q < pos { q } else { q - 1 };
                    assert(nk[nq] == kids[q]);
                    assert forall|i: int| 0 <= i < nk.len() && i < nq implies (#[trigger] nk[i]).0
                        != other[0] by {
                        if i < pos {
                            assert(nk[i] == kids[i]);
                        } else {
                            assert(nk[i] == kids[i + 1]);
                        }
                    }
                    lemma_kid_pos_is(nk, other[0], nq);
                } else {
                    assert forall|i: int| 0 <= i < nk.len() implies (#[trigger] nk[i]).0 != other[0] by {
                        if i < pos {
                            assert(nk[i] == kids[i]);
                        } else {
                            assert(nk[i] == kids[i + 1]);
                        }
                    }
                    lemma_kid_pos_is(nk, other[0], -1);
                }
            }
        } else {
            law_a_delete_takes_what_was_there(kids[pos].1, path.drop_first(), path.drop_first());
            assert forall|i: int| 0 <= i < nk.len() && i < pos implies (#[trigger] nk[i]).0 != path[0] by {
                assert(nk[i] == kids[i]);
            }
            lemma_kid_pos_is(nk, path[0], pos);
            lemma_overlaps_step(path, other);
            if !crate::path::overlaps(path, other) {
                if other[0] == path[0] {
                    lemma_overlaps_step(path.drop_first(), other.drop_first());
                    law_a_delete_takes_what_was_there(kids[pos].1, path.drop_first(), other.drop_first());
                } else {
                    lemma_kid_pos(kids, other[0]);
                    let q = kid_pos(kids, other[0]);
                    assert forall|i: int| 0 <= i < nk.len() && (q < 0 || i < q) implies (#[trigger] nk[i]).0
                        != other[0] by {
                        if i != pos {
                            assert(nk[i] == kids[i]);
                        }
                    }
                    if q >= 0 {
                        assert(nk[q] == kids[q]);
                    }
                    lemma_kid_pos_is(nk, other[0], q);
                }
            }
        }
    }
}


/// The children as plain values.
pub open spec fn kids_view(kids: Seq<(String, Node)>) -> Seq<(Seq<char>, NodeView)> {
    Seq::new(kids.len(), |i: int| (kids[i].0@, kids[i].1.view_of()))
}

/// A branch's view is its children's views.
pub proof fn lemma_branch_view(kids: Vec<(String, Node)>)
    ensures
        Node::Branch(kids).view_of() == NodeView::Branch(kids_view(kids@)),
{
    let a = Node::Branch(kids).view_of()->Branch_0;
    let b = kids_view(kids@);
    assert forall|j: int| 0 <= j < a.len() implies a[j] == b[j] by {
    }
    assert(a =~= b);
}

/// Where the first child named `name` is.
fn find_kid(kids: &Vec<(String, Node)>, name: &str) -> (r: Option<usize>)
    ensures
        match r {
            Some(i) => kid_pos(kids_view(kids@), name@) == i && i < kids@.len(),
            None => kid_pos(kids_view(kids@), name@) < 0,
        },
{
    let ghost kv = kids_view(kids@);
    let mut i: usize = 0;
    while i < kids.len()
        invariant
            kv == kids_view(kids@),
            i <= kids@.len(),
            forall|j: int| 0 <= j < i ==> (#[trigger] kv[j]).0 != name@,
        decreases kids@.len() - i,
    {
        if crate::path::str_eq(kids[i].0.as_str(), name) {
            proof {
                lemma_kid_pos_is(kv, name@, i as int);
            }
            return Some(i);
        }
        i = i + 1;
    }
    proof {
        lemma_kid_pos_is(kv, name@, -1);
    }
    None
}

impl Node {
    /// A copy of this node and everything under it.
    pub fn copy(&self) -> (r: Node)
        ensures
            r@ == self@,
        decreases self,
    {
        match self {
            Node::Value(b) => Node::Value(copy_bytes(b.as_slice())),
            Node::Branch(kids) => {
                let mut out: Vec<(String, Node)> = Vec::new();
                let mut i: usize = 0;
                while i < kids.len()
                    invariant
                        *self == Node::Branch(*kids),
                        i <= kids@.len(),
                        out@.len() == i,
                        forall|j: int|
                            0 <= j < i ==> (#[trigger] out@[j]).0@ == kids@[j].0@ && out@[j].1@
                                == kids@[j].1@,
                    decreases kids@.len() - i,
                {
                    proof {
                        broadcast use vstd::std_specs::vec::group_vec_axioms;
                        broadcast use vstd::seq::group_seq_axioms;

                        assert(decreases_to!(*self => self->Branch_0));
                        assert(self->Branch_0 == *kids);
                        assert(decreases_to!(*kids => kids@));
                        assert(decreases_to!(kids@ => kids@[i as int]));
                        assert(decreases_to!(self => kids@[i as int].1));
                    }
                    let c = kids[i].1.copy();
                    out.push((crate::text::owned(kids[i].0.as_str()), c));
                    i = i + 1;
                }
                proof {
                    lemma_branch_view(*kids);
                    lemma_branch_view(out);
                    assert(kids_view(out@) =~= kids_view(kids@));
                }
                Node::Branch(out)
            },
        }
    }

    /// The node at `parts[i..]` under this one.
    fn get_from(&self, parts: &Vec<String>, i: usize) -> (r: Option<&Node>)
        requires
            i <= parts@.len(),
        ensures
            match r {
                Some(x) => node_at(self@, strings_view(parts@).skip(i as int)) == Some(x@),
                None => node_at(self@, strings_view(parts@).skip(i as int)) is None,
            },
        decreases parts@.len() - i,
    {
        let ghost rest = strings_view(parts@).skip(i as int);
        if i == parts.len() {
            return Some(self);
        }
        proof {
            assert(rest[0] == parts@[i as int]@);
            assert(rest.drop_first() =~= strings_view(parts@).skip(i + 1));
        }
        match self {
            Node::Value(_) => None,
            Node::Branch(kids) => {
                proof {
                    lemma_branch_view(*kids);
                }
                match find_kid(kids, parts[i].as_str()) {
                    Some(pos) => {
                        proof {
                            assert(kids_view(kids@)[pos as int].1 == kids@[pos as int].1@);
                        }
                        kids[pos].1.get_from(parts, i + 1)
                    },
                    None => None,
                }
            },
        }
    }

    /// This node with `v` written at `parts[i..]`.
    fn set_into(self, parts: &Vec<String>, i: usize, v: Node) -> (r: Node)
        requires
            i <= parts@.len(),
        ensures
            r@ == set_at(self@, strings_view(parts@).skip(i as int), v@),
        decreases parts@.len() - i,
    {
        let ghost rest = strings_view(parts@).skip(i as int);
        let ghost before = self@;
        if i == parts.len() {
            return v;
        }
        proof {
            assert(rest[0] == parts@[i as int]@);
            assert(rest.drop_first() =~= strings_view(parts@).skip(i + 1));
        }
        let mut kids: Vec<(String, Node)> = match self {
            Node::Branch(k) => {
                proof {
                    lemma_branch_view(k);
                }
                k
            },
            Node::Value(_) => Vec::new(),
        };
        proof {
            assert(kids_view(kids@) =~= kids_of(before));
        }
        let ghost kv = kids_view(kids@);
        match find_kid(&kids, parts[i].as_str()) {
            Some(pos) => {
                let (name, child) = kids.remove(pos);
                proof {
                    lemma_kid_pos(kv, rest[0]);
                    assert(kv[pos as int].1 == child@);
                    assert(name@ == rest[0]);
                }
                let nc = child.set_into(parts, i + 1, v);
                let ghost ncv = nc@;
                kids.insert(pos, (name, nc));
                proof {
                    lemma_branch_view(kids);
                    assert(kids_view(kids@) =~= kv.update(pos as int, (rest[0], ncv)));
                }
                Node::Branch(kids)
            },
            None => {
                let empty: Vec<(String, Node)> = Vec::new();
                proof {
                    lemma_branch_view(empty);
                    assert(kids_view(empty@) =~= Seq::empty());
                }
                let nc = Node::Branch(empty).set_into(parts, i + 1, v);
                let ghost ncv = nc@;
                kids.push((crate::text::owned(parts[i].as_str()), nc));
                proof {
                    lemma_branch_view(kids);
                    assert(kids_view(kids@) =~= kv.push((rest[0], ncv)));
                }
                Node::Branch(kids)
            },
        }
    }

    /// This node with the node at `parts[i..]` taken out, and that node.
    fn delete_from(self, parts: &Vec<String>, i: usize) -> (r: (Node, Option<Node>))
        requires
            i <= parts@.len(),
        ensures
            r.0@ == delete_at(self@, strings_view(parts@).skip(i as int)).0,
            match r.1 {
                Some(x) => delete_at(self@, strings_view(parts@).skip(i as int)).1 == Some(x@),
                None => delete_at(self@, strings_view(parts@).skip(i as int)).1 is None,
            },
        decreases parts@.len() - i,
    {
        let ghost rest = strings_view(parts@).skip(i as int);
        let ghost before = self@;
        if i == parts.len() {
            return (self, None);
        }
        proof {
            assert(rest[0] == parts@[i as int]@);
            assert(rest.drop_first() =~= strings_view(parts@).skip(i + 1));
        }
        match self {
            Node::Value(b) => (Node::Value(b), None),
            Node::Branch(kids) => {
                let mut kids = kids;
                proof {
                    lemma_branch_view(kids);
                }
                let ghost kv = kids_view(kids@);
                match find_kid(&kids, parts[i].as_str()) {
                    None => (Node::Branch(kids), None),
                    Some(pos) => {
                        let (name, child) = kids.remove(pos);
                        proof {
                            lemma_kid_pos(kv, rest[0]);
                            assert(kv[pos as int].1 == child@);
                            assert(name@ == rest[0]);
                        }
                        if i + 1 == parts.len() {
                            proof {
                                lemma_branch_view(kids);
                                assert(kids_view(kids@) =~= kv.remove(pos as int));
                            }
                            (Node::Branch(kids), Some(child))
                        } else {
                            let (nc, gone) = child.delete_from(parts, i + 1);
                            let ghost ncv = nc@;
                            kids.insert(pos, (name, nc));
                            proof {
                                lemma_branch_view(kids);
                                assert(kids_view(kids@) =~= kv.update(pos as int, (rest[0], ncv)));
                            }
                            (Node::Branch(kids), gone)
                        }
                    },
                }
            },
        }
    }
}

/// Whether `parts` is the one-level path `"."`.
fn is_dot_root(parts: &Vec<String>) -> (r: bool)
    ensures
        r == (strings_view(parts@) == seq![seq![SEPARATOR]]),
{
    if parts.len() != 1 {
        proof {
            assert(strings_view(parts@).len() != 1);
        }
        return false;
    }
    let r = crate::path::str_eq(parts[0].as_str(), ".");
    proof {
        reveal_strlit(".");
        assert("."@ =~= seq![SEPARATOR]);
        if r {
            assert(strings_view(parts@) =~= seq![seq![SEPARATOR]]);
        } else {
            assert(strings_view(parts@)[0] != seq![SEPARATOR]);
        }
    }
    r
}

/// The node at `parts` under `root`; `["."]` is the root itself.
pub fn generic_get<'a>(root: &'a Node, parts: &Vec<String>) -> (r: Option<&'a Node>)
    ensures
        match r {
            Some(x) => node_at(root@, normal(strings_view(parts@))) == Some(x@),
            None => node_at(root@, normal(strings_view(parts@))) is None,
        },
{
    if is_dot_root(parts) {
        return Some(root);
    }
    proof {
        assert(strings_view(parts@).skip(0) =~= strings_view(parts@));
    }
    root.get_from(parts, 0)
}

/// Writes `node` at `parts` under `root`, making a branch of every level on
/// the way; at the root it replaces the whole document.
pub fn generic_set(root: &mut Node, parts: &Vec<String>, node: Node) -> (r: Result<(), StorageError>)
    ensures
        r is Ok,
        final(root)@ == set_at(old(root)@, normal(strings_view(parts@)), node@),
{
    let mut taken = Node::Value(Vec::new());
    std::mem::swap(&mut taken, root);
    if is_dot_root(parts) {
        *root = node;
        return Ok(());
    }
    proof {
        assert(strings_view(parts@).skip(0) =~= strings_view(parts@));
    }
    *root = taken.set_into(parts, 0, node);
    Ok(())
}

/// Takes the node at `parts` out from under `root` and gives it back; the
/// root itself is never taken.
pub fn generic_delete(root: &mut Node, parts: &Vec<String>) -> (r: Result<Option<Node>, StorageError>)
    ensures
        r is Ok,
        final(root)@ == delete_at(old(root)@, normal(strings_view(parts@))).0,
        match r {
            Ok(Some(x)) => delete_at(old(root)@, normal(strings_view(parts@))).1 == Some(x@),
            _ => delete_at(old(root)@, normal(strings_view(parts@))).1 is None,
        },
{
    if is_dot_root(parts) {
        return Ok(None);
    }
    let mut taken = Node::Value(Vec::new());
    std::mem::swap(&mut taken, root);
    proof {
        assert(strings_view(parts@).skip(0) =~= strings_view(parts@));
    }
    let (rest, gone) = taken.delete_from(parts, 0);
    *root = rest;
    Ok(gone)
}

/// The key a scanned child is listed under: its name, after the prefix and a
/// separator where there is a prefix.
pub open spec fn scanned_key(prefix: Seq<Seq<char>>, name: Seq<char>) -> Seq<char> {
    if joined(prefix).len() == 0 {
        name
    } else {
        joined(prefix) + seq![SEPARATOR] + name
    }
}

/// The children of the node at `parts` under `root`, each listed under its
/// full key, in document order; nothing where there is no node there.
pub fn generic_scan(root: &Node, parts: &Vec<String>) -> (r: Vec<(String, Node)>)
    ensures
        ({
            let at = node_at(root@, normal(strings_view(parts@)));
            let kids = if at is Some {
                kids_of(at.unwrap())
            } else {
                Seq::empty()
            };
            &&& r@.len() == kids.len()
            &&& forall|i: int|
                0 <= i < kids.len() ==> (#[trigger] r@[i]).0@ == scanned_key(
                    normal(strings_view(parts@)),
                    kids[i].0,
                ) && r@[i].1@ == kids[i].1
        }),
{
    let mut results: Vec<(String, Node)> = Vec::new();
    let dot = is_dot_root(parts);
    let prefix_str = if dot {
        String::new()
    } else {
        crate::path::StorePath::from_segments(crate::path::copy_strings(parts)).as_string()
    };
    proof {
        if dot {
            assert(joined(normal(strings_view(parts@))) =~= Seq::<char>::empty());
        }
    }
    let found = generic_get(root, parts);
    match found {
        Some(node) => match node {
            Node::Branch(kids) => {
                proof {
                    lemma_branch_view(*kids);
                }
                let mut i: usize = 0;
                while i < kids.len()
                    invariant
                        prefix_str@ == joined(normal(strings_view(parts@))),
                        node_at(root@, normal(strings_view(parts@))) == Some(node@),
                        *node == Node::Branch(*kids),
                        i <= kids@.len(),
                        results@.len() == i,
                        forall|j: int|
                            0 <= j < i ==> (#[trigger] results@[j]).0@ == scanned_key(
                                normal(strings_view(parts@)),
                                kids@[j].0@,
                            ) && results@[j].1@ == kids@[j].1@,
                    decreases kids@.len() - i,
                {
                    let key = if prefix_str.as_str().unicode_len() == 0 {
                        crate::text::owned(kids[i].0.as_str())
                    } else {
                        let mut k = crate::text::concat(prefix_str.as_str(), ".");
                        k.append(kids[i].0.as_str());
                        proof {
                            reveal_strlit(".");
                        }
                        k
                    };
                    results.push((key, kids[i].1.copy()));
                    i = i + 1;
                }
                proof {
                    lemma_branch_view(*kids);
                }
            },
            Node::Value(_) => {},
        },
        None => {},
    }
    results
}


/// What a tree of named nodes offers the walks above.
pub trait Navigable: Sized {
    /// An empty branch.
    fn make_empty_map() -> Self;
    /// The child named `key`, if this is a branch that has one.
    fn get_child(&self, key: &str) -> Option<&Self>;
    /// Makes this a branch, dropping a value that stood here.
    fn ensure_map(&mut self);
    /// Puts `val` under `key`, making this a branch first.
    fn insert_child(&mut self, key: &str, val: Self);
    /// Takes the child named `key` out, if there is one.
    fn remove_child(&mut self, key: &str) -> Option<Self>;
    /// The children, in document order.
    fn scan_children(&self) -> Vec<(String, Self)>;
}

impl Navigable for Node {
    fn make_empty_map() -> (r: Node)
        ensures
            r@ == NodeView::Branch(Seq::empty()),
    {
        let empty: Vec<(String, Node)> = Vec::new();
        proof {
            lemma_branch_view(empty);
            assert(kids_view(empty@) =~= Seq::empty());
        }
        Node::Branch(empty)
    }

    fn get_child(&self, key: &str) -> (r: Option<&Node>)
        ensures
            match r {
                Some(x) => node_at(self@, seq![key@]) == Some(x@),
                None => node_at(self@, seq![key@]) is None,
            },
    {
        match self {
            Node::Value(_) => None,
            Node::Branch(kids) => {
                proof {
                    lemma_branch_view(*kids);
                }
                match find_kid(kids, key) {
                    Some(i) => {
                        proof {
                            let rest = seq![key@].drop_first();
                            assert(rest =~= Seq::<Seq<char>>::empty());
                            assert(kids_view(kids@)[i as int].1 == kids@[i as int].1@);
                            assert(node_at(kids@[i as int].1@, rest) == Some(kids@[i as int].1@));
                            assert(seq![key@][0] == key@);
                        }
                        Some(&kids[i].1)
                    },
                    None => None,
                }
            },
        }
    }

    fn ensure_map(&mut self)
        ensures
            final(self)@ == NodeView::Branch(kids_of(old(self)@)),
    {
        match self {
            Node::Branch(kids) => {
                proof {
                    lemma_branch_view(*kids);
                }
            },
            Node::Value(_) => {
                *self = Node::make_empty_map();
            },
        }
    }

    fn insert_child(&mut self, key: &str, val: Node)
        ensures
            final(self)@ == set_at(old(self)@, seq![key@], val@),
    {
        let mut taken = Node::Value(Vec::new());
        std::mem::swap(&mut taken, self);
        let parts = vec![crate::text::owned(key)];
        proof {
            assert(strings_view(parts@).skip(0) =~= seq![key@]);
        }
        *self = taken.set_into(&parts, 0, val);
    }

    fn remove_child(&mut self, key: &str) -> (r: Option<Node>)
        ensures
            final(self)@ == delete_at(old(self)@, seq![key@]).0,
            match r {
                Some(x) => delete_at(old(self)@, seq![key@]).1 == Some(x@),
                None => delete_at(old(self)@, seq![key@]).1 is None,
            },
    {
        let mut taken = Node::Value(Vec::new());
        std::mem::swap(&mut taken, self);
        let parts = vec![crate::text::owned(key)];
        proof {
            assert(strings_view(parts@).skip(0) =~= seq![key@]);
        }
        let (rest, gone) = taken.delete_from(&parts, 0);
        *self = rest;
        gone
    }

    fn scan_children(&self) -> (r: Vec<(String, Node)>)
        ensures
            r@.len() == kids_of(self@).len(),
            forall|i: int|
                0 <= i < r@.len() ==> (#[trigger] r@[i]).0@ == kids_of(self@)[i].0 && r@[i].1@
                    == kids_of(self@)[i].1,
    {
        let parts: Vec<String> = Vec::new();
        proof {
            assert(strings_view(parts@) =~= Seq::<Seq<char>>::empty());
            assert(normal(strings_view(parts@)) =~= Seq::<Seq<char>>::empty());
            assert(joined(Seq::<Seq<char>>::empty()) =~= Seq::<char>::empty());
        }
        generic_scan(self, &parts)
    }
}

/// A ron document: a tree whose root is always a branch.
#[derive(Debug)]
pub struct RonDocument(pub Node);

/// Whether a path names the whole document.
pub open spec fn names_root(parts: Seq<Seq<char>>) -> bool {
    normal(parts).len() == 0
}

impl RonDocument {
    /// A document with nothing in it.
    pub fn empty() -> (r: RonDocument)
        ensures
            r.0@ == NodeView::Branch(Seq::empty()),
    {
        RonDocument(Node::make_empty_map())
    }

    /// The node at `parts`.
    pub fn get(&self, parts: &Vec<String>) -> (r: Option<&Node>)
        ensures
            match r {
                Some(x) => node_at(self.0@, normal(strings_view(parts@))) == Some(x@),
                None => node_at(self.0@, normal(strings_view(parts@))) is None,
            },
    {
        generic_get(&self.0, parts)
    }

    /// Writes `node` at `parts`; the whole document may only be replaced by a
    /// branch, and anything else is refused as a failed write.
    pub fn set(&mut self, parts: &Vec<String>, node: Node) -> (r: Result<(), StorageError>)
        ensures
            names_root(strings_view(parts@)) && !(node@ is Branch) ==> r == Err::<(), StorageError>(
                StorageError::Write,
            ) && final(self).0@ == old(self).0@,
            !(names_root(strings_view(parts@)) && !(node@ is Branch)) ==> r is Ok && final(self).0@
                == set_at(old(self).0@, normal(strings_view(parts@)), node@),
    {
        let root = parts.len() == 0 || is_dot_root(parts);
        proof {
            if parts@.len() == 0 {
                assert(strings_view(parts@) =~= Seq::<Seq<char>>::empty());
            }
        }
        if root {
            match node {
                Node::Branch(kids) => {
                    proof {
                        lemma_branch_view(kids);
                    }
                    self.0 = Node::Branch(kids);
                    return Ok(());
                },
                Node::Value(b) => {
                    return Err(StorageError::Write);
                },
            }
        }
        generic_set(&mut self.0, parts, node)
    }

    /// Takes the node at `parts` out and gives it back.
    pub fn delete(&mut self, parts: &Vec<String>) -> (r: Result<Option<Node>, StorageError>)
        ensures
            r is Ok,
            final(self).0@ == delete_at(old(self).0@, normal(strings_view(parts@))).0,
            match r {
                Ok(Some(x)) => delete_at(old(self).0@, normal(strings_view(parts@))).1 == Some(x@),
                _ => delete_at(old(self).0@, normal(strings_view(parts@))).1 is None,
            },
    {
        generic_delete(&mut self.0, parts)
    }

    /// The children of the node at `parts`, each under its full key.
    pub fn scan(&self, parts: &Vec<String>) -> (r: Vec<(String, Node)>)
        ensures
            ({
                let at = node_at(self.0@, normal(strings_view(parts@)));
                let kids = if at is Some {
                    kids_of(at.unwrap())
                } else {
                    Seq::empty()
                };
                &&& r@.len() == kids.len()
                &&& forall|i: int|
                    0 <= i < kids.len() ==> (#[trigger] r@[i]).0@ == scanned_key(
                        normal(strings_view(parts@)),
                        kids[i].0,
                    ) && r@[i].1@ == kids[i].1
            }),
    {
        generic_scan(&self.0, parts)
    }
}

} // verus!
