//! The span tree: an id-keyed registry of nodes.
//!
//! Identity (`Id`) is distinct from position (tree membership): a node keeps
//! its id forever and ids are never reused, while attachment to the tree is
//! decided by membership in the parent's children list. Looking up a node
//! that has been detached yields "not attached", never a resurrected entry.

use vstd::prelude::*;

verus! {

/// Process-unique identifier of a tree node, assigned at creation from a
/// monotonically increasing counter; used for identity, never reused.
#[derive(Debug, Copy, Clone, PartialEq, Eq, PartialOrd, Ord, Hash, Structural)]
pub struct Id(pub usize);

/// One node of the tree: a replaceable value, a fixed depth, a non-owning
/// parent link, and the list of currently attached children.
#[derive(Clone)]
pub struct Node<T> {
    pub id: Id,
    pub value: T,
    pub depth: usize,
    pub parent: Option<Id>,
    pub children: Vec<Id>,
}

/// The mathematical model of one node: what the contracts speak about.
pub struct NodeModel<T> {
    pub id: int,
    pub value: T,
    pub depth: nat,
    pub parent: Option<int>,
    pub children: Seq<int>,
}

/// The registry holding every node ever created, indexed by id. Entry `i`
/// is the node with `Id(i)`; entry 0 is the root.
#[derive(Clone)]
pub struct Tree<T> {
    pub nodes: Vec<Node<T>>,
}

impl<T> Node<T> {
    /// The node's process-unique identifier.
    pub fn id(&self) -> (r: Id)
        ensures
            r == self.id,
    {
        self.id
    }

    /// A borrow of the node's current payload — always a whole value,
    /// installed by one `update`.
    pub fn value(&self) -> (r: &T)
        ensures
            *r == self.value,
    {
        &self.value
    }

    /// Distance from the root, fixed at creation.
    pub fn depth(&self) -> (r: usize)
        ensures
            r == self.depth,
    {
        self.depth
    }

    /// The non-owning parent link (`None` only for the root).
    pub fn parent(&self) -> (r: Option<Id>)
        ensures
            r == self.parent,
    {
        self.parent
    }

    /// A borrow of the node's children list.
    pub fn children(&self) -> (r: &Vec<Id>)
        ensures
            r@ == self.children@,
    {
        &self.children
    }
}

pub open spec fn node_model<T>(n: Node<T>) -> NodeModel<T> {
    NodeModel {
        id: n.id.0 as int,
        value: n.value,
        depth: n.depth as nat,
        parent: match n.parent {
            Some(p) => Some(p.0 as int),
            None => None,
        },
        children: Seq::new(n.children@.len(), |k: int| n.children@[k].0 as int),
    }
}

impl<T> View for Tree<T> {
    type V = Seq<NodeModel<T>>;

    open spec fn view(&self) -> Seq<NodeModel<T>> {
        Seq::new(self.nodes@.len(), |i: int| node_model(self.nodes@[i]))
    }
}

/// The parent link and depth of node `i` are coherent: the root has no
/// parent and depth 0; every other node points at an earlier-created parent
/// and sits one level below it. `depth <= i` follows and bounds the depth.
pub open spec fn node_ok<T>(m: Seq<NodeModel<T>>, i: int) -> bool {
    &&& m[i].id == i
    &&& (i == 0 ==> m[0].parent is None && m[0].depth == 0)
    &&& (i != 0 ==> {
        &&& m[i].parent is Some
        &&& 0 <= m[i].parent->0 < i
        &&& m[i].depth == m[m[i].parent->0].depth + 1
    })
    &&& m[i].depth <= i
}

/// The children list of node `i` holds only later-created nodes whose
/// parent link points back at `i`, each at most once.
pub open spec fn children_ok<T>(m: Seq<NodeModel<T>>, i: int) -> bool {
    &&& forall|k: int|
        0 <= k < m[i].children.len() ==> i < #[trigger] m[i].children[k] < m.len()
    &&& forall|k: int|
        0 <= k < m[i].children.len() ==> m[#[trigger] m[i].children[k]].parent == Some(i)
    &&& forall|k1: int, k2: int|
        0 <= k1 < k2 < m[i].children.len() ==> m[i].children[k1] != m[i].children[k2]
}

/// Well-formedness of the whole registry.
pub open spec fn tree_wf<T>(m: Seq<NodeModel<T>>) -> bool {
    &&& m.len() >= 1
    &&& forall|i: int| 0 <= i < m.len() ==> #[trigger] node_ok(m, i)
    &&& forall|i: int| 0 <= i < m.len() ==> #[trigger] children_ok(m, i)
}

/// Node `i` is attached: it sits in its parent's children list (the root is
/// always attached). `delete` makes this false; the entry itself remains.
pub open spec fn attached<T>(m: Seq<NodeModel<T>>, i: int) -> bool {
    i == 0 || (m[i].parent is Some && m[m[i].parent->0].children.contains(i))
}

impl<T> Tree<T> {
    /// Creates a tree holding only the root node, with the given payload.
    pub fn new(value: T) -> (t: Self)
        ensures
            tree_wf(t@),
            t@.len() == 1,
            t@[0].value == value,
            t@[0].depth == 0,
            t@[0].parent is None,
            t@[0].children == Seq::<int>::empty(),
    {
        let root = Node { id: Id(0), value, depth: 0, parent: None, children: Vec::new() };
        let mut nodes = Vec::new();
        nodes.push(root);
        let t = Tree { nodes };
        proof {
            assert(t@[0].children =~= Seq::<int>::empty());
            assert forall|i: int| 0 <= i < t@.len() implies #[trigger] node_ok(t@, i) by {}
            assert forall|i: int| 0 <= i < t@.len() implies #[trigger] children_ok(t@, i) by {}
        }
        t
    }

    /// Inserts a new child under `parent`: the child gets the next id, depth
    /// `parent.depth + 1`, the given payload, and is appended to the
    /// parent's children list. Every other node is untouched.
    pub fn add(&mut self, parent: Id, value: T) -> (child: Id)
        requires
            tree_wf(old(self)@),
            (parent.0 as int) < old(self)@.len(),
        ensures
            tree_wf(final(self)@),
            final(self)@.len() == old(self)@.len() + 1,
            child.0 as int == old(self)@.len(),
            final(self)@[child.0 as int].parent == Some(parent.0 as int),
            final(self)@[child.0 as int].depth == old(self)@[parent.0 as int].depth + 1,
            final(self)@[child.0 as int].value == value,
            final(self)@[child.0 as int].children == Seq::<int>::empty(),
            attached(final(self)@, child.0 as int),
            forall|i: int|
                0 <= i < old(self)@.len() && i != parent.0 as int ==> final(self)@[i] == old(
                    self,
                )@[i],
            final(self)@[parent.0 as int].children == old(self)@[parent.0 as int].children.push(
                child.0 as int,
            ),
            final(self)@[parent.0 as int].value == old(self)@[parent.0 as int].value,
            final(self)@[parent.0 as int].depth == old(self)@[parent.0 as int].depth,
            final(self)@[parent.0 as int].parent == old(self)@[parent.0 as int].parent,
    {
        let ghost m0 = self@;
        let id = Id(self.nodes.len());
        proof {
            assert(node_ok(m0, parent.0 as int));
        }
        let pdepth = self.nodes[parent.0].depth;
        let node = Node {
            id,
            value,
            depth: pdepth + 1,
            parent: Some(parent),
            children: Vec::new(),
        };
        self.nodes.push(node);
        let pnode = &mut self.nodes[parent.0];
        pnode.children.push(id);
        proof {
            let m1 = self@;
            let p = parent.0 as int;
            let c = id.0 as int;
            assert(m1[c].children =~= Seq::<int>::empty());
            assert(m1[p].children =~= m0[p].children.push(c));
            assert forall|i: int| 0 <= i < m0.len() && i != p implies m1[i] == m0[i] by {
                assert(m1[i].children =~= m0[i].children);
            }
            assert(m1[p].value == m0[p].value && m1[p].depth == m0[p].depth && m1[p].parent == m0[p].parent);
            assert forall|i: int| 0 <= i < m1.len() implies #[trigger] node_ok(m1, i) by {
                if i < m0.len() {
                    assert(node_ok(m0, i));
                } else {
                    assert(node_ok(m0, p));
                }
            }
            assert forall|i: int| 0 <= i < m1.len() implies #[trigger] children_ok(m1, i) by {
                if i == p {
                    assert(children_ok(m0, p));
                    assert forall|k: int|
                        0 <= k < m1[p].children.len() implies p < #[trigger] m1[p].children[k]
                        < m1.len() by {
                        if k < m0[p].children.len() {
                            assert(m1[p].children[k] == m0[p].children[k]);
                        }
                    }
                    assert forall|k: int|
                        0 <= k < m1[p].children.len() implies m1[
                        #[trigger] m1[p].children[k]].parent == Some(p) by {}
                } else if i < m0.len() {
                    assert(children_ok(m0, i));
                } else {
                }
            }
            assert(m1[p].children[m1[p].children.len() - 1] == c);
            assert(attached(m1, c));
        }
        id
    }

    /// Replaces the payload of node `id` wholesale; depth, parent link,
    /// children, and every other node are untouched.
    pub fn update(&mut self, id: Id, value: T)
        requires
            tree_wf(old(self)@),
            (id.0 as int) < old(self)@.len(),
        ensures
            tree_wf(final(self)@),
            final(self)@.len() == old(self)@.len(),
            final(self)@[id.0 as int].value == value,
            final(self)@[id.0 as int].depth == old(self)@[id.0 as int].depth,
            final(self)@[id.0 as int].parent == old(self)@[id.0 as int].parent,
            final(self)@[id.0 as int].children == old(self)@[id.0 as int].children,
            forall|i: int|
                0 <= i < old(self)@.len() && i != id.0 as int ==> final(self)@[i] == old(self)@[i],
    {
        let ghost m0 = self@;
        let node = &mut self.nodes[id.0];
        node.value = value;
        proof {
            let m1 = self@;
            let j = id.0 as int;
            assert(m1[j].children =~= m0[j].children);
            assert forall|i: int| 0 <= i < m0.len() && i != j implies m1[i] == m0[i] by {
                assert(m1[i].children =~= m0[i].children);
            }
            assert forall|i: int| 0 <= i < m1.len() implies #[trigger] node_ok(m1, i) by {
                assert(node_ok(m0, i));
            }
            assert forall|i: int| 0 <= i < m1.len() implies #[trigger] children_ok(m1, i) by {
                assert(children_ok(m0, i));
            }
        }
    }
}

/// The model of `delete`: detaching node `i` removes it from its parent's
/// children list and changes nothing else; a node with no parent link (the
/// root) or one already detached is left as it is.
pub open spec fn spec_delete<T>(m: Seq<NodeModel<T>>, i: int) -> Seq<NodeModel<T>> {
    if 0 <= i < m.len() && m[i].parent is Some {
        let p = m[i].parent->0;
        m.update(
            p,
            NodeModel {
                id: m[p].id,
                value: m[p].value,
                depth: m[p].depth,
                parent: m[p].parent,
                children: m[p].children.remove_value(i),
            },
        )
    } else {
        m
    }
}

impl<T> Tree<T> {
    /// Detaches node `id` from its parent's children list. Idempotent: if
    /// the node is already detached (or is the root) this is a no-op. The
    /// entry itself, its payload, and its own children are untouched.
    pub fn delete(&mut self, id: Id)
        requires
            tree_wf(old(self)@),
            (id.0 as int) < old(self)@.len(),
        ensures
            tree_wf(final(self)@),
            final(self)@ == spec_delete(old(self)@, id.0 as int),
            final(self)@.len() == old(self)@.len(),
            id.0 != 0 ==> !attached(final(self)@, id.0 as int),
    {
        let ghost m0 = self@;
        let ghost c = id.0 as int;
        let parent_opt = self.nodes[id.0].parent;
        match parent_opt {
            None => {
                proof {
                    assert(node_ok(m0, c));
                }
            },
            Some(p) => {
                proof {
                    assert(node_ok(m0, c));
                    assert(children_ok(m0, p.0 as int));
                }
                let pidx = p.0;
                let clen = self.nodes[pidx].children.len();
                let ghost cm = m0[pidx as int].children;
                let mut k: usize = 0;
                let mut pos: usize = clen;
                while k < clen
                    invariant
                        self@ == m0,
                        tree_wf(m0),
                        c == id.0 as int,
                        0 <= (pidx as int) < m0.len(),
                        (pidx as int) < self.nodes@.len(),
                        cm == m0[pidx as int].children,
                        clen == cm.len(),
                        clen == self.nodes@[pidx as int].children@.len(),
                        k <= clen,
                        pos <= clen,
                        pos == clen ==> forall|j: int| 0 <= j < k ==> cm[j] != c,
                        pos < clen ==> pos < k && cm[pos as int] == c && (forall|j: int|
                            0 <= j < pos ==> cm[j] != c),
                    decreases clen - k,
                {
                    if pos == clen && self.nodes[pidx].children[k].0 == id.0 {
                        pos = k;
                    }
                    k += 1;
                }
                if pos < clen {
                    let pn = &mut self.nodes[pidx];
                    pn.children.remove(pos);
                }
                proof {
                    let m1 = self@;
                    let pi = pidx as int;
                    cm.index_of_first_ensures(c);
                    if pos < clen {
                        let idx = cm.index_of_first(c)->0;
                        assert(cm.contains(c)) by {
                            assert(cm[pos as int] == c);
                        }
                        assert(cm[idx] == c);
                        assert(idx == pos as int) by {
                            if idx < pos as int {
                                assert(cm[idx] != c);
                            }
                            if (pos as int) < idx {
                                assert(cm[pos as int] != c);
                            }
                        }
                        cm.remove_ensures(pos as int);
                        assert(m1[pi].children =~= cm.remove(pos as int));
                        assert forall|i: int| 0 <= i < m0.len() && i != pi implies m1[i] == m0[i] by {
                            assert(m1[i].children =~= m0[i].children);
                        }
                        assert(m1 =~= spec_delete(m0, c));
                        // the removed id occurs nowhere else in the list
                        assert forall|j: int| 0 <= j < cm.len() && j != pos as int implies cm[j]
                            != c by {
                            if j < pos as int {
                                assert(cm[j] != cm[pos as int]);
                            } else {
                                assert(cm[pos as int] != cm[j]);
                            }
                        }
                        assert(!m1[pi].children.contains(c)) by {
                            assert forall|j: int| 0 <= j < m1[pi].children.len() implies m1[pi].children[j] != c by {
                                if j < pos as int {
                                    assert(m1[pi].children[j] == cm[j]);
                                } else {
                                    assert(m1[pi].children[j] == cm[j + 1]);
                                }
                            }
                        }
                        assert(!attached(m1, c));
                        // well-formedness is preserved
                        assert forall|i: int| 0 <= i < m1.len() implies #[trigger] node_ok(m1, i) by {
                            assert(node_ok(m0, i));
                        }
                        assert forall|i: int| 0 <= i < m1.len() implies #[trigger] children_ok(
                            m1,
                            i,
                        ) by {
                            assert(children_ok(m0, i));
                            if i == pi {
                                assert forall|j: int|
                                    0 <= j < m1[pi].children.len() implies pi
                                    < #[trigger] m1[pi].children[j] < m1.len() && m1[m1[pi].children[j]].parent == Some(pi) by {
                                    if j < pos as int {
                                        assert(m1[pi].children[j] == cm[j]);
                                    } else {
                                        assert(m1[pi].children[j] == cm[j + 1]);
                                    }
                                }
                                assert forall|j1: int, j2: int|
                                    0 <= j1 < j2 < m1[pi].children.len() implies m1[pi].children[j1]
                                    != m1[pi].children[j2] by {
                                    let o1: int = if j1 < pos as int {
                                        j1
                                    } else {
                                        j1 + 1
                                    };
                                    let o2: int = if j2 < pos as int {
                                        j2
                                    } else {
                                        j2 + 1
                                    };
                                    assert(m1[pi].children[j1] == cm[o1]);
                                    assert(m1[pi].children[j2] == cm[o2]);
                                    assert(cm[o1] != cm[o2]);
                                }
                            }
                        }
                    } else {
                        assert(!cm.contains(c)) by {
                            assert forall|j: int| 0 <= j < cm.len() implies cm[j] != c by {}
                        }
                        assert(cm.remove_value(c) == cm);
                        assert(m1 == m0);
                        assert(spec_delete(m0, c) =~= m0) by {
                            assert(spec_delete(m0, c)[pi] == m0[pi]);
                        }
                        assert(!attached(m1, c)) by {
                            assert(!m1[pi].children.contains(c));
                        }
                    }
                }
            },
        }
    }
}

/// Law: in a well-formed tree, every node below the root sits exactly one
/// level below its parent.
pub proof fn lemma_depth_is_parent_plus_one<T>(m: Seq<NodeModel<T>>, i: int)
    requires
        tree_wf(m),
        1 <= i < m.len(),
    ensures
        m[i].parent is Some,
        m[i].depth == m[m[i].parent->0].depth + 1,
{
    assert(node_ok(m, i));
}

/// Law: in a well-formed tree, an id occupies at most one slot in the
/// children lists: the same id found in two slots means the same parent and
/// the same position. Together with `lemma_depth_is_parent_plus_one` this is
/// the structural half of "every attached node is reachable exactly once
/// from the root via children traversal".
pub proof fn lemma_child_slot_unique<T>(
    m: Seq<NodeModel<T>>,
    i1: int,
    k1: int,
    i2: int,
    k2: int,
)
    requires
        tree_wf(m),
        0 <= i1 < m.len(),
        0 <= i2 < m.len(),
        0 <= k1 < m[i1].children.len(),
        0 <= k2 < m[i2].children.len(),
        m[i1].children[k1] == m[i2].children[k2],
    ensures
        i1 == i2,
        k1 == k2,
{
    assert(children_ok(m, i1));
    assert(children_ok(m, i2));
    let c = m[i1].children[k1];
    assert(m[c].parent == Some(i1));
    assert(m[c].parent == Some(i2));
    if k1 < k2 {
        assert(m[i1].children[k1] != m[i1].children[k2]);
    }
    if k2 < k1 {
        assert(m[i1].children[k2] != m[i1].children[k1]);
    }
}

/// Removing one value from a sequence leaves membership of every other
/// value unchanged.
proof fn lemma_remove_value_membership(s: Seq<int>, v: int, x: int)
    requires
        x != v,
    ensures
        s.remove_value(v).contains(x) == s.contains(x),
{
    s.index_of_first_ensures(v);
    match s.index_of_first(v) {
        Some(idx) => {
            s.remove_ensures(idx);
            let r = s.remove(idx);
            if s.contains(x) {
                let j = choose|j: int| 0 <= j < s.len() && s[j] == x;
                if j < idx {
                    assert(r[j] == x);
                } else {
                    assert(j != idx);
                    assert(r[j - 1] == x);
                }
                assert(r.contains(x));
            }
            if r.contains(x) {
                let k = choose|k: int| 0 <= k < r.len() && r[k] == x;
                if k < idx {
                    assert(s[k] == x);
                } else {
                    assert(s[k + 1] == x);
                }
                assert(s.contains(x));
            }
        },
        None => {},
    }
}

/// Law: deleting the same node twice gives exactly the tree of deleting it
/// once — the second call changes nothing.
pub proof fn lemma_delete_idempotent<T>(m: Seq<NodeModel<T>>, i: int)
    requires
        tree_wf(m),
        0 <= i < m.len(),
    ensures
        spec_delete(spec_delete(m, i), i) == spec_delete(m, i),
{
    if m[i].parent is Some {
        let p = m[i].parent->0;
        assert(node_ok(m, i));
        assert(children_ok(m, p));
        let m1 = spec_delete(m, i);
        let cm = m[p].children;
        cm.index_of_first_ensures(i);
        match cm.index_of_first(i) {
            Some(idx) => {
                cm.remove_ensures(idx);
                let r = cm.remove(idx);
                assert forall|j: int| 0 <= j < cm.len() && j != idx implies cm[j] != i by {
                    if j < idx {
                        assert(cm[j] != cm[idx]);
                    } else {
                        assert(cm[idx] != cm[j]);
                    }
                }
                assert(!r.contains(i)) by {
                    assert forall|k: int| 0 <= k < r.len() implies r[k] != i by {
                        if k < idx {
                            assert(r[k] == cm[k]);
                        } else {
                            assert(r[k] == cm[k + 1]);
                        }
                    }
                }
                assert(m1[i].parent == Some(p));
                assert(m1[p].children == r);
                r.index_of_first_ensures(i);
                assert(m1[p].children.remove_value(i) == r);
                assert(spec_delete(m1, i) =~= m1) by {
                    assert(spec_delete(m1, i)[p] == m1[p]);
                }
            },
            None => {
                assert(cm.remove_value(i) == cm);
                assert(m1 =~= m) by {
                    assert(m1[p] == m[p]);
                }
            },
        }
    }
}

/// Law: deleting node `i` affects no other node: every other entry keeps its
/// payload, depth, parent link, and attachment (siblings stay attached).
pub proof fn lemma_delete_preserves_others<T>(m: Seq<NodeModel<T>>, i: int, j: int)
    requires
        tree_wf(m),
        0 <= i < m.len(),
        0 <= j < m.len(),
        j != i,
    ensures
        spec_delete(m, i)[j].value == m[j].value,
        spec_delete(m, i)[j].depth == m[j].depth,
        spec_delete(m, i)[j].parent == m[j].parent,
        attached(spec_delete(m, i), j) == attached(m, j),
{
    if m[i].parent is Some {
        let p = m[i].parent->0;
        assert(node_ok(m, i));
        let m1 = spec_delete(m, i);
        if j != 0 {
            assert(node_ok(m, j));
            let q = m[j].parent->0;
            assert(m1[j].parent == m[j].parent);
            if q == p {
                lemma_remove_value_membership(m[p].children, i, j);
            } else {
                assert(m1[q].children == m[q].children);
            }
        }
    }
}

/// Node `i` descends from `a`: following parent links upward from `i`
/// reaches `a` (a node descends from itself).
pub open spec fn descends<T>(m: Seq<NodeModel<T>>, i: int, a: int) -> bool
    decreases i,
    when tree_wf(m) && 0 <= i < m.len()
    via descends_decreases::<T>
{
    if i == a {
        true
    } else if i == 0 {
        false
    } else {
        descends(m, m[i].parent->0, a)
    }
}

#[via_fn]
proof fn descends_decreases<T>(m: Seq<NodeModel<T>>, i: int, a: int) {
    if i != a && i != 0 {
        assert(node_ok(m, i));
    }
}

/// Node `i` sits in the attached subtree under `a`: it descends from `a`
/// and every link on the way (up to, not including, `a`) is attached.
pub open spec fn in_subtree<T>(m: Seq<NodeModel<T>>, i: int, a: int) -> bool
    decreases i,
    when tree_wf(m) && 0 <= i < m.len()
    via in_subtree_decreases::<T>
{
    if i == a {
        true
    } else if i == 0 {
        false
    } else {
        attached(m, i) && in_subtree(m, m[i].parent->0, a)
    }
}

#[via_fn]
proof fn in_subtree_decreases<T>(m: Seq<NodeModel<T>>, i: int, a: int) {
    if i != a && i != 0 {
        assert(node_ok(m, i));
    }
}

/// A node is live when the whole chain from it to the root is attached:
/// exactly then is it reachable from the root via children traversal.
pub open spec fn live<T>(m: Seq<NodeModel<T>>, i: int) -> bool {
    in_subtree(m, i, 0)
}

/// Law: every live node below the root is reachable from the root via
/// children traversal, exactly once: its parent is live and holds it in the
/// children list; no other node and no other slot holds it; and its depth
/// is its parent's depth plus one. With `lemma_delete_idempotent` and the
/// `tree_wf` clause of every mutating contract, this holds across any
/// sequence of `add` and `delete`.
pub proof fn lemma_live_reachable_once<T>(m: Seq<NodeModel<T>>, i: int)
    requires
        tree_wf(m),
        0 < i < m.len(),
        live(m, i),
    ensures
        m[i].parent is Some,
        0 <= m[i].parent->0 < i,
        live(m, m[i].parent->0),
        m[m[i].parent->0].children.contains(i),
        m[i].depth == m[m[i].parent->0].depth + 1,
        forall|j: int, k: int|
            0 <= j < m.len() && 0 <= k < m[j].children.len() && m[j].children[k] == i ==> j == m[i].parent->0,
        forall|k1: int, k2: int|
            0 <= k1 < m[m[i].parent->0].children.len() && 0 <= k2 < m[m[i].parent->0].children.len() && m[m[i].parent->0].children[k1] == i && m[m[i].parent->0].children[k2] == i ==> k1 == k2,
{
    assert(node_ok(m, i));
    let p = m[i].parent->0;
    assert forall|j: int, k: int|
        0 <= j < m.len() && 0 <= k < m[j].children.len() && m[j].children[k] == i implies j
        == p by {
        assert(children_ok(m, j));
        assert(m[i].parent == Some(j));
    }
    assert forall|k1: int, k2: int|
        0 <= k1 < m[p].children.len() && 0 <= k2 < m[p].children.len() && m[p].children[k1] == i
        && m[p].children[k2] == i implies k1 == k2 by {
        assert(children_ok(m, p));
        if k1 < k2 {
            assert(m[p].children[k1] != m[p].children[k2]);
        }
        if k2 < k1 {
            assert(m[p].children[k2] != m[p].children[k1]);
        }
    }
}

/// Ancestors were created earlier: subtree membership bounds the root of
/// the subtree by the member's id.
proof fn lemma_in_subtree_le<T>(m: Seq<NodeModel<T>>, i: int, a: int)
    requires
        tree_wf(m),
        0 <= i < m.len(),
        0 <= a < m.len(),
        in_subtree(m, i, a),
    ensures
        a <= i,
    decreases i,
{
    if i != a {
        assert(node_ok(m, i));
        lemma_in_subtree_le(m, m[i].parent->0, a);
    }
}

/// A strict member of the subtree under `a` lies in the subtree of one of
/// `a`'s attached children: the first step of the downward path exists.
proof fn lemma_in_subtree_step<T>(m: Seq<NodeModel<T>>, i: int, a: int)
    requires
        tree_wf(m),
        0 <= i < m.len(),
        0 <= a < m.len(),
        in_subtree(m, i, a),
        i != a,
    ensures
        exists|x: int|
            0 <= x < m.len() && m[x].parent == Some(a) && #[trigger] m[a].children.contains(x)
                && in_subtree(m, i, x),
    decreases i,
{
    assert(node_ok(m, i));
    let p = m[i].parent->0;
    if p == a {
        assert(in_subtree(m, i, i));
        assert(m[a].children.contains(i));
    } else {
        lemma_in_subtree_step(m, p, a);
        let x = choose|x: int|
            0 <= x < m.len() && m[x].parent == Some(a) && #[trigger] m[a].children.contains(x)
                && in_subtree(m, p, x);
        lemma_in_subtree_le(m, p, x);
        assert(in_subtree(m, i, x));
    }
}

/// The depth-first preorder of the subtree under `i`: the node itself, then
/// each child's subtree, in children order. `find` and `find_all` traverse
/// exactly this sequence.
pub open spec fn preorder<T>(m: Seq<NodeModel<T>>, i: int) -> Seq<int>
    decreases m.len() - i, 1int, 0int,
    when tree_wf(m) && 0 <= i < m.len()
{
    seq![i] + preorder_children(m, i, 0)
}

/// The concatenated preorders of the children of `i`, from slot `k` on.
pub open spec fn preorder_children<T>(m: Seq<NodeModel<T>>, i: int, k: int) -> Seq<int>
    decreases m.len() - i, 0int, m[i].children.len() - k,
    when tree_wf(m) && 0 <= i < m.len() && 0 <= k <= m[i].children.len()
    via preorder_children_decreases::<T>
{
    if k >= m[i].children.len() {
        Seq::<int>::empty()
    } else {
        preorder(m, m[i].children[k]) + preorder_children(m, i, k + 1)
    }
}

#[via_fn]
proof fn preorder_children_decreases<T>(m: Seq<NodeModel<T>>, i: int, k: int) {
    if k < m[i].children.len() {
        assert(children_ok(m, i));
    }
}

/// The concatenated preorders of the first `k` children of `i`: the part of
/// the traversal a loop has completed.
pub open spec fn preorder_upto<T>(m: Seq<NodeModel<T>>, i: int, k: int) -> Seq<int>
    decreases k,
    when tree_wf(m) && 0 <= i < m.len() && k <= m[i].children.len()
{
    if k <= 0 {
        Seq::<int>::empty()
    } else {
        preorder_upto(m, i, k - 1) + preorder(m, m[i].children[k - 1])
    }
}

/// The completed prefix and the remaining suffix of the children traversal
/// together are the whole of it.
proof fn lemma_preorder_split<T>(m: Seq<NodeModel<T>>, i: int, k: int)
    requires
        tree_wf(m),
        0 <= i < m.len(),
        0 <= k <= m[i].children.len(),
    ensures
        preorder_upto(m, i, k) + preorder_children(m, i, k) == preorder_children(m, i, 0),
    decreases k,
{
    if k == 0 {
        assert(Seq::<int>::empty() + preorder_children(m, i, 0) =~= preorder_children(m, i, 0));
    } else {
        lemma_preorder_split(m, i, k - 1);
        assert(children_ok(m, i));
        assert(0 <= k - 1 < m[i].children.len());
        assert(0 <= m[i].children[k - 1] < m.len());
        assert(preorder_children(m, i, k - 1) == preorder(m, m[i].children[k - 1])
            + preorder_children(m, i, k));
        assert(preorder_upto(m, i, k) + preorder_children(m, i, k) =~= preorder_upto(m, i, k - 1)
            + preorder_children(m, i, k - 1));
    }
}

/// Every entry of the preorder under `i` is a valid node of the subtree
/// under `i`, and the sequence starts with `i` itself.
proof fn lemma_preorder_elems<T>(m: Seq<NodeModel<T>>, i: int)
    requires
        tree_wf(m),
        0 <= i < m.len(),
    ensures
        preorder(m, i).len() >= 1,
        preorder(m, i)[0] == i,
        forall|q: int|
            0 <= q < preorder(m, i).len() ==> 0 <= #[trigger] preorder(m, i)[q] < m.len()
                && in_subtree(m, preorder(m, i)[q], i),
    decreases m.len() - i, 1int, 0int,
{
    lemma_preorder_children_elems(m, i, 0);
    assert(in_subtree(m, i, i));
    assert forall|q: int|
        0 <= q < preorder(m, i).len() implies 0 <= #[trigger] preorder(m, i)[q] < m.len()
            && in_subtree(m, preorder(m, i)[q], i) by {
        if q > 0 {
            assert(preorder(m, i)[q] == preorder_children(m, i, 0)[q - 1]);
        }
    }
}

/// Every entry of the children traversal of `i` from slot `k` on is a valid
/// node of the subtree under `i`.
proof fn lemma_preorder_children_elems<T>(m: Seq<NodeModel<T>>, i: int, k: int)
    requires
        tree_wf(m),
        0 <= i < m.len(),
        0 <= k <= m[i].children.len(),
    ensures
        forall|q: int|
            0 <= q < preorder_children(m, i, k).len() ==> 0 <= #[trigger] preorder_children(
                m,
                i,
                k,
            )[q] < m.len() && in_subtree(m, preorder_children(m, i, k)[q], i),
    decreases m.len() - i, 0int, m[i].children.len() - k,
{
    assert(children_ok(m, i));
    if k < m[i].children.len() {
        let c = m[i].children[k];
        assert(0 <= c < m.len());
        lemma_preorder_elems(m, c);
        lemma_preorder_children_elems(m, i, k + 1);
        assert(attached(m, c)) by {
            assert(m[i].children[k] == c);
        }
        assert(in_subtree(m, i, i));
        assert(in_subtree(m, c, i));
        assert forall|q: int|
            0 <= q < preorder_children(m, i, k).len() implies 0 <= #[trigger] preorder_children(
            m,
            i,
            k,
        )[q] < m.len() && in_subtree(m, preorder_children(m, i, k)[q], i) by {
            if q < preorder(m, c).len() {
                assert(preorder_children(m, i, k)[q] == preorder(m, c)[q]);
                lemma_in_subtree_trans(m, preorder(m, c)[q], c, i);
            } else {
                assert(preorder_children(m, i, k)[q] == preorder_children(m, i, k + 1)[q
                    - preorder(m, c).len()]);
            }
        }
    }
}

/// Two subtree roots above one node are themselves nested: the chain of
/// parent links upward from a node is linear.
proof fn lemma_chain_linear<T>(m: Seq<NodeModel<T>>, x: int, a: int, b: int)
    requires
        tree_wf(m),
        0 <= x < m.len(),
        0 <= a < m.len(),
        0 <= b < m.len(),
        in_subtree(m, x, a),
        in_subtree(m, x, b),
    ensures
        in_subtree(m, a, b) || in_subtree(m, b, a),
    decreases x,
{
    if x == a || x == b {
    } else {
        assert(node_ok(m, x));
        lemma_chain_linear(m, m[x].parent->0, a, b);
    }
}

/// The subtrees under two distinct children of one parent are disjoint: a
/// node under one of them does not lie under the other.
proof fn lemma_sibling_subtrees_disjoint<T>(m: Seq<NodeModel<T>>, x: int, c1: int, c2: int)
    requires
        tree_wf(m),
        0 <= x < m.len(),
        0 < c1 < m.len(),
        0 < c2 < m.len(),
        m[c1].parent == m[c2].parent,
        c1 != c2,
        in_subtree(m, x, c1),
    ensures
        !in_subtree(m, x, c2),
{
    assert(node_ok(m, c1));
    assert(node_ok(m, c2));
    if in_subtree(m, x, c2) {
        lemma_chain_linear(m, x, c1, c2);
        // either way the chain from one child runs through the shared
        // parent, whose id is below the other child's — impossible
        if in_subtree(m, c1, c2) {
            lemma_in_subtree_le(m, m[c1].parent->0, c2);
        } else {
            lemma_in_subtree_le(m, m[c2].parent->0, c1);
        }
    }
}

/// Subtree membership composes: a node in the subtree under `c`, where `c`
/// is in the subtree under `a`, is in the subtree under `a`.
pub proof fn lemma_in_subtree_trans<T>(m: Seq<NodeModel<T>>, x: int, c: int, a: int)
    requires
        tree_wf(m),
        0 <= x < m.len(),
        0 <= c < m.len(),
        0 <= a < m.len(),
        in_subtree(m, x, c),
        in_subtree(m, c, a),
    ensures
        in_subtree(m, x, a),
    decreases x,
{
    if x == c {
    } else {
        assert(node_ok(m, x));
        lemma_in_subtree_trans(m, m[x].parent->0, c, a);
    }
}

/// Law: a strict descendant of node `a` sits strictly below it: its depth
/// is at least `a`'s depth plus one. In particular, every span created
/// inside a scope entered at depth `d` (whose parent chain leads back to
/// the scope's node) carries depth at least `d + 1`.
pub proof fn lemma_descendant_depth<T>(m: Seq<NodeModel<T>>, i: int, a: int)
    requires
        tree_wf(m),
        0 <= a < m.len(),
        0 <= i < m.len(),
        descends(m, i, a),
        i != a,
    ensures
        m[i].depth >= m[a].depth + 1,
    decreases i,
{
    assert(node_ok(m, i));
    let p = m[i].parent->0;
    if p != a {
        lemma_descendant_depth(m, p, a);
    }
}

impl<T> Tree<T> {
    /// Walks upward from `target` checking attachment: returns the depth of
    /// `target` exactly when it sits in the attached subtree under `from`,
    /// and `None` when it is absent from that subtree.
    pub fn find_depth(&self, from: Id, target: Id) -> (r: Option<usize>)
        requires
            tree_wf(self@),
            (from.0 as int) < self@.len(),
            (target.0 as int) < self@.len(),
        ensures
            r is Some <==> in_subtree(self@, target.0 as int, from.0 as int),
            r is Some ==> r->0 as nat == self@[target.0 as int].depth,
    {
        let mut cur = target;
        loop
            invariant
                tree_wf(self@),
                (from.0 as int) < self@.len(),
                (target.0 as int) < self@.len(),
                (cur.0 as int) < self@.len(),
                in_subtree(self@, target.0 as int, from.0 as int) <==> in_subtree(
                    self@,
                    cur.0 as int,
                    from.0 as int,
                ),
            decreases cur.0,
        {
            if cur.0 == from.0 {
                return Some(self.nodes[target.0].depth);
            }
            if cur.0 == 0 {
                return None;
            }
            proof {
                assert(node_ok(self@, cur.0 as int));
            }
            if !self.is_attached(cur) {
                return None;
            }
            let next = self.nodes[cur.0].parent;
            match next {
                Some(p) => {
                    cur = p;
                },
                None => {
                    return None;
                },
            }
        }
    }
}

impl<T> Tree<T> {
    /// Depth-first search over the attached subtree under `from` — the node
    /// itself, then each child's subtree in children order — for the first
    /// node satisfying the predicate: a returned node was accepted, lies in
    /// that subtree, and everything before it in the preorder traversal was
    /// rejected; `None` means every node of the subtree was rejected.
    pub fn find<F: Fn(&Node<T>) -> bool>(&self, from: Id, f: &F) -> (r: Option<Id>)
        requires
            tree_wf(self@),
            (from.0 as int) < self@.len(),
            forall|i: int| 0 <= i < self@.len() ==> call_requires(*f, (&self.nodes@[i],)),
        ensures
            r is Some ==> {
                &&& ((r->0).0 as int) < self@.len()
                &&& in_subtree(self@, (r->0).0 as int, from.0 as int)
                &&& call_ensures(*f, (&self.nodes@[(r->0).0 as int],), true)
            },
            r is None ==> forall|i: int|
                0 <= i < self@.len() && #[trigger] in_subtree(self@, i, from.0 as int)
                    ==> call_ensures(*f, (&self.nodes@[i],), false),
            r != Some(from) ==> call_ensures(*f, (&self.nodes@[from.0 as int],), false),
            (forall|b: bool| call_ensures(*f, (&self.nodes@[from.0 as int],), b) ==> b) ==> r
                == Some(from),
            r is Some ==> exists|p: int|
                0 <= p < preorder(self@, from.0 as int).len() && #[trigger] preorder(
                    self@,
                    from.0 as int,
                )[p] == (r->0).0 as int && (forall|q: int|
                    0 <= q < p ==> call_ensures(
                        *f,
                        (&self.nodes@[#[trigger] preorder(self@, from.0 as int)[q]],),
                        false,
                    )),
        decreases self@.len() - from.0,
    {
        let ghost cm = self@[from.0 as int].children;
        let ghost fi = from.0 as int;
        let ghost po = preorder(self@, fi);
        proof {
            lemma_preorder_elems(self@, fi);
            assert(children_ok(self@, fi));
        }
        if f(&self.nodes[from.0]) {
            proof {
                assert(po[0] == fi);
            }
            return Some(from);
        }
        let ghost mut rejected: Seq<int> = seq![fi];
        let clen = self.nodes[from.0].children.len();
        let mut k: usize = 0;
        while k < clen
            invariant
                tree_wf(self@),
                (from.0 as int) < self@.len(),
                forall|i: int| 0 <= i < self@.len() ==> call_requires(*f, (&self.nodes@[i],)),
                cm == self@[from.0 as int].children,
                clen == cm.len(),
                clen == self.nodes@[from.0 as int].children@.len(),
                k <= clen,
                call_ensures(*f, (&self.nodes@[from.0 as int],), false),
                forall|j: int, i: int|
                    0 <= j < k && 0 <= i < self@.len() && #[trigger] in_subtree(self@, i, cm[j])
                        ==> call_ensures(*f, (&self.nodes@[i],), false),
                fi == from.0 as int,
                po == preorder(self@, fi),
                rejected == seq![fi] + preorder_upto(self@, fi, k as int),
                po == rejected + preorder_children(self@, fi, k as int),
                forall|q: int|
                    0 <= q < rejected.len() ==> 0 <= #[trigger] rejected[q] < self@.len()
                        && call_ensures(*f, (&self.nodes@[rejected[q]],), false),
            decreases clen - k,
        {
            proof {
                assert(children_ok(self@, from.0 as int));
                assert(self@[from.0 as int].children[k as int] == self.nodes@[from.0 as int].children@[k as int].0 as int);
            }
            let c = self.nodes[from.0].children[k];
            proof {
                let ci = c.0 as int;
                let fi = from.0 as int;
                assert(fi < ci < self@.len());
                assert(self@[ci].parent == Some(fi));
                assert(attached(self@, ci)) by {
                    assert(self@[fi].children[k as int] == ci);
                }
                assert(in_subtree(self@, fi, fi));
                assert(in_subtree(self@, ci, fi));
                // the remaining traversal starts with this child's subtree
                assert(preorder_children(self@, fi, k as int) == preorder(self@, ci)
                    + preorder_children(self@, fi, k as int + 1));
            }
            let found = self.find(c, f);
            match found {
                Some(hit) => {
                    proof {
                        let ci = c.0 as int;
                        lemma_in_subtree_trans(
                            self@,
                            hit.0 as int,
                            ci,
                            from.0 as int,
                        );
                        lemma_in_subtree_le(self@, hit.0 as int, ci);
                        // place the child's first match inside the whole
                        // traversal: everything before it was rejected
                        let cpo = preorder(self@, ci);
                        let pc = choose|pc: int|
                            0 <= pc < cpo.len() && cpo[pc] == hit.0 as int && (forall|q: int|
                                0 <= q < pc ==> call_ensures(
                                    *f,
                                    (&self.nodes@[#[trigger] cpo[q]],),
                                    false,
                                ));
                        let p = rejected.len() + pc;
                        assert(po[p] == cpo[pc]) by {
                            assert(po == rejected + (cpo + preorder_children(
                                self@,
                                fi,
                                k as int + 1,
                            )));
                        }
                        assert forall|q: int|
                            0 <= q < p implies call_ensures(
                            *f,
                            (&self.nodes@[#[trigger] po[q]],),
                            false,
                        ) by {
                            if q < rejected.len() {
                                assert(po[q] == rejected[q]);
                            } else {
                                assert(po[q] == cpo[q - rejected.len()]);
                            }
                        }
                    }
                    return Some(hit);
                },
                None => {},
            }
            proof {
                let ci = c.0 as int;
                let cpo = preorder(self@, ci);
                lemma_preorder_elems(self@, ci);
                assert(preorder_upto(self@, fi, k as int + 1) == preorder_upto(self@, fi, k as int)
                    + cpo);
                let old_rejected = rejected;
                rejected = rejected + cpo;
                assert(rejected =~= seq![fi] + preorder_upto(self@, fi, k as int + 1));
                assert(po =~= rejected + preorder_children(self@, fi, k as int + 1));
                assert forall|q: int|
                    0 <= q < rejected.len() implies 0 <= #[trigger] rejected[q] < self@.len()
                        && call_ensures(*f, (&self.nodes@[rejected[q]],), false) by {
                    if q >= old_rejected.len() {
                        assert(rejected[q] == cpo[q - old_rejected.len()]);
                        assert(in_subtree(self@, rejected[q], ci));
                    } else {
                        assert(rejected[q] == old_rejected[q]);
                    }
                }
            }
            k += 1;
        }
        proof {
            let fi = from.0 as int;
            assert forall|i: int|
                0 <= i < self@.len() && #[trigger] in_subtree(self@, i, fi) implies call_ensures(
                *f,
                (&self.nodes@[i],),
                false,
            ) by {
                if i != fi {
                    lemma_in_subtree_step(self@, i, fi);
                    let x = choose|x: int|
                        0 <= x < self@.len() && self@[x].parent == Some(fi)
                            && #[trigger] self@[fi].children.contains(x) && in_subtree(self@, i, x);
                    let j = choose|j: int| 0 <= j < cm.len() && cm[j] == x;
                    assert(in_subtree(self@, i, cm[j]));
                }
            }
        }
        None
    }

    /// Appends to `v` every node of the attached subtree under `from` that
    /// satisfies the predicate, in depth-first order; what `v` already held
    /// is kept in place.
    fn find_all_into<F: Fn(&Node<T>) -> bool>(&self, from: Id, f: &F, v: &mut Vec<Id>)
        requires
            tree_wf(self@),
            (from.0 as int) < self@.len(),
            forall|i: int| 0 <= i < self@.len() ==> call_requires(*f, (&self.nodes@[i],)),
        ensures
            final(v)@.len() >= old(v)@.len(),
            forall|j: int| 0 <= j < old(v)@.len() ==> final(v)@[j] == old(v)@[j],
            forall|j: int|
                old(v)@.len() <= j < final(v)@.len() ==> {
                    &&& ((#[trigger] final(v)@[j]).0 as int) < self@.len()
                    &&& in_subtree(self@, final(v)@[j].0 as int, from.0 as int)
                    &&& call_ensures(*f, (&self.nodes@[final(v)@[j].0 as int],), true)
                },
            forall|i: int|
                0 <= i < self@.len() && #[trigger] in_subtree(self@, i, from.0 as int) ==> (exists|j: int|
                    old(v)@.len() <= j < final(v)@.len() && (#[trigger] final(v)@[j]).0 as int
                        == i) || call_ensures(*f, (&self.nodes@[i],), false),
            forall|j1: int, j2: int|
                old(v)@.len() <= j1 < j2 < final(v)@.len() ==> final(v)@[j1] != final(v)@[j2],
            exists|pos: Seq<int>|
                #![trigger pos.len()]
                pos.len() == final(v)@.len() - old(v)@.len() && (forall|j1: int, j2: int|
                    0 <= j1 < j2 < pos.len() ==> pos[j1] < pos[j2]) && (forall|j: int|
                    0 <= j < pos.len() ==> 0 <= #[trigger] pos[j] < preorder(
                        self@,
                        from.0 as int,
                    ).len() && preorder(self@, from.0 as int)[pos[j]] == (final(v)@[old(v)@.len()
                        + j]).0 as int),
        decreases self@.len() - from.0,
    {
        let ghost fi = from.0 as int;
        let ghost cm = self@[from.0 as int].children;
        let ghost po = preorder(self@, fi);
        let ghost v0 = v@;
        proof {
            lemma_preorder_elems(self@, fi);
            assert(children_ok(self@, fi));
        }
        let ghost mut pos: Seq<int> = Seq::empty();
        if f(&self.nodes[from.0]) {
            v.push(from);
            proof {
                assert(in_subtree(self@, from.0 as int, from.0 as int));
                assert(v@[v0.len() as int] == from);
                pos = seq![0int];
            }
        }
        let ghost mut prefix: Seq<int> = seq![fi];
        let ghost v1 = v@;
        proof {
            assert(forall|j: int| 0 <= j < v0.len() ==> v1[j] == v0[j]);
            assert forall|j: int|
                v0.len() <= j < v1.len() implies {
                &&& ((#[trigger] v1[j]).0 as int) < self@.len()
                &&& in_subtree(self@, v1[j].0 as int, from.0 as int)
                &&& call_ensures(*f, (&self.nodes@[v1[j].0 as int],), true)
            } by {
                assert(v1[j] == from);
            }
        }
        let clen = self.nodes[from.0].children.len();
        let mut k: usize = 0;
        while k < clen
            invariant
                tree_wf(self@),
                (from.0 as int) < self@.len(),
                forall|i: int| 0 <= i < self@.len() ==> call_requires(*f, (&self.nodes@[i],)),
                clen == self@[from.0 as int].children.len(),
                clen == self.nodes@[from.0 as int].children@.len(),
                k <= clen,
                v@.len() >= v1.len(),
                forall|j: int| 0 <= j < v1.len() ==> v@[j] == v1[j],
                forall|j: int|
                    v1.len() <= j < v@.len() ==> {
                        &&& ((#[trigger] v@[j]).0 as int) < self@.len()
                        &&& in_subtree(self@, v@[j].0 as int, from.0 as int)
                        &&& call_ensures(*f, (&self.nodes@[v@[j].0 as int],), true)
                    },
                fi == from.0 as int,
                cm == self@[from.0 as int].children,
                v0.len() <= v1.len(),
                (exists|j: int| v0.len() <= j < v@.len() && (#[trigger] v@[j]).0 as int == fi)
                    || call_ensures(*f, (&self.nodes@[fi],), false),
                forall|j: int| v0.len() <= j < v1.len() ==> #[trigger] v@[j] == from,
                forall|j1: int, j2: int| v0.len() <= j1 < j2 < v@.len() ==> v@[j1] != v@[j2],
                forall|j: int|
                    v1.len() <= j < v@.len() ==> exists|jj: int|
                        0 <= jj < k && in_subtree(self@, (#[trigger] v@[j]).0 as int, cm[jj]),
                forall|jj: int, i: int|
                    0 <= jj < k && 0 <= i < self@.len() && #[trigger] in_subtree(self@, i, cm[jj])
                        ==> (exists|j: int|
                        v0.len() <= j < v@.len() && (#[trigger] v@[j]).0 as int == i)
                        || call_ensures(*f, (&self.nodes@[i],), false),
                fi == from.0 as int,
                po == preorder(self@, fi),
                prefix == seq![fi] + preorder_upto(self@, fi, k as int),
                po == prefix + preorder_children(self@, fi, k as int),
                pos.len() == v@.len() - v0.len(),
                forall|j1: int, j2: int| 0 <= j1 < j2 < pos.len() ==> pos[j1] < pos[j2],
                forall|j: int|
                    0 <= j < pos.len() ==> 0 <= #[trigger] pos[j] < prefix.len() && po[pos[j]] == (
                    v@[v0.len() + j]).0 as int,
            decreases clen - k,
        {
            proof {
                assert(children_ok(self@, from.0 as int));
                assert(self@[from.0 as int].children[k as int] == self.nodes@[from.0 as int].children@[k as int].0 as int);
            }
            let c = self.nodes[from.0].children[k];
            proof {
                let ci = c.0 as int;
                let fi = from.0 as int;
                assert(fi < ci < self@.len());
                assert(self@[ci].parent == Some(fi));
                assert(attached(self@, ci)) by {
                    assert(self@[fi].children[k as int] == ci);
                }
                assert(in_subtree(self@, fi, fi));
                assert(in_subtree(self@, ci, fi));
            }
            let ghost vbefore = v@;
            self.find_all_into(c, f, v);
            proof {
                assert forall|j: int|
                    vbefore.len() <= j < v@.len() implies {
                    &&& ((#[trigger] v@[j]).0 as int) < self@.len()
                    &&& in_subtree(self@, v@[j].0 as int, from.0 as int)
                    &&& call_ensures(*f, (&self.nodes@[v@[j].0 as int],), true)
                } by {
                    lemma_in_subtree_trans(self@, v@[j].0 as int, c.0 as int, from.0 as int);
                }
                if exists|j: int| v0.len() <= j < vbefore.len() && (#[trigger] vbefore[j]).0 as int
                    == fi {
                    let j = choose|j: int|
                        v0.len() <= j < vbefore.len() && (#[trigger] vbefore[j]).0 as int == fi;
                    assert(v@[j] == vbefore[j]);
                    assert(v0.len() <= j < v@.len() && (v@[j]).0 as int == fi);
                }
                assert forall|jj: int, i: int|
                    0 <= jj < k + 1 && 0 <= i < self@.len() && #[trigger] in_subtree(
                    self@,
                    i,
                    cm[jj],
                ) implies (exists|j: int|
                    v0.len() <= j < v@.len() && (#[trigger] v@[j]).0 as int == i) || call_ensures(
                    *f,
                    (&self.nodes@[i],),
                    false,
                ) by {
                    if jj < k {
                        if exists|j: int|
                            v0.len() <= j < vbefore.len() && (#[trigger] vbefore[j]).0 as int
                                == i {
                            let j = choose|j: int|
                                v0.len() <= j < vbefore.len() && (#[trigger] vbefore[j]).0 as int
                                    == i;
                            assert(v@[j] == vbefore[j]);
                            assert(v0.len() <= j < v@.len() && (v@[j]).0 as int == i);
                        } else {
                            assert(call_ensures(*f, (&self.nodes@[i],), false));
                        }
                    } else {
                        assert(in_subtree(self@, i, c.0 as int));
                        if exists|j: int|
                            vbefore.len() <= j < v@.len() && (#[trigger] v@[j]).0 as int == i {
                            let j = choose|j: int|
                                vbefore.len() <= j < v@.len() && (#[trigger] v@[j]).0 as int == i;
                            assert(v0.len() <= j < v@.len() && (v@[j]).0 as int == i);
                        } else {
                            assert(call_ensures(*f, (&self.nodes@[i],), false));
                        }
                    }
                }
                // each new entry sits in the processed child's subtree
                assert forall|j: int|
                    v1.len() <= j < v@.len() implies exists|jj: int|
                        0 <= jj < k + 1 && in_subtree(
                            self@,
                            (#[trigger] v@[j]).0 as int,
                            cm[jj],
                        ) by {
                    if j < vbefore.len() {
                        assert(v@[j] == vbefore[j]);
                        let jj = choose|jj: int|
                            0 <= jj < k && in_subtree(self@, (vbefore[j]).0 as int, cm[jj]);
                        assert(in_subtree(self@, (v@[j]).0 as int, cm[jj]));
                    } else {
                        assert(in_subtree(self@, (v@[j]).0 as int, c.0 as int));
                        assert(in_subtree(self@, (v@[j]).0 as int, cm[k as int]));
                    }
                }
                // the traversal resumes at this child's subtree
                assert(children_ok(self@, fi));
                assert(0 <= (c.0 as int) < self@.len());
                assert(preorder_children(self@, fi, k as int) == preorder(self@, c.0 as int)
                    + preorder_children(self@, fi, k as int + 1));
                // place the child's collected positions inside the whole
                // traversal, after everything already completed
                let cpo = preorder(self@, c.0 as int);
                let cpos = choose|cpos: Seq<int>|
                    #![trigger cpos.len()]
                    cpos.len() == v@.len() - vbefore.len() && (forall|j1: int, j2: int|
                        0 <= j1 < j2 < cpos.len() ==> cpos[j1] < cpos[j2]) && (forall|j: int|
                        0 <= j < cpos.len() ==> 0 <= #[trigger] cpos[j] < cpo.len() && cpo[cpos[j]]
                            == (v@[vbefore.len() + j]).0 as int);
                let off = prefix.len() as int;
                let old_pos = pos;
                let old_prefix = prefix;
                pos = pos + Seq::new(cpos.len(), |j: int| cpos[j] + off);
                prefix = prefix + cpo;
                assert(preorder_upto(self@, fi, k as int + 1) == preorder_upto(self@, fi, k as int)
                    + cpo);
                assert(prefix =~= seq![fi] + preorder_upto(self@, fi, k as int + 1));
                assert(po == old_prefix + (cpo + preorder_children(self@, fi, k as int + 1)));
                assert(po =~= prefix + preorder_children(self@, fi, k as int + 1));
                assert forall|j: int|
                    0 <= j < pos.len() implies 0 <= #[trigger] pos[j] < prefix.len() && po[pos[j]]
                        == (v@[v0.len() + j]).0 as int by {
                    if j < old_pos.len() {
                        assert(pos[j] == old_pos[j]);
                        assert(v@[v0.len() + j] == vbefore[v0.len() + j]);
                        assert(po[pos[j]] == (vbefore[v0.len() + j]).0 as int);
                    } else {
                        let jc = j - old_pos.len();
                        assert(pos[j] == cpos[jc] + off);
                        assert(v0.len() + j == vbefore.len() + jc);
                        assert(po[cpos[jc] + off] == cpo[cpos[jc]]);
                    }
                }
                assert forall|j1: int, j2: int|
                    0 <= j1 < j2 < pos.len() implies pos[j1] < pos[j2] by {
                    if j2 < old_pos.len() {
                    } else if j1 >= old_pos.len() {
                        assert(pos[j1] == cpos[j1 - old_pos.len()] + off);
                        assert(pos[j2] == cpos[j2 - old_pos.len()] + off);
                    } else {
                        assert(pos[j1] == old_pos[j1]);
                        assert(old_pos[j1] < off);
                        assert(pos[j2] == cpos[j2 - old_pos.len()] + off);
                    }
                }
                // distinctness: old entries stay distinct, the new batch is
                // distinct, and the sibling subtrees keep them apart
                assert(children_ok(self@, fi));
                assert forall|j1: int, j2: int|
                    v0.len() <= j1 < j2 < v@.len() implies v@[j1] != v@[j2] by {
                    if j2 < vbefore.len() {
                        assert(v@[j1] == vbefore[j1] && v@[j2] == vbefore[j2]);
                    } else if j1 >= vbefore.len() {
                    } else {
                        assert(v@[j1] == vbefore[j1]);
                        let b = (v@[j2]).0 as int;
                        assert(in_subtree(self@, b, c.0 as int));
                        lemma_in_subtree_le(self@, b, c.0 as int);
                        if j1 < v1.len() {
                            assert(v@[j1] == from);
                        } else {
                            let jj = choose|jj: int|
                                0 <= jj < k && in_subtree(
                                    self@,
                                    (vbefore[j1]).0 as int,
                                    cm[jj],
                                );
                            assert(cm[jj] != cm[k as int]);
                            if v@[j1] == v@[j2] {
                                lemma_sibling_subtrees_disjoint(
                                    self@,
                                    (v@[j1]).0 as int,
                                    cm[jj],
                                    c.0 as int,
                                );
                            }
                        }
                    }
                }
            }
            k += 1;
        }
        proof {
            assert forall|j: int|
                v0.len() <= j < v@.len() implies {
                &&& ((#[trigger] v@[j]).0 as int) < self@.len()
                &&& in_subtree(self@, v@[j].0 as int, from.0 as int)
                &&& call_ensures(*f, (&self.nodes@[v@[j].0 as int],), true)
            } by {
                if j < v1.len() {
                    assert(v@[j] == v1[j]);
                }
            }
            assert forall|i: int|
                0 <= i < self@.len() && #[trigger] in_subtree(self@, i, fi) implies (exists|j: int|
                v0.len() <= j < v@.len() && (#[trigger] v@[j]).0 as int == i) || call_ensures(
                *f,
                (&self.nodes@[i],),
                false,
            ) by {
                if i != fi {
                    lemma_in_subtree_step(self@, i, fi);
                    let x = choose|x: int|
                        0 <= x < self@.len() && self@[x].parent == Some(fi)
                            && #[trigger] self@[fi].children.contains(x) && in_subtree(self@, i, x);
                    let jj = choose|jj: int| 0 <= jj < cm.len() && cm[jj] == x;
                    assert(in_subtree(self@, i, cm[jj]));
                }
            }
            // the ghost positions witness the preorder placement
            assert(prefix.len() <= po.len());
            assert(pos.len() == v@.len() - v0.len() && (forall|j1: int, j2: int|
                0 <= j1 < j2 < pos.len() ==> pos[j1] < pos[j2]) && (forall|j: int|
                0 <= j < pos.len() ==> 0 <= #[trigger] pos[j] < preorder(self@, fi).len()
                    && preorder(self@, fi)[pos[j]] == (v@[v0.len() + j]).0 as int));
        }
    }

    /// Depth-first traversal of the attached subtree under `from`,
    /// collecting every node that satisfies the predicate: the node itself
    /// first, then each child's subtree in children order. Every collected
    /// node lies in that subtree and was accepted; every subtree node is
    /// collected or was rejected; each appears at most once, and the result
    /// follows the preorder of the traversal.
    pub fn find_all<F: Fn(&Node<T>) -> bool>(&self, from: Id, f: &F) -> (r: Vec<Id>)
        requires
            tree_wf(self@),
            (from.0 as int) < self@.len(),
            forall|i: int| 0 <= i < self@.len() ==> call_requires(*f, (&self.nodes@[i],)),
        ensures
            forall|j: int|
                0 <= j < r@.len() ==> {
                    &&& ((#[trigger] r@[j]).0 as int) < self@.len()
                    &&& in_subtree(self@, r@[j].0 as int, from.0 as int)
                    &&& call_ensures(*f, (&self.nodes@[r@[j].0 as int],), true)
                },
            forall|i: int|
                0 <= i < self@.len() && #[trigger] in_subtree(self@, i, from.0 as int) ==> (exists|j: int|
                    0 <= j < r@.len() && (#[trigger] r@[j]).0 as int == i) || call_ensures(
                    *f,
                    (&self.nodes@[i],),
                    false,
                ),
            forall|j1: int, j2: int| 0 <= j1 < j2 < r@.len() ==> r@[j1] != r@[j2],
            exists|pos: Seq<int>|
                #![trigger pos.len()]
                pos.len() == r@.len() && (forall|j1: int, j2: int|
                    0 <= j1 < j2 < pos.len() ==> pos[j1] < pos[j2]) && (forall|j: int|
                    0 <= j < pos.len() ==> 0 <= #[trigger] pos[j] < preorder(
                        self@,
                        from.0 as int,
                    ).len() && preorder(self@, from.0 as int)[pos[j]] == (r@[j]).0 as int),
    {
        let mut v: Vec<Id> = Vec::new();
        self.find_all_into(from, f, &mut v);
        proof {
            let pos = choose|pos: Seq<int>|
                #![trigger pos.len()]
                pos.len() == v@.len() - 0 && (forall|j1: int, j2: int|
                    0 <= j1 < j2 < pos.len() ==> pos[j1] < pos[j2]) && (forall|j: int|
                    0 <= j < pos.len() ==> 0 <= #[trigger] pos[j] < preorder(
                        self@,
                        from.0 as int,
                    ).len() && preorder(self@, from.0 as int)[pos[j]] == (v@[0 + j]).0 as int);
            assert(pos.len() == v@.len() && (forall|j1: int, j2: int|
                0 <= j1 < j2 < pos.len() ==> pos[j1] < pos[j2]) && (forall|j: int|
                0 <= j < pos.len() ==> 0 <= #[trigger] pos[j] < preorder(
                    self@,
                    from.0 as int,
                ).len() && preorder(self@, from.0 as int)[pos[j]] == (v@[j]).0 as int));
        }
        v
    }
}

impl<T> Tree<T> {
    /// The number of entries ever created (attached or not).
    pub fn len(&self) -> (n: usize)
        ensures
            n as int == self@.len(),
    {
        self.nodes.len()
    }

    /// A borrow of the node entry with the given id.
    pub fn node(&self, id: Id) -> (r: &Node<T>)
        requires
            (id.0 as int) < self@.len(),
        ensures
            node_model(*r) == self@[id.0 as int],
    {
        &self.nodes[id.0]
    }

    /// The current payload of node `id` — the exact value installed by the
    /// most recent `update` (or at creation), never a partial one.
    pub fn value(&self, id: Id) -> (r: &T)
        requires
            (id.0 as int) < self@.len(),
        ensures
            *r == self@[id.0 as int].value,
    {
        &self.nodes[id.0].value
    }

    /// The depth of node `id`, fixed at creation.
    pub fn depth(&self, id: Id) -> (r: usize)
        requires
            (id.0 as int) < self@.len(),
        ensures
            r as nat == self@[id.0 as int].depth,
    {
        self.nodes[id.0].depth
    }

    /// The parent link of node `id` (`None` only for the root).
    pub fn parent(&self, id: Id) -> (r: Option<Id>)
        requires
            (id.0 as int) < self@.len(),
        ensures
            (r is Some) == (self@[id.0 as int].parent is Some),
            r is Some ==> (r->0).0 as int == self@[id.0 as int].parent->0,
    {
        self.nodes[id.0].parent
    }

    /// A point-in-time copy of the children list of node `id`.
    pub fn children(&self, id: Id) -> (r: Vec<Id>)
        requires
            (id.0 as int) < self@.len(),
        ensures
            r@.len() == self@[id.0 as int].children.len(),
            forall|k: int|
                0 <= k < r@.len() ==> (#[trigger] r@[k]).0 as int == self@[id.0 as int].children[k],
    {
        let ghost cm = self@[id.0 as int].children;
        let n = self.nodes[id.0].children.len();
        let mut out: Vec<Id> = Vec::new();
        let mut k: usize = 0;
        while k < n
            invariant
                (id.0 as int) < self@.len(),
                cm == self@[id.0 as int].children,
                n == cm.len(),
                n == self.nodes@[id.0 as int].children@.len(),
                k <= n,
                out@.len() == k as int,
                forall|j: int| 0 <= j < k ==> (#[trigger] out@[j]).0 as int == cm[j],
            decreases n - k,
        {
            out.push(self.nodes[id.0].children[k]);
            k += 1;
        }
        out
    }

    /// Whether node `id` currently sits in its parent's children list (the
    /// root is always attached).
    pub fn is_attached(&self, id: Id) -> (r: bool)
        requires
            tree_wf(self@),
            (id.0 as int) < self@.len(),
        ensures
            r == attached(self@, id.0 as int),
    {
        let ghost c = id.0 as int;
        match self.nodes[id.0].parent {
            None => {
                proof {
                    assert(node_ok(self@, c));
                }
                true
            },
            Some(p) => {
                proof {
                    assert(node_ok(self@, c));
                }
                let ghost cm = self@[p.0 as int].children;
                let n = self.nodes[p.0].children.len();
                let mut k: usize = 0;
                let mut found = false;
                while k < n
                    invariant
                        (p.0 as int) < self@.len(),
                        c == id.0 as int,
                        cm == self@[p.0 as int].children,
                        n == cm.len(),
                        n == self.nodes@[p.0 as int].children@.len(),
                        k <= n,
                        found ==> cm.contains(c),
                        !found ==> forall|j: int| 0 <= j < k ==> cm[j] != c,
                    decreases n - k,
                {
                    if self.nodes[p.0].children[k].0 == id.0 {
                        found = true;
                        proof {
                            assert(cm[k as int] == c);
                        }
                    }
                    k += 1;
                }
                found
            },
        }
    }
}

} // verus!
