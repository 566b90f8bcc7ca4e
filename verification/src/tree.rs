//! A helper module for a preorder traversal of the history tree.

use std::collections::VecDeque;
use vstd::prelude::*;
use crate::forest::{spec_ascending, Forest, Id};

verus! {

/// A node in the tree.
#[derive(Debug, Clone)]
pub struct Node<T> {
    /// The node ID.
    pub id: Id,
    /// The parent node ID, if this is not a root.
    pub parent: Option<Id>,
    /// The inner data for this node.
    pub data: T,
}

impl<T> Node<T> {
    /// Creates a new node.
    pub fn new(id: Id, data: T) -> (node: Self)
        ensures
            node.id == id,
            node.parent == None::<Id>,
            node.data == data,
    {
        Self { id, parent: None, data }
    }
}

/// The parents of nodes that are known by their places in a list.
pub open spec fn spec_parents<T>(nodes: Seq<Node<T>>) -> Map<Id, Option<Id>> {
    Map::new(|id: Id| id < nodes.len(), |id: Id| nodes[id as int].parent)
}

/// Whether each node of a list has its place as its id, and every parent
/// that is named is a node of the list.
pub open spec fn spec_nodes_ok<T>(nodes: Seq<Node<T>>) -> bool {
    &&& nodes.len() <= u32::MAX
    &&& forall|i: int| 0 <= i < nodes.len() ==> (#[trigger] nodes[i]).id == i
    &&& forall|i: int|
        0 <= i < nodes.len() && (#[trigger] nodes[i]).parent is Some ==> nodes[i].parent.unwrap()
            < nodes.len()
}

/// A builder for constructing the tree.
pub struct Builder<T> {
    next_id: Id,
    nodes: Vec<Node<T>>,
}

impl<T> View for Builder<T> {
    type V = Seq<Node<T>>;

    /// The nodes inserted so far, each at the place of its id.
    closed spec fn view(&self) -> Seq<Node<T>> {
        self.nodes@
    }
}

impl<T> Default for Builder<T> {
    fn default() -> (builder: Self)
        ensures
            builder.wf(),
            builder@.len() == 0,
    {
        Builder::new()
    }
}

impl<T> Builder<T> {
    /// Whether the builder is well formed.
    pub closed spec fn wf(&self) -> bool {
        self.next_id == self.nodes@.len() && spec_nodes_ok(self.nodes@)
    }

    /// What well-formedness says of the nodes.
    pub proof fn lemma_wf(&self)
        requires
            self.wf(),
        ensures
            spec_nodes_ok(self@),
    {
    }

    /// Creates a builder without nodes.
    pub fn new() -> (builder: Self)
        ensures
            builder.wf(),
            builder@.len() == 0,
    {
        Self { next_id: 0, nodes: Vec::new() }
    }

    /// Returns the number of nodes inserted so far.
    pub fn len(&self) -> (n: usize)
        ensures
            n == self@.len(),
    {
        self.nodes.len()
    }

    /// Inserts a node into the tree.
    pub fn insert(&mut self, data: T) -> (id: Id)
        requires
            old(self).wf(),
            old(self)@.len() < u32::MAX,
        ensures
            final(self).wf(),
            id == old(self)@.len(),
            final(self)@ == old(self)@.push(Node { id, parent: None, data }),
    {
        let id = self.next_id;
        self.nodes.push(Node::new(id, data));
        self.next_id = self.next_id + 1;
        id
    }

    /// Sets the node's parent.
    pub fn set_parent(&mut self, node: Id, parent: Id)
        requires
            old(self).wf(),
            node < old(self)@.len(),
            parent < old(self)@.len(),
        ensures
            final(self).wf(),
            final(self)@ == old(self)@.update(
                node as int,
                Node {
                    id: node,
                    parent: Some(parent),
                    data: old(self)@[node as int].data,
                },
            ),
    {
        self.nodes[node as usize].parent = Some(parent);
        proof {
            assert(self.nodes@ =~= old(self)@.update(
                node as int,
                Node {
                    id: node,
                    parent: Some(parent),
                    data: old(self)@[node as int].data,
                },
            ));
        }
    }

    /// Builds the tree: files each node among the children of its parent,
    /// the nodes without parent among the roots.
    pub fn build(self) -> (tree: Tree<T>)
        requires
            self.wf(),
        ensures
            tree.wf(),
            tree@ == self@,
    {
        let count = self.nodes.len();
        let mut roots: Vec<Id> = Vec::new();
        let mut children: Vec<Vec<Id>> = Vec::new();
        let mut k: usize = 0;
        while k < count
            invariant
                k <= count,
                children@.len() == k,
                forall|p: int| 0 <= p < k ==> (#[trigger] children@[p])@.len() == 0,
            decreases count - k,
        {
            children.push(Vec::new());
            k = k + 1;
        }
        let mut i: usize = 0;
        proof {
            assert(roots@ =~= spec_children_among(self.nodes@, None, 0));
            assert forall|p: int| 0 <= p < children@.len() implies (#[trigger] children@[p])@
                == spec_children_among(self.nodes@, Some(p as Id), 0) by {
                assert(children@[p]@ =~= Seq::<Id>::empty());
            }
        }
        while i < count
            invariant
                i <= count,
                count == self.nodes@.len(),
                spec_nodes_ok(self.nodes@),
                children@.len() == count,
                spec_filed(self.nodes@, roots@, children@, i as int),
            decreases count - i,
        {
            let id = self.nodes[i].id;
            let ghost roots_before = roots@;
            let ghost children_before = children@;
            proof {
                assert(id == i);
            }
            match self.nodes[i].parent {
                Some(parent) => {
                    children[parent as usize].push(id);
                    proof {
                        lemma_filed_next(
                            self.nodes@,
                            roots_before,
                            children_before,
                            roots@,
                            children@,
                            i as int,
                        );
                    }
                },
                None => {
                    roots.push(id);
                    proof {
                        lemma_filed_next(
                            self.nodes@,
                            roots_before,
                            children_before,
                            roots@,
                            children@,
                            i as int,
                        );
                    }
                },
            }
            i = i + 1;
        }
        let tree = Tree { roots, nodes: self.nodes, children };
        proof {
            lemma_filed_forest(tree.nodes@, tree.roots@, tree.children@);
        }
        tree
    }
}

/// The list of the nodes among the first `n` that have the given parent.
pub open spec fn spec_children_among<T>(
    nodes: Seq<Node<T>>,
    parent: Option<Id>,
    n: int,
) -> Seq<Id>
    decreases n,
{
    if n <= 0 {
        Seq::empty()
    } else if nodes[n - 1].parent == parent {
        spec_children_among(nodes, parent, n - 1).push((n - 1) as Id)
    } else {
        spec_children_among(nodes, parent, n - 1)
    }
}

/// Whether the first `n` nodes are filed: the roots and the children of
/// each node are those among the first `n` nodes that belong there.
pub open spec fn spec_filed<T>(
    nodes: Seq<Node<T>>,
    roots: Seq<Id>,
    children: Seq<Vec<Id>>,
    n: int,
) -> bool {
    &&& children.len() == nodes.len()
    &&& roots == spec_children_among(nodes, None, n)
    &&& forall|p: int|
        0 <= p < children.len() ==> (#[trigger] children[p])@ == spec_children_among(
            nodes,
            Some(p as Id),
            n,
        )
}

/// Filing one more node keeps the nodes filed.
proof fn lemma_filed_next<T>(
    nodes: Seq<Node<T>>,
    roots: Seq<Id>,
    children: Seq<Vec<Id>>,
    roots_after: Seq<Id>,
    children_after: Seq<Vec<Id>>,
    n: int,
)
    requires
        spec_nodes_ok(nodes),
        0 <= n < nodes.len(),
        spec_filed(nodes, roots, children, n),
        children_after.len() == children.len(),
        match nodes[n].parent {
            Some(parent) => {
                &&& roots_after == roots
                &&& children_after[parent as int]@ == children[parent as int]@.push(n as Id)
                &&& forall|p: int|
                    0 <= p < children.len() && p != parent ==> children_after[p] == children[p]
            },
            None => roots_after == roots.push(n as Id) && children_after == children,
        },
    ensures
        spec_filed(nodes, roots_after, children_after, n + 1),
{
    assert forall|p: int| 0 <= p < children_after.len() implies (#[trigger] children_after[p])@
        == spec_children_among(nodes, Some(p as Id), n + 1) by {
        assert(children[p]@ == spec_children_among(nodes, Some(p as Id), n));
    }
}

/// What the list of the children among the first nodes holds: exactly
/// the nodes with that parent, in ascending order.
pub proof fn lemma_children_among<T>(nodes: Seq<Node<T>>, parent: Option<Id>, n: int)
    requires
        0 <= n <= nodes.len() <= u32::MAX,
    ensures
        spec_ascending(spec_children_among(nodes, parent, n)),
        forall|id: Id|
            spec_children_among(nodes, parent, n).contains(id) <==> id < n && nodes[id as int].parent
                == parent,
    decreases n,
{
    if n > 0 {
        lemma_children_among(nodes, parent, n - 1);
        let before = spec_children_among(nodes, parent, n - 1);
        let after = spec_children_among(nodes, parent, n);
        if nodes[n - 1].parent == parent {
            assert(after == before.push((n - 1) as Id));
            assert forall|i: int, j: int| 0 <= i < j < after.len() implies after[i] < after[j] by {
                assert(before.contains(before[i]));
            }
            assert forall|id: Id| after.contains(id) <==> id < n && nodes[id as int].parent
                == parent by {
                if after.contains(id) {
                    let k = choose|k: int| 0 <= k < after.len() && after[k] == id;
                    if k < before.len() {
                        assert(before.contains(before[k]));
                    }
                }
                if id < n && nodes[id as int].parent == parent {
                    if id == n - 1 {
                        assert(after[after.len() - 1] == id);
                    } else {
                        assert(before.contains(id));
                        let k = choose|k: int| 0 <= k < before.len() && before[k] == id;
                        assert(after[k] == id);
                    }
                }
            }
        }
    }
}

/// The shape of a tree whose nodes are at the given places.
pub open spec fn spec_forest<T>(nodes: Seq<Node<T>>, roots: Seq<Id>, children: Seq<Vec<Id>>) -> Forest {
    Forest {
        parents: spec_parents(nodes),
        roots,
        kids: Map::new(
            |p: Id| p < children.len() && children[p as int]@.len() > 0,
            |p: Id| children[p as int]@,
        ),
    }
}

/// Nodes that are all filed make a well-formed shape.
proof fn lemma_filed_forest<T>(nodes: Seq<Node<T>>, roots: Seq<Id>, children: Seq<Vec<Id>>)
    requires
        spec_nodes_ok(nodes),
        spec_filed(nodes, roots, children, nodes.len() as int),
    ensures
        spec_forest(nodes, roots, children).wf(),
        forall|p: Id|
            p < nodes.len() ==> #[trigger] spec_forest(nodes, roots, children).children_of(Some(p))
                == children[p as int]@,
{
    let forest = spec_forest(nodes, roots, children);
    let n = nodes.len() as int;
    assert(forest.parents.dom().finite()) by {
        let ids = Set::new(|id: Id| id < n);
        assert(forest.parents.dom() =~= ids);
        lemma_ids_finite(n as nat);
    }
    assert forall|parent: Option<Id>| #[trigger]
        forest.children_of(parent) == (if parent is Some && parent.unwrap() >= n {
        Seq::<Id>::empty()
    } else {
        spec_children_among(nodes, parent, n)
    }) by {
        match parent {
            Some(p) => {
                if p < n {
                    assert(children[p as int]@ == spec_children_among(nodes, Some(p), n));
                }
            },
            None => {},
        }
    }
    assert forall|parent: Option<Id>, id: Id| #[trigger]
        forest.children_of(parent).contains(id) <==> forest.parents.contains_key(id)
            && forest.parents[id] == parent by {
        lemma_children_among(nodes, parent, n);
        if parent is Some && parent.unwrap() >= n {
            if forest.parents.contains_key(id) && forest.parents[id] == parent {
                assert(nodes[id as int].parent.unwrap() < n);
            }
        }
    }
    assert forall|parent: Option<Id>| spec_ascending(#[trigger] forest.children_of(parent)) by {
        lemma_children_among(nodes, parent, n);
    }
}

/// There are finitely many ids below a bound.
proof fn lemma_ids_finite(n: nat)
    requires
        n <= u32::MAX + 1,
    ensures
        Set::new(|id: Id| id < n).finite(),
        Set::new(|id: Id| id < n).len() == n,
    decreases n,
{
    let ids = Set::new(|id: Id| id < n);
    if n == 0 {
        assert(ids =~= Set::<Id>::empty());
    } else {
        lemma_ids_finite((n - 1) as nat);
        let fewer = Set::new(|id: Id| id < n - 1);
        assert(ids =~= fewer.insert((n - 1) as Id));
    }
}

/// A simple tree structure.
pub struct Tree<T> {
    /// Root node.
    roots: Vec<Id>,
    /// The nodes, each at the place of its id.
    nodes: Vec<Node<T>>,
    /// Children for each node.
    children: Vec<Vec<Id>>,
}

impl<T> View for Tree<T> {
    type V = Seq<Node<T>>;

    /// The nodes of the tree, each at the place of its id.
    closed spec fn view(&self) -> Seq<Node<T>> {
        self.nodes@
    }
}

/// A node in the pre-order traversal of the tree.
pub struct PreorderNode<'a, T> {
    /// The node.
    pub data: &'a T,
    /// Set to `true` if the node has other siblings.
    pub sibling: bool,
    /// Set to `true` if the node has other siblings, and this is the last one in the traversal.
    pub last_sibling: bool,
    /// Set to `true` if this node has no children.
    pub leaf: bool,
}

/// Iterator state for pre-order traversal of the tree.
pub struct Preorder<'a, T> {
    /// The log we're traversing.
    tree: &'a Tree<T>,
    /// A queue of nodes to traverse.
    queue: VecDeque<Id>,
}

impl<T> Tree<T> {
    /// The shape of the tree: which node hangs under which.
    pub closed spec fn forest(&self) -> Forest {
        spec_forest(self.nodes@, self.roots@, self.children@)
    }

    /// Whether the tree is well formed.
    pub closed spec fn wf(&self) -> bool {
        &&& spec_nodes_ok(self.nodes@)
        &&& spec_filed(self.nodes@, self.roots@, self.children@, self.nodes@.len() as int)
    }

    /// What well-formedness says: the nodes are at the places of their
    /// ids, and the shape of the tree is that of its nodes.
    pub proof fn lemma_wf(&self)
        requires
            self.wf(),
        ensures
            spec_nodes_ok(self@),
            self.forest().wf(),
            self.forest().parents == spec_parents(self@),
    {
        lemma_filed_forest(self.nodes@, self.roots@, self.children@);
    }

    /// Creates a new builder.
    pub fn builder() -> (builder: Builder<T>)
        ensures
            builder.wf(),
            builder@.len() == 0,
    {
        Builder::new()
    }

    /// Returns the number of nodes.
    pub fn len(&self) -> (n: usize)
        ensures
            n == self@.len(),
    {
        self.nodes.len()
    }

    /// Returns the specified node.
    pub fn get(&self, id: Id) -> (node: Option<&Node<T>>)
        ensures
            match node {
                Some(n) => id < self@.len() && *n == self@[id as int],
                None => id >= self@.len(),
            },
    {
        if (id as usize) < self.nodes.len() {
            Some(&self.nodes[id as usize])
        } else {
            None
        }
    }

    /// Returns a list of child IDs for the specified node.
    pub fn get_children(&self, id: Id) -> (children: Option<&Vec<u32>>)
        requires
            self.wf(),
        ensures
            match children {
                Some(ids) => ids@.len() > 0 && ids@ == self.forest().children_of(Some(id)),
                None => self.forest().children_of(Some(id)).len() == 0,
            },
    {
        if (id as usize) < self.children.len() && self.children[id as usize].len() > 0 {
            Some(&self.children[id as usize])
        } else {
            None
        }
    }

    /// Creates a new iterator for a preorder traversal of the tree.
    pub fn preorder(&self) -> (walk: Preorder<'_, T>)
        requires
            self.wf(),
        ensures
            walk.wf(),
            walk.spec_tree() == self,
            walk@ == self.forest().roots,
    {
        let mut queue: VecDeque<Id> = VecDeque::new();
        let mut j = self.roots.len();
        while j > 0
            invariant
                j <= self.roots@.len(),
                queue@ == self.roots@.subrange(j as int, self.roots@.len() as int),
            decreases j,
        {
            j = j - 1;
            queue.push_front(self.roots[j]);
            assert(queue@ =~= self.roots@.subrange(j as int, self.roots@.len() as int));
        }
        assert(queue@ =~= self.roots@);
        proof {
            lemma_filed_forest(self.nodes@, self.roots@, self.children@);
            assert forall|i: int| 0 <= i < queue@.len() implies (#[trigger] queue@[i])
                < self.nodes@.len() by {
                assert(self.forest().children_of(None).contains(queue@[i]));
            }
        }
        Preorder { tree: self, queue }
    }
}

impl<'a, T> View for Preorder<'a, T> {
    type V = Seq<Id>;

    /// The nodes that wait to be visited, the next one first.
    closed spec fn view(&self) -> Seq<Id> {
        self.queue@
    }
}

impl<'a, T> Preorder<'a, T> {
    /// The tree that is traversed.
    pub closed spec fn spec_tree(&self) -> &'a Tree<T> {
        self.tree
    }

    /// Whether the traversal is well formed: the tree is, and the nodes
    /// that wait are nodes of the tree.
    pub closed spec fn wf(&self) -> bool {
        &&& self.tree.wf()
        &&& forall|i: int| 0 <= i < self.queue@.len() ==> (#[trigger] self.queue@[i]) < self.tree@.len()
    }

    /// Visits the next node, if any waits: its children take its place
    /// at the head of the queue. A node under a parent has siblings if
    /// the parent has other children; a node at the top has none.
    pub fn next(&mut self) -> (node: Option<PreorderNode<'a, T>>)
        requires
            old(self).wf(),
        ensures
            final(self).wf(),
            final(self).spec_tree() == old(self).spec_tree(),
            match node {
                Some(n) => {
                    let tree = old(self).spec_tree();
                    let id = old(self)@[0];
                    &&& old(self)@.len() > 0
                    &&& id < tree@.len()
                    &&& *n.data == tree@[id as int].data
                    &&& n.sibling == (tree@[id as int].parent is Some
                        && tree.forest().has_siblings(id))
                    &&& n.last_sibling == (tree@[id as int].parent is Some
                        && tree.forest().is_last_sibling(id))
                    &&& n.leaf == tree.forest().is_leaf(id)
                    &&& final(self)@ == tree.forest().after_visit(old(self)@)
                },
                None => old(self)@.len() == 0 && final(self)@ == old(self)@,
            },
    {
        let tree: &'a Tree<T> = self.tree;
        let id = match self.queue.pop_front() {
            Some(id) => id,
            None => {
                return None;
            },
        };
        let ghost waiting = old(self)@;
        proof {
            assert(self.queue@ =~= waiting.drop_first());
            assert(waiting[0] == id);
            lemma_filed_forest(tree.nodes@, tree.roots@, tree.children@);
            assert forall|i: int| 0 <= i < self.queue@.len() implies (#[trigger] self.queue@[i])
                < tree@.len() by {
                assert(self.queue@[i] == waiting[i + 1]);
            }
        }
        let node = &tree.nodes[id as usize];
        let (sibling, last_sibling) = match node.parent {
            Some(parent) => {
                match tree.get_children(parent) {
                    Some(siblings) => {
                        if siblings.len() > 1 {
                            (true, siblings[siblings.len() - 1] == id)
                        } else {
                            (false, false)
                        }
                    },
                    None => (false, false),
                }
            },
            None => (false, false),
        };
        let children = tree.get_children(id);
        let leaf = match children {
            Some(children) => {
                // Visit children in ascending order.
                let mut j = children.len();
                while j > 0
                    invariant
                        j <= children@.len(),
                        tree.wf(),
                        children@ == tree.forest().children_of(Some(id)),
                        self.tree == tree,
                        self.queue@ == children@.subrange(j as int, children@.len() as int)
                            + waiting.drop_first(),
                        forall|i: int|
                            0 <= i < self.queue@.len() ==> (#[trigger] self.queue@[i]) < tree@.len(),
                    decreases j,
                {
                    j = j - 1;
                    self.queue.push_front(children[j]);
                    proof {
                        assert(self.queue@ =~= children@.subrange(j as int, children@.len() as int)
                            + waiting.drop_first());
                        lemma_filed_forest(tree.nodes@, tree.roots@, tree.children@);
                        assert(tree.forest().children_of(Some(id)).contains(children@[j as int]));
                        assert forall|i: int| 0 <= i < self.queue@.len() implies (
                        #[trigger] self.queue@[i]) < tree@.len() by {
                            if i > 0 {
                                assert(self.queue@[i] == (children@.subrange(
                                    j + 1,
                                    children@.len() as int,
                                ) + waiting.drop_first())[i - 1]);
                            }
                        }
                    }
                }
                assert(children@.subrange(0, children@.len() as int) =~= children@);
                false
            },
            None => {
                assert(Seq::<Id>::empty() + waiting.drop_first() =~= waiting.drop_first());
                assert(tree.forest().children_of(Some(id)) =~= Seq::<Id>::empty());
                true
            },
        };
        Some(PreorderNode { data: &node.data, sibling, last_sibling, leaf })
    }
}

} // verus!
