//! The shape that the log of a round and the tree of its history share:
//! nodes known by ids, each under at most one parent, and the order in
//! which a walk through all of them visits them.

use vstd::prelude::*;

verus! {

pub type Id = u32;

/// Whether ids stand in strictly ascending order.
pub open spec fn spec_ascending(ids: Seq<Id>) -> bool {
    forall|i: int, j: int| 0 <= i < j < ids.len() ==> ids[i] < ids[j]
}

/// Nodes with their parents, and the record of the children of each
/// parent.
pub struct Forest {
    /// The parent of each node; none for a node at the top.
    pub parents: Map<Id, Option<Id>>,
    /// The nodes at the top.
    pub roots: Seq<Id>,
    /// The children of each node that has any.
    pub kids: Map<Id, Seq<Id>>,
}

impl Forest {
    /// The children recorded for a parent, where no parent stands for
    /// the top.
    pub open spec fn children_of(self, parent: Option<Id>) -> Seq<Id> {
        match parent {
            None => self.roots,
            Some(p) => if self.kids.contains_key(p) {
                self.kids[p]
            } else {
                Seq::empty()
            },
        }
    }

    /// What holds of the record of children: the children recorded for a
    /// parent are exactly the nodes that have it as their parent, each
    /// once, in ascending order of their ids.
    pub open spec fn wf(self) -> bool {
        &&& self.parents.dom().finite()
        &&& forall|parent: Option<Id>, id: Id| #[trigger]
            self.children_of(parent).contains(id) <==> self.parents.contains_key(id)
                && self.parents[id] == parent
        &&& forall|parent: Option<Id>| spec_ascending(#[trigger] self.children_of(parent))
    }

    /// Whether a node has siblings: other nodes recorded under the same
    /// parent.
    pub open spec fn has_siblings(self, id: Id) -> bool {
        self.children_of(self.parents[id]).len() > 1
    }

    /// Whether a node has siblings and is the last of them: the one with
    /// the greatest id.
    pub open spec fn is_last_sibling(self, id: Id) -> bool {
        self.has_siblings(id) && self.children_of(self.parents[id]).last() == id
    }

    /// Whether a node has no children.
    pub open spec fn is_leaf(self, id: Id) -> bool {
        self.children_of(Some(id)).len() == 0
    }

    /// The nodes that wait to be visited once the first of them has been:
    /// its children, then the rest.
    pub open spec fn after_visit(self, queue: Seq<Id>) -> Seq<Id> {
        self.children_of(Some(queue[0])) + queue.drop_first()
    }

    /// The order in which nodes are visited from a queue of nodes that
    /// wait, for at most `budget` visits: the first node of the queue,
    /// then its children and all below them, then the rest.
    pub open spec fn visits(self, queue: Seq<Id>, budget: nat) -> Seq<Id>
        decreases budget,
    {
        if budget == 0 || queue.len() == 0 {
            Seq::empty()
        } else {
            seq![queue[0]] + self.visits(self.after_visit(queue), (budget - 1) as nat)
        }
    }

    /// The nodes in the order of a walk that begins at the top, goes
    /// down before it goes on, and takes the children of a node in
    /// ascending order of their ids.
    pub open spec fn preorder(self) -> Seq<Id> {
        self.visits(self.roots, self.parents.len())
    }

    /// What holds in the middle of a walk, of the nodes visited and the
    /// nodes that wait: no node is among them twice, all are nodes of the
    /// forest, each has its parent among the visited, and all children of
    /// visited nodes and all nodes at the top are among them.
    pub open spec fn walking(self, visited: Seq<Id>, queue: Seq<Id>) -> bool {
        let all = visited + queue;
        &&& all.no_duplicates()
        &&& forall|i: int| 0 <= i < all.len() ==> self.parents.contains_key(#[trigger] all[i])
        &&& forall|i: int|
            0 <= i < all.len() && self.parents[#[trigger] all[i]] is Some ==> visited.contains(
                self.parents[all[i]].unwrap(),
            )
        &&& forall|v: Id, c: Id|
            visited.contains(v) && #[trigger] self.children_of(Some(v)).contains(c)
                ==> all.contains(c)
        &&& forall|r: Id| #[trigger] self.roots.contains(r) ==> all.contains(r)
    }

    /// Whether a node hangs on the top by a chain of at most `steps`
    /// parents, all of them nodes of the forest.
    pub open spec fn rooted(self, id: Id, steps: nat) -> bool
        decreases steps,
    {
        self.parents.contains_key(id) && match self.parents[id] {
            None => true,
            Some(p) => steps > 0 && self.rooted(p, (steps - 1) as nat),
        }
    }

    /// A walk begins with nothing visited and the nodes at the top
    /// waiting.
    pub proof fn lemma_walk_begins(self)
        requires
            self.wf(),
        ensures
            self.walking(Seq::empty(), self.roots),
    {
        let all = Seq::<Id>::empty() + self.roots;
        assert(all =~= self.roots);
        assert(spec_ascending(self.children_of(None)));
        assert forall|i: int| 0 <= i < all.len() implies self.parents.contains_key(
            #[trigger] all[i],
        ) && self.parents[all[i]] is None by {
            assert(self.children_of(None).contains(all[i]));
        }
    }

    /// A visit keeps the walk in order.
    pub proof fn lemma_walk_step(self, visited: Seq<Id>, queue: Seq<Id>)
        requires
            self.wf(),
            self.walking(visited, queue),
            queue.len() > 0,
        ensures
            self.walking(visited.push(queue[0]), self.after_visit(queue)),
    {
        let x = queue[0];
        let kids = self.children_of(Some(x));
        let rest = queue.drop_first();
        let all = visited + queue;
        let seen = visited.push(x);
        let wait = self.after_visit(queue);
        let next = seen + wait;
        assert(all[visited.len() as int] == x);
        assert(spec_ascending(kids));
        // No child of the node visited is among the visited or the waiting.
        assert forall|c: Id| kids.contains(c) implies !all.contains(c) by {
            if all.contains(c) {
                let i = choose|i: int| 0 <= i < all.len() && all[i] == c;
                assert(self.parents[all[i]] == Some(x));
                assert(visited.contains(x));
                let j = choose|j: int| 0 <= j < visited.len() && visited[j] == x;
                assert(all[j] == x);
            }
        }
        assert forall|i: int, j: int| 0 <= i < next.len() && 0 <= j < next.len() && i != j implies next[i]
            != next[j] by {
            let place = |k: int|
                if k < visited.len() {
                    k
                } else if k == visited.len() {
                    visited.len() as int
                } else if k < visited.len() + 1 + kids.len() {
                    -1
                } else {
                    k - kids.len()
                };
            let pi = place(i);
            let pj = place(j);
            if pi >= 0 {
                assert(next[i] == all[pi]);
            } else {
                assert(next[i] == kids[i - visited.len() - 1]);
                assert(kids.contains(next[i]));
            }
            if pj >= 0 {
                assert(next[j] == all[pj]);
            } else {
                assert(next[j] == kids[j - visited.len() - 1]);
                assert(kids.contains(next[j]));
            }
            if pi >= 0 && pj >= 0 {
                assert(pi != pj);
            } else if pi < 0 && pj < 0 {
                if i < j {
                    assert(kids[i - visited.len() - 1] < kids[j - visited.len() - 1]);
                } else {
                    assert(kids[j - visited.len() - 1] < kids[i - visited.len() - 1]);
                }
            } else if pi >= 0 {
                assert(all.contains(all[pi]));
            } else {
                assert(all.contains(all[pj]));
            }
        }
        assert forall|i: int| 0 <= i < next.len() implies self.parents.contains_key(
            #[trigger] next[i],
        ) && (self.parents[next[i]] is Some ==> seen.contains(self.parents[next[i]].unwrap())) by {
            if i < visited.len() {
                assert(next[i] == all[i]);
                if self.parents[all[i]] is Some {
                    let p = self.parents[all[i]].unwrap();
                    let j = choose|j: int| 0 <= j < visited.len() && visited[j] == p;
                    assert(seen[j] == p);
                }
            } else if i == visited.len() {
                assert(next[i] == all[i]);
                if self.parents[all[i]] is Some {
                    let p = self.parents[all[i]].unwrap();
                    let j = choose|j: int| 0 <= j < visited.len() && visited[j] == p;
                    assert(seen[j] == p);
                }
            } else if i < visited.len() + 1 + kids.len() {
                assert(next[i] == kids[i - visited.len() - 1]);
                assert(kids.contains(next[i]));
                assert(seen[visited.len() as int] == x);
            } else {
                assert(next[i] == all[i - kids.len()]);
                if self.parents[all[i - kids.len()]] is Some {
                    let p = self.parents[all[i - kids.len()]].unwrap();
                    let j = choose|j: int| 0 <= j < visited.len() && visited[j] == p;
                    assert(seen[j] == p);
                }
            }
        }
        // Whatever was visited or waiting still is, and the children wait.
        assert forall|c: Id| all.contains(c) || kids.contains(c) implies next.contains(c) by {
            if kids.contains(c) {
                let k = choose|k: int| 0 <= k < kids.len() && kids[k] == c;
                assert(next[visited.len() + 1 + k] == c);
            } else {
                let i = choose|i: int| 0 <= i < all.len() && all[i] == c;
                if i <= visited.len() {
                    assert(next[i] == c);
                } else {
                    assert(next[i + kids.len()] == c);
                }
            }
        }
        assert forall|v: Id, c: Id|
            seen.contains(v) && #[trigger] self.children_of(Some(v)).contains(c) implies next.contains(
            c,
        ) by {
            if v != x {
                let j = choose|j: int| 0 <= j < seen.len() && seen[j] == v;
                assert(visited[j] == v);
                assert(visited.contains(v));
                assert(all.contains(c));
            }
        }
        assert forall|r: Id| #[trigger] self.roots.contains(r) implies next.contains(r) by {
            assert(all.contains(r));
        }
    }

    /// In the middle of a walk the nodes visited and those that wait are
    /// together no more than the forest has nodes.
    pub proof fn lemma_walk_bound(self, visited: Seq<Id>, queue: Seq<Id>)
        requires
            self.wf(),
            self.walking(visited, queue),
        ensures
            visited.len() + queue.len() <= self.parents.len(),
    {
        let all = visited + queue;
        all.unique_seq_to_set();
        assert(all.to_set().subset_of(self.parents.dom())) by {
            assert forall|x: Id| all.to_set().contains(x) implies self.parents.dom().contains(x) by {
                let i = choose|i: int| 0 <= i < all.len() && all[i] == x;
                assert(self.parents.contains_key(all[i]));
            }
        }
        vstd::set_lib::lemma_len_subset(all.to_set(), self.parents.dom());
    }

    /// A walk with visits enough for all nodes ends with nothing left
    /// waiting.
    pub proof fn lemma_walk_ends(self, visited: Seq<Id>, queue: Seq<Id>, budget: nat)
        requires
            self.wf(),
            self.walking(visited, queue),
            visited.len() + budget >= self.parents.len(),
        ensures
            self.walking(visited + self.visits(queue, budget), Seq::empty()),
        decreases budget,
    {
        self.lemma_walk_bound(visited, queue);
        if budget == 0 || queue.len() == 0 {
            assert(queue.len() == 0);
            assert(visited + self.visits(queue, budget) =~= visited);
            assert(queue =~= Seq::<Id>::empty());
        } else {
            self.lemma_walk_step(visited, queue);
            self.lemma_walk_ends(
                visited.push(queue[0]),
                self.after_visit(queue),
                (budget - 1) as nat,
            );
            assert(visited + self.visits(queue, budget) =~= visited.push(queue[0]) + self.visits(
                self.after_visit(queue),
                (budget - 1) as nat,
            ));
        }
    }

    /// The walk visits no node twice and only nodes of the forest; it
    /// visits every node at the top, and with a node all its children.
    pub proof fn lemma_preorder(self)
        requires
            self.wf(),
        ensures
            self.preorder().no_duplicates(),
            forall|i: int|
                0 <= i < self.preorder().len() ==> self.parents.contains_key(
                    #[trigger] self.preorder()[i],
                ),
            forall|r: Id| #[trigger] self.roots.contains(r) ==> self.preorder().contains(r),
            forall|v: Id, c: Id|
                self.preorder().contains(v) && #[trigger] self.children_of(Some(v)).contains(c)
                    ==> self.preorder().contains(c),
    {
        self.lemma_walk_begins();
        self.lemma_walk_ends(Seq::empty(), self.roots, self.parents.len());
        let order = self.preorder();
        assert(Seq::<Id>::empty() + order =~= order);
        assert(order + Seq::<Id>::empty() =~= order);
    }

    /// The walk visits every node that hangs on the top by a chain of
    /// parents.
    pub proof fn lemma_preorder_reaches(self, id: Id, steps: nat)
        requires
            self.wf(),
            self.rooted(id, steps),
        ensures
            self.preorder().contains(id),
        decreases steps,
    {
        self.lemma_preorder();
        match self.parents[id] {
            None => {
                assert(self.children_of(None).contains(id));
            },
            Some(p) => {
                self.lemma_preorder_reaches(p, (steps - 1) as nat);
                assert(self.children_of(Some(p)).contains(id));
            },
        }
    }

    /// In a forest whose nodes all hang on the top, the walk visits each
    /// node exactly once.
    pub proof fn lemma_preorder_exactly_once(self)
        requires
            self.wf(),
            forall|id: Id| #[trigger]
                self.parents.contains_key(id) ==> exists|steps: nat| self.rooted(id, steps),
        ensures
            self.preorder().no_duplicates(),
            self.preorder().to_set() == self.parents.dom(),
            self.preorder().len() == self.parents.len(),
    {
        self.lemma_preorder();
        let order = self.preorder();
        assert forall|id: Id| order.to_set().contains(id) <==> self.parents.dom().contains(id) by {
            if order.to_set().contains(id) {
                let i = choose|i: int| 0 <= i < order.len() && order[i] == id;
                assert(self.parents.contains_key(order[i]));
            }
            if self.parents.contains_key(id) {
                let steps = choose|steps: nat| self.rooted(id, steps);
                self.lemma_preorder_reaches(id, steps);
            }
        }
        assert(order.to_set() =~= self.parents.dom());
        order.unique_seq_to_set();
    }
}

} // verus!
