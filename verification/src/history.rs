//! The history of a round as a list to browse: the tree of the log, line
//! by line, each line with the marks that draw the tree.

use std::collections::HashMap;
use vstd::prelude::*;
use crate::action::Action;
use crate::error::LogId;
use crate::forest::Id;
use crate::log::{
    lemma_sorted_nodes_unique,
    spec_lists,
    spec_nodes_sorted,
    ActionNode,
    Log,
    LogView,
};
use crate::seat::Seat;
use crate::tree::{Builder, Node, PreorderNode, Tree};

verus! {

broadcast use vstd::std_specs::hash::group_hash_axioms;

/// A history item.
#[derive(Debug, Clone, Copy, PartialEq, Eq, Structural)]
pub enum HistoryItem {
    /// The deal. Always first.
    Deal { dealer: Seat },
    /// Actions that have been recorded in the log.
    Action { id: LogId, parent: Option<LogId>, action: Action },
    /// The cursor position at the time the history widget was opened.
    Cursor { parent: Option<LogId> },
}

impl HistoryItem {
    /// The point of the log under which an item stands.
    pub open spec fn spec_parent(self) -> Option<LogId> {
        match self {
            HistoryItem::Deal { .. } => None,
            HistoryItem::Action { parent, .. } => parent,
            HistoryItem::Cursor { parent } => parent,
        }
    }

    /// The parent log ID for this node, if applicable
    pub fn parent(&self) -> (parent: Option<LogId>)
        ensures
            parent == self.spec_parent(),
    {
        match self {
            HistoryItem::Deal { .. } => None,
            HistoryItem::Action { parent, .. } => *parent,
            HistoryItem::Cursor { parent } => *parent,
        }
    }
}

/// The place in the tree of the history of the item that stands for a
/// point of the log: the deal comes first, then the nodes in ascending
/// order of their ids.
pub open spec fn spec_place(sorted: Seq<ActionNode>, point: Option<LogId>) -> Id {
    match point {
        None => 0,
        Some(id) => (1 + choose|i: int| 0 <= i < sorted.len() && (#[trigger] sorted[i]).id == id) as Id,
    }
}

/// The nodes of the tree of the history: the deal on top, then one node
/// for each node of the log, in ascending order of the ids and each under
/// the node of its parent, and last a node for the cursor, under the node
/// that the cursor points to.
pub open spec fn spec_history_nodes(
    dealer: Seat,
    sorted: Seq<ActionNode>,
    cursor: Option<LogId>,
) -> Seq<Node<HistoryItem>> {
    Seq::new(
        sorted.len() + 2,
        |i: int|
            if i == 0 {
                Node { id: 0, parent: None, data: HistoryItem::Deal { dealer } }
            } else if i <= sorted.len() {
                Node {
                    id: i as Id,
                    parent: Some(spec_place(sorted, sorted[i - 1].parent)),
                    data: HistoryItem::Action {
                        id: sorted[i - 1].id,
                        parent: sorted[i - 1].parent,
                        action: sorted[i - 1].action,
                    },
                }
            } else {
                Node {
                    id: i as Id,
                    parent: Some(spec_place(sorted, cursor)),
                    data: HistoryItem::Cursor { parent: cursor },
                }
            },
    )
}

/// Whether a list is the list of the nodes of a log in ascending order of
/// their ids.
pub open spec fn spec_sorted_nodes_of(sorted: Seq<ActionNode>, log: LogView) -> bool {
    spec_lists(sorted, log.nodes) && spec_nodes_sorted(sorted)
}

/// Helper function to build a tree out of a log.
pub fn build_tree(cursor: Option<LogId>, log: &Log) -> (tree: Tree<HistoryItem>)
    requires
        log.wf(),
        log@.closed(),
        cursor is Some ==> log@.nodes.contains_key(cursor.unwrap()),
        log@.nodes.len() + 2 <= u32::MAX,
    ensures
        tree.wf(),
        exists|sorted: Seq<ActionNode>|
            spec_sorted_nodes_of(sorted, log@) && #[trigger] spec_history_nodes(
                log@.config.dealer,
                sorted,
                cursor,
            ) == tree@,
{
    let mut builder: Builder<HistoryItem> = Tree::builder();
    let mut id_map: HashMap<LogId, Id> = HashMap::new();
    let mut parents: Vec<(Id, Option<LogId>)> = Vec::new();

    // Always insert the `Deal` node.
    let dealer = log.config().dealer();
    let root = builder.insert(HistoryItem::Deal { dealer });

    // Insert all actions, sorted by sequence number.
    let sorted = log.sorted_nodes();
    let mut i: usize = 0;
    while i < sorted.len()
        invariant
            i <= sorted@.len(),
            sorted@.len() + 2 <= u32::MAX,
            spec_sorted_nodes_of(sorted@, log@),
            builder.wf(),
            builder@.len() == i + 1,
            builder@[0] == (Node { id: 0 as Id, parent: None, data: HistoryItem::Deal { dealer } }),
            parents@.len() == i,
            forall|j: int|
                0 <= j < i ==> (#[trigger] builder@[j + 1]) == (Node {
                    id: (j + 1) as Id,
                    parent: None,
                    data: HistoryItem::Action {
                        id: sorted@[j].id,
                        parent: sorted@[j].parent,
                        action: sorted@[j].action,
                    },
                }),
            forall|j: int| 0 <= j < i ==> (#[trigger] parents@[j]) == ((j + 1) as Id, sorted@[j].parent),
            forall|k: LogId| #[trigger]
                id_map@.contains_key(k) <==> exists|j: int|
                    0 <= j < i && (#[trigger] sorted@[j]).id == k,
            forall|j: int| 0 <= j < i ==> id_map@[(#[trigger] sorted@[j]).id] == j + 1,
        decreases sorted@.len() - i,
    {
        let node = sorted[i];
        let ghost before = builder@;
        let ghost map_before = id_map@;
        let id = builder.insert(
            HistoryItem::Action { id: node.id, parent: node.parent, action: node.action },
        );
        parents.push((id, node.parent));
        id_map.insert(node.id, id);
        proof {
            assert forall|j: int| 0 <= j < i + 1 implies (#[trigger] builder@[j + 1]) == (Node {
                id: (j + 1) as Id,
                parent: None,
                data: HistoryItem::Action {
                    id: sorted@[j].id,
                    parent: sorted@[j].parent,
                    action: sorted@[j].action,
                },
            }) by {
                if j < i {
                    assert(builder@[j + 1] == before[j + 1]);
                }
            }
            assert forall|k: LogId| #[trigger] id_map@.contains_key(k) <==> exists|j: int|
                0 <= j < i + 1 && (#[trigger] sorted@[j]).id == k by {
                if id_map@.contains_key(k) {
                    if k == node.id {
                        assert(sorted@[i as int].id == k);
                    } else {
                        assert(map_before.contains_key(k));
                        let j = choose|j: int| 0 <= j < i && (#[trigger] sorted@[j]).id == k;
                        assert(0 <= j < i + 1 && sorted@[j].id == k);
                    }
                }
                if exists|j: int| 0 <= j < i + 1 && (#[trigger] sorted@[j]).id == k {
                    let j = choose|j: int| 0 <= j < i + 1 && (#[trigger] sorted@[j]).id == k;
                    if j < i {
                        assert(0 <= j < i && sorted@[j].id == k);
                        assert(map_before.contains_key(k));
                    }
                }
            }
            assert forall|j: int| 0 <= j < i + 1 implies id_map@[(#[trigger] sorted@[j]).id] == j
                + 1 by {
                if j < i {
                    assert(sorted@[j].id != sorted@[i as int].id);
                    assert(map_before[sorted@[j].id] == j + 1);
                }
            }
        }
        i = i + 1;
    }

    // Always insert the `Cursor` node.
    let id = builder.insert(HistoryItem::Cursor { parent: cursor });
    parents.push((id, cursor));
    let ghost inserted = builder@;
    let ghost want = spec_history_nodes(dealer, sorted@, cursor);

    // Now that all nodes have been assigned IDs, we can set the parents.
    let count = parents.len();
    let mut k: usize = 0;
    while k < count
        invariant
            k <= count,
            count == sorted@.len() + 1,
            count == parents@.len(),
            spec_sorted_nodes_of(sorted@, log@),
            log.wf(),
            log@.closed(),
            cursor is Some ==> log@.nodes.contains_key(cursor.unwrap()),
            builder.wf(),
            root == 0,
            builder@.len() == count + 1,
            want == spec_history_nodes(dealer, sorted@, cursor),
            builder@[0] == want[0],
            forall|j: int| 0 <= j < count ==> (#[trigger] parents@[j]).0 == j + 1,
            forall|j: int|
                0 <= j < sorted@.len() ==> (#[trigger] parents@[j]).1 == sorted@[j].parent,
            parents@[count - 1].1 == cursor,
            forall|j: int| 0 <= j < k ==> (#[trigger] builder@[j + 1]) == want[j + 1],
            forall|j: int|
                k <= j < count ==> (#[trigger] builder@[j + 1]) == (Node {
                    parent: None,
                    ..want[j + 1]
                }),
            forall|key: LogId| #[trigger]
                id_map@.contains_key(key) <==> exists|j: int|
                    0 <= j < sorted@.len() && (#[trigger] sorted@[j]).id == key,
            forall|j: int| 0 <= j < sorted@.len() ==> id_map@[(#[trigger] sorted@[j]).id] == j + 1,
        decreases count - k,
    {
        let (id, parent) = parents[k];
        let ghost before = builder@;
        let place = match parent {
            None => root,
            Some(point) => {
                proof {
                    // The point is a node of the log: the parent of a node,
                    // or what the cursor points to.
                    if k < sorted@.len() {
                        assert(log@.nodes.contains_key(sorted@[k as int].id));
                        assert(log@.nodes[sorted@[k as int].id] == sorted@[k as int]);
                    }
                    assert(log@.nodes.contains_key(point));
                    let j = choose|j: int|
                        0 <= j < sorted@.len() && (#[trigger] sorted@[j]).id == point;
                    assert(id_map@.contains_key(point));
                    lemma_place(sorted@, log@, j);
                }
                *id_map.get(&point).unwrap()
            },
        };
        builder.set_parent(id, place);
        proof {
            assert(builder@[k + 1] == want[k + 1]);
            assert forall|j: int| 0 <= j < k + 1 implies (#[trigger] builder@[j + 1]) == want[j
                + 1] by {
                if j < k {
                    assert(builder@[j + 1] == before[j + 1]);
                }
            }
            assert forall|j: int| k + 1 <= j < count implies (#[trigger] builder@[j + 1]) == (Node {
                parent: None,
                ..want[j + 1]
            }) by {
                assert(builder@[j + 1] == before[j + 1]);
            }
        }
        k = k + 1;
    }
    proof {
        assert(builder@ =~= want);
    }
    builder.build()
}

/// The place of the node at a place of the list of the nodes of a log.
proof fn lemma_place(sorted: Seq<ActionNode>, log: LogView, j: int)
    requires
        spec_sorted_nodes_of(sorted, log),
        0 <= j < sorted.len() < u32::MAX,
    ensures
        spec_place(sorted, Some(sorted[j].id)) == j + 1,
{
    assert(0 <= j < sorted.len() && sorted[j].id == sorted[j].id);
    let found = choose|i: int| 0 <= i < sorted.len() && (#[trigger] sorted[i]).id == sorted[j].id;
    if found < j {
        assert(sorted[found].id != sorted[j].id);
    }
    if j < found {
        assert(sorted[j].id != sorted[found].id);
    }
}

/// The nodes of a log have one list in ascending order of their ids, so
/// the tree of the history is settled by the log and the cursor.
pub proof fn lemma_history_nodes_unique(log: LogView, a: Seq<ActionNode>, b: Seq<ActionNode>)
    requires
        spec_sorted_nodes_of(a, log),
        spec_sorted_nodes_of(b, log),
    ensures
        a == b,
{
    lemma_sorted_nodes_unique(a, b, log.nodes);
}

/// The mark that is drawn before an item of the history, after the marks
/// that it has from the items above it.
pub open spec fn spec_mark(sibling: bool, last_sibling: bool, leaf: bool) -> Seq<char> {
    if last_sibling {
        "╰ "@
    } else if sibling {
        "├ "@
    } else if leaf {
        "╰ "@
    } else {
        "│ "@
    }
}

/// The marks that the items below an item have from it, if any.
pub open spec fn spec_next_base(base: Seq<char>, sibling: bool, last_sibling: bool, leaf: bool) -> Option<
    Seq<char>,
> {
    if last_sibling {
        Some(base + "  "@)
    } else if sibling {
        Some(base + "│ "@)
    } else if leaf {
        None
    } else {
        Some(base)
    }
}

/// A wrapper for attaching a prefix to a list item.
#[derive(Debug)]
pub struct Prefixed<T> {
    prefix: String,
    inner: T,
}

impl<T> Prefixed<T> {
    /// The marks before the item.
    pub closed spec fn spec_prefix(&self) -> Seq<char> {
        self.prefix@
    }

    /// The item.
    pub closed spec fn spec_inner(&self) -> T {
        self.inner
    }

    /// Attaches a prefix to an item.
    pub fn new(prefix: String, inner: T) -> (item: Self)
        ensures
            item.spec_prefix() == prefix@,
            item.spec_inner() == inner,
    {
        Self { prefix, inner }
    }

    /// Returns the item.
    pub fn inner(&self) -> (inner: &T)
        ensures
            *inner == self.spec_inner(),
    {
        &self.inner
    }

    /// Returns the marks before the item.
    pub fn prefix(&self) -> (prefix: &str)
        ensures
            prefix@ == self.spec_prefix(),
    {
        self.prefix.as_str()
    }
}

/// Helper structure for assigning prefixes to nodes in the tree.
pub struct PrefixHelper {
    /// The base prefix for a node, indexed by parent node.
    base: HashMap<LogId, String>,
}

impl View for PrefixHelper {
    type V = Map<LogId, Seq<char>>;

    /// The marks that the items under a node of the log begin with.
    closed spec fn view(&self) -> Map<LogId, Seq<char>> {
        Map::new(|id: LogId| self.base@.contains_key(id), |id: LogId| self.base@[id]@)
    }
}

/// The marks that the items under a point of the log begin with: none
/// where nothing is noted for it.
pub open spec fn spec_base(bases: Map<LogId, Seq<char>>, point: Option<LogId>) -> Seq<char> {
    match point {
        Some(id) => if bases.contains_key(id) {
            bases[id]
        } else {
            Seq::empty()
        },
        None => Seq::empty(),
    }
}

/// The marks before an item that a walk through the tree finds.
pub open spec fn spec_prefix(
    bases: Map<LogId, Seq<char>>,
    item: HistoryItem,
    sibling: bool,
    last_sibling: bool,
    leaf: bool,
) -> Seq<char> {
    match item {
        HistoryItem::Deal { .. } => Seq::empty(),
        _ => spec_base(bases, item.spec_parent()) + spec_mark(sibling, last_sibling, leaf),
    }
}

/// What is noted for the items below, once an item has its marks.
pub open spec fn spec_bases_after(
    bases: Map<LogId, Seq<char>>,
    item: HistoryItem,
    sibling: bool,
    last_sibling: bool,
    leaf: bool,
) -> Map<LogId, Seq<char>> {
    match item {
        HistoryItem::Action { id, parent, .. } => match spec_next_base(
            spec_base(bases, parent),
            sibling,
            last_sibling,
            leaf,
        ) {
            Some(base) => bases.insert(id, base),
            None => bases,
        },
        _ => bases,
    }
}

impl PrefixHelper {
    /// Begins with nothing noted.
    pub fn new() -> (helper: Self)
        ensures
            helper@ == Map::<LogId, Seq<char>>::empty(),
    {
        let helper = PrefixHelper { base: HashMap::new() };
        assert(helper@ =~= Map::<LogId, Seq<char>>::empty());
        helper
    }

    /// Look up the base prefix for a parent node.
    pub fn base(&self, id: Option<LogId>) -> (base: &str)
        ensures
            base@ == spec_base(self@, id),
    {
        match id {
            Some(id) => match self.base.get(&id) {
                Some(s) => s.as_str(),
                None => {
                    proof {
                        reveal_strlit("");
                    }
                    assert(""@ =~= Seq::<char>::empty());
                    ""
                },
            },
            None => {
                proof {
                    reveal_strlit("");
                }
                assert(""@ =~= Seq::<char>::empty());
                ""
            },
        }
    }

    /// Calculate the prefix for a node, and update the base prefix for its children.
    pub fn prefix(&mut self, node: &PreorderNode<'_, HistoryItem>) -> (prefix: String)
        ensures
            prefix@ == spec_prefix(
                old(self)@,
                *node.data,
                node.sibling,
                node.last_sibling,
                node.leaf,
            ),
            final(self)@ == spec_bases_after(
                old(self)@,
                *node.data,
                node.sibling,
                node.last_sibling,
                node.leaf,
            ),
    {
        let (id, parent) = match node.data {
            HistoryItem::Deal { .. } => {
                let prefix = String::new();
                assert(prefix@ =~= Seq::<char>::empty());
                return prefix;
            },
            HistoryItem::Action { id, parent, .. } => (Some(*id), *parent),
            HistoryItem::Cursor { parent } => (None, *parent),
        };
        let base = String::from_str(self.base(parent));
        let (prefix, next_base) = if node.last_sibling {
            (base.clone().concat("╰ "), Some(base.concat("  ")))
        } else if node.sibling {
            (base.clone().concat("├ "), Some(base.concat("│ ")))
        } else if node.leaf {
            (base.concat("╰ "), None)
        } else {
            (base.clone().concat("│ "), Some(base))
        };
        match (id, next_base) {
            (Some(id), Some(base)) => {
                self.base.insert(id, base);
                assert(self@ =~= old(self)@.insert(id, base@));
            },
            _ => {
                assert(self@ =~= old(self)@);
            },
        }
        prefix
    }
}

/// The history of a round as a list of items, each with the marks that
/// draw the tree before it.
#[derive(Debug)]
pub struct History {
    items: Vec<Prefixed<HistoryItem>>,
}

impl View for History {
    type V = Seq<(Seq<char>, HistoryItem)>;

    /// The lines of the history: the marks and the item of each.
    closed spec fn view(&self) -> Seq<(Seq<char>, HistoryItem)> {
        Seq::new(
            self.items@.len(),
            |i: int| (self.items@[i].spec_prefix(), self.items@[i].spec_inner()),
        )
    }
}

/// The lines for the nodes of a tree in the order given, with what is
/// noted so far of the marks that lines begin with.
pub open spec fn spec_lines(
    tree: Seq<Node<HistoryItem>>,
    forest: crate::forest::Forest,
    order: Seq<Id>,
    bases: Map<LogId, Seq<char>>,
) -> Seq<(Seq<char>, HistoryItem)>
    decreases order.len(),
{
    if order.len() == 0 {
        Seq::empty()
    } else {
        let id = order[0];
        let node = tree[id as int];
        let sibling = node.parent is Some && forest.has_siblings(id);
        let last_sibling = node.parent is Some && forest.is_last_sibling(id);
        let leaf = forest.is_leaf(id);
        seq![(spec_prefix(bases, node.data, sibling, last_sibling, leaf), node.data)] + spec_lines(
            tree,
            forest,
            order.drop_first(),
            spec_bases_after(bases, node.data, sibling, last_sibling, leaf),
        )
    }
}

impl History {
    /// Creates the history of a log, with an item for the place of the
    /// cursor: the lines for the nodes of the tree of the history, in
    /// the order of a walk through the tree.
    pub fn new(cursor: Option<LogId>, log: &Log) -> (history: Self)
        requires
            log.wf(),
            log@.closed(),
            cursor is Some ==> log@.nodes.contains_key(cursor.unwrap()),
            log@.nodes.len() + 2 <= u32::MAX,
        ensures
            exists|tree: Tree<HistoryItem>|
                {
                    &&& tree.wf()
                    &&& exists|sorted: Seq<ActionNode>|
                        spec_sorted_nodes_of(sorted, log@) && #[trigger] spec_history_nodes(
                            log@.config.dealer,
                            sorted,
                            cursor,
                        ) == tree@
                    &&& history@ == #[trigger] spec_lines(
                        tree@,
                        tree.forest(),
                        tree.forest().preorder(),
                        Map::empty(),
                    )
                },
    {
        let tree = build_tree(cursor, log);
        let history = History::of_tree(&tree);
        history
    }

    /// Lists the nodes of a tree line by line, in the order of a walk
    /// through the tree.
    pub fn of_tree(tree: &Tree<HistoryItem>) -> (history: Self)
        requires
            tree.wf(),
        ensures
            history@ == spec_lines(tree@, tree.forest(), tree.forest().preorder(), Map::empty()),
    {
        let mut items: Vec<Prefixed<HistoryItem>> = Vec::new();
        let mut helper = PrefixHelper::new();
        let mut walk = tree.preorder();
        let ghost forest = tree.forest();
        let ghost mut visited: Seq<Id> = Seq::empty();
        let ghost mut lines: Seq<(Seq<char>, HistoryItem)> = Seq::empty();
        let ghost all = spec_lines(tree@, forest, forest.preorder(), Map::empty());
        proof {
            tree.lemma_wf();
            forest.lemma_walk_begins();
            forest.lemma_walk_bound(visited, walk@);
            assert(lines + spec_lines(tree@, forest, forest.preorder(), helper@) =~= all);
        }
        loop
            invariant
                tree.wf(),
                walk.wf(),
                walk.spec_tree() == tree,
                forest == tree.forest(),
                forest.wf(),
                forest.parents == crate::tree::spec_parents(tree@),
                forest.walking(visited, walk@),
                visited.len() <= forest.parents.len(),
                forest.preorder() == visited + forest.visits(
                    walk@,
                    (forest.parents.len() - visited.len()) as nat,
                ),
                lines.len() == items@.len(),
                forall|i: int|
                    0 <= i < items@.len() ==> lines[i] == (
                        (#[trigger] items@[i]).spec_prefix(),
                        items@[i].spec_inner(),
                    ),
                all == lines + spec_lines(
                    tree@,
                    forest,
                    forest.visits(walk@, (forest.parents.len() - visited.len()) as nat),
                    helper@,
                ),
            ensures
                all == lines,
            decreases forest.parents.len() - visited.len(),
        {
            let ghost waiting = walk@;
            let ghost bases = helper@;
            let ghost budget = (forest.parents.len() - visited.len()) as nat;
            let node = match walk.next() {
                Some(node) => node,
                None => {
                    proof {
                        assert(forest.visits(waiting, budget) =~= Seq::<Id>::empty());
                        assert(lines + Seq::<(Seq<char>, HistoryItem)>::empty() =~= lines);
                    }
                    break ;
                },
            };
            proof {
                forest.lemma_walk_bound(visited, waiting);
                forest.lemma_walk_step(visited, waiting);
                assert(budget > 0);
                let rest = forest.visits(forest.after_visit(waiting), (budget - 1) as nat);
                assert(forest.visits(waiting, budget) == seq![waiting[0]] + rest);
                assert((seq![waiting[0]] + rest).drop_first() =~= rest);
                assert(visited.push(waiting[0]) + rest =~= visited + forest.visits(
                    waiting,
                    budget,
                ));
            }
            let prefix = helper.prefix(&node);
            let ghost line = (prefix@, *node.data);
            items.push(Prefixed::new(prefix, *node.data));
            proof {
                let rest = forest.visits(forest.after_visit(waiting), (budget - 1) as nat);
                assert(spec_lines(tree@, forest, forest.visits(waiting, budget), bases) == seq![line]
                    + spec_lines(tree@, forest, rest, helper@));
                assert(lines.push(line) + spec_lines(tree@, forest, rest, helper@) =~= lines + (
                seq![line] + spec_lines(tree@, forest, rest, helper@)));
                lines = lines.push(line);
                visited = visited.push(waiting[0]);
                forest.lemma_walk_bound(visited, walk@);
            }
        }
        let history = History { items };
        assert(history@ =~= lines);
        history
    }

    /// Returns the number of lines.
    pub fn len(&self) -> (n: usize)
        ensures
            n == self@.len(),
    {
        self.items.len()
    }

    /// Returns the line at a place.
    pub fn get(&self, index: usize) -> (item: Option<&Prefixed<HistoryItem>>)
        ensures
            match item {
                Some(line) => index < self@.len() && (line.spec_prefix(), line.spec_inner())
                    == self@[index as int],
                None => index >= self@.len(),
            },
    {
        if index < self.items.len() {
            Some(&self.items[index])
        } else {
            None
        }
    }

    /// Returns the index of the cursor item.
    pub fn cursor_position(&self) -> (position: Option<usize>)
        ensures
            match position {
                Some(i) => i < self@.len() && self@[i as int].1 is Cursor && forall|j: int|
                    0 <= j < i ==> !((#[trigger] self@[j]).1 is Cursor),
                None => forall|j: int| 0 <= j < self@.len() ==> !((#[trigger] self@[j]).1 is Cursor),
            },
    {
        let mut i: usize = 0;
        while i < self.items.len()
            invariant
                i <= self.items@.len(),
                forall|j: int| 0 <= j < i ==> !((#[trigger] self@[j]).1 is Cursor),
            decreases self.items@.len() - i,
        {
            if let HistoryItem::Cursor { .. } = self.items[i].inner() {
                return Some(i);
            }
            i = i + 1;
        }
        None
    }

    /// Returns the selected log entry in the history. Note that the log entry pertaining to the
    /// initial deal is `None`, which will be returned as `Some(None)` when selected.
    #[allow(clippy::option_option)]
    pub fn selected(&self, selected: Option<usize>) -> (point: Option<Option<LogId>>)
        ensures
            point == (match selected {
                Some(index) => if index < self@.len() {
                    Some(self@[index as int].1.spec_parent())
                } else {
                    None
                },
                None => None,
            }),
    {
        match selected {
            Some(index) => match self.get(index) {
                Some(item) => Some(item.inner().parent()),
                None => None,
            },
            None => None,
        }
    }

    /// Determines the indexes of the first and last item to be displayed, given the height
    /// of the rendering area, the place from which the list was shown last, and the
    /// line that is selected: the lines from that place on, moved so that the selected
    /// line and the line beside it are among them.
    pub fn get_item_bounds(&self, offset: usize, selected: Option<usize>, height: usize) -> (bounds:
        (usize, usize))
        ensures
            bounds == spec_item_bounds(self@.len() as int, offset as int, selected, height as int),
    {
        let max = self.items.len().saturating_sub(1);
        let delta = height.saturating_sub(1);
        let offset = if offset < max {
            offset
        } else {
            max
        };
        let first = offset;
        let last = if delta > max - offset {
            max
        } else {
            offset + delta
        };
        match selected {
            Some(index) => {
                if index < first + 1 {
                    let first = index.saturating_sub(1);
                    let last = if delta > max - first && first <= max {
                        max
                    } else if first > max {
                        max
                    } else {
                        first + delta
                    };
                    (first, last)
                } else if index >= last {
                    let last = if index >= max {
                        max
                    } else {
                        index + 1
                    };
                    (last.saturating_sub(delta), last)
                } else {
                    (first, last)
                }
            },
            None => (first, last),
        }
    }
}

/// The lesser of two numbers.
pub open spec fn spec_min(a: int, b: int) -> int {
    if a < b {
        a
    } else {
        b
    }
}

/// The difference of two numbers, or zero if it would be less.
pub open spec fn spec_minus(a: int, b: int) -> int {
    if a > b {
        a - b
    } else {
        0
    }
}

/// The first and the last line to show of a list of `len` lines, in an
/// area `height` lines high, where the list was shown from `offset` on
/// before and the line at `selected` is selected.
pub open spec fn spec_item_bounds(len: int, offset: int, selected: Option<usize>, height: int) -> (
    usize,
    usize,
) {
    let max = spec_minus(len, 1);
    let delta = spec_minus(height, 1);
    let offset = spec_min(offset, max);
    let first = offset;
    let last = spec_min(offset + delta, max);
    match selected {
        Some(index) => if index < first + 1 {
            let first = spec_minus(index as int, 1);
            (first as usize, spec_min(first + delta, max) as usize)
        } else if index + 1 > last {
            let last = spec_min(index + 1, max);
            (spec_minus(last, delta) as usize, last as usize)
        } else {
            (first as usize, last as usize)
        },
        None => (first as usize, last as usize),
    }
}

} // verus!
