//! Tree-structured log of actions for a round.

use std::collections::{HashMap, VecDeque};
use itertools::Itertools;
use vstd::prelude::*;
use crate::action::Action;
use crate::config::{RoundConfig, RoundConfigView};
use crate::error::{LogId, RoundError};
use crate::forest::{spec_ascending, Forest};

verus! {

broadcast use vstd::std_specs::hash::group_hash_axioms;

pub type Id = LogId;

/// A node in the tree.
#[derive(Debug, Clone, Copy, PartialEq, Eq, Structural)]
pub struct ActionNode {
    /// The ID for this node.
    pub id: Id,
    /// The parent of this node.
    pub parent: Option<Id>,
    /// The action that this node represents.
    pub action: Action,
}

impl ActionNode {
    /// Creates a new [`ActionNode`].
    pub fn new(id: Id, parent: Option<Id>, action: Action) -> (node: Self)
        ensures
            node == (ActionNode { id, parent, action }),
    {
        Self { id, parent, action }
    }
}

/// A node as a walk through the log finds it.
#[derive(Debug, Clone, Copy, PartialEq, Eq, Structural)]
pub struct TraverseNode {
    /// The ID for this node.
    pub id: Id,
    /// The parent of this node.
    pub parent: Option<Id>,
    /// The action that this node represents.
    pub action: Action,
    /// Set to `true` if the node has other siblings.
    pub sibling: bool,
    /// Set to `true` if the node has other siblings, and this is the last one in the traversal.
    pub last_sibling: bool,
    /// Set to `true` if this node has no children.
    pub leaf: bool,
}

/// The path from a root down to a node, found by going up from the node
/// by at most `fuel` steps. Going up ends well at a node without parent.
/// It fails at the first id that the log does not hold, and at the id at
/// which the steps run out.
pub open spec fn spec_walk(nodes: Map<Id, ActionNode>, id: Id, fuel: nat) -> Result<
    Seq<(Id, Action)>,
    RoundError,
>
    decreases fuel,
{
    if !nodes.contains_key(id) || fuel == 0 {
        Err(RoundError::InvalidLogId(id))
    } else {
        match spec_walk_from(nodes, nodes[id].parent, (fuel - 1) as nat) {
            Ok(path) => Ok(path.push((nodes[id].id, nodes[id].action))),
            Err(e) => Err(e),
        }
    }
}

/// The path from a root down to the point that an optional id names: the
/// empty path for the point after the deal.
pub open spec fn spec_walk_from(nodes: Map<Id, ActionNode>, from: Option<Id>, fuel: nat) -> Result<
    Seq<(Id, Action)>,
    RoundError,
>
    decreases fuel, 1int,
    when fuel >= 0
{
    match from {
        None => Ok(Seq::empty()),
        Some(id) => if !nodes.contains_key(id) || fuel == 0 {
            Err(RoundError::InvalidLogId(id))
        } else {
            match spec_walk_from(nodes, nodes[id].parent, (fuel - 1) as nat) {
                Ok(path) => Ok(path.push((nodes[id].id, nodes[id].action))),
                Err(e) => Err(e),
            }
        },
    }
}

/// The log as plain values.
pub struct LogView {
    /// The initial configuration for the round.
    pub config: RoundConfigView,
    /// The nodes, by their ids.
    pub nodes: Map<Id, ActionNode>,
    /// The ids of the nodes without parent: the actions taken right after
    /// the deal.
    pub roots: Seq<Id>,
    /// The ids of the children of each node that has any.
    pub kids: Map<Id, Seq<Id>>,
    /// The next ID to use when adding a new action to the log.
    pub next_id: int,
}

impl LogView {
    /// The ids of the nodes recorded under a parent, where no parent
    /// stands for the point right after the deal.
    pub open spec fn children_of(self, parent: Option<Id>) -> Seq<Id> {
        match parent {
            None => self.roots,
            Some(p) => if self.kids.contains_key(p) {
                self.kids[p]
            } else {
                Seq::empty()
            },
        }
    }

    /// The first of the given nodes that holds the given action.
    pub open spec fn first_match(self, ids: Seq<Id>, action: Action) -> Option<Id>
        decreases ids.len(),
    {
        if ids.len() == 0 {
            None
        } else if self.nodes[ids[0]].action == action {
            Some(ids[0])
        } else {
            self.first_match(ids.drop_first(), action)
        }
    }

    /// The child of a parent that holds the given action, if there is one.
    pub open spec fn find_child(self, parent: Option<Id>, action: Action) -> Option<Id> {
        self.first_match(self.children_of(parent), action)
    }

    /// The log with one more node, which takes the next id and stands
    /// last among the children of its parent.
    pub open spec fn with_node(self, parent: Option<Id>, action: Action) -> LogView {
        let id = self.next_id as Id;
        LogView {
            nodes: self.nodes.insert(id, ActionNode { id, parent, action }),
            roots: if parent is None {
                self.roots.push(id)
            } else {
                self.roots
            },
            kids: match parent {
                Some(p) => self.kids.insert(p, self.children_of(parent).push(id)),
                None => self.kids,
            },
            next_id: self.next_id + 1,
            ..self
        }
    }

    /// What recording an action under a parent gives: the log and the id
    /// of the node that holds the action. Where a child of the parent
    /// holds the action already, that is the node, and the log is the
    /// same; else the log has one more node.
    pub open spec fn insert(self, parent: Option<Id>, action: Action) -> (LogView, Id) {
        match self.find_child(parent, action) {
            Some(child) => (self, child),
            None => (self.with_node(parent, action), self.next_id as Id),
        }
    }

    /// Whether every parent that a node names is a node of the log.
    pub open spec fn closed(self) -> bool {
        forall|id: Id| #[trigger]
            self.nodes.contains_key(id) && self.nodes[id].parent is Some
                ==> self.nodes.contains_key(self.nodes[id].parent.unwrap())
    }

    /// Whether every node of the log has a path that leads to it from the
    /// deal.
    pub open spec fn all_rooted(self) -> bool {
        forall|id: Id| #[trigger] self.nodes.contains_key(id) ==> self.backtrace(id) is Ok
    }

    /// The path of actions that leads from the deal to a node, each with
    /// the id of its node; an error names the id that is not in the log.
    pub open spec fn backtrace(self, id: Id) -> Result<Seq<(Id, Action)>, RoundError> {
        spec_walk(self.nodes, id, self.nodes.len())
    }

    /// The path of actions that leads from the deal to a point of the
    /// log: the empty path to the point right after the deal.
    pub open spec fn backtrace_from(self, cursor: Option<Id>) -> Result<
        Seq<(Id, Action)>,
        RoundError,
    > {
        match cursor {
            None => Ok(Seq::empty()),
            Some(id) => self.backtrace(id),
        }
    }

    /// The shape of the log: which node hangs under which.
    pub open spec fn forest(self) -> Forest {
        Forest {
            parents: self.nodes.map_values(|node: ActionNode| node.parent),
            roots: self.roots,
            kids: self.kids,
        }
    }

    /// What a walk through the log tells of a node: the node itself,
    /// whether it has siblings, whether it is the last of them, and
    /// whether it has no children. The actions taken right after the deal
    /// are siblings of each other.
    pub open spec fn entry(self, id: Id) -> TraverseNode {
        TraverseNode {
            id,
            parent: self.nodes[id].parent,
            action: self.nodes[id].action,
            sibling: self.forest().has_siblings(id),
            last_sibling: self.forest().is_last_sibling(id),
            leaf: self.forest().is_leaf(id),
        }
    }

    /// The nodes of the log in the order of a walk that begins right
    /// after the deal, follows each action to the end before it turns to
    /// the next, and takes the actions recorded under one point in the
    /// order of their ids.
    pub open spec fn traversal(self) -> Seq<TraverseNode> {
        self.forest().preorder().map_values(|id: Id| self.entry(id))
    }

    /// What holds of every log. Each node is filed under its own id, and
    /// all ids lie below the next id. The children recorded for a parent
    /// are exactly the nodes that name it as their parent, each once, in
    /// ascending order of their ids.
    pub open spec fn wf(self) -> bool {
        &&& self.nodes.dom().finite()
        &&& 0 <= self.next_id <= u32::MAX
        &&& forall|id: Id| #[trigger]
            self.nodes.contains_key(id) ==> self.nodes[id].id == id && id < self.next_id
        &&& forall|parent: Option<Id>, id: Id| #[trigger]
            self.children_of(parent).contains(id) <==> self.nodes.contains_key(id)
                && self.nodes[id].parent == parent
        &&& forall|parent: Option<Id>| spec_ascending(#[trigger] self.children_of(parent))
    }
}

/// The nodes that a list of nodes gives, by their ids: of several nodes
/// with one id the first counts.
pub open spec fn spec_absorb(nodes: Seq<ActionNode>) -> Map<Id, ActionNode>
    decreases nodes.len(),
{
    if nodes.len() == 0 {
        Map::empty()
    } else {
        let before = spec_absorb(nodes.drop_last());
        if before.contains_key(nodes.last().id) {
            before
        } else {
            before.insert(nodes.last().id, nodes.last())
        }
    }
}

/// The greatest id among the given nodes, or zero if there are none.
pub open spec fn spec_max_id(nodes: Seq<ActionNode>) -> int
    decreases nodes.len(),
{
    if nodes.len() == 0 {
        0
    } else {
        let before = spec_max_id(nodes.drop_last());
        if nodes.last().id > before {
            nodes.last().id as int
        } else {
            before
        }
    }
}

/// Whether a list holds exactly the nodes of a log, each once.
pub open spec fn spec_lists(list: Seq<ActionNode>, nodes: Map<Id, ActionNode>) -> bool {
    &&& forall|i: int|
        0 <= i < list.len() ==> nodes.contains_key((#[trigger] list[i]).id) && nodes[list[i].id]
            == list[i]
    &&& forall|i: int, j: int|
        0 <= i < j < list.len() ==> (#[trigger] list[i]).id != (#[trigger] list[j]).id
    &&& forall|id: Id| #[trigger]
        nodes.contains_key(id) ==> exists|i: int| 0 <= i < list.len() && (#[trigger] list[i]).id == id
}

/// Whether nodes stand in ascending order of their ids.
pub open spec fn spec_nodes_sorted(list: Seq<ActionNode>) -> bool {
    forall|i: int, j: int|
        0 <= i < j < list.len() ==> (#[trigger] list[i]).id <= (#[trigger] list[j]).id
}

/// Sorts nodes by their ids with `Itertools::sorted_unstable_by_key`, which
/// collects the nodes and hands them to `slice::sort_unstable_by_key`. Not
/// proved: that the result holds every node as many times as the argument
/// does, in ascending order of the ids.
#[verifier::external_body]
fn sort_nodes_by_id(nodes: Vec<ActionNode>) -> (sorted: Vec<ActionNode>)
    ensures
        sorted@.to_multiset() == nodes@.to_multiset(),
        spec_nodes_sorted(sorted@),
{
    nodes.into_iter().sorted_unstable_by_key(|a| a.id).collect()
}

/// A serializable version of the log.
#[derive(Debug)]
pub struct RawLog {
    /// The initial configuration.
    config: RoundConfig,
    /// An unordered list of nodes in the action tree.
    actions: Vec<ActionNode>,
}

/// The persisted form of a log as plain values.
pub struct RawLogView {
    pub config: RoundConfigView,
    pub actions: Seq<ActionNode>,
}

impl View for RawLog {
    type V = RawLogView;

    closed spec fn view(&self) -> RawLogView {
        RawLogView { config: self.config@, actions: self.actions@ }
    }
}

impl Clone for RawLog {
    fn clone(&self) -> (raw: Self)
        ensures
            raw@ == self@,
    {
        RawLog { config: self.config.clone(), actions: copy_nodes(&self.actions) }
    }
}

/// Copies a list of nodes.
pub fn copy_nodes(nodes: &Vec<ActionNode>) -> (copy: Vec<ActionNode>)
    ensures
        copy@ == nodes@,
{
    let mut copy: Vec<ActionNode> = Vec::new();
    let mut i: usize = 0;
    while i < nodes.len()
        invariant
            i <= nodes.len(),
            copy@ == nodes@.take(i as int),
        decreases nodes.len() - i,
    {
        copy.push(nodes[i]);
        assert(nodes@.take(i + 1) =~= nodes@.take(i as int).push(nodes@[i as int]));
        i = i + 1;
    }
    assert(nodes@.take(i as int) =~= nodes@);
    copy
}

impl RawLog {
    /// Puts together the persisted form of a log from its parts.
    pub fn new(config: RoundConfig, actions: Vec<ActionNode>) -> (raw: Self)
        ensures
            raw@ == (RawLogView { config: config@, actions: actions@ }),
    {
        RawLog { config, actions }
    }

    /// Returns the initial configuration.
    pub fn config(&self) -> (config: &RoundConfig)
        ensures
            config@ == self@.config,
    {
        &self.config
    }

    /// Returns the list of nodes.
    pub fn actions(&self) -> (actions: &Vec<ActionNode>)
        ensures
            actions@ == self@.actions,
    {
        &self.actions
    }

    /// Tells whether a log can be built from the list: the ids leave room
    /// for a next one.
    pub fn fits(&self) -> (ok: bool)
        ensures
            ok == (spec_max_id(self@.actions) < u32::MAX),
    {
        max_id(&self.actions) < u32::MAX
    }

    /// Converts a log to its persisted form: the nodes of the log in
    /// ascending order of their ids.
    pub fn from_log(log: &Log) -> (raw: Self)
        requires
            log.wf(),
        ensures
            raw@.config == log@.config,
            spec_lists(raw@.actions, log@.nodes),
            spec_nodes_sorted(raw@.actions),
            raw@.actions.len() == log@.nodes.len(),
            spec_max_id(raw@.actions) < u32::MAX,
    {
        let raw = RawLog { config: log.config().clone(), actions: log.sorted_nodes() };
        proof {
            log.lemma_wf();
            lemma_lists_fit(log@, raw@.actions);
        }
        raw
    }

    /// Builds the log that the persisted form describes. Of several nodes
    /// with one id the first counts.
    pub fn into_log(self) -> (log: Log)
        requires
            spec_max_id(self@.actions) < u32::MAX,
        ensures
            log.wf(),
            log@.config == self@.config,
            log@.nodes == spec_absorb(self@.actions),
            log@.next_id == spec_max_id(self@.actions) + 1,
    {
        let next_id = max_id(&self.actions) + 1;
        let mut log = Log::new(self.config);
        log.next_id = next_id;
        let mut i: usize = 0;
        assert(self.actions@.take(0) =~= Seq::<ActionNode>::empty());
        while i < self.actions.len()
            invariant
                i <= self.actions.len(),
                log.wf(),
                log@.config == self.config@,
                log@.next_id == spec_max_id(self.actions@) + 1,
                log@.nodes == spec_absorb(self.actions@.take(i as int)),
            decreases self.actions.len() - i,
        {
            let node = self.actions[i];
            proof {
                assert(self.actions@.take(i + 1).drop_last() =~= self.actions@.take(i as int));
                assert(self.actions@.take(i + 1).last() == node);
                lemma_max_id_bounds(self.actions@, i as int);
            }
            if log.get(node.id).is_none() {
                log.absorb(node);
            }
            i = i + 1;
        }
        assert(self.actions@.take(i as int) =~= self.actions@);
        log
    }
}

/// Returns the greatest id among the given nodes, or zero if there are
/// none.
pub fn max_id(nodes: &Vec<ActionNode>) -> (max: Id)
    ensures
        max == spec_max_id(nodes@),
{
    let mut max: Id = 0;
    let mut i: usize = 0;
    assert(nodes@.take(0) =~= Seq::<ActionNode>::empty());
    while i < nodes.len()
        invariant
            i <= nodes.len(),
            max == spec_max_id(nodes@.take(i as int)),
        decreases nodes.len() - i,
    {
        proof {
            assert(nodes@.take(i + 1).drop_last() =~= nodes@.take(i as int));
            assert(nodes@.take(i + 1).last() == nodes@[i as int]);
        }
        if nodes[i].id > max {
            max = nodes[i].id;
        }
        i = i + 1;
    }
    assert(nodes@.take(i as int) =~= nodes@);
    max
}

/// No node of a list has an id above the greatest.
pub proof fn lemma_max_id_bounds(nodes: Seq<ActionNode>, i: int)
    requires
        0 <= i < nodes.len(),
    ensures
        nodes[i].id <= spec_max_id(nodes),
    decreases nodes.len(),
{
    if i < nodes.len() - 1 {
        lemma_max_id_bounds(nodes.drop_last(), i);
    }
}

/// Puts an id at its place among ids in ascending order.
fn insert_sorted(ids: &mut Vec<Id>, id: Id)
    requires
        spec_ascending(old(ids)@),
        !old(ids)@.contains(id),
    ensures
        spec_ascending(final(ids)@),
        forall|v: Id| final(ids)@.contains(v) <==> old(ids)@.contains(v) || v == id,
{
    let mut place: usize = 0;
    while place < ids.len() && ids[place] < id
        invariant
            place <= ids.len(),
            ids@ == old(ids)@,
            forall|j: int| 0 <= j < place ==> ids@[j] < id,
        decreases ids.len() - place,
    {
        place = place + 1;
    }
    ids.insert(place, id);
    proof {
        let before = old(ids)@;
        let after = ids@;
        assert(after == before.insert(place as int, id));
        if place < before.len() {
            assert(before.contains(before[place as int]));
            assert(before[place as int] != id);
        }
        assert forall|v: Id| after.contains(v) <==> before.contains(v) || v == id by {
            if before.contains(v) {
                let k = choose|k: int| 0 <= k < before.len() && before[k] == v;
                if k < place {
                    assert(after[k] == v);
                } else {
                    assert(after[k + 1] == v);
                }
            }
            if v == id {
                assert(after[place as int] == v);
            }
            if after.contains(v) && v != id {
                let k = choose|k: int| 0 <= k < after.len() && after[k] == v;
                if k < place {
                    assert(before[k] == v);
                } else {
                    assert(before[k - 1] == v);
                }
            }
        }
        assert forall|i: int, j: int| 0 <= i < j < after.len() implies after[i] < after[j] by {
            let bi = if i < place { i } else { i - 1 };
            let bj = if j < place { j } else { j - 1 };
            if i != place && j != place {
                assert(before[bi] < before[bj]);
            } else if j == place {
                assert(before[bi] < id);
            } else {
                assert(before[place as int] <= before[bj]) by {
                    if place < bj {
                        assert(before[place as int] < before[bj]);
                    }
                }
            }
        }
    }
}


/// A tree-structured log of actions taken in a round.
#[derive(Debug)]
pub struct Log {
    /// The initial configuration for the round.
    config: RoundConfig,
    /// The nodes in the order they were recorded.
    arena: Vec<ActionNode>,
    /// The place of each node in the arena, indexed by node ID.
    index: HashMap<Id, usize>,
    /// The nodes without parent: the actions taken immediately after the deal.
    roots: Vec<Id>,
    /// A map of children, indexed by the ID of their parent.
    kids: HashMap<Id, Vec<Id>>,
    /// The next ID to use when adding a new action to the log.
    next_id: Id,
}

impl View for Log {
    type V = LogView;

    closed spec fn view(&self) -> LogView {
        LogView {
            config: self.config@,
            nodes: Map::new(
                |id: Id| self.index@.contains_key(id),
                |id: Id| self.arena@[self.index@[id] as int],
            ),
            roots: self.roots@,
            kids: Map::new(|p: Id| self.kids@.contains_key(p), |p: Id| self.kids@[p]@),
            next_id: self.next_id as int,
        }
    }
}

impl Clone for Log {
    fn clone(&self) -> (log: Self)
        ensures
            log@ == self@,
            self.wf() ==> log.wf(),
    {
        let mut roots: Vec<Id> = Vec::new();
        let mut i: usize = 0;
        while i < self.roots.len()
            invariant
                i <= self.roots.len(),
                roots@ == self.roots@.take(i as int),
            decreases self.roots.len() - i,
        {
            roots.push(self.roots[i]);
            assert(self.roots@.take(i + 1) =~= self.roots@.take(i as int).push(
                self.roots@[i as int],
            ));
            i = i + 1;
        }
        assert(self.roots@.take(i as int) =~= self.roots@);
        let log = Log {
            config: self.config.clone(),
            arena: copy_nodes(&self.arena),
            index: self.index.clone(),
            roots,
            kids: self.kids.clone(),
            next_id: self.next_id,
        };
        proof {
            assert(log@.nodes =~= self@.nodes);
            assert(log@.kids =~= self@.kids);
        }
        log
    }
}

impl Log {
    /// The arena and its index agree.
    closed spec fn indexed(&self) -> bool {
        &&& forall|id: Id| #[trigger]
            self.index@.contains_key(id) ==> self.index@[id] < self.arena@.len()
                && self.arena@[self.index@[id] as int].id == id
        &&& forall|i: int|
            0 <= i < self.arena@.len() ==> self.index@.contains_key((#[trigger] self.arena@[i]).id)
                && self.index@[self.arena@[i].id] == i
    }

    /// Whether the log is well formed.
    pub closed spec fn wf(&self) -> bool {
        self.indexed() && self@.wf()
    }

    /// A well-formed log has a well-formed view.
    pub proof fn lemma_wf(&self)
        requires
            self.wf(),
        ensures
            self@.wf(),
    {
    }

    /// The log of a round in which no action was taken yet.
    pub open spec fn spec_new(config: RoundConfigView) -> LogView {
        LogView {
            config,
            nodes: Map::<Id, ActionNode>::empty(),
            roots: Seq::<Id>::empty(),
            kids: Map::<Id, Seq<Id>>::empty(),
            next_id: 0,
        }
    }

    /// Creates a new [`Log`] with the specified initial configuration.
    pub fn new(config: RoundConfig) -> (log: Self)
        ensures
            log.wf(),
            log@ == Log::spec_new(config@),
    {
        let log = Self {
            config,
            arena: Vec::new(),
            index: HashMap::new(),
            roots: Vec::new(),
            kids: HashMap::new(),
            next_id: 0,
        };
        proof {
            assert(log@.nodes =~= Map::<Id, ActionNode>::empty());
            assert(log@.kids =~= Map::<Id, Seq<Id>>::empty());
            assert forall|parent: Option<Id>, id: Id| #[trigger]
                log@.children_of(parent).contains(id) <==> log@.nodes.contains_key(id)
                    && log@.nodes[id].parent == parent by {
                assert(log@.children_of(parent) =~= Seq::<Id>::empty());
            }
        }
        log
    }

    /// Returns an immutable reference to the initial configuration.
    pub fn config(&self) -> (config: &RoundConfig)
        ensures
            config@ == self@.config,
    {
        &self.config
    }

    /// Returns the number of nodes in the log.
    pub fn len(&self) -> (n: usize)
        requires
            self.wf(),
        ensures
            n == self@.nodes.len(),
    {
        assert(self@.nodes.dom() =~= self.index@.dom());
        self.index.len()
    }

    /// Tells whether the log has an id left for a new node.
    pub fn has_room(&self) -> (room: bool)
        ensures
            room == (self@.next_id < u32::MAX),
    {
        self.next_id < u32::MAX
    }

    /// Returns the node with the given id, if the log has one.
    pub fn get(&self, id: Id) -> (node: Option<ActionNode>)
        requires
            self.wf(),
        ensures
            match node {
                Some(n) => self@.nodes.contains_key(id) && n == self@.nodes[id],
                None => !self@.nodes.contains_key(id),
            },
    {
        match self.index.get(&id) {
            Some(place) => Some(self.arena[*place]),
            None => None,
        }
    }

    /// Returns the children recorded for a parent.
    fn children(&self, parent: Option<Id>) -> (ids: Option<&Vec<Id>>)
        ensures
            match ids {
                Some(v) => v@ == self@.children_of(parent),
                None => self@.children_of(parent) == Seq::<Id>::empty(),
            },
    {
        match parent {
            None => Some(&self.roots),
            Some(p) => self.kids.get(&p),
        }
    }

    /// Finds a child of the specified node with a matching action.
    pub fn find_child(&self, parent: Option<Id>, action: &Action) -> (child: Option<Id>)
        requires
            self.wf(),
        ensures
            child == self@.find_child(parent, *action),
    {
        let ids = match self.children(parent) {
            Some(ids) => ids,
            None => {
                return None;
            },
        };
        let mut i: usize = 0;
        assert(ids@.skip(0) =~= ids@);
        while i < ids.len()
            invariant
                self.wf(),
                i <= ids.len(),
                ids@ == self@.children_of(parent),
                self@.first_match(ids@, *action) == self@.first_match(ids@.skip(i as int), *action),
            decreases ids.len() - i,
        {
            let id = ids[i];
            proof {
                assert(ids@.skip(i as int)[0] == id);
                assert(ids@.skip(i as int).drop_first() =~= ids@.skip(i + 1));
                assert(self@.children_of(parent).contains(id));
            }
            match self.get(id) {
                Some(node) => {
                    if node.action == *action {
                        return Some(id);
                    }
                },
                None => {},
            }
            i = i + 1;
        }
        None
    }

    /// Inserts an action into the log. If the same action is present under the same parent, this
    /// function is a no-op.
    pub fn insert(&mut self, parent: Option<Id>, action: Action) -> (id: Id)
        requires
            old(self).wf(),
            old(self)@.next_id < u32::MAX || old(self)@.find_child(parent, action) is Some,
        ensures
            final(self).wf(),
            (final(self)@, id) == old(self)@.insert(parent, action),
    {
        match self.find_child(parent, &action) {
            Some(id) => id,
            None => {
                let id = self.next_id;
                self.next_id = self.next_id + 1;
                let node = ActionNode::new(id, parent, action);
                let place = self.arena.len();
                self.index.insert(id, place);
                self.arena.push(node);
                match parent {
                    None => {
                        self.roots.push(id);
                    },
                    Some(p) => {
                        let mut ids = match self.kids.remove(&p) {
                            Some(ids) => ids,
                            None => Vec::new(),
                        };
                        ids.push(id);
                        self.kids.insert(p, ids);
                    },
                }
                proof {
                    let before = old(self)@;
                    let after = before.with_node(parent, action);
                    assert(self@.nodes =~= after.nodes);
                    assert(self@.kids =~= after.kids);
                    assert(self@ == after);
                    lemma_with_node_wf(before, parent, action);
                    assert forall|i: int| 0 <= i < self.arena@.len() implies self.index@.contains_key(
                        (#[trigger] self.arena@[i]).id,
                    ) && self.index@[self.arena@[i].id] == i by {
                        if i < old(self).arena@.len() {
                            assert(self.arena@[i] == old(self).arena@[i]);
                            assert(before.nodes.contains_key(old(self).arena@[i].id));
                        }
                    }
                    assert forall|k: Id| #[trigger] self.index@.contains_key(k) implies self.index@[k]
                        < self.arena@.len() && self.arena@[self.index@[k] as int].id == k by {
                        if k != id {
                            assert(old(self).index@.contains_key(k));
                        }
                    }
                }
                id
            },
        }
    }

    /// Files a node under its own id, among the children of its parent.
    fn absorb(&mut self, node: ActionNode)
        requires
            old(self).wf(),
            !old(self)@.nodes.contains_key(node.id),
            node.id < old(self)@.next_id,
        ensures
            final(self).wf(),
            final(self)@.nodes == old(self)@.nodes.insert(node.id, node),
            final(self)@.config == old(self)@.config,
            final(self)@.next_id == old(self)@.next_id,
    {
        let place = self.arena.len();
        self.index.insert(node.id, place);
        self.arena.push(node);
        proof {
            assert(!old(self)@.children_of(node.parent).contains(node.id));
            assert(spec_ascending(old(self)@.children_of(node.parent)));
        }
        match node.parent {
            None => {
                insert_sorted(&mut self.roots, node.id);
            },
            Some(p) => {
                let mut ids = match self.kids.remove(&p) {
                    Some(ids) => ids,
                    None => Vec::new(),
                };
                insert_sorted(&mut ids, node.id);
                self.kids.insert(p, ids);
            },
        }
        proof {
            let before = old(self)@;
            let after = self@;
            assert(after.nodes =~= before.nodes.insert(node.id, node));
            assert forall|p: Option<Id>| #[trigger] after.children_of(p) == (if p == node.parent {
                after.children_of(node.parent)
            } else {
                before.children_of(p)
            }) by {}
            assert forall|p: Option<Id>, c: Id| #[trigger]
                after.children_of(p).contains(c) <==> after.nodes.contains_key(c)
                    && after.nodes[c].parent == p by {
                if p != node.parent {
                    assert(after.children_of(p) == before.children_of(p));
                }
            }
            assert forall|p: Option<Id>| spec_ascending(#[trigger] after.children_of(p)) by {
                if p != node.parent {
                    assert(after.children_of(p) == before.children_of(p));
                    assert(spec_ascending(before.children_of(p)));
                }
            }
            assert forall|i: int| 0 <= i < self.arena@.len() implies self.index@.contains_key(
                (#[trigger] self.arena@[i]).id,
            ) && self.index@[self.arena@[i].id] == i by {
                if i < old(self).arena@.len() {
                    assert(self.arena@[i] == old(self).arena@[i]);
                    assert(before.nodes.contains_key(old(self).arena@[i].id));
                }
            }
            assert forall|k: Id| #[trigger] self.index@.contains_key(k) implies self.index@[k]
                < self.arena@.len() && self.arena@[self.index@[k] as int].id == k by {
                if k != node.id {
                    assert(old(self).index@.contains_key(k));
                }
            }
        }
    }

    /// Returns the nodes of the log in ascending order of their ids.
    pub fn sorted_nodes(&self) -> (sorted: Vec<ActionNode>)
        requires
            self.wf(),
        ensures
            spec_lists(sorted@, self@.nodes),
            spec_nodes_sorted(sorted@),
            sorted@.len() == self@.nodes.len(),
    {
        let sorted = sort_nodes_by_id(copy_nodes(&self.arena));
        proof {
            self.lemma_lists();
            lemma_permutation_lists(self.arena@, sorted@, self@.nodes);
        }
        sorted
    }

    /// Tells whether every parent that a node names is a node of the log.
    pub fn is_closed(&self) -> (closed: bool)
        requires
            self.wf(),
        ensures
            closed == self@.closed(),
    {
        let mut i: usize = 0;
        proof {
            self.lemma_lists();
        }
        while i < self.arena.len()
            invariant
                self.wf(),
                i <= self.arena@.len(),
                spec_lists(self.arena@, self@.nodes),
                forall|j: int|
                    0 <= j < i && (#[trigger] self.arena@[j]).parent is Some
                        ==> self@.nodes.contains_key(self.arena@[j].parent.unwrap()),
            decreases self.arena@.len() - i,
        {
            match self.arena[i].parent {
                Some(parent) => {
                    if self.get(parent).is_none() {
                        proof {
                            let id = self.arena@[i as int].id;
                            assert(self@.nodes.contains_key(id));
                            assert(self@.nodes[id] == self.arena@[i as int]);
                        }
                        return false;
                    }
                },
                None => {},
            }
            i = i + 1;
        }
        proof {
            assert forall|id: Id| #[trigger]
                self@.nodes.contains_key(id) && self@.nodes[id].parent is Some implies self@.nodes.contains_key(
                self@.nodes[id].parent.unwrap(),
            ) by {
                let j = choose|j: int|
                    0 <= j < self.arena@.len() && (#[trigger] self.arena@[j]).id == id;
                assert(self@.nodes[self.arena@[j].id] == self.arena@[j]);
            }
        }
        true
    }

    /// Converts the log to its persisted form.
    pub fn into_raw(self) -> (raw: RawLog)
        requires
            self.wf(),
        ensures
            raw@.config == self@.config,
            spec_lists(raw@.actions, self@.nodes),
            spec_nodes_sorted(raw@.actions),
            raw@.actions.len() == self@.nodes.len(),
            spec_max_id(raw@.actions) < u32::MAX,
    {
        RawLog::from_log(&self)
    }

    /// The arena lists the nodes of the log.
    proof fn lemma_lists(&self)
        requires
            self.wf(),
        ensures
            spec_lists(self.arena@, self@.nodes),
            self.arena@.len() == self@.nodes.len(),
    {
        self.lemma_arena_len();
        assert forall|id: Id| #[trigger] self@.nodes.contains_key(id) implies exists|i: int|
            0 <= i < self.arena@.len() && (#[trigger] self.arena@[i]).id == id by {
            let i = self.index@[id] as int;
            assert(self.arena@[i].id == id);
        }
        assert forall|i: int, j: int| 0 <= i < j < self.arena@.len() implies (
        #[trigger] self.arena@[i]).id != (#[trigger] self.arena@[j]).id by {
            assert(self.index@[self.arena@[i].id] == i);
            assert(self.index@[self.arena@[j].id] == j);
        }
    }

    /// Returns a backtrace of actions from the specified ID, back to the very first action.
    pub fn backtrace(&self, id: Id) -> (trace: Result<Vec<(Id, Action)>, RoundError>)
        requires
            self.wf(),
        ensures
            match trace {
                Ok(path) => self@.backtrace(id) == Ok::<Seq<(Id, Action)>, RoundError>(path@),
                Err(e) => self@.backtrace(id) == Err::<Seq<(Id, Action)>, RoundError>(e),
            },
    {
        let mut parent = Some(id);
        let mut trace: Vec<(Id, Action)> = Vec::new();
        let mut fuel = self.len();
        loop
            invariant
                self.wf(),
                fuel <= self@.nodes.len(),
                self@.backtrace(id) == (match spec_walk_from(self@.nodes, parent, fuel as nat) {
                    Ok(path) => Ok::<Seq<(Id, Action)>, RoundError>(path + trace@),
                    Err(e) => Err(e),
                }),
            decreases fuel + (if parent is Some { 1nat } else { 0nat }),
        {
            let current = match parent {
                Some(current) => current,
                None => {
                    assert(Seq::<(Id, Action)>::empty() + trace@ =~= trace@);
                    return Ok(trace);
                },
            };
            if fuel == 0 {
                return Err(RoundError::InvalidLogId(current));
            }
            let node = match self.get(current) {
                Some(node) => node,
                None => {
                    return Err(RoundError::InvalidLogId(current));
                },
            };
            let ghost before = trace@;
            trace.insert(0, (node.id, node.action));
            proof {
                let up = spec_walk_from(self@.nodes, node.parent, (fuel - 1) as nat);
                if up is Ok {
                    assert(up.unwrap().push((node.id, node.action)) + before =~= up.unwrap()
                        + trace@);
                }
            }
            parent = node.parent;
            fuel = fuel - 1;
        }
    }

    /// Walks through the log from the deal on, down each line of play
    /// before the next, and returns the nodes in the order of the walk.
    pub fn traverse(&self) -> (nodes: Vec<TraverseNode>)
        requires
            self.wf(),
        ensures
            nodes@ == self@.traversal(),
    {
        let ghost forest = self@.forest();
        proof {
            self@.lemma_forest();
            forest.lemma_walk_begins();
        }
        let mut nodes: Vec<TraverseNode> = Vec::new();
        let mut queue: VecDeque<Id> = VecDeque::new();
        let mut j = self.roots.len();
        while j > 0
            invariant
                j <= self.roots@.len(),
                queue@ == self.roots@.subrange(j as int, self.roots@.len() as int),
            decreases j,
        {
            j = j - 1;
            queue.push_front(self.roots[j]);
            assert(queue@ =~= self.roots@.subrange(j as int, self.roots@.len() as int));
        }
        assert(queue@ =~= self@.roots);
        let mut budget = self.len();
        let ghost mut visited: Seq<Id> = Seq::empty();
        assert(visited + forest.visits(queue@, budget as nat) =~= forest.preorder());
        assert(Seq::<Id>::empty().map_values(|id: Id| self@.entry(id)) =~= Seq::<
            TraverseNode,
        >::empty());
        while budget > 0 && queue.len() > 0
            invariant
                self.wf(),
                forest == self@.forest(),
                forest.wf(),
                forest.walking(visited, queue@),
                forest.preorder() == visited + forest.visits(queue@, budget as nat),
                nodes@ == visited.map_values(|id: Id| self@.entry(id)),
            decreases budget,
        {
            let ghost waiting = queue@;
            let id = queue.pop_front().unwrap();
            proof {
                self@.lemma_forest();
                assert(waiting.subrange(1, waiting.len() as int) =~= waiting.drop_first());
                assert((visited + waiting)[visited.len() as int] == id);
                assert(self@.nodes.contains_key(id));
                forest.lemma_walk_step(visited, waiting);
            }
            let node = self.get(id).unwrap();
            let (sibling, last_sibling) = match self.children(node.parent) {
                Some(ids) => {
                    if ids.len() > 1 {
                        (true, ids[ids.len() - 1] == id)
                    } else {
                        (false, false)
                    }
                },
                None => (false, false),
            };
            let leaf = match self.children(Some(id)) {
                Some(ids) => {
                    let mut j = ids.len();
                    while j > 0
                        invariant
                            j <= ids@.len(),
                            queue@ == ids@.subrange(j as int, ids@.len() as int)
                                + waiting.drop_first(),
                        decreases j,
                    {
                        j = j - 1;
                        queue.push_front(ids[j]);
                        assert(queue@ =~= ids@.subrange(j as int, ids@.len() as int)
                            + waiting.drop_first());
                    }
                    assert(ids@.subrange(0, ids@.len() as int) =~= ids@);
                    ids.len() == 0
                },
                None => {
                    assert(Seq::<Id>::empty() + waiting.drop_first() =~= waiting.drop_first());
                    true
                },
            };
            nodes.push(
                TraverseNode {
                    id,
                    parent: node.parent,
                    action: node.action,
                    sibling,
                    last_sibling,
                    leaf,
                },
            );
            budget = budget - 1;
            proof {
                assert(queue@ == forest.after_visit(waiting));
                assert(visited.push(id) + forest.visits(queue@, budget as nat) =~= visited
                    + forest.visits(waiting, (budget + 1) as nat));
                assert(visited.push(id).map_values(|id: Id| self@.entry(id)) =~= visited.map_values(
                    |id: Id| self@.entry(id),
                ).push(self@.entry(id)));
                visited = visited.push(id);
            }
        }
        proof {
            forest.lemma_walk_bound(visited, queue@);
            assert(forest.visits(queue@, budget as nat) =~= Seq::<Id>::empty());
            assert(visited + Seq::<Id>::empty() =~= visited);
        }
        nodes
    }

    /// Returns the nodes in the log, in the order they were recorded.
    pub fn action_nodes(&self) -> (nodes: &Vec<ActionNode>)
        requires
            self.wf(),
        ensures
            nodes@.len() == self@.nodes.len(),
            forall|i: int|
                0 <= i < nodes@.len() ==> self@.nodes.contains_key((#[trigger] nodes@[i]).id)
                    && self@.nodes[nodes@[i].id] == nodes@[i],
            forall|i: int, j: int|
                0 <= i < j < nodes@.len() ==> (#[trigger] nodes@[i]).id != (#[trigger] nodes@[j]).id,
    {
        proof {
            self.lemma_arena_len();
        }
        &self.arena
    }

    /// The arena holds as many nodes as the log has ids.
    proof fn lemma_arena_len(&self)
        requires
            self.wf(),
        ensures
            self.arena@.len() == self@.nodes.len(),
    {
        let ids = self.arena@.map_values(|n: ActionNode| n.id);
        assert(ids.no_duplicates()) by {
            assert forall|i: int, j: int| 0 <= i < ids.len() && 0 <= j < ids.len() && i != j implies ids[i]
                != ids[j] by {
                assert(self.index@[self.arena@[i].id] == i);
                assert(self.index@[self.arena@[j].id] == j);
            }
        }
        ids.unique_seq_to_set();
        assert(ids.to_set() =~= self@.nodes.dom()) by {
            assert forall|id: Id| ids.to_set().contains(id) <==> self@.nodes.dom().contains(id) by {
                if ids.to_set().contains(id) {
                    let i = choose|i: int| 0 <= i < ids.len() && ids[i] == id;
                    assert(self.index@.contains_key(self.arena@[i].id));
                }
                if self@.nodes.dom().contains(id) {
                    let i = self.index@[id] as int;
                    assert(ids[i] == id);
                }
            }
        }
    }
}

/// The actions of a path, without the ids.
pub open spec fn spec_actions(path: Seq<(Id, Action)>) -> Seq<Action> {
    path.map_values(|step: (Id, Action)| step.1)
}

/// A path that is found with some number of steps has no more nodes than
/// that, and is found with any number of steps that is no less than its
/// length.
pub proof fn lemma_walk_fuel(nodes: Map<Id, ActionNode>, id: Id, fuel: nat, more: nat)
    requires
        spec_walk(nodes, id, fuel) is Ok,
    ensures
        1 <= spec_walk(nodes, id, fuel).unwrap().len() <= fuel,
        more >= spec_walk(nodes, id, fuel).unwrap().len() ==> spec_walk(nodes, id, more)
            == spec_walk(nodes, id, fuel),
    decreases fuel,
{
    match nodes[id].parent {
        Some(p) => {
            assert(spec_walk_from(nodes, Some(p), (fuel - 1) as nat) == spec_walk(
                nodes,
                p,
                (fuel - 1) as nat,
            ));
            if more >= 1 {
                lemma_walk_fuel(nodes, p, (fuel - 1) as nat, (more - 1) as nat);
                assert(spec_walk_from(nodes, Some(p), (more - 1) as nat) == spec_walk(
                    nodes,
                    p,
                    (more - 1) as nat,
                ));
            } else {
                lemma_walk_fuel(nodes, p, (fuel - 1) as nat, 0);
            }
        },
        None => {},
    }
}

/// Every part of a path from its start is itself the path to the node
/// that it ends with, and that node is in the log under the id that the
/// path gives.
pub proof fn lemma_walk_prefix(nodes: Map<Id, ActionNode>, id: Id, fuel: nat, k: int)
    requires
        forall|x: Id| #[trigger] nodes.contains_key(x) ==> nodes[x].id == x,
        spec_walk(nodes, id, fuel) is Ok,
        0 <= k < spec_walk(nodes, id, fuel).unwrap().len(),
    ensures
        nodes.contains_key(spec_walk(nodes, id, fuel).unwrap()[k].0),
        nodes[spec_walk(nodes, id, fuel).unwrap()[k].0].action == spec_walk(
            nodes,
            id,
            fuel,
        ).unwrap()[k].1,
        spec_walk(nodes, spec_walk(nodes, id, fuel).unwrap()[k].0, (k + 1) as nat) == Ok::<
            Seq<(Id, Action)>,
            RoundError,
        >(spec_walk(nodes, id, fuel).unwrap().take(k + 1)),
        spec_walk(nodes, id, fuel).unwrap().last().0 == id,
    decreases fuel,
{
    let path = spec_walk(nodes, id, fuel).unwrap();
    lemma_walk_fuel(nodes, id, fuel, path.len());
    match nodes[id].parent {
        Some(p) => {
            assert(spec_walk_from(nodes, Some(p), (fuel - 1) as nat) == spec_walk(
                nodes,
                p,
                (fuel - 1) as nat,
            ));
            let up = spec_walk(nodes, p, (fuel - 1) as nat).unwrap();
            assert(path == up.push((id, nodes[id].action)));
            if k < up.len() {
                lemma_walk_prefix(nodes, p, (fuel - 1) as nat, k);
                assert(path.take(k + 1) =~= up.take(k + 1));
                assert(path[k] == up[k]);
            } else {
                assert(path.take(k + 1) =~= path);
            }
        },
        None => {
            assert(spec_walk_from(nodes, None, (fuel - 1) as nat) == Ok::<
                Seq<(Id, Action)>,
                RoundError,
            >(Seq::empty()));
            assert(path =~= seq![(id, nodes[id].action)]);
            assert(path.take(k + 1) =~= path);
        },
    }
}

/// A backtrace is the path from the deal to the node. An id that the log
/// does not hold has none, and the error names the id. A path ends with
/// the node itself and begins with a node without parent, and each node
/// on it after the first is a child of the node before it.
pub proof fn lemma_backtrace_is_path(log: LogView, id: Id)
    requires
        log.wf(),
    ensures
        !log.nodes.contains_key(id) ==> log.backtrace(id) == Err::<Seq<(Id, Action)>, RoundError>(
            RoundError::InvalidLogId(id),
        ),
        match log.backtrace(id) {
            Ok(path) => {
                &&& 1 <= path.len() <= log.nodes.len()
                &&& path.last() == (id, log.nodes[id].action)
                &&& log.nodes[path[0].0].parent is None
                &&& forall|k: int|
                    0 <= k < path.len() ==> log.nodes.contains_key((#[trigger] path[k]).0)
                        && path[k].1 == log.nodes[path[k].0].action
                &&& forall|k: int|
                    1 <= k < path.len() ==> log.nodes[(#[trigger] path[k]).0].parent == Some(
                        path[k - 1].0,
                    )
            },
            Err(e) => e is InvalidLogId,
        },
{
    lemma_walk_error(log.nodes, id, log.nodes.len());
    if log.backtrace(id) is Ok {
        let path = log.backtrace(id).unwrap();
        let full = log.nodes.len();
        lemma_walk_fuel(log.nodes, id, full, full);
        lemma_walk_prefix(log.nodes, id, full, path.len() - 1);
        assert(path.take(path.len() - 1 + 1) =~= path);
        assert forall|k: int| 0 <= k < path.len() implies log.nodes.contains_key(
            (#[trigger] path[k]).0,
        ) && path[k].1 == log.nodes[path[k].0].action by {
            lemma_walk_prefix(log.nodes, id, full, k);
        }
        lemma_walk_links(log.nodes, id, full);
    }
}

/// Going up the parents fails only with the error of an id without node.
pub proof fn lemma_walk_error(nodes: Map<Id, ActionNode>, id: Id, fuel: nat)
    ensures
        match spec_walk(nodes, id, fuel) {
            Ok(_) => true,
            Err(e) => e is InvalidLogId,
        },
    decreases fuel,
{
    if nodes.contains_key(id) && fuel > 0 {
        match nodes[id].parent {
            Some(p) => {
                assert(spec_walk_from(nodes, Some(p), (fuel - 1) as nat) == spec_walk(
                    nodes,
                    p,
                    (fuel - 1) as nat,
                ));
                lemma_walk_error(nodes, p, (fuel - 1) as nat);
            },
            None => {},
        }
    }
}

/// A path begins with a node without parent, and each node on it after
/// the first has the node before it as its parent.
pub proof fn lemma_walk_links(nodes: Map<Id, ActionNode>, id: Id, fuel: nat)
    requires
        forall|x: Id| #[trigger] nodes.contains_key(x) ==> nodes[x].id == x,
        spec_walk(nodes, id, fuel) is Ok,
    ensures
        nodes[spec_walk(nodes, id, fuel).unwrap()[0].0].parent is None,
        forall|k: int|
            1 <= k < spec_walk(nodes, id, fuel).unwrap().len() ==> nodes[(
            #[trigger] spec_walk(nodes, id, fuel).unwrap()[k]).0].parent == Some(
                spec_walk(nodes, id, fuel).unwrap()[k - 1].0,
            ),
    decreases fuel,
{
    let path = spec_walk(nodes, id, fuel).unwrap();
    match nodes[id].parent {
        Some(p) => {
            assert(spec_walk_from(nodes, Some(p), (fuel - 1) as nat) == spec_walk(
                nodes,
                p,
                (fuel - 1) as nat,
            ));
            let up = spec_walk(nodes, p, (fuel - 1) as nat).unwrap();
            lemma_walk_links(nodes, p, (fuel - 1) as nat);
            lemma_walk_fuel(nodes, p, (fuel - 1) as nat, 0);
            lemma_walk_prefix(nodes, p, (fuel - 1) as nat, up.len() - 1);
            assert(path == up.push((id, nodes[id].action)));
            assert forall|k: int| 1 <= k < path.len() implies nodes[(#[trigger] path[k]).0].parent
                == Some(path[k - 1].0) by {
                if k < up.len() {
                    assert(path[k] == up[k]);
                    assert(path[k - 1] == up[k - 1]);
                } else {
                    assert(path[k - 1] == up.last());
                }
            }
            assert(path[0] == up[0]);
        },
        None => {
            assert(spec_walk_from(nodes, None, (fuel - 1) as nat) == Ok::<
                Seq<(Id, Action)>,
                RoundError,
            >(Seq::empty()));
            assert(path =~= seq![(id, nodes[id].action)]);
        },
    }
}

/// No node occurs twice on a path.
pub proof fn lemma_walk_distinct(nodes: Map<Id, ActionNode>, id: Id, fuel: nat, i: int, j: int)
    requires
        forall|x: Id| #[trigger] nodes.contains_key(x) ==> nodes[x].id == x,
        spec_walk(nodes, id, fuel) is Ok,
        0 <= i < j < spec_walk(nodes, id, fuel).unwrap().len(),
    ensures
        spec_walk(nodes, id, fuel).unwrap()[i].0 != spec_walk(nodes, id, fuel).unwrap()[j].0,
{
    let path = spec_walk(nodes, id, fuel).unwrap();
    lemma_walk_prefix(nodes, id, fuel, i);
    lemma_walk_prefix(nodes, id, fuel, j);
    if path[i].0 == path[j].0 {
        let x = path[i].0;
        assert(path.take(i + 1).len() == i + 1);
        lemma_walk_fuel(nodes, x, (i + 1) as nat, (j + 1) as nat);
        assert(path.take(j + 1).len() == j + 1);
    }
}

/// A path that does not pass through some node of the log is found with
/// one step fewer than the log has nodes.
pub proof fn lemma_walk_room(nodes: Map<Id, ActionNode>, id: Id, child: Id)
    requires
        nodes.dom().finite(),
        forall|x: Id| #[trigger] nodes.contains_key(x) ==> nodes[x].id == x,
        spec_walk(nodes, id, nodes.len()) is Ok,
        nodes.contains_key(child),
        nodes[child].parent == Some(id),
    ensures
        nodes.len() >= 1,
        spec_walk(nodes, id, (nodes.len() - 1) as nat) == spec_walk(nodes, id, nodes.len()),
        spec_walk(nodes, child, nodes.len()) == Ok::<Seq<(Id, Action)>, RoundError>(
            spec_walk(nodes, id, nodes.len()).unwrap().push((child, nodes[child].action)),
        ),
{
    let full = nodes.len();
    let path = spec_walk(nodes, id, full).unwrap();
    lemma_walk_fuel(nodes, id, full, full);
    assert(full >= 1);
    if path.len() == full {
        let ids = path.map_values(|step: (Id, Action)| step.0);
        assert(ids.no_duplicates()) by {
            assert forall|i: int, j: int| 0 <= i < ids.len() && 0 <= j < ids.len() && i != j implies ids[i]
                != ids[j] by {
                if i < j {
                    lemma_walk_distinct(nodes, id, full, i, j);
                } else {
                    lemma_walk_distinct(nodes, id, full, j, i);
                }
            }
        }
        ids.unique_seq_to_set();
        assert(ids.to_set().subset_of(nodes.dom())) by {
            assert forall|x: Id| ids.to_set().contains(x) implies nodes.dom().contains(x) by {
                let k = choose|k: int| 0 <= k < ids.len() && ids[k] == x;
                lemma_walk_prefix(nodes, id, full, k);
            }
        }
        vstd::set_lib::lemma_subset_equality(ids.to_set(), nodes.dom());
        assert(ids.to_set().contains(child));
        let k = choose|k: int| 0 <= k < ids.len() && ids[k] == child;
        lemma_walk_prefix(nodes, id, full, k);
        // The child would have two paths of different lengths.
        assert(spec_walk_from(nodes, Some(id), full) == spec_walk(nodes, id, full));
        assert(spec_walk(nodes, child, full + 1) == Ok::<Seq<(Id, Action)>, RoundError>(
            path.push((child, nodes[child].action)),
        ));
        assert(path.take(k + 1).len() == k + 1);
        lemma_walk_fuel(nodes, child, (k + 1) as nat, full + 1);
        assert(false);
    }
    lemma_walk_fuel(nodes, id, full, (full - 1) as nat);
    assert(spec_walk_from(nodes, Some(id), (full - 1) as nat) == spec_walk(
        nodes,
        id,
        (full - 1) as nat,
    ));
}

/// A path stays what it is when a node with a new id joins the log.
pub proof fn lemma_walk_frame(nodes: Map<Id, ActionNode>, node: ActionNode, id: Id, fuel: nat)
    requires
        !nodes.contains_key(node.id),
        spec_walk(nodes, id, fuel) is Ok,
    ensures
        spec_walk(nodes.insert(node.id, node), id, fuel) == spec_walk(nodes, id, fuel),
    decreases fuel,
{
    match nodes[id].parent {
        Some(p) => {
            assert(spec_walk_from(nodes, Some(p), (fuel - 1) as nat) == spec_walk(
                nodes,
                p,
                (fuel - 1) as nat,
            ));
            lemma_walk_frame(nodes, node, p, (fuel - 1) as nat);
            assert(spec_walk_from(nodes.insert(node.id, node), Some(p), (fuel - 1) as nat)
                == spec_walk(nodes.insert(node.id, node), p, (fuel - 1) as nat));
        },
        None => {},
    }
}

impl LogView {
    /// Recording an action under a point of the log that has a path gives
    /// a node whose path is the path of that point and then the action;
    /// and every path that the log had it has still.
    pub proof fn lemma_insert_path(self, parent: Option<Id>, action: Action, after: LogView, id: Id)
        requires
            self.wf(),
            self.backtrace_from(parent) is Ok,
            match self.find_child(parent, action) {
                Some(child) => after == self && id == child,
                None => self.next_id < u32::MAX && after == self.with_node(parent, action) && id
                    == self.next_id,
            },
        ensures
            after.backtrace(id) == Ok::<Seq<(Id, Action)>, RoundError>(
                self.backtrace_from(parent).unwrap().push((id, action)),
            ),
            forall|other: Id|
                self.backtrace(other) is Ok ==> #[trigger] after.backtrace(other) == self.backtrace(
                    other,
                ),
    {
        match self.find_child(parent, action) {
            Some(child) => {
                self.lemma_first_match(self.children_of(parent), action);
                assert(self.children_of(parent).contains(child));
                match parent {
                    Some(p) => {
                        lemma_walk_room(self.nodes, p, child);
                    },
                    None => {
                        assert(self.nodes.dom().contains(child));
                        assert(self.nodes.len() >= 1) by {
                            if self.nodes.len() == 0 {
                                assert(self.nodes.dom() =~= Set::empty());
                            }
                        }
                        assert(spec_walk_from(self.nodes, None, (self.nodes.len() - 1) as nat)
                            == Ok::<Seq<(Id, Action)>, RoundError>(Seq::empty()));
                    },
                }
            },
            None => {
                let node = ActionNode { id, parent, action };
                assert(!self.nodes.contains_key(id));
                assert(after.nodes.len() == self.nodes.len() + 1);
                assert forall|other: Id| self.backtrace(other) is Ok implies #[trigger] after.backtrace(
                    other,
                ) == self.backtrace(other) by {
                    lemma_walk_frame(self.nodes, node, other, self.nodes.len());
                    lemma_walk_fuel(self.nodes, other, self.nodes.len(), self.nodes.len());
                    lemma_walk_fuel(after.nodes, other, self.nodes.len(), after.nodes.len());
                }
                match parent {
                    Some(p) => {
                        lemma_walk_frame(self.nodes, node, p, self.nodes.len());
                        assert(spec_walk_from(after.nodes, Some(p), self.nodes.len()) == spec_walk(
                            after.nodes,
                            p,
                            self.nodes.len(),
                        ));
                    },
                    None => {
                        assert(spec_walk_from(after.nodes, None, self.nodes.len()) == Ok::<
                            Seq<(Id, Action)>,
                            RoundError,
                        >(Seq::empty()));
                    },
                }
            },
        }
    }

    /// The shape of a well-formed log is well formed, and records the
    /// same children.
    pub proof fn lemma_forest(self)
        requires
            self.wf(),
        ensures
            self.forest().wf(),
            self.forest().parents.dom() == self.nodes.dom(),
            self.forest().parents.len() == self.nodes.len(),
            forall|parent: Option<Id>| #[trigger]
                self.forest().children_of(parent) == self.children_of(parent),
    {
        let forest = self.forest();
        assert(forest.parents.dom() =~= self.nodes.dom());
        assert forall|parent: Option<Id>| #[trigger]
            forest.children_of(parent) == self.children_of(parent) by {}
        assert forall|parent: Option<Id>, id: Id| #[trigger]
            forest.children_of(parent).contains(id) <==> forest.parents.contains_key(id)
                && forest.parents[id] == parent by {
            assert(forest.children_of(parent) == self.children_of(parent));
        }
        assert forall|parent: Option<Id>| spec_ascending(#[trigger] forest.children_of(parent)) by {
            assert(forest.children_of(parent) == self.children_of(parent));
        }
    }

    /// The node that is found for an action is one of the nodes searched,
    /// holds the action, and is the first to do so.
    pub proof fn lemma_first_match(self, ids: Seq<Id>, action: Action)
        ensures
            match self.first_match(ids, action) {
                Some(id) => ids.contains(id) && self.nodes[id].action == action,
                None => forall|i: int| 0 <= i < ids.len() ==> self.nodes[ids[i]].action != action,
            },
        decreases ids.len(),
    {
        if ids.len() > 0 {
            self.lemma_first_match(ids.drop_first(), action);
            match self.first_match(ids, action) {
                Some(id) => {
                    if self.nodes[ids[0]].action == action {
                        assert(ids[0] == id);
                    } else {
                        let k = choose|k: int|
                            0 <= k < ids.drop_first().len() && ids.drop_first()[k] == id;
                        assert(ids[k + 1] == id);
                    }
                },
                None => {
                    assert forall|i: int| 0 <= i < ids.len() implies self.nodes[ids[i]].action
                        != action by {
                        if i > 0 {
                            assert(ids.drop_first()[i - 1] == ids[i]);
                        }
                    }
                },
            }
        }
    }
}

/// Where none of some nodes holds an action, a node after them that does
/// is the first to hold it.
pub proof fn lemma_first_match_last(log: LogView, ids: Seq<Id>, id: Id, action: Action)
    requires
        forall|i: int| 0 <= i < ids.len() ==> log.nodes[ids[i]].action != action,
        log.nodes[id].action == action,
    ensures
        log.first_match(ids.push(id), action) == Some(id),
    decreases ids.len(),
{
    if ids.len() > 0 {
        assert(ids.push(id).drop_first() =~= ids.drop_first().push(id));
        assert forall|i: int| 0 <= i < ids.drop_first().len() implies log.nodes[ids.drop_first()[i]].action
            != action by {
            assert(ids.drop_first()[i] == ids[i + 1]);
        }
        lemma_first_match_last(log, ids.drop_first(), id, action);
        assert(ids.push(id)[0] == ids[0]);
    } else {
        assert(ids.push(id)[0] == id);
    }
}

/// An action that is recorded twice under the same parent is held by one
/// node: the second time gives the id of the first and leaves the log as
/// it is, and no node stands twice among the children of the parent.
pub proof fn lemma_insert_twice(log: LogView, parent: Option<Id>, action: Action)
    requires
        log.wf(),
        log.next_id < u32::MAX || log.find_child(parent, action) is Some,
    ensures
        log.insert(parent, action).0.wf(),
        log.insert(parent, action).0.insert(parent, action) == log.insert(parent, action),
        log.insert(parent, action).0.children_of(parent).no_duplicates(),
        log.insert(parent, action).0.nodes[log.insert(parent, action).1] == (ActionNode {
            id: log.insert(parent, action).1,
            parent,
            action,
        }),
{
    let (after, id) = log.insert(parent, action);
    match log.find_child(parent, action) {
        Some(child) => {
            log.lemma_first_match(log.children_of(parent), action);
            assert(log.children_of(parent).contains(child));
        },
        None => {
            lemma_with_node_wf(log, parent, action);
            log.lemma_first_match(log.children_of(parent), action);
            let ids = log.children_of(parent);
            assert(after.children_of(parent) =~= ids.push(id));
            assert forall|i: int| 0 <= i < ids.len() implies after.nodes[ids[i]].action != action by {
                assert(ids.contains(ids[i]));
                assert(log.nodes.contains_key(ids[i]));
            }
            lemma_first_match_last(after, ids, id, action);
        },
    }
    assert(spec_ascending(after.children_of(parent)));
    assert forall|i: int, j: int|
        0 <= i < after.children_of(parent).len() && 0 <= j < after.children_of(parent).len() && i
            != j implies after.children_of(parent)[i] != after.children_of(parent)[j] by {
        if i < j {
            assert(after.children_of(parent)[i] < after.children_of(parent)[j]);
        } else {
            assert(after.children_of(parent)[j] < after.children_of(parent)[i]);
        }
    }
}

/// The log only grows: recording an action leaves every node as it is.
pub proof fn lemma_insert_keeps_nodes(log: LogView, parent: Option<Id>, action: Action, id: Id)
    requires
        log.wf(),
        log.nodes.contains_key(id),
    ensures
        log.insert(parent, action).0.nodes.contains_key(id),
        log.insert(parent, action).0.nodes[id] == log.nodes[id],
        log.insert(parent, action).0.config == log.config,
{
}

/// A node that has a path hangs on the top of the shape of the log.
pub proof fn lemma_walk_rooted(log: LogView, id: Id, fuel: nat)
    requires
        spec_walk(log.nodes, id, fuel) is Ok,
    ensures
        log.forest().rooted(id, fuel),
    decreases fuel,
{
    match log.nodes[id].parent {
        Some(p) => {
            assert(spec_walk_from(log.nodes, Some(p), (fuel - 1) as nat) == spec_walk(
                log.nodes,
                p,
                (fuel - 1) as nat,
            ));
            lemma_walk_rooted(log, p, (fuel - 1) as nat);
        },
        None => {},
    }
}

/// The walk through a log visits only nodes of the log and none of them
/// twice. It visits every node that has a path from the deal: in a log
/// whose nodes all have one, each node exactly once.
pub proof fn lemma_traversal_once(log: LogView)
    requires
        log.wf(),
    ensures
        log.traversal().len() == log.forest().preorder().len(),
        forall|i: int|
            0 <= i < log.traversal().len() ==> (#[trigger] log.traversal()[i]).id
                == log.forest().preorder()[i] && log.nodes.contains_key(log.traversal()[i].id),
        forall|i: int, j: int|
            0 <= i < j < log.traversal().len() ==> (#[trigger] log.traversal()[i]).id != (
            #[trigger] log.traversal()[j]).id,
        forall|id: Id|
            log.backtrace(id) is Ok ==> exists|i: int|
                0 <= i < log.traversal().len() && (#[trigger] log.traversal()[i]).id == id,
        log.all_rooted() ==> log.traversal().len() == log.nodes.len(),
{
    log.lemma_forest();
    let forest = log.forest();
    forest.lemma_preorder();
    let order = forest.preorder();
    assert forall|id: Id| log.backtrace(id) is Ok implies exists|i: int|
        0 <= i < log.traversal().len() && (#[trigger] log.traversal()[i]).id == id by {
        lemma_walk_rooted(log, id, log.nodes.len());
        forest.lemma_preorder_reaches(id, log.nodes.len());
        let i = choose|i: int| 0 <= i < order.len() && order[i] == id;
        assert(log.traversal()[i].id == id);
    }
    if log.all_rooted() {
        assert forall|id: Id| #[trigger] forest.parents.contains_key(id) implies exists|steps: nat|
            forest.rooted(id, steps) by {
            assert(log.nodes.contains_key(id));
            lemma_walk_rooted(log, id, log.nodes.len());
        }
        forest.lemma_preorder_exactly_once();
    }
}

/// Recording an action under a point that has a path keeps a log in
/// which every node has a path such a log.
pub proof fn lemma_insert_keeps_rooted(log: LogView, parent: Option<Id>, action: Action)
    requires
        log.wf(),
        log.all_rooted(),
        log.backtrace_from(parent) is Ok,
        log.next_id < u32::MAX || log.find_child(parent, action) is Some,
    ensures
        log.insert(parent, action).0.all_rooted(),
{
    let (after, id) = log.insert(parent, action);
    log.lemma_insert_path(parent, action, after, id);
    assert forall|other: Id| #[trigger] after.nodes.contains_key(other) implies after.backtrace(
        other,
    ) is Ok by {
        if log.nodes.contains_key(other) {
            assert(log.backtrace(other) is Ok);
            assert(after.backtrace(other) == log.backtrace(other));
        }
    }
}

/// A node added to a well-formed log leaves it well formed.
pub proof fn lemma_with_node_wf(log: LogView, parent: Option<Id>, action: Action)
    requires
        log.wf(),
        log.next_id < u32::MAX,
    ensures
        log.with_node(parent, action).wf(),
{
    let after = log.with_node(parent, action);
    let id = log.next_id as Id;
    assert forall|p: Option<Id>, c: Id| #[trigger]
        after.children_of(p).contains(c) <==> after.nodes.contains_key(c) && after.nodes[c].parent
            == p by {
        if p == parent {
            assert(after.children_of(p) =~= log.children_of(p).push(id));
            if log.children_of(p).contains(c) {
                let i = choose|i: int| 0 <= i < log.children_of(p).len() && log.children_of(p)[i] == c;
                assert(after.children_of(p)[i] == c);
            }
            assert(after.children_of(p)[after.children_of(p).len() - 1] == id);
        } else {
            assert(after.children_of(p) =~= log.children_of(p));
        }
    }
    assert forall|p: Option<Id>| spec_ascending(#[trigger] after.children_of(p)) by {
        if p == parent {
            assert(after.children_of(p) =~= log.children_of(p).push(id));
            assert(spec_ascending(log.children_of(p)));
            assert forall|i: int, j: int| 0 <= i < j < after.children_of(p).len() implies after.children_of(
                p,
            )[i] < after.children_of(p)[j] by {
                assert(log.children_of(p).contains(log.children_of(p)[i]));
            }
        } else {
            assert(after.children_of(p) =~= log.children_of(p));
            assert(spec_ascending(log.children_of(p)));
        }
    }
}

/// A list that holds the same nodes as a list of the nodes of a log, as
/// many times each, lists the nodes of the log too.
pub proof fn lemma_permutation_lists(
    list: Seq<ActionNode>,
    other: Seq<ActionNode>,
    nodes: Map<Id, ActionNode>,
)
    requires
        spec_lists(list, nodes),
        other.to_multiset() == list.to_multiset(),
    ensures
        spec_lists(other, nodes),
        other.len() == list.len(),
{
    broadcast use vstd::seq_lib::group_to_multiset_ensures;

    vstd::seq_lib::to_multiset_len(list);
    vstd::seq_lib::to_multiset_len(other);
    assert forall|i: int| 0 <= i < other.len() implies nodes.contains_key((#[trigger] other[i]).id)
        && nodes[other[i].id] == other[i] by {
        assert(other.to_multiset().count(other[i]) > 0);
        assert(list.to_multiset().count(other[i]) > 0);
        assert(list.contains(other[i]));
        let k = choose|k: int| 0 <= k < list.len() && list[k] == other[i];
        assert(nodes.contains_key(list[k].id));
    }
    assert(list.no_duplicates()) by {
        assert forall|i: int, j: int| 0 <= i < list.len() && 0 <= j < list.len() && i != j implies list[i]
            != list[j] by {
            if i < j {
                assert(list[i].id != list[j].id);
            } else {
                assert(list[j].id != list[i].id);
            }
        }
    }
    list.lemma_multiset_has_no_duplicates();
    other.lemma_multiset_has_no_duplicates_conv();
    assert forall|i: int, j: int| 0 <= i < j < other.len() implies (#[trigger] other[i]).id != (
    #[trigger] other[j]).id by {
        assert(nodes[other[i].id] == other[i]);
        assert(nodes[other[j].id] == other[j]);
        assert(other[i] != other[j]);
    }
    assert forall|id: Id| #[trigger] nodes.contains_key(id) implies exists|i: int|
        0 <= i < other.len() && (#[trigger] other[i]).id == id by {
        let k = choose|k: int| 0 <= k < list.len() && (#[trigger] list[k]).id == id;
        assert(list.to_multiset().count(list[k]) > 0);
        assert(other.to_multiset().count(list[k]) > 0);
        assert(other.contains(list[k]));
        let i = choose|i: int| 0 <= i < other.len() && other[i] == list[k];
        assert(other[i].id == id);
    }
}

/// A list of the nodes of a log gives back exactly those nodes.
pub proof fn lemma_absorb_lists(list: Seq<ActionNode>, nodes: Map<Id, ActionNode>)
    requires
        spec_lists(list, nodes),
    ensures
        spec_absorb(list) == nodes,
{
    lemma_absorb_prefix(list, nodes, list.len() as int);
    assert(list.take(list.len() as int) =~= list);
    let got = spec_absorb(list);
    assert forall|id: Id| got.contains_key(id) <==> nodes.contains_key(id) by {
        if nodes.contains_key(id) {
            let i = choose|i: int| 0 <= i < list.len() && (#[trigger] list[i]).id == id;
            assert(got.contains_key(list[i].id));
        }
    }
    assert(got =~= nodes);
}

/// What the first nodes of a list of the nodes of a log give: those
/// nodes, by their ids.
proof fn lemma_absorb_prefix(list: Seq<ActionNode>, nodes: Map<Id, ActionNode>, n: int)
    requires
        spec_lists(list, nodes),
        0 <= n <= list.len(),
    ensures
        forall|id: Id| #[trigger]
            spec_absorb(list.take(n)).contains_key(id) <==> exists|i: int|
                0 <= i < n && (#[trigger] list[i]).id == id,
        forall|id: Id| #[trigger]
            spec_absorb(list.take(n)).contains_key(id) ==> spec_absorb(list.take(n))[id]
                == nodes[id],
    decreases n,
{
    if n > 0 {
        lemma_absorb_prefix(list, nodes, n - 1);
        assert(list.take(n).drop_last() =~= list.take(n - 1));
        assert(list.take(n).last() == list[n - 1]);
        let before = spec_absorb(list.take(n - 1));
        let after = spec_absorb(list.take(n));
        assert(!before.contains_key(list[n - 1].id)) by {
            if before.contains_key(list[n - 1].id) {
                let i = choose|i: int| 0 <= i < n - 1 && (#[trigger] list[i]).id == list[n - 1].id;
                assert(list[i].id != list[n - 1].id);
            }
        }
        assert(after == before.insert(list[n - 1].id, list[n - 1]));
        assert forall|id: Id| #[trigger] after.contains_key(id) <==> exists|i: int|
            0 <= i < n && (#[trigger] list[i]).id == id by {
            if after.contains_key(id) {
                if id == list[n - 1].id {
                    assert(list[n - 1].id == id);
                } else {
                    assert(before.contains_key(id));
                    let i = choose|i: int| 0 <= i < n - 1 && (#[trigger] list[i]).id == id;
                    assert(0 <= i < n && list[i].id == id);
                }
            }
            if exists|i: int| 0 <= i < n && (#[trigger] list[i]).id == id {
                let i = choose|i: int| 0 <= i < n && (#[trigger] list[i]).id == id;
                if i < n - 1 {
                    assert(0 <= i < n - 1 && list[i].id == id);
                    assert(before.contains_key(id));
                }
            }
        }
    } else {
        assert(list.take(0) =~= Seq::<ActionNode>::empty());
    }
}

/// The nodes of a log have one list in ascending order of their ids: two
/// such lists are the same.
pub proof fn lemma_sorted_nodes_unique(
    a: Seq<ActionNode>,
    b: Seq<ActionNode>,
    nodes: Map<Id, ActionNode>,
)
    requires
        spec_lists(a, nodes),
        spec_lists(b, nodes),
        spec_nodes_sorted(a),
        spec_nodes_sorted(b),
    ensures
        a == b,
{
    let x = a.map_values(|n: ActionNode| n.id);
    let y = b.map_values(|n: ActionNode| n.id);
    assert forall|v: Id| x.contains(v) <==> y.contains(v) by {
        if x.contains(v) {
            let i = choose|i: int| 0 <= i < x.len() && x[i] == v;
            assert(nodes.contains_key(a[i].id));
            let j = choose|j: int| 0 <= j < b.len() && (#[trigger] b[j]).id == v;
            assert(y[j] == v);
        }
        if y.contains(v) {
            let i = choose|i: int| 0 <= i < y.len() && y[i] == v;
            assert(nodes.contains_key(b[i].id));
            let j = choose|j: int| 0 <= j < a.len() && (#[trigger] a[j]).id == v;
            assert(x[j] == v);
        }
    }
    assert(spec_ascending(x)) by {
        assert forall|i: int, j: int| 0 <= i < j < x.len() implies x[i] < x[j] by {
            assert(a[i].id <= a[j].id);
            assert(a[i].id != a[j].id);
        }
    }
    assert(spec_ascending(y)) by {
        assert forall|i: int, j: int| 0 <= i < j < y.len() implies y[i] < y[j] by {
            assert(b[i].id <= b[j].id);
            assert(b[i].id != b[j].id);
        }
    }
    lemma_ascending_unique(x, y);
    assert(a.len() == b.len());
    assert forall|i: int| 0 <= i < a.len() implies a[i] == b[i] by {
        assert(x[i] == y[i]);
        assert(nodes[a[i].id] == a[i]);
        assert(nodes[b[i].id] == b[i]);
    }
    assert(a =~= b);
}

/// Two lists of ids in strictly ascending order that hold the same ids
/// are the same list.
pub proof fn lemma_ascending_unique(x: Seq<Id>, y: Seq<Id>)
    requires
        spec_ascending(x),
        spec_ascending(y),
        forall|v: Id| x.contains(v) <==> y.contains(v),
    ensures
        x == y,
    decreases x.len(),
{
    if x.len() == 0 {
        if y.len() > 0 {
            assert(y.contains(y[0]));
        }
        assert(x =~= y);
    } else {
        assert(x.contains(x.last()));
        assert(y.contains(x.last()));
        assert(y.len() > 0);
        assert(y.contains(y.last()));
        assert(x.contains(y.last()));
        let i = choose|i: int| 0 <= i < y.len() && y[i] == x.last();
        let j = choose|j: int| 0 <= j < x.len() && x[j] == y.last();
        assert(x.last() == y.last()) by {
            if i < y.len() - 1 {
                assert(y[i] < y[y.len() - 1]);
            }
            if j < x.len() - 1 {
                assert(x[j] < x[x.len() - 1]);
            }
        }
        let xs = x.drop_last();
        let ys = y.drop_last();
        assert forall|v: Id| xs.contains(v) <==> ys.contains(v) by {
            if xs.contains(v) {
                let k = choose|k: int| 0 <= k < xs.len() && xs[k] == v;
                assert(x[k] == v);
                assert(x[k] < x[x.len() - 1]);
                assert(x.contains(v));
                let m = choose|m: int| 0 <= m < y.len() && y[m] == v;
                assert(m < y.len() - 1);
                assert(ys[m] == v);
            }
            if ys.contains(v) {
                let k = choose|k: int| 0 <= k < ys.len() && ys[k] == v;
                assert(y[k] == v);
                assert(y[k] < y[y.len() - 1]);
                assert(y.contains(v));
                let m = choose|m: int| 0 <= m < x.len() && x[m] == v;
                assert(m < x.len() - 1);
                assert(xs[m] == v);
            }
        }
        lemma_ascending_unique(xs, ys);
        assert(x =~= xs.push(x.last()));
        assert(y =~= ys.push(y.last()));
    }
}

/// The nodes of a log settle where each stands among the children of its
/// parent: two logs with the same nodes record the same children.
pub proof fn lemma_children_determined(a: LogView, b: LogView, parent: Option<Id>)
    requires
        a.wf(),
        b.wf(),
        a.nodes == b.nodes,
    ensures
        a.children_of(parent) == b.children_of(parent),
{
    assert forall|v: Id| a.children_of(parent).contains(v) <==> b.children_of(parent).contains(
        v,
    ) by {}
    assert(spec_ascending(a.children_of(parent)));
    assert(spec_ascending(b.children_of(parent)));
    lemma_ascending_unique(a.children_of(parent), b.children_of(parent));
}

/// A log that is converted to its persisted form and back holds the same
/// nodes, records the same children under each parent, and gives the same
/// backtrace for every id.
pub proof fn lemma_round_trip(log: LogView, raw: Seq<ActionNode>, back: LogView)
    requires
        log.wf(),
        back.wf(),
        spec_lists(raw, log.nodes),
        back.nodes == spec_absorb(raw),
    ensures
        back.nodes == log.nodes,
        forall|id: Id| back.backtrace(id) == log.backtrace(id),
        forall|parent: Option<Id>| back.children_of(parent) == log.children_of(parent),
        forall|parent: Option<Id>, action: Action|
            back.find_child(parent, action) == log.find_child(parent, action),
{
    lemma_absorb_lists(raw, log.nodes);
    assert forall|parent: Option<Id>| back.children_of(parent) == log.children_of(parent) by {
        lemma_children_determined(back, log, parent);
    }
    assert forall|parent: Option<Id>, action: Action|
        back.find_child(parent, action) == log.find_child(parent, action) by {
        lemma_children_determined(back, log, parent);
        lemma_first_match_by_nodes(back, log, log.children_of(parent), action);
    }
}

/// Which node holds an action first depends on the nodes alone.
pub proof fn lemma_first_match_by_nodes(a: LogView, b: LogView, ids: Seq<Id>, action: Action)
    requires
        a.nodes == b.nodes,
    ensures
        a.first_match(ids, action) == b.first_match(ids, action),
    decreases ids.len(),
{
    if ids.len() > 0 {
        lemma_first_match_by_nodes(a, b, ids.drop_first(), action);
    }
}

/// The ids of a list of the nodes of a log stay below the next id of the
/// log, so the list can be made a log again.
pub proof fn lemma_lists_fit(log: LogView, raw: Seq<ActionNode>)
    requires
        log.wf(),
        spec_lists(raw, log.nodes),
    ensures
        spec_max_id(raw) < u32::MAX,
        spec_max_id(raw) + 1 <= log.next_id || raw.len() == 0,
{
    if raw.len() > 0 {
        assert(log.nodes.contains_key(raw[raw.len() - 1].id));
        lemma_max_id_below(raw, log.next_id);
    }
}

/// Where every id of a list lies below a bound, so does the greatest.
pub proof fn lemma_max_id_below(raw: Seq<ActionNode>, bound: int)
    requires
        raw.len() > 0,
        forall|i: int| 0 <= i < raw.len() ==> (#[trigger] raw[i]).id < bound,
    ensures
        spec_max_id(raw) < bound,
    decreases raw.len(),
{
    if raw.len() > 1 {
        assert forall|i: int| 0 <= i < raw.drop_last().len() implies (#[trigger] raw.drop_last()[i]).id
            < bound by {
            assert(raw.drop_last()[i] == raw[i]);
        }
        lemma_max_id_below(raw.drop_last(), bound);
        assert(raw.last() == raw[raw.len() - 1]);
    } else {
        assert(raw.drop_last().len() == 0);
        assert(spec_max_id(raw.drop_last()) == 0);
        assert(raw.last() == raw[0]);
    }
}

} // verus!
