use crate::label::Label;
use crate::model::{
    lemma_add_wf, lemma_connect_wf, lemma_disconnect_wf, lemma_remove_wf, lemma_restrict_wf,
    GraphView, NodeView,
};
use crate::seqs::{lemma_push_facts, lemma_without, lemma_without_contains, within, without};
use std::collections::HashMap;
use vstd::prelude::*;

verus! {

/// A node: its label and its outgoing edges, each the key of the node it
/// points at and a weight.
#[derive(Debug, Clone, PartialEq)]
pub struct Node<T> {
    pub label: T,
    pub(crate) edges: Vec<(u64, i64)>,
}

impl<T> View for Node<T> {
    type V = NodeView<T>;

    closed spec fn view(&self) -> NodeView<T> {
        NodeView { label: self.label, targets: self.edges@.map_values(|e: (u64, i64)| e.0) }
    }
}

impl<T> Node<T> {
    /// No two edges point at one key, and every edge weighs 1.
    pub closed spec fn wf(&self) -> bool {
        &&& self@.targets.no_duplicates()
        &&& forall|i: int| 0 <= i < self.edges@.len() ==> (#[trigger] self.edges@[i]).1 == 1
    }

    /// A node without edges.
    pub(crate) fn fresh(label: T) -> (node: Self)
        ensures
            node.wf(),
            node@ == (NodeView { label, targets: Seq::empty() }),
    {
        let node = Node { label, edges: Vec::new() };
        assert(node@.targets =~= Seq::empty());
        node
    }

    /// The label of this node.
    pub(crate) fn name(&self) -> (label: &T)
        ensures
            *label == self@.label,
    {
        &self.label
    }

    /// The number of outgoing edges.
    pub(crate) fn degree(&self) -> (n: usize)
        ensures
            n == self@.targets.len(),
    {
        self.edges.len()
    }

    /// The key that the `i`-th edge points at.
    pub(crate) fn target(&self, i: usize) -> (k: u64)
        requires
            i < self@.targets.len(),
        ensures
            k == self@.targets[i as int],
    {
        self.edges[i].0
    }

    /// Where among the edges the one to `key` stands.
    fn position(&self, key: u64) -> (at: Option<usize>)
        ensures
            match at {
                Some(i) => i < self@.targets.len() && self@.targets[i as int] == key,
                None => !self@.targets.contains(key),
            },
    {
        let mut i: usize = 0;
        while i < self.edges.len()
            invariant
                i <= self.edges.len(),
                forall|j: int| 0 <= j < i ==> self@.targets[j] != key,
            decreases self.edges.len() - i,
        {
            if self.edges[i].0 == key {
                return Some(i);
            }
            i += 1;
        }
        None
    }

    /// Whether an edge points at `key`.
    pub(crate) fn points_at(&self, key: u64) -> (found: bool)
        ensures
            found == self@.targets.contains(key),
    {
        self.position(key).is_some()
    }

    /// Adds an edge to `key` unless there is one.
    pub(crate) fn link(&mut self, key: u64)
        requires
            old(self).wf(),
        ensures
            final(self).wf(),
            final(self)@.label == old(self)@.label,
            final(self)@.targets == if old(self)@.targets.contains(key) {
                old(self)@.targets
            } else {
                old(self)@.targets.push(key)
            },
    {
        if self.position(key).is_none() {
            self.edges.push((key, 1));
            assert(self@.targets =~= old(self)@.targets.push(key));
        }
    }

    /// Drops the edge to `key` if there is one.
    pub(crate) fn unlink(&mut self, key: u64)
        requires
            old(self).wf(),
        ensures
            final(self).wf(),
            final(self)@.label == old(self)@.label,
            final(self)@.targets == without(old(self)@.targets, key),
    {
        match self.position(key) {
            Some(i) => {
                proof {
                    lemma_without(self@.targets, i as int);
                }
                self.edges.remove(i);
                assert(self@.targets =~= old(self)@.targets.remove(i as int));
            },
            None => {},
        }
    }
}

impl<T: Label> Node<T> {
    /// Whether this node has an edge to the node of `to`.
    pub fn is_adjacent_to(&self, to: &T) -> (found: bool)
        ensures
            found == self@.targets.contains(to.key()),
    {
        let target = to.hash();
        self.points_at(target)
    }

    /// Gives this node an edge of weight 1 to the node of `to`, unless it has
    /// one.
    pub fn connect_to(&mut self, to: &T)
        requires
            old(self).wf(),
        ensures
            final(self).wf(),
            final(self)@.label == old(self)@.label,
            final(self)@.targets == if old(self)@.targets.contains(to.key()) {
                old(self)@.targets
            } else {
                old(self)@.targets.push(to.key())
            },
    {
        let target = to.hash();
        self.link(target);
    }

    /// Takes from this node its edge to the node of `from`, if it has one.
    pub fn disconnect_from(&mut self, from: &T)
        requires
            old(self).wf(),
        ensures
            final(self).wf(),
            final(self)@.label == old(self)@.label,
            final(self)@.targets == without(old(self)@.targets, from.key()),
    {
        let target = from.hash();
        self.unlink(target);
    }
}

/// A directed graph without cycles. Its nodes are found by the keys of their
/// labels and listed in the order in which they were added.
#[derive(Debug, Clone, PartialEq)]
pub struct Graph<T> {
    pub(crate) nodes: HashMap<u64, Node<T>>,
    pub(crate) order: Vec<u64>,
}

impl<T> View for Graph<T> {
    type V = GraphView<T>;

    closed spec fn view(&self) -> GraphView<T> {
        GraphView { order: self.order@, nodes: self.nodes@.map_values(|n: Node<T>| n@) }
    }
}

/// The keys that have the tag `tag`.
pub open spec fn with_tag(tags: Map<u64, u64>, tag: u64) -> Set<u64> {
    Set::new(|k: u64| tags.contains_key(k) && tags[k] == tag)
}

/// The keys that have another tag than `tag`, or none.
pub open spec fn without_tag(tags: Map<u64, u64>, tag: u64) -> Set<u64> {
    Set::new(|k: u64| !(tags.contains_key(k) && tags[k] == tag))
}

/// The graph `g` after each label of `labels` was added, first to last.
pub open spec fn grown<T: Label>(g: GraphView<T>, labels: Seq<T>) -> GraphView<T>
    decreases labels.len(),
{
    if labels.len() == 0 {
        g
    } else {
        grown(g, labels.drop_last()).add(labels.last())
    }
}

/// The graph that `add` builds from the labels of `labels`, first to last.
pub open spec fn built<T: Label>(labels: Seq<T>) -> GraphView<T> {
    grown(GraphView::empty(), labels)
}

/// The graph `g` after an edge was tried for each pair of keys, first to
/// last, and made where it was accepted.
pub open spec fn linked<T>(g: GraphView<T>, pairs: Seq<(u64, u64)>) -> GraphView<T>
    decreases pairs.len(),
{
    if pairs.len() == 0 {
        g
    } else {
        let before = linked(g, pairs.drop_last());
        let (a, b) = pairs.last();
        if before.accepts(a, b) {
            before.connect(a, b)
        } else {
            before
        }
    }
}

impl<T: Label> Default for Graph<T> {
    fn default() -> (graph: Self)
        ensures
            graph.wf(),
            graph@ == GraphView::<T>::empty(),
    {
        Graph::new()
    }
}

impl<T> Graph<T> {
    /// Every node of the graph is well formed.
    pub closed spec fn nodes_wf(&self) -> bool {
        forall|k: u64| #[trigger] self.nodes@.contains_key(k) ==> self.nodes@[k].wf()
    }
}

impl<T: Label> Graph<T> {
    /// The invariant of the store.
    pub open spec fn wf(&self) -> bool {
        self@.wf() && self.nodes_wf()
    }

    /// A graph without nodes.
    pub fn new() -> (graph: Self)
        ensures
            graph.wf(),
            graph@ == GraphView::<T>::empty(),
    {
        let graph = Graph { nodes: HashMap::new(), order: Vec::new() };
        assert(graph@.nodes =~= Map::empty());
        assert forall|p: Seq<u64>| #[trigger] graph@.is_path(p) && p.len() >= 2 implies p[0]
            != p.last() by {}
        graph
    }

    /// A graph with a node for each of `labels`, added first to last.
    pub fn init(labels: Vec<T>) -> (graph: Self)
        ensures
            graph.wf(),
            graph@ == built(labels@),
    {
        let mut graph = Self::new();
        graph.extend(labels);
        graph
    }

    /// Adds a node for each of `labels`, first to last.
    pub fn extend(&mut self, labels: Vec<T>)
        requires
            old(self).wf(),
        ensures
            final(self).wf(),
            final(self)@ == grown(old(self)@, labels@),
    {
        let mut rest = labels;
        let ghost all = rest@;
        let mut taken: Vec<T> = Vec::new();
        // Labels can only be moved out from the back: they are turned round
        // first, so that they are added front to back.
        while rest.len() > 0
            invariant
                rest@.len() + taken@.len() == all.len(),
                forall|i: int| 0 <= i < rest@.len() ==> rest@[i] == all[i],
                forall|i: int| 0 <= i < taken@.len() ==> taken@[i] == all[all.len() - 1 - i],
            decreases rest.len(),
        {
            let label = rest.pop().unwrap();
            taken.push(label);
        }
        let ghost mut done: Seq<T> = Seq::empty();
        while taken.len() > 0
            invariant
                self.wf(),
                self@ == grown(old(self)@, done),
                done.len() + taken@.len() == all.len(),
                forall|i: int| 0 <= i < done.len() ==> done[i] == all[i],
                forall|i: int| 0 <= i < taken@.len() ==> taken@[i] == all[all.len() - 1 - i],
            decreases taken.len(),
        {
            let label = taken.pop().unwrap();
            proof {
                let next = done.push(label);
                assert(next.drop_last() =~= done);
                done = next;
            }
            self.add(label);
        }
        assert(done =~= all);
    }

    /// Tries an edge for each pair of labels, first to last, from the node
    /// of the first label to the node of the second, and passes over the
    /// pairs for which `connect` makes none.
    pub fn extend_edges(&mut self, edges: &Vec<(&T, &T)>)
        requires
            old(self).wf(),
        ensures
            final(self).wf(),
            final(self)@ == linked(
                old(self)@,
                edges@.map_values(|e: (&T, &T)| (e.0.key(), e.1.key())),
            ),
    {
        let ghost pairs = edges@.map_values(|e: (&T, &T)| (e.0.key(), e.1.key()));
        let mut i: usize = 0;
        while i < edges.len()
            invariant
                self.wf(),
                i <= edges@.len(),
                pairs == edges@.map_values(|e: (&T, &T)| (e.0.key(), e.1.key())),
                self@ == linked(old(self)@, pairs.take(i as int)),
            decreases edges@.len() - i,
        {
            proof {
                assert(pairs.take(i + 1).drop_last() =~= pairs.take(i as int));
            }
            let (from, to) = edges[i];
            self.connect(from, to);
            i += 1;
        }
        assert(pairs.take(i as int) =~= pairs);
    }

    /// The node under `key`, if there is one.
    pub(crate) fn node(&self, key: u64) -> (found: Option<&Node<T>>)
        ensures
            match found {
                Some(node) => self@.contains(key) && node@ == self@.nodes[key] && (self.wf()
                    ==> node.wf()),
                None => !self@.contains(key),
            },
    {
        self.nodes.get(&key)
    }

    /// The number of nodes.
    pub(crate) fn count(&self) -> (n: usize)
        ensures
            n == self@.order.len(),
    {
        self.order.len()
    }

    /// The key of the node that was added `i`-th among those still there.
    pub(crate) fn key_at(&self, i: usize) -> (key: u64)
        requires
            i < self@.order.len(),
        ensures
            key == self@.order[i as int],
    {
        self.order[i]
    }

    /// The node of `label`, if there is one.
    pub fn get(&self, label: &T) -> (found: Option<&Node<T>>)
        ensures
            match found {
                Some(node) => self@.contains(label.key()) && node@ == self@.nodes[label.key()]
                    && (self.wf() ==> node.wf()),
                None => !self@.contains(label.key()),
            },
    {
        let key = label.hash();
        self.node(key)
    }

    /// Puts a node without edges under the key of `label`. A node that stood
    /// under the same key is replaced, and its edges are gone with it.
    pub fn add(&mut self, label: T)
        requires
            old(self).wf(),
        ensures
            final(self).wf(),
            final(self)@ == old(self)@.add(label),
    {
        let key = label.hash();
        let node = Node::fresh(label);
        proof {
            lemma_add_wf(self@, label);
        }
        if self.nodes.insert(key, node).is_none() {
            self.order.push(key);
        }
        assert(self@.nodes =~= old(self)@.add(label).nodes);
    }

    /// Whether the node of `from` has an edge to the node of `to`.
    pub fn is_adjacent(&self, from: &T, to: &T) -> (found: bool)
        ensures
            found == self@.has_edge(from.key(), to.key()),
    {
        match self.get(from) {
            Some(node) => node.is_adjacent_to(to),
            None => false,
        }
    }

    /// The labels of the nodes that the node of `label` has edges to, in the
    /// order of its edges; `None` where `label` has no node.
    pub fn get_adjacent(&self, label: &T) -> (found: Option<Vec<&T>>)
        requires
            self.wf(),
        ensures
            match found {
                Some(labels) => {
                    let targets = self@.nodes[label.key()].targets;
                    &&& self@.contains(label.key())
                    &&& labels@.len() == targets.len()
                    &&& forall|i: int|
                        0 <= i < targets.len() ==> *(#[trigger] labels@[i])
                            == self@.nodes[targets[i]].label
                },
                None => !self@.contains(label.key()),
            },
    {
        let node = match self.get(label) {
            Some(node) => node,
            None => return None,
        };
        let mut labels: Vec<&T> = Vec::new();
        let mut i: usize = 0;
        while i < node.degree()
            invariant
                self.wf(),
                self@.contains(label.key()),
                node@ == self@.nodes[label.key()],
                i <= node@.targets.len(),
                labels@.len() == i,
                forall|j: int|
                    0 <= j < i ==> *(#[trigger] labels@[j]) == self@.nodes[node@.targets[j]].label,
            decreases node@.targets.len() - i,
        {
            let key = node.target(i);
            assert(self@.has_edge(label.key(), key));
            match self.node(key) {
                Some(other) => labels.push(other.name()),
                None => {},
            }
            i += 1;
        }
        Some(labels)
    }

    /// Takes the node under `key` out of the map, changes it and puts it back.
    fn unlink_at(&mut self, at: u64, key: u64)
        requires
            old(self).nodes_wf(),
        ensures
            final(self).nodes_wf(),
            final(self)@.order == old(self)@.order,
            final(self)@.nodes == if old(self)@.contains(at) {
                old(self)@.nodes.insert(
                    at,
                    NodeView {
                        label: old(self)@.nodes[at].label,
                        targets: without(old(self)@.nodes[at].targets, key),
                    },
                )
            } else {
                old(self)@.nodes
            },
    {
        match self.nodes.remove(&at) {
            Some(node) => {
                let mut node = node;
                node.unlink(key);
                self.nodes.insert(at, node);
                assert(self@.nodes =~= old(self)@.nodes.insert(
                    at,
                    NodeView {
                        label: old(self)@.nodes[at].label,
                        targets: without(old(self)@.nodes[at].targets, key),
                    },
                ));
            },
            None => {
                assert(self@.nodes =~= old(self)@.nodes);
            },
        }
    }

    /// Takes the node under `at` out of the map, gives it an edge to `key`
    /// and puts it back.
    fn link_at(&mut self, at: u64, key: u64)
        requires
            old(self).nodes_wf(),
            old(self)@.contains(at),
        ensures
            final(self).nodes_wf(),
            final(self)@ == old(self)@.connect(at, key),
    {
        match self.nodes.remove(&at) {
            Some(node) => {
                let mut node = node;
                node.link(key);
                self.nodes.insert(at, node);
                assert(self@.nodes =~= old(self)@.connect(at, key).nodes);
            },
            None => {},
        }
    }

    /// Gives the node of `from` an edge of weight 1 to the node of `to`, and
    /// says whether it did. It does not where one of the two has no node,
    /// where they are one node, or where the node of `to` already reaches
    /// the node of `from`, so that the edge would close a cycle.
    pub fn connect(&mut self, from: &T, to: &T) -> (accepted: bool)
        requires
            old(self).wf(),
        ensures
            final(self).wf(),
            accepted == old(self)@.accepts(from.key(), to.key()),
            from.key() == to.key() ==> !accepted,
            old(self)@.reaches(to.key(), from.key()) ==> !accepted,
            final(self)@ == if accepted {
                old(self)@.connect(from.key(), to.key())
            } else {
                old(self)@
            },
    {
        let a = from.hash();
        let b = to.hash();
        if a == b {
            return false;
        }
        if self.node(a).is_none() || self.node(b).is_none() {
            return false;
        }
        if self.finds(b, a) {
            false
        } else {
            proof {
                lemma_connect_wf(self@, a, b);
            }
            self.link_at(a, b);
            true
        }
    }

    /// Takes away the edge from the node of `from` to the node of `to`, and
    /// says whether there was one.
    pub fn disconnect(&mut self, from: &T, to: &T) -> (removed: bool)
        requires
            old(self).wf(),
        ensures
            final(self).wf(),
            removed == old(self)@.has_edge(from.key(), to.key()),
            final(self)@ == old(self)@.disconnect(from.key(), to.key()),
    {
        let a = from.hash();
        let b = to.hash();
        let present = match self.node(a) {
            Some(node) => node.points_at(b),
            None => false,
        };
        if present {
            proof {
                lemma_disconnect_wf(self@, a, b);
            }
            self.unlink_at(a, b);
            assert(self@ == old(self)@.disconnect(a, b));
        }
        present
    }

    /// Takes the node of `label` out of the graph, with every edge that
    /// points at it, and hands it back; `None` where `label` has no node.
    pub fn remove(&mut self, label: &T) -> (removed: Option<Node<T>>)
        requires
            old(self).wf(),
        ensures
            final(self).wf(),
            match removed {
                Some(node) => {
                    &&& old(self)@.contains(label.key())
                    &&& node@ == old(self)@.nodes[label.key()]
                    &&& node.wf()
                    &&& final(self)@ == old(self)@.remove(label.key())
                },
                None => !old(self)@.contains(label.key()) && final(self)@ == old(self)@,
            },
    {
        let key = label.hash();
        let node = match self.nodes.remove(&key) {
            Some(node) => node,
            None => {
                assert(self@.nodes =~= old(self)@.nodes);
                return None;
            },
        };
        let ghost before = old(self)@;
        proof {
            lemma_remove_wf(before, key);
            lemma_without_contains(before.order, key);
            assert(before.order.contains(key));
        }
        let mut at: usize = 0;
        while at < self.order.len() && self.order[at] != key
            invariant
                self.order@ == before.order,
                at <= self.order@.len(),
                forall|j: int| 0 <= j < at ==> self.order@[j] != key,
            decreases self.order@.len() - at,
        {
            at += 1;
        }
        if at < self.order.len() {
            proof {
                lemma_without(before.order, at as int);
            }
            self.order.remove(at);
        }
        assert(self@.nodes =~= before.nodes.remove(key));
        let mut i: usize = 0;
        while i < self.order.len()
            invariant
                before.wf(),
                self.nodes_wf(),
                i <= self.order@.len(),
                self.order@ == without(before.order, key),
                forall|k: u64| #[trigger]
                    self@.nodes.contains_key(k) <==> before.nodes.contains_key(k) && k != key,
                forall|k: u64| #[trigger]
                    self.order@.contains(k) <==> before.nodes.contains_key(k) && k != key,
                forall|j: int|
                    0 <= j < i ==> self@.nodes[#[trigger] self.order@[j]] == (NodeView {
                        label: before.nodes[self.order@[j]].label,
                        targets: without(before.nodes[self.order@[j]].targets, key),
                    }),
                forall|j: int|
                    i <= j < self.order@.len() ==> self@.nodes[#[trigger] self.order@[j]]
                        == before.nodes[self.order@[j]],
            decreases self.order@.len() - i,
        {
            let k = self.order[i];
            let ghost prev = self@;
            assert(self.order@.contains(k));
            self.unlink_at(k, key);
            proof {
                lemma_without_contains(before.order, key);
                assert forall|j: int| 0 <= j < i + 1 implies self@.nodes[#[trigger] self.order@[j]]
                    == (NodeView {
                    label: before.nodes[self.order@[j]].label,
                    targets: without(before.nodes[self.order@[j]].targets, key),
                }) by {
                    if j < i {
                        assert(prev.nodes[self.order@[j]] == self@.nodes[self.order@[j]]);
                    }
                }
                assert forall|j: int| i + 1 <= j < self.order@.len() implies self@.nodes[
                #[trigger] self.order@[j]] == before.nodes[self.order@[j]] by {
                    assert(prev.nodes[self.order@[j]] == self@.nodes[self.order@[j]]);
                }
            }
            i += 1;
        }
        proof {
            let after = before.remove(key);
            assert forall|k: u64| self@.nodes.contains_key(k) implies #[trigger] self@.nodes[k]
                == after.nodes[k] by {
                assert(self.order@.contains(k));
                let j = choose|j: int| 0 <= j < self.order@.len() && self.order@[j] == k;
                assert(self@.nodes[self.order@[j]] == after.nodes[k]);
            }
            assert(self@.nodes =~= after.nodes);
        }
        Some(node)
    }

    /// Moves the nodes that have the tag `tag` out of this graph into a
    /// graph of their own, with their edges and in their order.
    pub(crate) fn extract(&mut self, tags: &HashMap<u64, u64>, tag: u64) -> (part: Graph<T>)
        requires
            old(self).wf(),
            forall|a: u64, b: u64| #[trigger]
                old(self)@.has_edge(a, b) ==> (with_tag(tags@, tag).contains(a) <==> with_tag(
                    tags@,
                    tag,
                ).contains(b)),
        ensures
            final(self).wf(),
            part.wf(),
            part@ == old(self)@.restrict(with_tag(tags@, tag)),
            final(self)@ == old(self)@.restrict(without_tag(tags@, tag)),
    {
        let ghost before = self@;
        let ghost raw = self.nodes@;
        let ghost inside = with_tag(tags@, tag);
        let ghost outside = without_tag(tags@, tag);
        proof {
            assert(before.encloses(inside));
            assert(before.encloses(outside));
            lemma_restrict_wf(before, inside);
            lemma_restrict_wf(before, outside);
        }
        let mut part: Graph<T> = Graph { nodes: HashMap::new(), order: Vec::new() };
        let mut kept: Vec<u64> = Vec::new();
        let mut i: usize = 0;
        proof {
            reveal(Seq::filter);
            assert(before.order.take(0).filter(within(inside)) =~= Seq::<u64>::empty());
            assert(before.order.take(0).filter(within(outside)) =~= Seq::<u64>::empty());
        }
        while i < self.order.len()
            invariant
                before.wf(),
                inside == with_tag(tags@, tag),
                outside == without_tag(tags@, tag),
                raw == old(self).nodes@,
                before == old(self)@,
                self.order@ == before.order,
                i <= before.order.len(),
                part.order@ == before.order.take(i as int).filter(within(inside)),
                kept@ == before.order.take(i as int).filter(within(outside)),
                self.nodes_wf(),
                part.nodes_wf(),
                forall|k: u64| #[trigger]
                    self.nodes@.contains_key(k) <==> raw.contains_key(k) && !(inside.contains(k)
                        && before.order.take(i as int).contains(k)),
                forall|k: u64| self.nodes@.contains_key(k) ==> #[trigger] self.nodes@[k] == raw[k],
                forall|k: u64| #[trigger]
                    part.nodes@.contains_key(k) <==> raw.contains_key(k) && inside.contains(k)
                        && before.order.take(i as int).contains(k),
                forall|k: u64| part.nodes@.contains_key(k) ==> #[trigger] part.nodes@[k] == raw[k],
            decreases before.order.len() - i,
        {
            let key = self.order[i];
            proof {
                assert(before.order.take(i + 1) =~= before.order.take(i as int).push(key));
                before.order.take(i as int).lemma_filter_push(key, within(inside));
                before.order.take(i as int).lemma_filter_push(key, within(outside));
                lemma_push_facts(before.order.take(i as int), key);
                assert(before.order.contains(key));
                assert(!before.order.take(i as int).contains(key)) by {
                    if before.order.take(i as int).contains(key) {
                        let j = choose|j: int|
                            0 <= j < before.order.take(i as int).len() && before.order.take(
                                i as int,
                            )[j] == key;
                        assert(before.order[j] == before.order[i as int]);
                    }
                }
            }
            let moves = match tags.get(&key) {
                Some(found) => *found == tag,
                None => false,
            };
            if moves {
                match self.nodes.remove(&key) {
                    Some(node) => {
                        part.nodes.insert(key, node);
                        part.order.push(key);
                    },
                    None => {},
                }
            } else {
                kept.push(key);
            }
            i += 1;
        }
        self.order = kept;
        proof {
            assert(before.order.take(i as int) =~= before.order);
            assert(part@.nodes =~= before.restrict(inside).nodes);
            assert(self@.nodes =~= before.restrict(outside).nodes);
        }
        part
    }
}

} // verus!
