use crate::label::Label;
use crate::seqs::{lemma_filter_facts, lemma_without, lemma_without_contains, within, without};
use vstd::prelude::*;

verus! {

/// What a node is to the contracts: its label and the keys its edges point at,
/// in the order in which the edges were made.
pub struct NodeView<T> {
    pub label: T,
    pub targets: Seq<u64>,
}

/// What a graph is to the contracts: the keys of its nodes in the order in
/// which they were added, and the node that stands under each key.
pub struct GraphView<T> {
    pub order: Seq<u64>,
    pub nodes: Map<u64, NodeView<T>>,
}

impl<T> GraphView<T> {
    /// The graph without nodes.
    pub open spec fn empty() -> Self {
        GraphView { order: Seq::empty(), nodes: Map::empty() }
    }

    /// Whether a node stands under the key `k`.
    pub open spec fn contains(self, k: u64) -> bool {
        self.nodes.contains_key(k)
    }

    /// Whether the node under `a` has an edge to the key `b`.
    pub open spec fn has_edge(self, a: u64, b: u64) -> bool {
        self.nodes.contains_key(a) && self.nodes[a].targets.contains(b)
    }

    /// Whether `p[i]` has an edge to `p[i + 1]`.
    pub open spec fn links(self, p: Seq<u64>, i: int) -> bool {
        self.has_edge(p[i], p[i + 1])
    }

    /// Whether `p` is a walk along edges: it starts at a node of the graph and
    /// each of its keys has an edge to the next.
    pub open spec fn is_path(self, p: Seq<u64>) -> bool {
        &&& p.len() >= 1
        &&& self.contains(p[0])
        &&& forall|i: int| 0 <= i < p.len() - 1 ==> #[trigger] self.links(p, i)
    }

    /// Whether a walk along edges leads from `a` to `b`. Every node reaches
    /// itself.
    pub open spec fn reaches(self, a: u64, b: u64) -> bool {
        exists|p: Seq<u64>| #[trigger] self.is_path(p) && p[0] == a && p.last() == b
    }

    /// Whether an edge from the node under `a` to the node under `b` may be
    /// made: both nodes are there, they are two, and the second does not
    /// reach the first.
    pub open spec fn accepts(self, a: u64, b: u64) -> bool {
        self.contains(a) && self.contains(b) && a != b && !self.reaches(b, a)
    }

    /// Whether every edge points at a node of the graph.
    pub open spec fn closed(self) -> bool {
        forall|a: u64, b: u64| #[trigger] self.has_edge(a, b) ==> self.contains(b)
    }

    /// Whether no walk of at least one edge leads from a node back to itself.
    pub open spec fn acyclic(self) -> bool {
        forall|p: Seq<u64>| #[trigger] self.is_path(p) && p.len() >= 2 ==> p[0] != p.last()
    }

    /// The edges of the node under `k`, each as a pair of keys, in the order
    /// in which they were made.
    pub open spec fn edges_of(self, k: u64) -> Seq<(u64, u64)> {
        self.nodes[k].targets.map_values(|t: u64| (k, t))
    }

    /// The edges of the nodes from the `i`-th on, node by node.
    pub open spec fn edges_from(self, i: nat) -> Seq<(u64, u64)>
        decreases self.order.len() - i,
    {
        if i >= self.order.len() {
            Seq::empty()
        } else {
            self.edges_of(self.order[i as int]) + self.edges_from(i + 1)
        }
    }

    /// The edges of the `i`-th node from its `j`-th edge on, and those of
    /// the nodes after it.
    pub open spec fn edges_after(self, i: nat, j: nat) -> Seq<(u64, u64)> {
        if i < self.order.len() {
            self.edges_of(self.order[i as int]).skip(j as int) + self.edges_from(i + 1)
        } else {
            Seq::empty()
        }
    }

    /// All edges, node by node in the order of the graph.
    pub open spec fn edges(self) -> Seq<(u64, u64)> {
        self.edges_from(0)
    }

    /// The nodes under the keys in `keep`, with their edges, in the order
    /// of the graph.
    pub open spec fn restrict(self, keep: Set<u64>) -> Self {
        GraphView { order: self.order.filter(within(keep)), nodes: self.nodes.restrict(keep) }
    }

    /// Whether the edges of the nodes under the keys in `keep` point at
    /// keys in `keep` only.
    pub open spec fn encloses(self, keep: Set<u64>) -> bool {
        forall|a: u64, b: u64|
            #[trigger] self.has_edge(a, b) && keep.contains(a) ==> keep.contains(b)
    }

    /// The graph in which the node under `a`, if there is one, has no edge
    /// to `b`.
    pub open spec fn disconnect(self, a: u64, b: u64) -> Self {
        if self.has_edge(a, b) {
            GraphView {
                order: self.order,
                nodes: self.nodes.insert(
                    a,
                    NodeView {
                        label: self.nodes[a].label,
                        targets: without(self.nodes[a].targets, b),
                    },
                ),
            }
        } else {
            self
        }
    }

    /// The graph in which the node under `a` has an edge to `b`, made last
    /// where it was not there before.
    pub open spec fn connect(self, a: u64, b: u64) -> Self {
        if self.contains(a) && !self.has_edge(a, b) {
            GraphView {
                order: self.order,
                nodes: self.nodes.insert(
                    a,
                    NodeView {
                        label: self.nodes[a].label,
                        targets: self.nodes[a].targets.push(b),
                    },
                ),
            }
        } else {
            self
        }
    }

    /// The graph without the node under `k` and without the edges that
    /// point at `k`.
    pub open spec fn remove(self, k: u64) -> Self {
        GraphView {
            order: without(self.order, k),
            nodes: Map::new(
                |j: u64| self.nodes.contains_key(j) && j != k,
                |j: u64|
                    NodeView {
                        label: self.nodes[j].label,
                        targets: without(self.nodes[j].targets, k),
                    },
            ),
        }
    }
}

impl<T: Label> GraphView<T> {
    /// The invariant of the store: the order lists each key once, each node
    /// stands under its label's key, no node has two edges to one key, every
    /// edge points at another node of the graph, and the edges form no cycle.
    pub open spec fn wf(self) -> bool {
        &&& self.order.no_duplicates()
        &&& forall|k: u64| #[trigger] self.order.contains(k) <==> self.nodes.contains_key(k)
        &&& forall|k: u64| #[trigger]
            self.nodes.contains_key(k) ==> self.nodes[k].label.key() == k
                && self.nodes[k].targets.no_duplicates()
        &&& self.closed()
        &&& forall|a: u64, b: u64| #[trigger] self.has_edge(a, b) ==> a != b
        &&& self.acyclic()
    }

    /// The graph with a fresh node for `label`, which takes the place of a
    /// node that stood under the same key.
    pub open spec fn add(self, label: T) -> Self {
        GraphView {
            order: if self.contains(label.key()) {
                self.order
            } else {
                self.order.push(label.key())
            },
            nodes: self.nodes.insert(label.key(), NodeView { label, targets: Seq::empty() }),
        }
    }
}

/// A graph whose edges are all edges of an acyclic graph is acyclic.
pub proof fn lemma_fewer_edges_acyclic<T>(g: GraphView<T>, h: GraphView<T>)
    requires
        g.acyclic(),
        forall|a: u64, b: u64| #[trigger] h.has_edge(a, b) ==> g.has_edge(a, b),
    ensures
        h.acyclic(),
{
    assert forall|p: Seq<u64>| #[trigger] h.is_path(p) && p.len() >= 2 implies p[0] != p.last() by {
        assert(h.links(p, 0));
        assert forall|i: int| 0 <= i < p.len() - 1 implies #[trigger] g.links(p, i) by {
            assert(h.links(p, i));
        }
        assert(g.is_path(p));
    }
}

/// Every key of a walk is a node of the graph, where edges point at nodes only.
pub proof fn lemma_path_inside<T>(g: GraphView<T>, p: Seq<u64>, i: int)
    requires
        g.is_path(p),
        g.closed(),
        0 <= i < p.len(),
    ensures
        g.contains(p[i]),
{
    if i > 0 {
        assert(g.links(p, i - 1));
    }
}

/// The part of a walk from its `i`-th key to its `j`-th is a walk.
pub proof fn lemma_subpath<T>(g: GraphView<T>, p: Seq<u64>, i: int, j: int)
    requires
        g.is_path(p),
        g.closed(),
        0 <= i <= j < p.len(),
    ensures
        g.is_path(p.subrange(i, j + 1)),
        p.subrange(i, j + 1)[0] == p[i],
        p.subrange(i, j + 1).last() == p[j],
        p.subrange(i, j + 1).len() == j - i + 1,
{
    let q = p.subrange(i, j + 1);
    lemma_path_inside(g, p, i);
    assert forall|x: int| 0 <= x < q.len() - 1 implies #[trigger] g.links(q, x) by {
        assert(g.links(p, i + x));
    }
}

/// Two walks, the second starting where the first ends, make one walk.
pub proof fn lemma_join<T>(g: GraphView<T>, p: Seq<u64>, q: Seq<u64>)
    requires
        g.is_path(p),
        g.is_path(q),
        p.last() == q[0],
    ensures
        g.is_path(p + q.skip(1)),
        (p + q.skip(1))[0] == p[0],
        (p + q.skip(1)).last() == q.last(),
        (p + q.skip(1)).len() == p.len() + q.len() - 1,
{
    let r = p + q.skip(1);
    assert forall|x: int| 0 <= x < r.len() - 1 implies #[trigger] g.links(r, x) by {
        if x < p.len() - 1 {
            assert(g.links(p, x));
        } else {
            assert(g.links(q, x - (p.len() - 1)));
        }
    }
}

/// A walk extended by one edge from its last key is a walk.
pub proof fn lemma_extend<T>(g: GraphView<T>, p: Seq<u64>, b: u64)
    requires
        g.is_path(p),
        g.has_edge(p.last(), b),
    ensures
        g.is_path(p.push(b)),
        p.push(b)[0] == p[0],
        p.push(b).last() == b,
{
    let r = p.push(b);
    assert forall|x: int| 0 <= x < r.len() - 1 implies #[trigger] g.links(r, x) by {
        if x < p.len() - 1 {
            assert(g.links(p, x));
        }
    }
}

/// Reaching is transitive along one more edge.
pub proof fn lemma_reaches_step<T>(g: GraphView<T>, a: u64, b: u64, c: u64)
    requires
        g.reaches(a, b),
        g.has_edge(b, c),
    ensures
        g.reaches(a, c),
{
    let p = choose|p: Seq<u64>| #[trigger] g.is_path(p) && p[0] == a && p.last() == b;
    lemma_extend(g, p, c);
    assert(g.is_path(p.push(c)));
}

/// Every node reaches itself.
pub proof fn lemma_reaches_self<T>(g: GraphView<T>, a: u64)
    requires
        g.contains(a),
    ensures
        g.reaches(a, a),
{
    let p = seq![a];
    assert(g.is_path(p));
    assert(p[0] == a && p.last() == a);
}

/// An edge followed by a walk is a walk.
pub proof fn lemma_reaches_from_edge<T>(g: GraphView<T>, a: u64, b: u64, c: u64)
    requires
        g.has_edge(a, b),
        g.reaches(b, c),
    ensures
        g.reaches(a, c),
{
    let q = choose|q: Seq<u64>| #[trigger] g.is_path(q) && q[0] == b && q.last() == c;
    let p = seq![a, b];
    assert(g.is_path(p)) by {
        assert forall|i: int| 0 <= i < p.len() - 1 implies #[trigger] g.links(p, i) by {}
    }
    lemma_join(g, p, q);
    assert(g.is_path(p + q.skip(1)));
}

/// The edges of a graph after `connect`: the ones it had, and the new one.
pub proof fn lemma_connect_edges<T>(g: GraphView<T>, a: u64, b: u64)
    requires
        g.contains(a),
    ensures
        forall|k: u64| #[trigger] g.connect(a, b).contains(k) <==> g.contains(k),
        forall|x: u64, y: u64| #[trigger]
            g.connect(a, b).has_edge(x, y) <==> g.has_edge(x, y) || (x == a && y == b),
{
    let h = g.connect(a, b);
    assert forall|x: u64, y: u64| #[trigger]
        h.has_edge(x, y) <==> g.has_edge(x, y) || (x == a && y == b) by {
        if !g.has_edge(a, b) && x == a {
            let t = g.nodes[a].targets;
            assert(h.nodes[a].targets == t.push(b));
            if t.push(b).contains(y) {
                let i = choose|i: int| 0 <= i < t.push(b).len() && t.push(b)[i] == y;
                if i < t.len() {
                    assert(t[i] == y);
                }
            }
            if t.contains(y) {
                let i = choose|i: int| 0 <= i < t.len() && t[i] == y;
                assert(t.push(b)[i] == y);
            }
            assert(t.push(b)[t.len() as int] == b);
        }
    }
}

/// In a graph with one more edge `a -> b`, a walk that ends at `a` shows that
/// its first key reached `a` before.
proof fn lemma_walk_to_source<T>(g: GraphView<T>, h: GraphView<T>, a: u64, b: u64, w: Seq<u64>)
    requires
        g.contains(a),
        forall|k: u64| #[trigger] h.contains(k) <==> g.contains(k),
        forall|x: u64, y: u64| #[trigger]
            h.has_edge(x, y) <==> g.has_edge(x, y) || (x == a && y == b),
        h.is_path(w),
        w.last() == a,
    ensures
        g.reaches(w[0], a),
    decreases w.len(),
{
    if w[0] == a {
        lemma_reaches_self(g, a);
    } else {
        assert(w.len() >= 2);
        let t = w.skip(1);
        assert(h.links(w, 0));
        assert(g.has_edge(w[0], w[1]));
        assert(h.is_path(t)) by {
            assert(h.contains(t[0])) by {
                if h.has_edge(w[0], w[1]) && !g.has_edge(w[0], w[1]) {
                } else if w.len() > 2 {
                    assert(h.links(w, 1));
                } else {
                    assert(t[0] == a);
                }
            }
            assert forall|i: int| 0 <= i < t.len() - 1 implies #[trigger] h.links(t, i) by {
                assert(h.links(w, i + 1));
            }
        }
        lemma_walk_to_source(g, h, a, b, t);
        lemma_reaches_from_edge(g, w[0], w[1], a);
    }
}

/// An edge `a -> b` between two different nodes closes no cycle where `b`
/// does not reach `a`.
pub proof fn lemma_connect_acyclic<T>(g: GraphView<T>, a: u64, b: u64)
    requires
        g.acyclic(),
        g.closed(),
        g.contains(a),
        g.contains(b),
        !g.reaches(b, a),
    ensures
        g.connect(a, b).acyclic(),
        g.connect(a, b).closed(),
{
    let h = g.connect(a, b);
    lemma_connect_edges(g, a, b);
    assert(h.closed());
    assert forall|p: Seq<u64>| #[trigger] h.is_path(p) && p.len() >= 2 implies p[0] != p.last() by {
        if p[0] == p.last() {
            if forall|i: int| 0 <= i < p.len() - 1 ==> #[trigger] g.links(p, i) {
                assert(g.is_path(p));
            } else {
                let i = choose|i: int| 0 <= i < p.len() - 1 && !#[trigger] g.links(p, i);
                assert(h.links(p, i));
                assert(p[i] == a && p[i + 1] == b);
                lemma_subpath(h, p, i + 1, p.len() - 1);
                lemma_subpath(h, p, 0, i);
                let front = p.subrange(i + 1, p.len() as int);
                let back = p.subrange(0, i + 1);
                lemma_join(h, front, back);
                let w = front + back.skip(1);
                lemma_walk_to_source(g, h, a, b, w);
                assert(w[0] == b);
            }
        }
    }
}

/// Adding a node keeps the invariant.
pub proof fn lemma_add_wf<T: Label>(g: GraphView<T>, label: T)
    requires
        g.wf(),
    ensures
        g.add(label).wf(),
        forall|a: u64, b: u64| #[trigger]
            g.add(label).has_edge(a, b) <==> g.has_edge(a, b) && a != label.key(),
{
    let h = g.add(label);
    let k = label.key();
    assert(h.nodes[k].targets.len() == 0);
    assert forall|a: u64, b: u64| #[trigger] h.has_edge(a, b) <==> g.has_edge(a, b) && a != k by {}
    lemma_fewer_edges_acyclic(g, h);
    assert forall|j: u64| #[trigger] h.order.contains(j) <==> h.nodes.contains_key(j) by {
        if g.contains(k) {
        } else {
            if h.order.contains(j) {
                let i = choose|i: int| 0 <= i < h.order.len() && h.order[i] == j;
                if i < g.order.len() {
                    assert(g.order[i] == j);
                    assert(g.order.contains(j));
                }
            }
            if h.nodes.contains_key(j) {
                if j == k {
                    assert(h.order[g.order.len() as int] == k);
                } else {
                    assert(g.order.contains(j));
                    let i = choose|i: int| 0 <= i < g.order.len() && g.order[i] == j;
                    assert(h.order[i] == j);
                }
            }
        }
    }
    assert(h.order.no_duplicates()) by {
        if !g.contains(k) {
            assert(!g.order.contains(k));
        }
    }
    assert(h.closed()) by {
        assert forall|a: u64, b: u64| #[trigger] h.has_edge(a, b) implies h.contains(b) by {
            assert(g.has_edge(a, b));
        }
    }
    assert forall|a: u64, b: u64| #[trigger] h.has_edge(a, b) implies a != b by {
        assert(g.has_edge(a, b));
    }
}

/// Removing a node, with the edges that point at it, keeps the invariant.
pub proof fn lemma_remove_wf<T: Label>(g: GraphView<T>, k: u64)
    requires
        g.wf(),
    ensures
        g.remove(k).wf(),
        forall|a: u64, b: u64| #[trigger]
            g.remove(k).has_edge(a, b) <==> g.has_edge(a, b) && a != k && b != k,
{
    let h = g.remove(k);
    lemma_without_contains(g.order, k);
    assert forall|a: u64, b: u64| #[trigger]
        h.has_edge(a, b) <==> g.has_edge(a, b) && a != k && b != k by {
        if g.contains(a) {
            lemma_without_contains(g.nodes[a].targets, k);
        }
    }
    assert forall|j: u64| #[trigger] h.nodes.contains_key(j) implies h.nodes[j].label.key() == j
        && h.nodes[j].targets.no_duplicates() by {
        lemma_without_contains(g.nodes[j].targets, k);
    }
    lemma_fewer_edges_acyclic(g, h);
    assert(h.closed()) by {
        assert forall|a: u64, b: u64| #[trigger] h.has_edge(a, b) implies h.contains(b) by {
            assert(g.has_edge(a, b));
        }
    }
    assert forall|a: u64, b: u64| #[trigger] h.has_edge(a, b) implies a != b by {
        assert(g.has_edge(a, b));
    }
}

/// Taking an edge away keeps the invariant.
pub proof fn lemma_disconnect_wf<T: Label>(g: GraphView<T>, a: u64, b: u64)
    requires
        g.wf(),
    ensures
        g.disconnect(a, b).wf(),
        forall|x: u64, y: u64| #[trigger]
            g.disconnect(a, b).has_edge(x, y) <==> g.has_edge(x, y) && !(x == a && y == b),
{
    let h = g.disconnect(a, b);
    if g.has_edge(a, b) {
        lemma_without_contains(g.nodes[a].targets, b);
        assert forall|x: u64, y: u64| #[trigger]
            h.has_edge(x, y) <==> g.has_edge(x, y) && !(x == a && y == b) by {}
        lemma_fewer_edges_acyclic(g, h);
        assert(h.closed()) by {
            assert forall|x: u64, y: u64| #[trigger] h.has_edge(x, y) implies h.contains(y) by {
                assert(g.has_edge(x, y));
            }
        }
        assert forall|x: u64, y: u64| #[trigger] h.has_edge(x, y) implies x != y by {
            assert(g.has_edge(x, y));
        }
    }
}

/// An edge between two different nodes keeps the invariant where its target
/// does not reach its source.
pub proof fn lemma_connect_wf<T: Label>(g: GraphView<T>, a: u64, b: u64)
    requires
        g.wf(),
        g.contains(a),
        g.contains(b),
        a != b,
        !g.reaches(b, a),
    ensures
        g.connect(a, b).wf(),
{
    let h = g.connect(a, b);
    lemma_connect_edges(g, a, b);
    lemma_connect_acyclic(g, a, b);
    if !g.has_edge(a, b) {
        let t = g.nodes[a].targets;
        assert(t.push(b).no_duplicates()) by {
            assert forall|i: int, j: int|
                0 <= i < t.push(b).len() && 0 <= j < t.push(b).len() && i != j implies t.push(
                b,
            )[i] != t.push(b)[j] by {
                if i < t.len() && j < t.len() {
                } else if i < t.len() {
                    assert(t.contains(t[i]));
                } else {
                    assert(t.contains(t[j]));
                }
            }
        }
    }
}

/// After the last edge of a node come the edges of the next node.
pub proof fn lemma_edges_after_node<T>(g: GraphView<T>, i: nat, j: nat)
    requires
        i < g.order.len(),
        j == g.nodes[g.order[i as int]].targets.len(),
    ensures
        g.edges_after(i, j) == g.edges_after(i + 1, 0),
        g.edges_after(i, 0) == g.edges_from(i),
{
    let k = g.order[i as int];
    assert(g.edges_of(k).skip(j as int) =~= Seq::empty());
    assert(g.edges_of(k).skip(0) =~= g.edges_of(k));
    if i + 1 < g.order.len() {
        let n = g.order[i as int + 1];
        assert(g.edges_of(n).skip(0) =~= g.edges_of(n));
        assert(g.edges_after(i + 1, 0) =~= g.edges_from(i + 1));
    } else {
        assert(g.edges_from(i + 1) =~= Seq::empty());
    }
    assert(g.edges_after(i, j) =~= g.edges_from(i + 1));
}

/// The edge that comes first among those from the `j`-th edge of the `i`-th
/// node on, and what comes after it.
pub proof fn lemma_edges_after_edge<T>(g: GraphView<T>, i: nat, j: nat)
    requires
        i < g.order.len(),
        j < g.nodes[g.order[i as int]].targets.len(),
    ensures
        g.edges_after(i, j).len() > 0,
        g.edges_after(i, j)[0] == (g.order[i as int], g.nodes[g.order[i as int]].targets[j as int]),
        g.edges_after(i, j).skip(1) == g.edges_after(i, j + 1),
{
    let k = g.order[i as int];
    let here = g.edges_of(k);
    assert(here.skip(j as int)[0] == here[j as int]);
    assert(g.edges_after(i, j).skip(1) =~= g.edges_after(i, j + 1));
}

/// The nodes under a set of keys that their edges do not leave form a graph
/// that meets the invariant, with the edges that these nodes had.
pub proof fn lemma_restrict_wf<T: Label>(g: GraphView<T>, keep: Set<u64>)
    requires
        g.wf(),
        g.encloses(keep),
    ensures
        g.restrict(keep).wf(),
        forall|k: u64| #[trigger]
            g.restrict(keep).contains(k) <==> g.contains(k) && keep.contains(k),
        forall|a: u64, b: u64| #[trigger]
            g.restrict(keep).has_edge(a, b) <==> g.has_edge(a, b) && keep.contains(a),
{
    let h = g.restrict(keep);
    lemma_filter_facts(g.order, within(keep));
    assert forall|a: u64, b: u64| #[trigger] h.has_edge(a, b) <==> g.has_edge(a, b)
        && keep.contains(a) by {}
    lemma_fewer_edges_acyclic(g, h);
    assert(h.closed()) by {
        assert forall|a: u64, b: u64| #[trigger] h.has_edge(a, b) implies h.contains(b) by {
            assert(g.has_edge(a, b));
        }
    }
    assert forall|a: u64, b: u64| #[trigger] h.has_edge(a, b) implies a != b by {
        assert(g.has_edge(a, b));
    }
}

/// The store holds no cycle: where one node reaches another, the other does
/// not reach the first.
pub proof fn lemma_one_way<T: Label>(g: GraphView<T>, a: u64, b: u64)
    requires
        g.wf(),
        g.reaches(a, b),
        a != b,
    ensures
        !g.reaches(b, a),
{
    if g.reaches(b, a) {
        let p = choose|p: Seq<u64>| #[trigger] g.is_path(p) && p[0] == a && p.last() == b;
        let q = choose|q: Seq<u64>| #[trigger] g.is_path(q) && q[0] == b && q.last() == a;
        lemma_join(g, p, q);
        assert(g.is_path(p + q.skip(1)));
    }
}

/// A node that is added and then removed, where its label had no node
/// before, leaves the graph as it was.
pub proof fn lemma_add_remove<T: Label>(g: GraphView<T>, label: T)
    requires
        g.wf(),
        !g.contains(label.key()),
    ensures
        g.add(label).remove(label.key()) == g,
{
    let k = label.key();
    let h = g.add(label).remove(k);
    assert(!g.order.contains(k));
    assert(h.order == g.order) by {
        let pushed = g.order.push(k);
        assert(pushed[g.order.len() as int] == k);
        assert(pushed.no_duplicates()) by {
            assert forall|i: int, j: int|
                0 <= i < pushed.len() && 0 <= j < pushed.len() && i != j implies pushed[i]
                != pushed[j] by {
                if i < g.order.len() && j < g.order.len() {
                } else if i < g.order.len() {
                    assert(g.order.contains(g.order[i]));
                } else {
                    assert(g.order.contains(g.order[j]));
                }
            }
        }
        lemma_without(pushed, g.order.len() as int);
        assert(pushed.remove(g.order.len() as int) =~= g.order);
    }
    assert(h.nodes =~= g.nodes) by {
        assert forall|j: u64| g.nodes.contains_key(j) implies #[trigger] h.nodes[j]
            == g.nodes[j] by {
            assert(!g.nodes[j].targets.contains(k)) by {
                if g.nodes[j].targets.contains(k) {
                    assert(g.has_edge(j, k));
                }
            }
        }
    }
}

} // verus!
