use crate::label::Label;
use crate::model::{lemma_subpath, GraphView};
use crate::seqs::{count_if, lemma_count_without, lemma_count_zero, lemma_no_longer};
use vstd::prelude::*;

verus! {

impl<T> GraphView<T> {
    /// Which keys have an edge to `k` and are not in `done`.
    pub open spec fn waits_on(self, k: u64, done: Set<u64>) -> spec_fn(u64) -> bool {
        |a: u64| self.has_edge(a, k) && !done.contains(a)
    }

    /// How many nodes outside `done` have an edge to `k`.
    pub open spec fn pending(self, k: u64, done: Set<u64>) -> nat {
        count_if(self.order, self.waits_on(k, done))
    }

    /// How many nodes have an edge to `k`.
    pub open spec fn indegree(self, k: u64) -> nat {
        self.pending(k, Set::empty())
    }

    /// How many edges the node under `k` has.
    pub open spec fn outdegree(self, k: u64) -> nat {
        self.nodes[k].targets.len()
    }

    /// Which keys no edge points at.
    pub open spec fn is_source(self) -> spec_fn(u64) -> bool {
        |k: u64| self.indegree(k) == 0
    }

    /// Which keys have a node without edges.
    pub open spec fn is_sink(self) -> spec_fn(u64) -> bool {
        |k: u64| self.outdegree(k) == 0
    }

    /// The keys of the nodes that no edge points at, in the order of the
    /// graph.
    pub open spec fn sources(self) -> Seq<u64> {
        self.order.filter(self.is_source())
    }

    /// The keys of the nodes without edges, in the order of the graph.
    pub open spec fn sinks(self) -> Seq<u64> {
        self.order.filter(self.is_sink())
    }

    /// For the key of each node, the number of nodes that have an edge to
    /// it.
    pub open spec fn indegrees(self) -> Map<u64, usize> {
        Map::new(|k: u64| self.contains(k), |k: u64| self.indegree(k) as usize)
    }

    /// The keys of all nodes in the order of the sort: a node is ready when
    /// every node that has an edge to it is listed; of the nodes that are
    /// ready the one that became so last is listed next, and of the sources
    /// the one that was added first.
    pub open spec fn sorted(self) -> Seq<u64> {
        sort_from(self, self.sources().reverse(), self.indegrees(), Seq::empty(), self.order.len())
    }

    /// Whether `o` lists every node once, each after all the nodes that have
    /// an edge to it.
    pub open spec fn is_topological(self, o: Seq<u64>) -> bool {
        &&& o.no_duplicates()
        &&& forall|k: u64| #[trigger] o.contains(k) <==> self.contains(k)
        &&& forall|i: int, j: int|
            0 <= i < o.len() && 0 <= j < o.len() && #[trigger] self.has_edge(o[i], o[j]) ==> i
                < j
    }
}

/// What listing a node does to the nodes it has edges to, first to last:
/// each waits for one node fewer, and is ready when it waits for none.
pub open spec fn release(next: Seq<u64>, degrees: Map<u64, usize>, targets: Seq<u64>) -> (
    Seq<u64>,
    Map<u64, usize>,
)
    decreases targets.len(),
{
    if targets.len() == 0 {
        (next, degrees)
    } else {
        let (n, d) = release(next, degrees, targets.drop_last());
        let t = targets.last();
        let left = (d[t] - 1) as usize;
        (
            if left == 0 {
                n.push(t)
            } else {
                n
            },
            d.insert(t, left),
        )
    }
}

/// The list that the sort ends with when it goes on from `result`, with the
/// nodes in `next` ready and `degrees` saying for how many nodes each node
/// waits. It lists no more than `fuel` nodes.
pub open spec fn sort_from<T>(
    g: GraphView<T>,
    next: Seq<u64>,
    degrees: Map<u64, usize>,
    result: Seq<u64>,
    fuel: nat,
) -> Seq<u64>
    decreases fuel,
{
    if fuel == 0 || next.len() == 0 {
        result
    } else {
        let k = next.last();
        let (n, d) = release(next.drop_last(), degrees, g.nodes[k].targets);
        sort_from(g, n, d, result.push(k), (fuel - 1) as nat)
    }
}

/// Once `k` is done, one node fewer waits before each node that `k` has an
/// edge to, and as many as before wait before every other node.
pub proof fn lemma_pending_step<T: Label>(g: GraphView<T>, u: u64, done: Set<u64>, k: u64)
    requires
        g.wf(),
        g.contains(k),
        !done.contains(k),
    ensures
        g.pending(u, done) == g.pending(u, done.insert(k)) + if g.has_edge(k, u) {
            1nat
        } else {
            0nat
        },
{
    let p = g.waits_on(u, done);
    let q = g.waits_on(u, done.insert(k));
    assert forall|x: u64| #[trigger] q(x) == (p(x) && x != k) by {}
    lemma_count_without(g.order, p, q, k);
    assert(g.order.contains(k));
}

/// A node before which no node waits has all the nodes with an edge to it
/// in `done`.
pub proof fn lemma_pending_none<T: Label>(g: GraphView<T>, u: u64, done: Set<u64>, a: u64)
    requires
        g.wf(),
        g.pending(u, done) == 0,
        g.has_edge(a, u),
    ensures
        done.contains(a),
{
    let p = g.waits_on(u, done);
    lemma_count_zero(g.order, p);
    assert(g.order.contains(a));
    let i = choose|i: int| 0 <= i < g.order.len() && g.order[i] == a;
    assert(!p(g.order[i]));
}

/// A node before which a node waits has an edge from a node outside `done`.
pub proof fn lemma_pending_some<T: Label>(g: GraphView<T>, u: u64, done: Set<u64>) -> (a: u64)
    requires
        g.wf(),
        g.pending(u, done) > 0,
    ensures
        g.has_edge(a, u),
        !done.contains(a),
{
    let p = g.waits_on(u, done);
    lemma_count_zero(g.order, p);
    let i = choose|i: int| 0 <= i < g.order.len() && p(#[trigger] g.order[i]);
    g.order[i]
}

/// Where every node outside `done` waits for another node outside `done`, a
/// walk of any length, all outside `done`, ends at each such node.
proof fn lemma_back_chain<T: Label>(g: GraphView<T>, done: Set<u64>, v: u64, m: nat) -> (p: Seq<
    u64,
>)
    requires
        g.wf(),
        forall|x: u64| g.contains(x) && !done.contains(x) ==> #[trigger] g.pending(x, done) > 0,
        g.contains(v),
        !done.contains(v),
    ensures
        g.is_path(p),
        p.len() == m + 1,
        p.last() == v,
        forall|i: int| 0 <= i < p.len() ==> g.contains(#[trigger] p[i]) && !done.contains(p[i]),
    decreases m,
{
    if m == 0 {
        let p = seq![v];
        assert(g.is_path(p));
        p
    } else {
        let q = lemma_back_chain(g, done, v, (m - 1) as nat);
        let u = q[0];
        assert(g.pending(u, done) > 0);
        let a = lemma_pending_some(g, u, done);
        let p = seq![a] + q;
        assert(g.is_path(p)) by {
            assert forall|i: int| 0 <= i < p.len() - 1 implies #[trigger] g.links(p, i) by {
                if i > 0 {
                    assert(g.links(q, i - 1));
                }
            }
        }
        assert(p.last() == q.last());
        assert forall|i: int| 0 <= i < p.len() implies g.contains(#[trigger] p[i])
            && !done.contains(p[i]) by {
            if i > 0 {
                assert(p[i] == q[i - 1]);
            }
        }
        p
    }
}

/// In a graph without cycles, a set of nodes that leaves out only nodes
/// which wait for a node that it leaves out, leaves out none.
pub proof fn lemma_all_done<T: Label>(g: GraphView<T>, done: Set<u64>, v: u64)
    requires
        g.wf(),
        forall|x: u64| g.contains(x) && !done.contains(x) ==> #[trigger] g.pending(x, done) > 0,
        g.contains(v),
    ensures
        done.contains(v),
{
    if !done.contains(v) {
        let p = lemma_back_chain(g, done, v, g.order.len());
        if p.no_duplicates() {
            assert forall|k: u64| p.contains(k) implies g.order.contains(k) by {
                let i = choose|i: int| 0 <= i < p.len() && p[i] == k;
                assert(g.contains(p[i]));
            }
            lemma_no_longer(p, g.order);
        } else {
            let (i, j) = choose|i: int, j: int|
                0 <= i < p.len() && 0 <= j < p.len() && i != j && p[i] == p[j];
            if i < j {
                lemma_subpath(g, p, i, j);
                assert(g.is_path(p.subrange(i, j + 1)));
            } else {
                lemma_subpath(g, p, j, i);
                assert(g.is_path(p.subrange(j, i + 1)));
            }
        }
    }
}

} // verus!
