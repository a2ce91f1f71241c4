use crate::graph::{with_tag, without_tag, Graph};
use crate::iter::{lemma_bounded, lemma_done, Mode, Walk};
use crate::label::Label;
use crate::model::{lemma_restrict_wf, GraphView};
use crate::seqs::lemma_push_facts;
use std::collections::HashMap;
use vstd::prelude::*;

verus! {

impl<T> GraphView<T> {
    /// Whether an edge joins `a` and `b`, whichever way it points.
    pub open spec fn touches(self, a: u64, b: u64) -> bool {
        self.has_edge(a, b) || self.has_edge(b, a)
    }

    /// Whether an edge joins `p[i]` and `p[i + 1]`.
    pub open spec fn chained(self, p: Seq<u64>, i: int) -> bool {
        self.touches(p[i], p[i + 1])
    }

    /// Whether `p` is a walk along edges taken either way, between nodes of
    /// the graph.
    pub open spec fn is_chain(self, p: Seq<u64>) -> bool {
        &&& p.len() >= 1
        &&& forall|i: int| 0 <= i < p.len() ==> self.contains(#[trigger] p[i])
        &&& forall|i: int| 0 <= i < p.len() - 1 ==> #[trigger] self.chained(p, i)
    }

    /// Whether a walk along edges taken either way leads from `a` to `b`.
    pub open spec fn joined(self, a: u64, b: u64) -> bool {
        exists|p: Seq<u64>| #[trigger] self.is_chain(p) && p[0] == a && p.last() == b
    }

    /// The component of `k`: the keys of the nodes that are joined to it.
    pub open spec fn component(self, k: u64) -> Set<u64> {
        Set::new(|x: u64| self.joined(k, x))
    }

    /// The keys outside the component of `k`.
    pub open spec fn others(self, k: u64) -> Set<u64> {
        Set::new(|x: u64| !self.joined(k, x))
    }
}

/// Every node is joined to itself.
pub proof fn lemma_joined_self<T>(g: GraphView<T>, a: u64)
    requires
        g.contains(a),
    ensures
        g.joined(a, a),
{
    let p = seq![a];
    assert(g.is_chain(p));
    assert(p[0] == a && p.last() == a);
}

/// What is joined is joined the other way round.
pub proof fn lemma_joined_back<T>(g: GraphView<T>, a: u64, b: u64)
    requires
        g.joined(a, b),
    ensures
        g.joined(b, a),
{
    let p = choose|p: Seq<u64>| #[trigger] g.is_chain(p) && p[0] == a && p.last() == b;
    let r = Seq::new(p.len(), |i: int| p[p.len() - 1 - i]);
    assert(g.is_chain(r)) by {
        assert forall|i: int| 0 <= i < r.len() - 1 implies #[trigger] g.chained(r, i) by {
            assert(g.chained(p, p.len() - 2 - i));
        }
    }
    assert(r[0] == b && r.last() == a);
}

/// What is joined to a node that is joined to a third is joined to the third.
pub proof fn lemma_joined_on<T>(g: GraphView<T>, a: u64, b: u64, c: u64)
    requires
        g.joined(a, b),
        g.joined(b, c),
    ensures
        g.joined(a, c),
{
    let p = choose|p: Seq<u64>| #[trigger] g.is_chain(p) && p[0] == a && p.last() == b;
    let q = choose|q: Seq<u64>| #[trigger] g.is_chain(q) && q[0] == b && q.last() == c;
    let r = p + q.skip(1);
    assert(g.is_chain(r)) by {
        assert forall|i: int| 0 <= i < r.len() implies g.contains(#[trigger] r[i]) by {
            if i >= p.len() {
                assert(r[i] == q[i - p.len() + 1]);
            }
        }
        assert forall|i: int| 0 <= i < r.len() - 1 implies #[trigger] g.chained(r, i) by {
            if i < p.len() - 1 {
                assert(g.chained(p, i));
            } else {
                assert(g.chained(q, i - (p.len() - 1)));
            }
        }
    }
    assert(r[0] == a && r.last() == c);
}

/// The two ends of an edge are joined.
pub proof fn lemma_edge_joined<T>(g: GraphView<T>, a: u64, b: u64)
    requires
        g.closed(),
        g.has_edge(a, b),
    ensures
        g.joined(a, b),
        g.joined(b, a),
{
    let p = seq![a, b];
    assert(g.is_chain(p)) by {
        assert forall|i: int| 0 <= i < p.len() - 1 implies #[trigger] g.chained(p, i) by {}
    }
    assert(p[0] == a && p.last() == b);
    lemma_joined_back(g, a, b);
}

/// A node is joined to every node that it reaches.
pub proof fn lemma_reach_joined<T>(g: GraphView<T>, a: u64, b: u64)
    requires
        g.closed(),
        g.reaches(a, b),
    ensures
        g.joined(a, b),
{
    let p = choose|p: Seq<u64>| #[trigger] g.is_path(p) && p[0] == a && p.last() == b;
    assert(g.is_chain(p)) by {
        assert forall|i: int| 0 <= i < p.len() implies g.contains(#[trigger] p[i]) by {
            crate::model::lemma_path_inside(g, p, i);
        }
        assert forall|i: int| 0 <= i < p.len() - 1 implies #[trigger] g.chained(p, i) by {
            assert(g.links(p, i));
        }
    }
}

/// The components part the graph: every node lies in its own component, two
/// components are one or share no node, and no edge leaves a component.
pub proof fn lemma_components<T: Label>(g: GraphView<T>, a: u64, b: u64)
    requires
        g.wf(),
        g.contains(a),
        g.contains(b),
    ensures
        g.component(a).contains(a),
        g.component(a) == g.component(b) || g.component(a).disjoint(g.component(b)),
        g.has_edge(a, b) ==> g.component(a) == g.component(b),
{
    lemma_joined_self(g, a);
    if g.has_edge(a, b) {
        lemma_edge_joined(g, a, b);
    }
    if exists|x: u64| g.joined(a, x) && g.joined(b, x) {
        let x = choose|x: u64| g.joined(a, x) && g.joined(b, x);
        lemma_joined_back(g, b, x);
        lemma_joined_on(g, a, x, b);
    }
    if g.joined(a, b) {
        lemma_joined_back(g, a, b);
        assert forall|x: u64| g.joined(a, x) <==> g.joined(b, x) by {
            if g.joined(a, x) {
                lemma_joined_on(g, b, a, x);
            }
            if g.joined(b, x) {
                lemma_joined_on(g, a, b, x);
            }
        }
        assert(g.component(a) =~= g.component(b));
    } else {
        assert(g.component(a).disjoint(g.component(b)));
    }
}

/// A component and the rest of the graph are two graphs that meet the
/// invariant; every node is in one of them and none in both; and every edge
/// lies in the one in which its two ends are.
pub proof fn lemma_split<T: Label>(g: GraphView<T>, k: u64)
    requires
        g.wf(),
        g.contains(k),
    ensures
        g.restrict(g.component(k)).wf(),
        g.restrict(g.others(k)).wf(),
        g.restrict(g.component(k)).contains(k),
        forall|x: u64| #[trigger]
            g.contains(x) <==> g.restrict(g.component(k)).contains(x) || g.restrict(
                g.others(k),
            ).contains(x),
        forall|x: u64|
            !(#[trigger] g.restrict(g.component(k)).contains(x) && g.restrict(
                g.others(k),
            ).contains(x)),
        forall|a: u64, b: u64| #[trigger]
            g.has_edge(a, b) <==> g.restrict(g.component(k)).has_edge(a, b) || g.restrict(
                g.others(k),
            ).has_edge(a, b),
{
    let inside = g.component(k);
    let outside = g.others(k);
    lemma_joined_self(g, k);
    assert forall|a: u64, b: u64| #[trigger] g.has_edge(a, b) implies (inside.contains(a)
        <==> inside.contains(b)) by {
        lemma_edge_joined(g, a, b);
        if g.joined(k, a) {
            lemma_joined_on(g, k, a, b);
        }
        if g.joined(k, b) {
            lemma_joined_on(g, k, b, a);
        }
    }
    assert(g.encloses(inside));
    assert(g.encloses(outside));
    lemma_restrict_wf(g, inside);
    lemma_restrict_wf(g, outside);
}

/// Whether `tags` gives two nodes one tag exactly where they are joined.
pub open spec fn tagged<T>(g: GraphView<T>, tags: Map<u64, u64>) -> bool {
    &&& forall|k: u64| #[trigger] tags.contains_key(k) <==> g.contains(k)
    &&& forall|a: u64, b: u64|
        g.contains(a) && g.contains(b) ==> (tags[a] == tags[b] <==> #[trigger] g.joined(a, b))
}

/// Along a walk of edges taken either way the tag stays, where the two ends
/// of every edge have one tag.
pub proof fn lemma_chain_tag<T>(g: GraphView<T>, tags: Map<u64, u64>, p: Seq<u64>, i: int)
    requires
        g.is_chain(p),
        forall|a: u64, b: u64| #[trigger] g.has_edge(a, b) ==> tags[a] == tags[b],
        0 <= i < p.len(),
    ensures
        tags[p[i]] == tags[p[0]],
    decreases i,
{
    if i > 0 {
        lemma_chain_tag(g, tags, p, i - 1);
        assert(g.chained(p, i - 1));
    }
}

/// A set of nodes that no edge leaves or enters keeps its nodes joined as
/// they were, when the other nodes are taken away.
pub proof fn lemma_restrict_joined<T: Label>(g: GraphView<T>, keep: Set<u64>, a: u64, b: u64)
    requires
        g.wf(),
        forall|x: u64, y: u64| #[trigger]
            g.has_edge(x, y) ==> (keep.contains(x) <==> keep.contains(y)),
        g.contains(a),
        keep.contains(a),
    ensures
        g.restrict(keep).joined(a, b) <==> g.joined(a, b),
{
    let h = g.restrict(keep);
    assert(g.encloses(keep));
    lemma_restrict_wf(g, keep);
    if h.joined(a, b) {
        let p = choose|p: Seq<u64>| #[trigger] h.is_chain(p) && p[0] == a && p.last() == b;
        assert(g.is_chain(p)) by {
            assert forall|i: int| 0 <= i < p.len() implies g.contains(#[trigger] p[i]) by {
                assert(h.contains(p[i]));
            }
            assert forall|i: int| 0 <= i < p.len() - 1 implies #[trigger] g.chained(p, i) by {
                assert(h.chained(p, i));
            }
        }
    }
    if g.joined(a, b) {
        let p = choose|p: Seq<u64>| #[trigger] g.is_chain(p) && p[0] == a && p.last() == b;
        lemma_chain_kept(g, keep, p, p.len() - 1);
        assert(h.is_chain(p)) by {
            assert forall|i: int| 0 <= i < p.len() implies h.contains(#[trigger] p[i]) by {
                lemma_chain_kept(g, keep, p, i);
            }
            assert forall|i: int| 0 <= i < p.len() - 1 implies #[trigger] h.chained(p, i) by {
                assert(g.chained(p, i));
                lemma_chain_kept(g, keep, p, i);
                lemma_chain_kept(g, keep, p, i + 1);
            }
        }
    }
}

/// A walk of edges taken either way stays in a set that no edge leaves or
/// enters.
proof fn lemma_chain_kept<T>(g: GraphView<T>, keep: Set<u64>, p: Seq<u64>, i: int)
    requires
        g.is_chain(p),
        forall|x: u64, y: u64| #[trigger]
            g.has_edge(x, y) ==> (keep.contains(x) <==> keep.contains(y)),
        keep.contains(p[0]),
        0 <= i < p.len(),
    ensures
        keep.contains(p[i]),
    decreases i,
{
    if i > 0 {
        lemma_chain_kept(g, keep, p, i - 1);
        assert(g.chained(p, i - 1));
    }
}

/// What holds of the tags while they are given: a node that has a tag is
/// joined to the node whose key is the tag, and the edges of a node that has
/// a tag lead to nodes with the same tag.
pub open spec fn partly_tagged<T>(g: GraphView<T>, tags: Map<u64, u64>) -> bool {
    &&& forall|k: u64| #[trigger] tags.contains_key(k) ==> g.contains(k) && g.joined(k, tags[k])
    &&& forall|a: u64, b: u64|
        #[trigger] g.has_edge(a, b) && tags.contains_key(a) ==> tags.contains_key(b) && tags[b]
            == tags[a]
}

/// Tags that every node has, given as `partly_tagged` says, are the same for
/// two nodes exactly where the two are joined.
pub proof fn lemma_tagged<T: Label>(g: GraphView<T>, tags: Map<u64, u64>)
    requires
        g.wf(),
        partly_tagged(g, tags),
        forall|k: u64| g.contains(k) ==> tags.contains_key(k),
    ensures
        tagged(g, tags),
{
    assert forall|a: u64, b: u64| g.contains(a) && g.contains(b) implies (tags[a] == tags[b]
        <==> #[trigger] g.joined(a, b)) by {
        if g.joined(a, b) {
            let p = choose|p: Seq<u64>| #[trigger] g.is_chain(p) && p[0] == a && p.last() == b;
            assert forall|x: u64, y: u64| #[trigger] g.has_edge(x, y) implies tags[x]
                == tags[y] by {}
            lemma_chain_tag(g, tags, p, p.len() - 1);
        }
        if tags[a] == tags[b] {
            assert(tags.contains_key(a) && tags.contains_key(b));
            lemma_joined_back(g, b, tags[b]);
            lemma_joined_on(g, a, tags[a], b);
        }
    }
}

/// Gives every node that has the tag `from` the tag `to`.
fn retag<T: Label>(graph: &Graph<T>, tags: &mut HashMap<u64, u64>, from: u64, to: u64)
    requires
        graph.wf(),
        forall|k: u64| old(tags)@.contains_key(k) ==> graph@.contains(k),
    ensures
        forall|k: u64| #[trigger] final(tags)@.contains_key(k) <==> old(tags)@.contains_key(k),
        forall|k: u64|
            old(tags)@.contains_key(k) ==> #[trigger] final(tags)@[k] == if old(tags)@[k] == from {
                to
            } else {
                old(tags)@[k]
            },
{
    let ghost before = tags@;
    let mut i: usize = 0;
    proof {
        assert(forall|k: u64| !graph@.order.take(0).contains(k));
    }
    while i < graph.count()
        invariant
            graph.wf(),
            i <= graph@.order.len(),
            before == old(tags)@,
            forall|k: u64| before.contains_key(k) ==> graph@.contains(k),
            forall|k: u64| #[trigger] tags@.contains_key(k) <==> before.contains_key(k),
            forall|k: u64|
                before.contains_key(k) ==> #[trigger] tags@[k] == if before[k] == from
                    && graph@.order.take(i as int).contains(k) {
                    to
                } else {
                    before[k]
                },
        decreases graph@.order.len() - i,
    {
        let key = graph.key_at(i);
        proof {
            assert(graph@.order.take(i + 1) =~= graph@.order.take(i as int).push(key));
            lemma_push_facts(graph@.order.take(i as int), key);
            assert(!graph@.order.take(i as int).contains(key)) by {
                if graph@.order.take(i as int).contains(key) {
                    let j = choose|j: int|
                        0 <= j < graph@.order.take(i as int).len() && graph@.order.take(
                            i as int,
                        )[j] == key;
                    assert(graph@.order[j] == graph@.order[i as int]);
                }
            }
        }
        let moves = match tags.get(&key) {
            Some(tag) => *tag == from,
            None => false,
        };
        if moves {
            tags.insert(key, to);
        }
        i += 1;
    }
    proof {
        assert(graph@.order.take(i as int) =~= graph@.order);
        assert forall|k: u64| before.contains_key(k) implies #[trigger] tags@[k] == if before[k]
            == from {
            to
        } else {
            before[k]
        } by {
            assert(graph@.order.contains(k));
        }
    }
}

/// Walks from the node under `root`, which has no tag, and gives the tag
/// `root` to every node that the walk finds, and to every node that has the
/// tag of one that the walk finds.
fn tag_from<T: Label>(graph: &Graph<T>, tags: &mut HashMap<u64, u64>, root: u64)
    requires
        graph.wf(),
        graph@.contains(root),
        !old(tags)@.contains_key(root),
        partly_tagged(graph@, old(tags)@),
    ensures
        partly_tagged(graph@, final(tags)@),
        final(tags)@.contains_key(root),
        forall|k: u64| old(tags)@.contains_key(k) ==> final(tags)@.contains_key(k),
{
    let ghost g = graph@;
    let mut keys: Vec<u64> = Vec::new();
    keys.push(root);
    assert(keys@ =~= seq![root]);
    let mut walk = Walk::seeded(graph, &keys, Mode::Depth);
    assert forall|r: u64| walk@.roots.contains(r) implies r == root by {
        let i = choose|i: int| 0 <= i < keys@.len() && keys@[i] == r;
    }
    assert(walk@.roots.contains(root)) by {
        assert(keys@[0] == root);
    }
    assert(walk@.yielded.len() == 0);
    assert(walk@.buffer =~= seq![root]) by {
        reveal_with_fuel(crate::iter::spread, 3);
        assert(keys@.drop_last() =~= Seq::<u64>::empty());
    }
    loop
        invariant
            graph.wf(),
            walk@.yielded.len() == 0 ==> walk@.buffer == seq![root] && walk@.mode is Depth,
            g == graph@,
            g.contains(root),
            walk.wf(),
            walk.graph() == g,
            walk@.roots.contains(root),
            forall|r: u64| walk@.roots.contains(r) ==> r == root,
            walk@.yielded.len() == 0 ==> !tags@.contains_key(root),
            walk@.yielded.len() > 0 ==> tags@.contains_key(root),
            forall|k: u64| old(tags)@.contains_key(k) ==> tags@.contains_key(k),
            forall|k: u64| #[trigger]
                tags@.contains_key(k) ==> g.contains(k) && g.joined(k, tags@[k]),
            forall|k: u64| #[trigger]
                walk@.yielded.contains(k) ==> tags@.contains_key(k) && tags@[k] == root,
            forall|a: u64, b: u64|
                #[trigger] g.has_edge(a, b) && tags@.contains_key(a) && !walk@.yielded.contains(a)
                    ==> tags@.contains_key(b) && tags@[b] == tags@[a],
        decreases g.order.len() - walk@.yielded.len(),
    {
        proof {
            lemma_bounded(g, walk@);
        }
        let ghost before = walk@;
        let ghost marks = tags@;
        match walk.next_key() {
            Some(key) => {
                proof {
                    lemma_bounded(g, walk@);
                    assert(before.yielded.len() == 0 ==> key == root);
                    assert(before.buffer.contains(key));
                    assert(before.visited.contains(key));
                    assert(before.in_reach(g, key));
                    assert(g.reaches(root, key));
                    lemma_reach_joined(g, root, key);
                    lemma_joined_back(g, root, key);
                    lemma_push_facts(before.yielded, key);
                }
                let found = match tags.get(&key) {
                    Some(tag) => Some(*tag),
                    None => None,
                };
                match found {
                    None => {
                        tags.insert(key, root);
                        proof {
                            assert forall|a: u64, b: u64|
                                #[trigger] g.has_edge(a, b) && tags@.contains_key(a)
                                    && !walk@.yielded.contains(a) implies tags@.contains_key(b)
                                && tags@[b] == tags@[a] by {
                                assert(marks.contains_key(a));
                                assert(!before.yielded.contains(a));
                            }
                        }
                    },
                    Some(tag) => {
                        if tag != root {
                            retag(graph, tags, tag, root);
                            proof {
                                assert(g.joined(key, tag));
                                lemma_joined_back(g, key, tag);
                                lemma_joined_on(g, tag, key, root);
                                assert forall|k: u64| #[trigger]
                                    tags@.contains_key(k) implies g.joined(k, tags@[k]) by {
                                    assert(marks.contains_key(k));
                                    if marks[k] == tag {
                                        lemma_joined_on(g, k, tag, root);
                                    }
                                }
                                assert forall|k: u64| #[trigger]
                                    walk@.yielded.contains(k) implies tags@.contains_key(k)
                                    && tags@[k] == root by {
                                    if k != key {
                                        assert(before.yielded.contains(k));
                                        assert(marks.contains_key(k));
                                    }
                                }
                                assert forall|a: u64, b: u64|
                                    #[trigger] g.has_edge(a, b) && tags@.contains_key(a)
                                        && !walk@.yielded.contains(a) implies tags@.contains_key(b)
                                    && tags@[b] == tags@[a] by {
                                    assert(marks.contains_key(a));
                                    assert(!before.yielded.contains(a));
                                    assert(marks.contains_key(b) && marks[b] == marks[a]);
                                }
                            }
                        } else {
                            proof {
                                assert(tags@.contains_key(root));
                            }
                        }
                    },
                }
            },
            None => {
                proof {
                    lemma_done(g, walk@);
                    assert forall|a: u64, b: u64|
                        #[trigger] g.has_edge(a, b) && tags@.contains_key(
                            a,
                        ) implies tags@.contains_key(b) && tags@[b] == tags@[a] by {
                        if walk@.yielded.contains(a) {
                            assert(walk@.in_reach(g, a));
                            crate::model::lemma_reaches_step(g, root, a, b);
                            assert(walk@.in_reach(g, b));
                            assert(walk@.yielded.contains(b));
                        }
                    }
                    assert(walk@.in_reach(g, root)) by {
                        crate::model::lemma_reaches_self(g, root);
                    }
                    assert(walk@.yielded.contains(root));
                }
                return;
            },
        }
    }
}

/// The components of a graph one by one: each call of `next` takes the
/// nodes of one component out of what is left of the graph and hands them
/// out as a graph of their own.
pub struct Parts<T> {
    graph: Graph<T>,
    disjoint: HashMap<u64, u64>,
}

impl<T> View for Parts<T> {
    type V = GraphView<T>;

    /// What is left of the graph.
    closed spec fn view(&self) -> GraphView<T> {
        self.graph@
    }
}

impl<T: Label> Parts<T> {
    /// What is left is a graph that meets its invariant, and two of its
    /// nodes have one tag exactly where they are joined.
    pub closed spec fn wf(&self) -> bool {
        self.graph.wf() && tagged(self.graph@, self.disjoint@)
    }

    /// Takes the graph, to hand out its components.
    pub fn new(graph: Graph<T>) -> (parts: Self)
        requires
            graph.wf(),
        ensures
            parts.wf(),
            parts@ == graph@,
    {
        let mut disjoint: HashMap<u64, u64> = HashMap::new();
        let mut i: usize = 0;
        while i < graph.count()
            invariant
                graph.wf(),
                i <= graph@.order.len(),
                partly_tagged(graph@, disjoint@),
                forall|j: int| 0 <= j < i ==> disjoint@.contains_key(#[trigger] graph@.order[j]),
            decreases graph@.order.len() - i,
        {
            let root = graph.key_at(i);
            assert(graph@.order.contains(root));
            if disjoint.get(&root).is_none() {
                tag_from(&graph, &mut disjoint, root);
            }
            i += 1;
        }
        proof {
            assert forall|k: u64| graph@.contains(k) implies disjoint@.contains_key(k) by {
                assert(graph@.order.contains(k));
                let j = choose|j: int| 0 <= j < graph@.order.len() && graph@.order[j] == k;
                assert(disjoint@.contains_key(graph@.order[j]));
            }
            lemma_tagged(graph@, disjoint@);
        }
        Parts { graph, disjoint }
    }

    /// Hands out the component of the node that was added first among those
    /// that are left, as a graph of its own, and takes it out of what is
    /// left; `None` when nothing is left.
    pub fn next(&mut self) -> (part: Option<Graph<T>>)
        requires
            old(self).wf(),
        ensures
            final(self).wf(),
            match part {
                Some(graph) => {
                    &&& old(self)@.order.len() > 0
                    &&& graph.wf()
                    &&& graph@ == old(self)@.restrict(old(self)@.component(old(self)@.order[0]))
                    &&& final(self)@ == old(self)@.restrict(old(self)@.others(old(self)@.order[0]))
                },
                None => old(self)@.order.len() == 0 && final(self)@ == old(self)@,
            },
    {
        if self.graph.count() == 0 {
            return None;
        }
        let ghost g = self.graph@;
        let ghost tags = self.disjoint@;
        let first = self.graph.key_at(0);
        assert(g.order.contains(first));
        let parent = match self.disjoint.get(&first) {
            Some(tag) => *tag,
            None => first,
        };
        let ghost inside = with_tag(tags, parent);
        let ghost outside = without_tag(tags, parent);
        proof {
            assert forall|a: u64, b: u64| #[trigger] g.has_edge(a, b) implies (inside.contains(a)
                <==> inside.contains(b)) by {
                lemma_edge_joined(g, a, b);
            }
            assert(inside =~= g.component(first)) by {
                assert forall|k: u64| inside.contains(k) <==> g.component(first).contains(k) by {
                    if g.joined(first, k) {
                        let p = choose|p: Seq<u64>| #[trigger]
                            g.is_chain(p) && p[0] == first && p.last() == k;
                        assert(g.contains(p[p.len() - 1]));
                    }
                }
            }
            assert(outside =~= g.others(first));
        }
        let part = self.graph.extract(&self.disjoint, parent);
        let mut j: usize = 0;
        proof {
            assert(forall|k: u64| !part@.order.take(0).contains(k));
            lemma_restrict_wf(g, inside);
            lemma_restrict_wf(g, outside);
        }
        while j < part.count()
            invariant
                part@ == g.restrict(inside),
                part@.wf(),
                j <= part@.order.len(),
                forall|k: u64| #[trigger]
                    self.disjoint@.contains_key(k) <==> tags.contains_key(k) && !part@.order.take(
                        j as int,
                    ).contains(k),
                forall|k: u64|
                    self.disjoint@.contains_key(k) ==> #[trigger] self.disjoint@[k] == tags[k],
                self.graph@ == g.restrict(outside),
                self.graph.wf(),
            decreases part@.order.len() - j,
        {
            let key = part.key_at(j);
            proof {
                assert(part@.order.take(j + 1) =~= part@.order.take(j as int).push(key));
                lemma_push_facts(part@.order.take(j as int), key);
            }
            self.disjoint.remove(&key);
            j += 1;
        }
        proof {
            assert(part@.order.take(j as int) =~= part@.order);
            let rest = g.restrict(outside);
            assert forall|k: u64| #[trigger]
                self.disjoint@.contains_key(k) <==> rest.contains(k) by {
                if tags.contains_key(k) {
                    assert(g.contains(k));
                    assert(part@.order.contains(k) <==> part@.contains(k));
                }
            }
            assert forall|a: u64, b: u64| rest.contains(a) && rest.contains(b) implies (
            self.disjoint@[a] == self.disjoint@[b] <==> #[trigger] rest.joined(a, b)) by {
                assert forall|x: u64, y: u64| #[trigger] g.has_edge(x, y) implies (outside.contains(
                    x,
                ) <==> outside.contains(y)) by {
                    lemma_edge_joined(g, x, y);
                }
                lemma_restrict_joined(g, outside, a, b);
                assert(g.joined(a, b) <==> tags[a] == tags[b]);
            }
        }
        Some(part)
    }
}

impl<T: Label> Graph<T> {
    /// Gives the graph up, to hand out its components one by one.
    pub fn partition(self) -> (parts: Parts<T>)
        requires
            self.wf(),
        ensures
            parts.wf(),
            parts@ == self@,
    {
        Parts::new(self)
    }
}

} // verus!
