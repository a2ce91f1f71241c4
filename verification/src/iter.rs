use crate::graph::{Graph, Node};
use crate::label::Label;
use crate::model::{
    lemma_edges_after_edge, lemma_edges_after_node, lemma_reaches_self, lemma_reaches_step,
    GraphView,
};
use crate::seqs::{lemma_drop_last_facts, lemma_filter_facts, lemma_no_longer, lemma_push_facts};
use crate::topology::{
    lemma_all_done, lemma_pending_none, lemma_pending_step, release, sort_from,
};
use std::collections::{HashSet, VecDeque};
use vstd::prelude::*;

verus! {

/// The order in which a walk hands out the nodes it has found: the latest
/// found first (`Depth`), or the earliest (`Bredth`).
#[derive(Clone, Copy, Debug)]
pub enum Mode {
    Bredth,
    Depth,
}

impl Default for Mode {
    fn default() -> (mode: Self)
        ensures
            mode is Depth,
    {
        Mode::Depth
    }
}

/// Puts each key of `targets` that is not yet in `visited`, first to last, at
/// the front of `buffer` and into `visited`.
pub open spec fn spread(buffer: Seq<u64>, visited: Set<u64>, targets: Seq<u64>) -> (
    Seq<u64>,
    Set<u64>,
)
    decreases targets.len(),
{
    if targets.len() == 0 {
        (buffer, visited)
    } else {
        let (b, v) = spread(buffer, visited, targets.drop_last());
        let t = targets.last();
        if v.contains(t) {
            (b, v)
        } else {
            (seq![t] + b, v.insert(t))
        }
    }
}

/// What `spread` leaves: the visited keys are the old ones and the targets;
/// the buffer holds the old keys and the targets that were new, each once.
pub proof fn lemma_spread(buffer: Seq<u64>, visited: Set<u64>, targets: Seq<u64>)
    requires
        buffer.no_duplicates(),
        forall|k: u64| buffer.contains(k) ==> visited.contains(k),
    ensures
        ({
            let (b, v) = spread(buffer, visited, targets);
            &&& b.no_duplicates()
            &&& b.len() >= buffer.len()
            &&& forall|k: u64| #[trigger]
                v.contains(k) <==> visited.contains(k) || targets.contains(k)
            &&& forall|k: u64| #[trigger]
                b.contains(k) <==> buffer.contains(k) || (targets.contains(k) && !visited.contains(
                    k,
                ))
        }),
    decreases targets.len(),
{
    if targets.len() > 0 {
        let head = targets.drop_last();
        let t = targets.last();
        lemma_spread(buffer, visited, head);
        let (b0, v0) = spread(buffer, visited, head);
        let (b, v) = spread(buffer, visited, targets);
        assert forall|k: u64| targets.contains(k) <==> head.contains(k) || k == t by {
            if targets.contains(k) {
                let i = choose|i: int| 0 <= i < targets.len() && targets[i] == k;
                if i < head.len() {
                    assert(head[i] == k);
                }
            }
            if head.contains(k) {
                let i = choose|i: int| 0 <= i < head.len() && head[i] == k;
                assert(targets[i] == k);
            }
            assert(targets[targets.len() - 1] == t);
        }
        if !v0.contains(t) {
            assert(!b0.contains(t));
            assert forall|k: u64| #[trigger] b.contains(k) <==> b0.contains(k) || k == t by {
                if b.contains(k) {
                    let i = choose|i: int| 0 <= i < b.len() && b[i] == k;
                    if i > 0 {
                        assert(b0[i - 1] == k);
                    }
                }
                if b0.contains(k) {
                    let i = choose|i: int| 0 <= i < b0.len() && b0[i] == k;
                    assert(b[i + 1] == k);
                }
                assert(b[0] == t);
            }
            assert(b.no_duplicates()) by {
                assert forall|i: int, j: int|
                    0 <= i < b.len() && 0 <= j < b.len() && i != j implies b[i] != b[j] by {
                    if i > 0 && j > 0 {
                        assert(b0[i - 1] != b0[j - 1]);
                    } else if i > 0 {
                        assert(b0.contains(b0[i - 1]));
                    } else {
                        assert(b0.contains(b0[j - 1]));
                    }
                }
            }
        }
    } else {
        assert(forall|k: u64| !targets.contains(k));
    }
}

/// What a walk is to the contracts.
pub struct WalkView {
    /// Which end of the buffer the next node is taken from.
    pub mode: Mode,
    /// The keys found and not yet handed out, latest found first.
    pub buffer: Seq<u64>,
    /// The keys found so far.
    pub visited: Set<u64>,
    /// The keys handed out so far, first to last.
    pub yielded: Seq<u64>,
    /// The keys the walk started from.
    pub roots: Set<u64>,
}

impl WalkView {
    /// The state in which a walk from `keys` begins.
    pub open spec fn start(mode: Mode, keys: Seq<u64>) -> WalkView {
        let (buffer, visited) = spread(Seq::empty(), Set::empty(), keys);
        WalkView { mode, buffer, visited, yielded: Seq::empty(), roots: keys.to_set() }
    }

    /// The key that is handed out next.
    pub open spec fn pick(self) -> u64 {
        if self.mode is Depth {
            self.buffer.first()
        } else {
            self.buffer.last()
        }
    }

    /// The buffer without the key that is handed out next.
    pub open spec fn rest(self) -> Seq<u64> {
        if self.mode is Depth {
            self.buffer.skip(1)
        } else {
            self.buffer.drop_last()
        }
    }

    /// The state after the next key was handed out: it has left the buffer,
    /// and those of its neighbours that were not yet found have entered it.
    pub open spec fn step<T>(self, g: GraphView<T>) -> WalkView {
        let (buffer, visited) = spread(self.rest(), self.visited, g.nodes[self.pick()].targets);
        WalkView {
            mode: self.mode,
            buffer,
            visited,
            yielded: self.yielded.push(self.pick()),
            roots: self.roots,
        }
    }

    /// Whether no key is left to hand out.
    pub open spec fn done(self) -> bool {
        self.buffer.len() == 0
    }

    /// Whether a root reaches `k`.
    pub open spec fn in_reach<T>(self, g: GraphView<T>, k: u64) -> bool {
        exists|r: u64| #[trigger] self.roots.contains(r) && g.reaches(r, k)
    }

    /// What holds of a walk at every moment: each key it has found is a node
    /// that a root reaches, and is either waiting in the buffer or handed
    /// out, never both and never twice; the roots are found; and every
    /// neighbour of a key that was handed out is found.
    pub open spec fn inv<T>(self, g: GraphView<T>) -> bool {
        &&& self.buffer.no_duplicates()
        &&& self.yielded.no_duplicates()
        &&& forall|k: u64| !(#[trigger] self.buffer.contains(k) && self.yielded.contains(k))
        &&& forall|k: u64| #[trigger]
            self.visited.contains(k) <==> self.buffer.contains(k) || self.yielded.contains(k)
        &&& forall|k: u64| #[trigger] self.visited.contains(k) ==> g.contains(k)
        &&& forall|k: u64| #[trigger] self.visited.contains(k) ==> self.in_reach(g, k)
        &&& forall|k: u64| #[trigger] self.roots.contains(k) ==> self.visited.contains(k)
        &&& forall|a: u64, b: u64|
            self.yielded.contains(a) && #[trigger] g.has_edge(a, b) ==> self.visited.contains(b)
    }
}

/// A walk begins in a state that meets the invariant.
pub proof fn lemma_start_inv<T>(g: GraphView<T>, mode: Mode, keys: Seq<u64>)
    requires
        forall|k: u64| keys.contains(k) ==> g.contains(k),
    ensures
        WalkView::start(mode, keys).inv(g),
{
    let w = WalkView::start(mode, keys);
    lemma_spread(Seq::empty(), Set::empty(), keys);
    assert forall|k: u64| #[trigger] w.visited.contains(k) implies w.in_reach(g, k) by {
        lemma_reaches_self(g, k);
        assert(w.roots.contains(k) && g.reaches(k, k));
    }
}

/// Handing out a key keeps the invariant.
pub proof fn lemma_step_inv<T>(g: GraphView<T>, w: WalkView)
    requires
        g.closed(),
        w.inv(g),
        !w.done(),
    ensures
        w.step(g).inv(g),
        w.step(g).yielded.len() == w.yielded.len() + 1,
{
    let k = w.pick();
    let rest = w.rest();
    let targets = g.nodes[k].targets;
    let n = w.step(g);
    assert(w.buffer.contains(k)) by {
        if w.mode is Depth {
            assert(w.buffer[0] == k);
        } else {
            assert(w.buffer[w.buffer.len() - 1] == k);
        }
    }
    assert forall|x: u64| #[trigger] rest.contains(x) <==> w.buffer.contains(x) && x != k by {
        if rest.contains(x) {
            let i = choose|i: int| 0 <= i < rest.len() && rest[i] == x;
            if w.mode is Depth {
                assert(w.buffer[i + 1] == x);
            } else {
                assert(w.buffer[i] == x);
            }
        }
        if w.buffer.contains(x) && x != k {
            let i = choose|i: int| 0 <= i < w.buffer.len() && w.buffer[i] == x;
            if w.mode is Depth {
                assert(rest[i - 1] == x);
            } else {
                assert(rest[i] == x);
            }
        }
    }
    assert(rest.no_duplicates()) by {
        assert forall|i: int, j: int|
            0 <= i < rest.len() && 0 <= j < rest.len() && i != j implies rest[i] != rest[j] by {
            if w.mode is Depth {
                assert(w.buffer[i + 1] != w.buffer[j + 1]);
            } else {
                assert(w.buffer[i] != w.buffer[j]);
            }
        }
    }
    lemma_spread(rest, w.visited, targets);
    assert(w.visited.contains(k));
    assert(g.contains(k) && w.in_reach(g, k));
    assert forall|x: u64| #[trigger] n.yielded.contains(x) <==> w.yielded.contains(x) || x == k by {
        if n.yielded.contains(x) {
            let i = choose|i: int| 0 <= i < n.yielded.len() && n.yielded[i] == x;
            if i < w.yielded.len() {
                assert(w.yielded[i] == x);
            }
        }
        if w.yielded.contains(x) {
            let i = choose|i: int| 0 <= i < w.yielded.len() && w.yielded[i] == x;
            assert(n.yielded[i] == x);
        }
        assert(n.yielded[w.yielded.len() as int] == k);
    }
    assert(n.yielded.no_duplicates()) by {
        assert forall|i: int, j: int|
            0 <= i < n.yielded.len() && 0 <= j < n.yielded.len() && i != j implies n.yielded[i]
            != n.yielded[j] by {
            if i < w.yielded.len() && j < w.yielded.len() {
            } else if i < w.yielded.len() {
                assert(w.yielded.contains(w.yielded[i]));
            } else {
                assert(w.yielded.contains(w.yielded[j]));
            }
        }
    }
    assert forall|x: u64| #[trigger] n.visited.contains(x) implies g.contains(x) && n.in_reach(
        g,
        x,
    ) by {
        if !w.visited.contains(x) {
            assert(targets.contains(x));
            assert(g.has_edge(k, x));
            assert(w.in_reach(g, k));
            let r = choose|r: u64| #[trigger] w.roots.contains(r) && g.reaches(r, k);
            lemma_reaches_step(g, r, k, x);
            assert(n.roots.contains(r) && g.reaches(r, x));
        } else {
            assert(w.in_reach(g, x));
            let r = choose|r: u64| #[trigger] w.roots.contains(r) && g.reaches(r, x);
            assert(n.roots.contains(r) && g.reaches(r, x));
        }
    }
    assert forall|a: u64, b: u64|
        n.yielded.contains(a) && #[trigger] g.has_edge(a, b) implies n.visited.contains(b) by {
        if a == k {
            assert(targets.contains(b));
        }
    }
}

/// When a walk is over, it has handed out exactly the nodes that its roots
/// reach, each once.
pub proof fn lemma_done<T>(g: GraphView<T>, w: WalkView)
    requires
        w.inv(g),
        w.done(),
    ensures
        w.yielded.no_duplicates(),
        forall|k: u64| #[trigger] w.yielded.contains(k) <==> w.in_reach(g, k),
{
    assert forall|k: u64| w.in_reach(g, k) implies #[trigger] w.yielded.contains(k) by {
        let r = choose|r: u64| #[trigger] w.roots.contains(r) && g.reaches(r, k);
        let p = choose|p: Seq<u64>| #[trigger] g.is_path(p) && p[0] == r && p.last() == k;
        lemma_closed_along(g, w, p, p.len() - 1);
    }
    assert forall|k: u64| #[trigger] w.yielded.contains(k) implies w.in_reach(g, k) by {
        assert(w.visited.contains(k));
    }
}

/// When a walk is over, it has handed out as many nodes as its roots reach.
pub proof fn lemma_visits<T>(g: GraphView<T>, w: WalkView)
    requires
        w.inv(g),
        w.done(),
    ensures
        w.yielded.to_set() == Set::new(|k: u64| w.in_reach(g, k)),
        w.yielded.len() == Set::new(|k: u64| w.in_reach(g, k)).len(),
{
    lemma_done(g, w);
    assert(w.yielded.to_set() =~= Set::new(|k: u64| w.in_reach(g, k)));
    w.yielded.unique_seq_to_set();
}

/// Two walks that are over and began at the same nodes have handed out the
/// same nodes, and as many, whatever their modes.
pub proof fn lemma_same_reach<T>(g: GraphView<T>, v: WalkView, w: WalkView)
    requires
        v.inv(g),
        w.inv(g),
        v.done(),
        w.done(),
        v.roots == w.roots,
    ensures
        v.yielded.to_set() == w.yielded.to_set(),
        v.yielded.len() == w.yielded.len(),
{
    lemma_done(g, v);
    lemma_done(g, w);
    lemma_same_reach_sets(g, v, w);
}

/// Two walks that have handed out what their roots reach, each node once,
/// have handed out the same nodes where their roots are the same.
proof fn lemma_same_reach_sets<T>(g: GraphView<T>, v: WalkView, w: WalkView)
    requires
        v.yielded.no_duplicates(),
        w.yielded.no_duplicates(),
        forall|k: u64| #[trigger] v.yielded.contains(k) <==> v.in_reach(g, k),
        forall|k: u64| #[trigger] w.yielded.contains(k) <==> w.in_reach(g, k),
        v.roots == w.roots,
    ensures
        v.yielded.to_set() == w.yielded.to_set(),
        v.yielded.len() == w.yielded.len(),
{
    assert forall|k: u64| v.in_reach(g, k) <==> w.in_reach(g, k) by {
        if v.in_reach(g, k) {
            let r = choose|r: u64| #[trigger] v.roots.contains(r) && g.reaches(r, k);
            assert(w.roots.contains(r) && g.reaches(r, k));
        }
        if w.in_reach(g, k) {
            let r = choose|r: u64| #[trigger] w.roots.contains(r) && g.reaches(r, k);
            assert(v.roots.contains(r) && g.reaches(r, k));
        }
    }
    assert(v.yielded.to_set() =~= w.yielded.to_set());
    v.yielded.unique_seq_to_set();
    w.yielded.unique_seq_to_set();
}

/// Along a walk of edges from a key that was handed out, every key was
/// handed out, once the buffer is empty.
proof fn lemma_closed_along<T>(g: GraphView<T>, w: WalkView, p: Seq<u64>, i: int)
    requires
        w.inv(g),
        w.done(),
        g.is_path(p),
        w.roots.contains(p[0]),
        0 <= i < p.len(),
    ensures
        w.yielded.contains(p[i]),
    decreases i,
{
    if i == 0 {
        assert(w.visited.contains(p[0]));
    } else {
        lemma_closed_along(g, w, p, i - 1);
        assert(g.links(p, i - 1));
        assert(w.visited.contains(p[i]));
    }
}

/// A walk never holds more keys than the graph has nodes.
pub proof fn lemma_bounded<T: Label>(g: GraphView<T>, w: WalkView)
    requires
        g.wf(),
        w.inv(g),
    ensures
        w.yielded.len() + w.buffer.len() <= g.order.len(),
{
    let s = w.yielded + w.buffer;
    assert(s.no_duplicates()) by {
        assert forall|i: int, j: int| 0 <= i < s.len() && 0 <= j < s.len() && i != j implies s[i]
            != s[j] by {
            let n = w.yielded.len() as int;
            if i < n && j < n {
            } else if i >= n && j >= n {
                assert(w.buffer[i - n] != w.buffer[j - n]);
            } else if i < n {
                assert(w.yielded.contains(s[i]));
                assert(w.buffer.contains(w.buffer[j - n]));
            } else {
                assert(w.yielded.contains(s[j]));
                assert(w.buffer.contains(w.buffer[i - n]));
            }
        }
    }
    assert forall|k: u64| s.contains(k) implies g.order.contains(k) by {
        let i = choose|i: int| 0 <= i < s.len() && s[i] == k;
        if i < w.yielded.len() {
            assert(w.yielded.contains(k));
        } else {
            assert(w.buffer[i - w.yielded.len()] == k);
            assert(w.buffer.contains(k));
        }
        assert(w.visited.contains(k));
        assert(g.nodes.contains_key(k));
    }
    lemma_no_longer(s, g.order);
}

/// A walk over the nodes that its roots reach. Each call of `next` hands out
/// one label, until none is left; a walk cannot be started over.
pub struct Walk<'a, T> {
    mode: Mode,
    graph: &'a Graph<T>,
    buffer: VecDeque<u64>,
    visited: HashSet<u64>,
    yielded: Ghost<Seq<u64>>,
    roots: Ghost<Set<u64>>,
}

impl<'a, T> View for Walk<'a, T> {
    type V = WalkView;

    closed spec fn view(&self) -> WalkView {
        WalkView {
            mode: self.mode,
            buffer: self.buffer@,
            visited: self.visited@,
            yielded: self.yielded@,
            roots: self.roots@,
        }
    }
}

impl<'a, T: Label> Walk<'a, T> {
    /// The graph that is walked over.
    pub closed spec fn graph(&self) -> GraphView<T> {
        self.graph@
    }

    /// The invariant of a walk, over a graph that meets its own.
    pub open spec fn wf(&self) -> bool {
        self.graph().wf() && self@.inv(self.graph())
    }

    /// A walk that starts from the nodes under `keys`.
    pub(crate) fn seeded(graph: &'a Graph<T>, keys: &Vec<u64>, mode: Mode) -> (walk: Self)
        requires
            graph@.wf(),
            forall|k: u64| keys@.contains(k) ==> graph@.contains(k),
        ensures
            walk.wf(),
            walk.graph() == graph@,
            walk@ == WalkView::start(mode, keys@),
    {
        let mut buffer: VecDeque<u64> = VecDeque::new();
        let mut visited: HashSet<u64> = HashSet::new();
        let mut i: usize = 0;
        while i < keys.len()
            invariant
                i <= keys@.len(),
                (buffer@, visited@) == spread(Seq::empty(), Set::empty(), keys@.take(i as int)),
            decreases keys@.len() - i,
        {
            let key = keys[i];
            proof {
                assert(keys@.take(i + 1).drop_last() =~= keys@.take(i as int));
            }
            if !visited.contains(&key) {
                visited.insert(key);
                buffer.push_front(key);
            }
            i += 1;
        }
        proof {
            assert(keys@.take(i as int) =~= keys@);
            lemma_start_inv(graph@, mode, keys@);
        }
        Walk {
            mode,
            graph,
            buffer,
            visited,
            yielded: Ghost(Seq::empty()),
            roots: Ghost(keys@.to_set()),
        }
    }

    /// Hands out the key of the next node, or `None` when the walk is over.
    pub(crate) fn next_key(&mut self) -> (item: Option<u64>)
        requires
            old(self).wf(),
        ensures
            final(self).wf(),
            final(self).graph() == old(self).graph(),
            match item {
                Some(key) => {
                    &&& !old(self)@.done()
                    &&& key == old(self)@.pick()
                    &&& final(self)@ == old(self)@.step(old(self).graph())
                },
                None => old(self)@.done() && final(self)@ == old(self)@,
            },
    {
        let taken = match self.mode {
            Mode::Bredth => self.buffer.pop_back(),
            Mode::Depth => self.buffer.pop_front(),
        };
        let key = match taken {
            Some(key) => key,
            None => return None,
        };
        let graph: &'a Graph<T> = self.graph;
        proof {
            lemma_step_inv(graph@, old(self)@);
            assert(old(self)@.buffer.contains(key));
            assert(old(self)@.visited.contains(key));
            assert(self.buffer@ =~= old(self)@.rest());
        }
        match graph.node(key) {
            Some(node) => {
                let mut i: usize = 0;
                while i < node.degree()
                    invariant
                        i <= node@.targets.len(),
                        (self.buffer@, self.visited@) == spread(
                            old(self)@.rest(),
                            old(self)@.visited,
                            node@.targets.take(i as int),
                        ),
                        self.mode == old(self).mode,
                        self.graph == old(self).graph,
                        self.yielded == old(self).yielded,
                        self.roots == old(self).roots,
                    decreases node@.targets.len() - i,
                {
                    let target = node.target(i);
                    proof {
                        assert(node@.targets.take(i + 1).drop_last() =~= node@.targets.take(
                            i as int,
                        ));
                    }
                    if !self.visited.contains(&target) {
                        self.visited.insert(target);
                        self.buffer.push_front(target);
                    }
                    i += 1;
                }
                proof {
                    assert(node@.targets.take(i as int) =~= node@.targets);
                }
            },
            None => {},
        }
        proof {
            self.yielded@ = self.yielded@.push(key);
        }
        Some(key)
    }

    /// Hands out the label of the next node, or `None` when the walk is
    /// over.
    pub fn next(&mut self) -> (item: Option<&'a T>)
        requires
            old(self).wf(),
        ensures
            final(self).wf(),
            final(self).graph() == old(self).graph(),
            match item {
                Some(label) => {
                    &&& !old(self)@.done()
                    &&& *label == old(self).graph().nodes[old(self)@.pick()].label
                    &&& label.key() == old(self)@.pick()
                    &&& final(self)@ == old(self)@.step(old(self).graph())
                },
                None => old(self)@.done() && final(self)@ == old(self)@,
            },
    {
        let graph: &'a Graph<T> = self.graph;
        match self.next_key() {
            Some(key) => {
                proof {
                    assert(old(self)@.buffer.contains(key));
                    assert(old(self)@.visited.contains(key));
                    assert(graph@.contains(key));
                }
                match graph.node(key) {
                    Some(node) => Some(node.name()),
                    None => None,
                }
            },
            None => None,
        }
    }
}

impl<T: Label> Graph<T> {
    /// Whether a walk along edges leads from the node under `from` to the
    /// key `to`.
    pub(crate) fn finds(&self, from: u64, to: u64) -> (found: bool)
        requires
            self.wf(),
            self@.contains(from),
        ensures
            found == self@.reaches(from, to),
    {
        let mut keys: Vec<u64> = Vec::new();
        keys.push(from);
        assert(keys@ =~= seq![from]);
        let mut walk = Walk::seeded(self, &keys, Mode::Depth);
        assert forall|r: u64| walk@.roots.contains(r) implies r == from by {
            let i = choose|i: int| 0 <= i < keys@.len() && keys@[i] == r;
        }
        assert(walk@.roots.contains(from)) by {
            assert(keys@[0] == from);
        }
        loop
            invariant
                self.wf(),
                walk.wf(),
                walk.graph() == self@,
                walk@.roots.contains(from),
                forall|r: u64| walk@.roots.contains(r) ==> r == from,
                !walk@.yielded.contains(to),
            decreases self@.order.len() - walk@.yielded.len(),
        {
            proof {
                lemma_bounded(self@, walk@);
            }
            let ghost before = walk@;
            match walk.next_key() {
                Some(key) => {
                    proof {
                        lemma_bounded(self@, walk@);
                        assert(before.buffer.contains(key));
                        assert(before.visited.contains(key));
                        assert(before.in_reach(self@, key));
                    }
                    if key == to {
                        return true;
                    }
                    assert(!walk@.yielded.contains(to)) by {
                        if walk@.yielded.contains(to) {
                            let i = choose|i: int|
                                0 <= i < walk@.yielded.len() && walk@.yielded[i] == to;
                            if i < before.yielded.len() {
                                assert(before.yielded[i] == to);
                            }
                        }
                    }
                },
                None => {
                    proof {
                        lemma_done(self@, walk@);
                        if self@.reaches(from, to) {
                            assert(walk@.in_reach(self@, to));
                        }
                    }
                    return false;
                },
            }
        }
    }

    /// A walk from the node of `start`; `None` where `start` has no node.
    pub fn walk<'a>(&'a self, start: &'a T, mode: Mode) -> (walk: Option<Walk<'a, T>>)
        requires
            self.wf(),
        ensures
            match walk {
                Some(walk) => {
                    &&& self@.contains(start.key())
                    &&& walk.wf()
                    &&& walk.graph() == self@
                    &&& walk@ == WalkView::start(mode, seq![start.key()])
                },
                None => !self@.contains(start.key()),
            },
    {
        let key = start.hash();
        if self.node(key).is_none() {
            return None;
        }
        let mut keys: Vec<u64> = Vec::new();
        keys.push(key);
        assert(keys@ =~= seq![key]);
        Some(Walk::seeded(self, &keys, mode))
    }
}

impl<T: Label> Graph<T> {
    /// The keys of all nodes, each after the nodes that have an edge to it.
    pub(crate) fn sorted_keys(&self) -> (keys: Vec<u64>)
        requires
            self.wf(),
        ensures
            keys@ == self@.sorted(),
            self@.is_topological(keys@),
    {
        let ghost g = self@;
        let total = self.count();
        let mut result: Vec<u64> = Vec::new();
        let mut degrees = self.indegrees();
        let sources = self.source_keys();
        proof {
            lemma_filter_facts(g.order, g.is_source());
            assert(result@.to_set() =~= Set::<u64>::empty());
        }
        // The node that is taken next is the last of `next`: the sources go
        // in last to first, so that they come out first to last.
        let mut next: Vec<u64> = Vec::new();
        let mut left = sources.len();
        while left > 0
            invariant
                left <= sources@.len(),
                sources@.no_duplicates(),
                next@.no_duplicates(),
                forall|k: u64| #[trigger]
                    next@.contains(k) <==> sources@.skip(left as int).contains(k),
                next@.len() == sources@.len() - left,
                forall|i: int|
                    0 <= i < next@.len() ==> next@[i] == sources@[sources@.len() - 1 - i],
            decreases left,
        {
            left -= 1;
            let key = sources[left];
            proof {
                let tail = sources@.skip(left + 1);
                let more = sources@.skip(left as int);
                assert forall|k: u64| #[trigger] more.contains(k) <==> tail.contains(k) || k
                    == key by {
                    if more.contains(k) {
                        let j = choose|j: int| 0 <= j < more.len() && more[j] == k;
                        if j > 0 {
                            assert(tail[j - 1] == k);
                        }
                    }
                    if tail.contains(k) {
                        let j = choose|j: int| 0 <= j < tail.len() && tail[j] == k;
                        assert(more[j + 1] == k);
                    }
                    assert(more[0] == key);
                }
                assert(!tail.contains(key)) by {
                    if tail.contains(key) {
                        let j = choose|j: int| 0 <= j < tail.len() && tail[j] == key;
                        assert(sources@[left + 1 + j] == sources@[left as int]);
                    }
                }
                lemma_push_facts(next@, key);
            }
            next.push(key);
        }
        proof {
            assert(sources@.skip(0) =~= sources@);
            assert(next@ =~= sources@.reverse());
            assert(degrees@ =~= g.indegrees());
        }
        while next.len() > 0
            invariant
                self.wf(),
                g == self@,
                total == g.order.len(),
                forall|k: u64| #[trigger] degrees@.contains_key(k) <==> g.contains(k),
                next@.no_duplicates(),
                result@.no_duplicates(),
                forall|k: u64| !(#[trigger] next@.contains(k) && result@.contains(k)),
                forall|k: u64| #[trigger] next@.contains(k) ==> g.contains(k),
                forall|k: u64| #[trigger] result@.contains(k) ==> g.contains(k),
                forall|k: u64|
                    g.contains(k) ==> #[trigger] degrees@[k] == g.pending(k, result@.to_set()),
                forall|k: u64|
                    g.contains(k) ==> ((result@.contains(k) || next@.contains(k))
                        <==> #[trigger] degrees@[k] == 0),
                forall|j: int, a: u64|
                    0 <= j < result@.len() && #[trigger] g.has_edge(a, result@[j])
                        ==> result@.take(j).contains(a),
                sort_from(g, next@, degrees@, result@, (total - result@.len()) as nat)
                    == g.sorted(),
            decreases total - result@.len(),
        {
            let ghost before = result@;
            let ghost waiting = next@;
            let ghost done = before.to_set();
            let ghost counts = degrees@;
            proof {
                lemma_kahn_bounded(before, waiting, g.order);
            }
            let key = next.pop().unwrap();
            result.push(key);
            let ghost after = result@;
            let ghost done_after = after.to_set();
            proof {
                assert(waiting.contains(key)) by {
                    assert(waiting[waiting.len() - 1] == key);
                }
                lemma_drop_last_facts(waiting);
                lemma_push_facts(before, key);
                assert(next@ =~= waiting.drop_last());
                assert(done_after =~= done.insert(key));
                assert(degrees@[key] == 0);
                assert forall|j: int, a: u64|
                    0 <= j < after.len() && #[trigger] g.has_edge(a, after[j]) implies after.take(
                    j,
                ).contains(a) by {
                    if j < before.len() {
                        assert(before.take(j).contains(a));
                        let x = choose|x: int|
                            0 <= x < before.take(j).len() && before.take(j)[x] == a;
                        assert(after.take(j)[x] == a);
                    } else {
                        lemma_pending_none(g, key, done, a);
                        assert(before.contains(a));
                        assert(after.take(j) =~= before);
                    }
                }
            }
            match self.node(key) {
                Some(node) => {
                    let mut j: usize = 0;
                    proof {
                        assert(node@.targets.take(0) =~= Seq::<u64>::empty());
                    }
                    while j < node.degree()
                        invariant
                            self.wf(),
                            g == self@,
                            g.contains(key),
                            node@ == g.nodes[key],
                            j <= node@.targets.len(),
                            result@ == after,
                            after == before.push(key),
                            done == before.to_set(),
                            done_after == done.insert(key),
                            !done.contains(key),
                            forall|k: u64| #[trigger] degrees@.contains_key(k) <==> g.contains(k),
                            next@.no_duplicates(),
                            forall|k: u64| !(#[trigger] next@.contains(k) && after.contains(k)),
                            forall|k: u64| #[trigger] next@.contains(k) ==> g.contains(k),
                            forall|k: u64|
                                g.contains(k) ==> #[trigger] degrees@[k] == if node@.targets.take(
                                    j as int,
                                ).contains(k) {
                                    g.pending(k, done_after)
                                } else {
                                    g.pending(k, done)
                                },
                            forall|k: u64|
                                g.contains(k) ==> ((after.contains(k) || next@.contains(k))
                                    <==> #[trigger] degrees@[k] == 0),
                            (next@, degrees@) == release(
                                waiting.drop_last(),
                                counts,
                                node@.targets.take(j as int),
                            ),
                        decreases node@.targets.len() - j,
                    {
                        let to = node.target(j);
                        let ghost seen = node@.targets.take(j as int);
                        let ghost more = node@.targets.take(j + 1);
                        let ghost queue = next@;
                        proof {
                            assert(g.has_edge(key, to));
                            assert(g.contains(to));
                            assert(more =~= seen.push(to));
                            lemma_push_facts(seen, to);
                            assert(!seen.contains(to)) by {
                                if seen.contains(to) {
                                    let x = choose|x: int| 0 <= x < seen.len() && seen[x] == to;
                                    assert(node@.targets[x] == node@.targets[j as int]);
                                }
                            }
                            lemma_pending_step(g, to, done, key);
                            assert(degrees@[to] == g.pending(to, done_after) + 1);
                            lemma_push_facts(queue, to);
                            assert(more.drop_last() =~= seen);
                        }
                        let degree = match degrees.get(&to) {
                            Some(d) => *d,
                            None => 1,
                        };
                        degrees.insert(to, degree - 1);
                        if degree - 1 == 0 {
                            next.push(to);
                        }
                        j += 1;
                    }
                    proof {
                        assert(node@.targets.take(j as int) =~= node@.targets);
                        assert forall|k: u64| g.contains(k) implies #[trigger] degrees@[k]
                            == g.pending(k, done_after) by {
                            lemma_pending_step(g, k, done, key);
                        }
                        assert(sort_from(g, waiting, counts, before, (total - before.len()) as nat)
                            == sort_from(
                            g,
                            next@,
                            degrees@,
                            after,
                            (total - after.len()) as nat,
                        ));
                    }
                },
                None => {},
            }
        }
        proof {
            let done = result@.to_set();
            assert forall|k: u64| g.contains(k) implies #[trigger] result@.contains(k) by {
                assert forall|x: u64|
                    g.contains(x) && !done.contains(x) implies #[trigger] g.pending(x, done)
                    > 0 by {
                    assert(degrees@[x] != 0);
                }
                lemma_all_done(g, done, k);
            }
            assert forall|i: int, j: int|
                0 <= i < result@.len() && 0 <= j < result@.len() && #[trigger] g.has_edge(
                    result@[i],
                    result@[j],
                ) implies i < j by {
                assert(result@.take(j).contains(result@[i]));
                let x = choose|x: int|
                    0 <= x < result@.take(j).len() && result@.take(j)[x] == result@[i];
                assert(result@[x] == result@[i]);
            }
        }
        result
    }
}

/// The nodes handed out and those waiting, each listed once, are no more
/// than the graph has.
proof fn lemma_kahn_bounded(result: Seq<u64>, next: Seq<u64>, order: Seq<u64>)
    requires
        next.no_duplicates(),
        result.no_duplicates(),
        forall|k: u64| !(#[trigger] next.contains(k) && result.contains(k)),
        forall|k: u64| #[trigger] next.contains(k) ==> order.contains(k),
        forall|k: u64| #[trigger] result.contains(k) ==> order.contains(k),
    ensures
        result.len() + next.len() <= order.len(),
{
    let s = result + next;
    assert(s.no_duplicates()) by {
        assert forall|i: int, j: int| 0 <= i < s.len() && 0 <= j < s.len() && i != j implies s[i]
            != s[j] by {
            let n = result.len() as int;
            if i < n && j < n {
            } else if i >= n && j >= n {
                assert(next[i - n] != next[j - n]);
            } else if i < n {
                assert(result.contains(s[i]));
                assert(next.contains(next[j - n]));
            } else {
                assert(result.contains(s[j]));
                assert(next.contains(next[i - n]));
            }
        }
    }
    assert forall|k: u64| s.contains(k) implies order.contains(k) by {
        let i = choose|i: int| 0 <= i < s.len() && s[i] == k;
        if i < result.len() {
            assert(result.contains(k));
        } else {
            assert(next[i - result.len()] == k);
            assert(next.contains(k));
        }
    }
    lemma_no_longer(s, order);
}

/// The nodes of a graph one by one, in the order in which they were added.
pub struct NodeIter<'a, T> {
    graph: &'a Graph<T>,
    at: usize,
}

impl<'a, T> View for NodeIter<'a, T> {
    type V = Seq<u64>;

    /// The keys of the nodes that are still to come.
    closed spec fn view(&self) -> Seq<u64> {
        self.graph@.order.skip(self.at as int)
    }
}

impl<'a, T: Label> NodeIter<'a, T> {
    /// The graph whose nodes are handed out.
    pub closed spec fn graph(&self) -> GraphView<T> {
        self.graph@
    }

    /// The graph meets its invariant, and the position lies in it.
    pub closed spec fn wf(&self) -> bool {
        self.graph.wf() && self.at <= self.graph@.order.len()
    }

    /// Hands out the next node, or `None` when all were handed out.
    pub fn next(&mut self) -> (item: Option<&'a Node<T>>)
        requires
            old(self).wf(),
        ensures
            final(self).wf(),
            final(self).graph() == old(self).graph(),
            match item {
                Some(node) => {
                    &&& old(self)@.len() > 0
                    &&& node@ == old(self).graph().nodes[old(self)@[0]]
                    &&& node.wf()
                    &&& final(self)@ == old(self)@.skip(1)
                },
                None => old(self)@.len() == 0 && final(self)@ == old(self)@,
            },
    {
        let graph: &'a Graph<T> = self.graph;
        if self.at >= graph.count() {
            return None;
        }
        let key = graph.key_at(self.at);
        assert(graph@.order.contains(key));
        self.at += 1;
        assert(self@ =~= old(self)@.skip(1));
        graph.node(key)
    }
}

/// The labels of a graph one by one, in the order in which their nodes were
/// added.
pub struct Iter<'a, T> {
    inner: NodeIter<'a, T>,
}

impl<'a, T> View for Iter<'a, T> {
    type V = Seq<u64>;

    /// The keys of the labels that are still to come.
    closed spec fn view(&self) -> Seq<u64> {
        self.inner@
    }
}

impl<'a, T: Label> Iter<'a, T> {
    /// The graph whose labels are handed out.
    pub closed spec fn graph(&self) -> GraphView<T> {
        self.inner.graph()
    }

    /// The invariant of the node iterator inside.
    pub closed spec fn wf(&self) -> bool {
        self.inner.wf()
    }

    /// Hands out the next label, or `None` when all were handed out.
    pub fn next(&mut self) -> (item: Option<&'a T>)
        requires
            old(self).wf(),
        ensures
            final(self).wf(),
            final(self).graph() == old(self).graph(),
            match item {
                Some(label) => {
                    &&& old(self)@.len() > 0
                    &&& *label == old(self).graph().nodes[old(self)@[0]].label
                    &&& final(self)@ == old(self)@.skip(1)
                },
                None => old(self)@.len() == 0 && final(self)@ == old(self)@,
            },
    {
        match self.inner.next() {
            Some(node) => Some(node.name()),
            None => None,
        }
    }
}

/// The edges of a graph one by one, each as the labels of the two nodes it
/// joins: node by node, and for each node in the order of its edges.
pub struct EdgeIter<'a, T> {
    graph: &'a Graph<T>,
    node_at: usize,
    edge_at: usize,
}

impl<'a, T> View for EdgeIter<'a, T> {
    type V = Seq<(u64, u64)>;

    /// The edges that are still to come, as pairs of keys.
    closed spec fn view(&self) -> Seq<(u64, u64)> {
        self.graph@.edges_after(self.node_at as nat, self.edge_at as nat)
    }
}

impl<'a, T: Label> EdgeIter<'a, T> {
    /// The graph whose edges are handed out.
    pub closed spec fn graph(&self) -> GraphView<T> {
        self.graph@
    }

    /// The graph meets its invariant, and the position lies in it.
    pub closed spec fn wf(&self) -> bool {
        &&& self.graph.wf()
        &&& self.node_at <= self.graph@.order.len()
        &&& self.node_at < self.graph@.order.len() ==> self.edge_at
            <= self.graph@.nodes[self.graph@.order[self.node_at as int]].targets.len()
    }

    /// Hands out the next edge, or `None` when all were handed out.
    pub fn next(&mut self) -> (item: Option<(&'a T, &'a T)>)
        requires
            old(self).wf(),
        ensures
            final(self).wf(),
            final(self).graph() == old(self).graph(),
            match item {
                Some((from, to)) => {
                    &&& old(self)@.len() > 0
                    &&& *from == old(self).graph().nodes[old(self)@[0].0].label
                    &&& *to == old(self).graph().nodes[old(self)@[0].1].label
                    &&& final(self)@ == old(self)@.skip(1)
                },
                None => old(self)@.len() == 0 && final(self)@ == old(self)@,
            },
    {
        let graph: &'a Graph<T> = self.graph;
        while self.node_at < graph.count()
            invariant
                self.wf(),
                self.graph == graph,
                graph == old(self).graph,
                self@ == old(self)@,
            decreases graph@.order.len() - self.node_at,
        {
            let key = graph.key_at(self.node_at);
            assert(graph@.order.contains(key));
            let node = match graph.node(key) {
                Some(node) => node,
                None => return None,
            };
            if self.edge_at < node.degree() {
                let target = node.target(self.edge_at);
                proof {
                    assert(graph@.has_edge(key, target));
                    lemma_edges_after_edge(graph@, self.node_at as nat, self.edge_at as nat);
                }
                self.edge_at += 1;
                return match graph.node(target) {
                    Some(other) => Some((node.name(), other.name())),
                    None => None,
                };
            }
            proof {
                lemma_edges_after_node(graph@, self.node_at as nat, self.edge_at as nat);
            }
            self.node_at += 1;
            self.edge_at = 0;
        }
        None
    }
}

/// All nodes of a graph one by one, each after the nodes that have an edge
/// to it.
pub struct Order<'a, T> {
    graph: &'a Graph<T>,
    keys: Vec<u64>,
    at: usize,
}

impl<'a, T> View for Order<'a, T> {
    type V = Seq<u64>;

    /// The keys of the labels that are still to come.
    closed spec fn view(&self) -> Seq<u64> {
        self.keys@.skip(self.at as int)
    }
}

impl<'a, T: Label> Order<'a, T> {
    /// The graph whose labels are handed out.
    pub closed spec fn graph(&self) -> GraphView<T> {
        self.graph@
    }

    /// The graph meets its invariant, and the keys are keys of its nodes.
    pub closed spec fn wf(&self) -> bool {
        &&& self.graph.wf()
        &&& self.at <= self.keys@.len()
        &&& forall|i: int|
            0 <= i < self.keys@.len() ==> self.graph@.contains(#[trigger] self.keys@[i])
    }

    /// Hands out the next label, or `None` when all were handed out.
    pub fn next(&mut self) -> (item: Option<&'a T>)
        requires
            old(self).wf(),
        ensures
            final(self).wf(),
            final(self).graph() == old(self).graph(),
            match item {
                Some(label) => {
                    &&& old(self)@.len() > 0
                    &&& *label == old(self).graph().nodes[old(self)@[0]].label
                    &&& final(self)@ == old(self)@.skip(1)
                },
                None => old(self)@.len() == 0 && final(self)@ == old(self)@,
            },
    {
        let graph: &'a Graph<T> = self.graph;
        if self.at >= self.keys.len() {
            return None;
        }
        let key = self.keys[self.at];
        self.at += 1;
        assert(self@ =~= old(self)@.skip(1));
        match graph.node(key) {
            Some(node) => Some(node.name()),
            None => None,
        }
    }
}

impl<T: Label> Graph<T> {
    /// The labels of all nodes, each after the labels of the nodes that have
    /// an edge to its node.
    pub fn ordering<'a>(&'a self) -> (order: Order<'a, T>)
        requires
            self.wf(),
        ensures
            order.wf(),
            order.graph() == self@,
            order@ == self@.sorted(),
            self@.is_topological(order@),
    {
        let keys = self.sorted_keys();
        assert(keys@.skip(0) =~= keys@);
        assert forall|i: int| 0 <= i < keys@.len() implies self@.contains(#[trigger] keys@[i]) by {
            assert(keys@.contains(keys@[i]));
        }
        Order { graph: self, keys, at: 0 }
    }

    /// A walk from all nodes that no edge points at, which hands out the
    /// earliest found of the nodes that wait.
    pub fn bfs<'a>(&'a self) -> (walk: Walk<'a, T>)
        requires
            self.wf(),
        ensures
            walk.wf(),
            walk.graph() == self@,
            walk@ == WalkView::start(Mode::Bredth, self@.sources()),
    {
        self.search(Mode::Bredth)
    }

    /// A walk from all nodes that no edge points at, which hands out the
    /// latest found of the nodes that wait.
    pub fn dfs<'a>(&'a self) -> (walk: Walk<'a, T>)
        requires
            self.wf(),
        ensures
            walk.wf(),
            walk.graph() == self@,
            walk@ == WalkView::start(Mode::Depth, self@.sources()),
    {
        self.search(Mode::Depth)
    }

    /// A walk from all nodes that no edge points at.
    pub fn search<'a>(&'a self, mode: Mode) -> (walk: Walk<'a, T>)
        requires
            self.wf(),
        ensures
            walk.wf(),
            walk.graph() == self@,
            walk@ == WalkView::start(mode, self@.sources()),
    {
        let keys = self.source_keys();
        proof {
            lemma_filter_facts(self@.order, self@.is_source());
        }
        Walk::seeded(self, &keys, mode)
    }

    /// The labels of all nodes, in the order in which the nodes were added.
    pub fn iter<'a>(&'a self) -> (labels: Iter<'a, T>)
        requires
            self.wf(),
        ensures
            labels.wf(),
            labels.graph() == self@,
            labels@ == self@.order,
    {
        Iter { inner: self.nodes() }
    }

    /// All nodes, in the order in which they were added.
    pub fn nodes<'a>(&'a self) -> (nodes: NodeIter<'a, T>)
        requires
            self.wf(),
        ensures
            nodes.wf(),
            nodes.graph() == self@,
            nodes@ == self@.order,
    {
        assert(self@.order.skip(0) =~= self@.order);
        NodeIter { graph: self, at: 0 }
    }

    /// All edges, node by node in the order of the graph, each as the labels
    /// of the two nodes it joins.
    pub fn edges<'a>(&'a self) -> (edges: EdgeIter<'a, T>)
        requires
            self.wf(),
        ensures
            edges.wf(),
            edges.graph() == self@,
            edges@ == self@.edges(),
    {
        let edges = EdgeIter { graph: self, node_at: 0, edge_at: 0 };
        proof {
            if self@.order.len() > 0 {
                let k = self@.order[0];
                assert(self@.edges_of(k).skip(0) =~= self@.edges_of(k));
            }
            assert(edges@ == self@.edges());
        }
        edges
    }
}

} // verus!
