use crate::graph::Graph;
use crate::label::Label;
use crate::seqs::{count_if, lemma_count_bound};
use std::collections::HashMap;
use vstd::prelude::*;

verus! {

impl<T: Label> Graph<T> {
    /// The number of nodes.
    pub fn size(&self) -> (n: usize)
        ensures
            n == self@.order.len(),
    {
        self.count()
    }

    /// The label of the node that was added first among those still there;
    /// `None` where the graph has no node.
    pub fn pick(&self) -> (found: Option<&T>)
        requires
            self.wf(),
        ensures
            match found {
                Some(label) => self@.order.len() > 0 && *label == self@.nodes[self@.order[0]].label,
                None => self@.order.len() == 0,
            },
    {
        if self.count() == 0 {
            return None;
        }
        let key = self.key_at(0);
        assert(self@.order.contains(key));
        match self.node(key) {
            Some(node) => Some(node.name()),
            None => None,
        }
    }

    /// The labels of the nodes under `keys`, in their order.
    pub(crate) fn labels_of(&self, keys: &Vec<u64>) -> (labels: Vec<&T>)
        requires
            forall|i: int| 0 <= i < keys@.len() ==> self@.contains(#[trigger] keys@[i]),
        ensures
            labels@.len() == keys@.len(),
            forall|i: int|
                0 <= i < keys@.len() ==> *(#[trigger] labels@[i]) == self@.nodes[keys@[i]].label,
    {
        let mut labels: Vec<&T> = Vec::new();
        let mut i: usize = 0;
        while i < keys.len()
            invariant
                i <= keys@.len(),
                labels@.len() == i,
                forall|j: int| 0 <= j < keys@.len() ==> self@.contains(#[trigger] keys@[j]),
                forall|j: int|
                    0 <= j < i ==> *(#[trigger] labels@[j]) == self@.nodes[keys@[j]].label,
            decreases keys@.len() - i,
        {
            match self.node(keys[i]) {
                Some(node) => labels.push(node.name()),
                None => {},
            }
            i += 1;
        }
        labels
    }

    /// The keys of the nodes without edges, in the order of the graph.
    pub(crate) fn sink_keys(&self) -> (keys: Vec<u64>)
        requires
            self.wf(),
        ensures
            keys@ == self@.sinks(),
    {
        let mut keys: Vec<u64> = Vec::new();
        let mut i: usize = 0;
        proof {
            reveal(Seq::filter);
            assert(self@.order.take(0).filter(self@.is_sink()) =~= Seq::<u64>::empty());
        }
        while i < self.count()
            invariant
                self.wf(),
                i <= self@.order.len(),
                keys@ == self@.order.take(i as int).filter(self@.is_sink()),
            decreases self@.order.len() - i,
        {
            let key = self.key_at(i);
            proof {
                assert(self@.order.take(i + 1) =~= self@.order.take(i as int).push(key));
                self@.order.take(i as int).lemma_filter_push(key, self@.is_sink());
                assert(self@.order.contains(key));
            }
            match self.node(key) {
                Some(node) => {
                    if node.degree() == 0 {
                        keys.push(key);
                    }
                },
                None => {},
            }
            i += 1;
        }
        assert(self@.order.take(i as int) =~= self@.order);
        keys
    }

    /// The labels of the nodes without edges, in the order of the graph.
    pub fn sinks(&self) -> (labels: Vec<&T>)
        requires
            self.wf(),
        ensures
            labels@.len() == self@.sinks().len(),
            forall|i: int|
                0 <= i < labels@.len() ==> *(#[trigger] labels@[i])
                    == self@.nodes[self@.sinks()[i]].label,
    {
        let keys = self.sink_keys();
        proof {
            assert forall|i: int| 0 <= i < keys@.len() implies self@.contains(
                #[trigger] keys@[i],
            ) by {
                assert(self@.sinks().contains(keys@[i]));
                self@.order.lemma_filter_contains_rev(self@.is_sink(), keys@[i]);
            }
        }
        self.labels_of(&keys)
    }

    /// The number of edges of the node of `label`; `None` where `label` has
    /// no node.
    pub fn outdegree(&self, label: &T) -> (degree: Option<usize>)
        ensures
            match degree {
                Some(n) => self@.contains(label.key()) && n == self@.outdegree(label.key()),
                None => !self@.contains(label.key()),
            },
    {
        match self.get(label) {
            Some(node) => Some(node.degree()),
            None => None,
        }
    }

    /// For the key of each node, the number of nodes that have an edge to
    /// it.
    pub fn indegrees(&self) -> (degrees: HashMap<u64, usize>)
        requires
            self.wf(),
        ensures
            forall|k: u64| #[trigger] degrees@.contains_key(k) <==> self@.contains(k),
            forall|k: u64| self@.contains(k) ==> #[trigger] degrees@[k] == self@.indegree(k),
    {
        let mut degrees: HashMap<u64, usize> = HashMap::new();
        let mut i: usize = 0;
        while i < self.count()
            invariant
                self.wf(),
                i <= self@.order.len(),
                forall|k: u64| #[trigger]
                    degrees@.contains_key(k) <==> self@.order.take(i as int).contains(k),
                forall|k: u64| degrees@.contains_key(k) ==> #[trigger] degrees@[k] == 0,
            decreases self@.order.len() - i,
        {
            let key = self.key_at(i);
            degrees.insert(key, 0);
            proof {
                let head = self@.order.take(i as int);
                let next = self@.order.take(i + 1);
                assert(next =~= head.push(key));
                assert forall|k: u64| #[trigger] next.contains(k) <==> head.contains(k) || k
                    == key by {
                    if next.contains(k) {
                        let j = choose|j: int| 0 <= j < next.len() && next[j] == k;
                        if j < head.len() {
                            assert(head[j] == k);
                        }
                    }
                    if head.contains(k) {
                        let j = choose|j: int| 0 <= j < head.len() && head[j] == k;
                        assert(next[j] == k);
                    }
                    assert(next[i as int] == key);
                }
            }
            i += 1;
        }
        assert(self@.order.take(i as int) =~= self@.order);
        let total = self.count();
        i = 0;
        while i < total
            invariant
                self.wf(),
                total == self@.order.len(),
                i <= self@.order.len(),
                forall|k: u64| #[trigger] degrees@.contains_key(k) <==> self@.contains(k),
                forall|k: u64|
                    self@.contains(k) ==> #[trigger] degrees@[k] == count_if(
                        self@.order.take(i as int),
                        self@.waits_on(k, Set::empty()),
                    ),
            decreases self@.order.len() - i,
        {
            let from = self.key_at(i);
            assert(self@.order.contains(from));
            let ghost head = self@.order.take(i as int);
            proof {
                assert(self@.order.take(i + 1).drop_last() =~= head);
            }
            match self.node(from) {
                Some(node) => {
                    let mut j: usize = 0;
                    while j < node.degree()
                        invariant
                            self.wf(),
                            i < self@.order.len() <= usize::MAX,
                            from == self@.order[i as int],
                            self@.contains(from),
                            node@ == self@.nodes[from],
                            head == self@.order.take(i as int),
                            j <= node@.targets.len(),
                            forall|k: u64| #[trigger]
                                degrees@.contains_key(k) <==> self@.contains(k),
                            forall|k: u64|
                                self@.contains(k) ==> #[trigger] degrees@[k] == count_if(
                                    head,
                                    self@.waits_on(k, Set::empty()),
                                ) + if node@.targets.take(j as int).contains(k) {
                                    1nat
                                } else {
                                    0nat
                                },
                        decreases node@.targets.len() - j,
                    {
                        let to = node.target(j);
                        assert(self@.has_edge(from, to));
                        let ghost seen = node@.targets.take(j as int);
                        let ghost more = node@.targets.take(j + 1);
                        proof {
                            lemma_count_bound(head, self@.waits_on(to, Set::empty()));
                            assert(!seen.contains(to)) by {
                                if seen.contains(to) {
                                    let x = choose|x: int| 0 <= x < seen.len() && seen[x] == to;
                                    assert(node@.targets[x] == node@.targets[j as int]);
                                }
                            }
                            assert forall|k: u64| #[trigger] more.contains(k) <==> seen.contains(k)
                                || k == to by {
                                if more.contains(k) {
                                    let x = choose|x: int| 0 <= x < more.len() && more[x] == k;
                                    if x < seen.len() {
                                        assert(seen[x] == k);
                                    }
                                }
                                if seen.contains(k) {
                                    let x = choose|x: int| 0 <= x < seen.len() && seen[x] == k;
                                    assert(more[x] == k);
                                }
                                assert(more[j as int] == to);
                            }
                        }
                        assert(self@.contains(to));
                        assert(degrees@[to] <= head.len());
                        let old_degree = match degrees.get(&to) {
                            Some(d) => *d,
                            None => 0,
                        };
                        degrees.insert(to, old_degree + 1);
                        j += 1;
                    }
                    proof {
                        assert(node@.targets.take(j as int) =~= node@.targets);
                    }
                },
                None => {},
            }
            i += 1;
        }
        assert(self@.order.take(i as int) =~= self@.order);
        degrees
    }

    /// The number of nodes that have an edge to the node of `label`; `None`
    /// where `label` has no node.
    pub fn indegree(&self, label: &T) -> (degree: Option<usize>)
        requires
            self.wf(),
        ensures
            match degree {
                Some(n) => self@.contains(label.key()) && n == self@.indegree(label.key()),
                None => !self@.contains(label.key()),
            },
    {
        let key = label.hash();
        let degrees = self.indegrees();
        match degrees.get(&key) {
            Some(d) => Some(*d),
            None => None,
        }
    }

    /// The keys of the nodes that no edge points at, in the order of the
    /// graph.
    pub(crate) fn source_keys(&self) -> (keys: Vec<u64>)
        requires
            self.wf(),
        ensures
            keys@ == self@.sources(),
    {
        let degrees = self.indegrees();
        let mut keys: Vec<u64> = Vec::new();
        let mut i: usize = 0;
        proof {
            reveal(Seq::filter);
            assert(self@.order.take(0).filter(self@.is_source()) =~= Seq::<u64>::empty());
        }
        while i < self.count()
            invariant
                self.wf(),
                i <= self@.order.len(),
                forall|k: u64| #[trigger] degrees@.contains_key(k) <==> self@.contains(k),
                forall|k: u64| self@.contains(k) ==> #[trigger] degrees@[k] == self@.indegree(k),
                keys@ == self@.order.take(i as int).filter(self@.is_source()),
            decreases self@.order.len() - i,
        {
            let key = self.key_at(i);
            proof {
                assert(self@.order.take(i + 1) =~= self@.order.take(i as int).push(key));
                self@.order.take(i as int).lemma_filter_push(key, self@.is_source());
                assert(self@.order.contains(key));
            }
            match degrees.get(&key) {
                Some(d) => {
                    if *d == 0 {
                        keys.push(key);
                    }
                },
                None => {},
            }
            i += 1;
        }
        assert(self@.order.take(i as int) =~= self@.order);
        keys
    }

    /// The labels of the nodes that no edge points at, in the order of the
    /// graph.
    pub fn sources(&self) -> (labels: Vec<&T>)
        requires
            self.wf(),
        ensures
            labels@.len() == self@.sources().len(),
            forall|i: int|
                0 <= i < labels@.len() ==> *(#[trigger] labels@[i])
                    == self@.nodes[self@.sources()[i]].label,
    {
        let keys = self.source_keys();
        proof {
            assert forall|i: int| 0 <= i < keys@.len() implies self@.contains(
                #[trigger] keys@[i],
            ) by {
                assert(self@.sources().contains(keys@[i]));
                self@.order.lemma_filter_contains_rev(self@.is_source(), keys@[i]);
            }
        }
        self.labels_of(&keys)
    }
}

} // verus!
