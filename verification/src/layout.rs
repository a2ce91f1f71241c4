use crate::graph::Graph;
use crate::label::Label;
use crate::model::GraphView;
use crate::seqs::{lemma_no_longer, lemma_without_contains, lemma_without_push, without};
use vstd::prelude::*;

verus! {

/// What stands in one column of a row.
pub enum Slot {
    /// Nothing.
    Empty,
    /// The node of the row.
    Node,
    /// An edge on its way to the node under the key, which a later row
    /// shows.
    Connector(u64),
}

/// Where the scan of a row stands: the slots made so far, whether the node of
/// the new row has its column, and the keys that still wait for one.
pub struct Scan {
    pub out: Seq<Slot>,
    pub placed: bool,
    pub left: Seq<u64>,
}

/// What becomes of one column of the row above.
///
/// A connector to another node stays. Every other column is free: the node
/// of the new row takes the first free column that it may take, which is any
/// but the column of the node above where that node has no edge to it. A
/// connector that ends here and is not taken becomes empty. Another free
/// column goes to the next key that waits, if there is one, and is empty
/// otherwise.
pub open spec fn scan_step(s: Scan, slot: Slot, label: u64, wanted: bool) -> Scan {
    match slot {
        Slot::Connector(t) => if t != label {
            Scan { out: s.out.push(slot), placed: s.placed, left: s.left }
        } else if !s.placed {
            Scan { out: s.out.push(Slot::Node), placed: true, left: s.left }
        } else {
            Scan { out: s.out.push(Slot::Empty), placed: true, left: s.left }
        },
        _ => if !s.placed && (slot is Empty || wanted) {
            Scan { out: s.out.push(Slot::Node), placed: true, left: s.left }
        } else if s.left.len() > 0 {
            Scan {
                out: s.out.push(Slot::Connector(s.left[0])),
                placed: s.placed,
                left: s.left.skip(1),
            }
        } else {
            Scan { out: s.out.push(Slot::Empty), placed: s.placed, left: s.left }
        },
    }
}

/// The scan of the row above, column by column from the left.
pub open spec fn scan(above: Seq<Slot>, label: u64, wanted: bool, duties: Seq<u64>) -> Scan
    decreases above.len(),
{
    if above.len() == 0 {
        Scan { out: Seq::empty(), placed: false, left: duties }
    } else {
        scan_step(scan(above.drop_last(), label, wanted, duties), above.last(), label, wanted)
    }
}

/// A connector for each key.
pub open spec fn connectors(keys: Seq<u64>) -> Seq<Slot> {
    keys.map_values(|k: u64| Slot::Connector(k))
}

/// The row after the scan: behind the columns of the row above come the keys
/// that found no column, and last the node if it found none.
pub open spec fn finish(s: Scan) -> Seq<Slot> {
    s.out + connectors(s.left) + if s.placed {
        Seq::<Slot>::empty()
    } else {
        seq![Slot::Node]
    }
}

/// The row of the node under `label` below the row `above`. `wanted` says
/// whether the node above has an edge to it, and `duties` holds the other
/// keys that the node above has edges to.
pub open spec fn next_row(above: Seq<Slot>, label: u64, wanted: bool, duties: Seq<u64>) -> Seq<
    Slot,
> {
    finish(scan(above, label, wanted, duties))
}

/// The `i`-th row of the graph laid out in the order `o`: the first is the
/// node alone, each other comes from the row above it.
pub open spec fn layout<T>(g: GraphView<T>, o: Seq<u64>, i: nat) -> Seq<Slot>
    decreases i,
{
    if i == 0 {
        seq![Slot::Node]
    } else {
        next_row(
            layout(g, o, (i - 1) as nat),
            o[i as int],
            g.has_edge(o[i - 1], o[i as int]),
            without(g.nodes[o[i - 1]].targets, o[i as int]),
        )
    }
}

/// Whether the slot shows the key `t` in a row whose node has the key `own`.
pub open spec fn shows(slot: Slot, own: u64, t: u64) -> bool {
    match slot {
        Slot::Empty => false,
        Slot::Node => own == t,
        Slot::Connector(k) => k == t,
    }
}

/// The first column from `from` on that shows `t`, if there is one.
pub open spec fn column_from(slots: Seq<Slot>, own: u64, t: u64, from: int) -> Option<int>
    decreases slots.len() - from,
{
    if from < 0 || from >= slots.len() {
        None
    } else if shows(slots[from], own, t) {
        Some(from)
    } else {
        column_from(slots, own, t, from + 1)
    }
}

/// The first column that shows `t`, if there is one.
pub open spec fn column_of(slots: Seq<Slot>, own: u64, t: u64) -> Option<int> {
    column_from(slots, own, t, 0)
}

/// How many of the slots hold the node.
pub open spec fn nodes_in(slots: Seq<Slot>) -> nat
    decreases slots.len(),
{
    if slots.len() == 0 {
        0
    } else {
        nodes_in(slots.drop_last()) + if slots.last() is Node {
            1nat
        } else {
            0nat
        }
    }
}

/// A column that shows `t` at or after `from` makes `column_from` find one.
pub proof fn lemma_column_found(slots: Seq<Slot>, own: u64, t: u64, from: int, c: int)
    requires
        0 <= from <= c < slots.len(),
        shows(slots[c], own, t),
    ensures
        column_from(slots, own, t, from) is Some,
        from <= column_from(slots, own, t, from)->0 <= c,
        shows(slots[column_from(slots, own, t, from)->0], own, t),
    decreases slots.len() - from,
{
    if !shows(slots[from], own, t) {
        lemma_column_found(slots, own, t, from + 1, c);
    }
}

/// What `column_from` finds is a column that shows `t`; where it finds none,
/// no column from `from` on shows `t`.
pub proof fn lemma_column_from(slots: Seq<Slot>, own: u64, t: u64, from: int)
    requires
        0 <= from,
    ensures
        match column_from(slots, own, t, from) {
            Some(c) => from <= c < slots.len() && shows(slots[c], own, t),
            None => forall|c: int| from <= c < slots.len() ==> !shows(#[trigger] slots[c], own, t),
        },
    decreases slots.len() - from,
{
    if from < slots.len() && !shows(slots[from], own, t) {
        lemma_column_from(slots, own, t, from + 1);
    }
}

/// Counting the nodes of two rows put together.
pub proof fn lemma_nodes_in_add(a: Seq<Slot>, b: Seq<Slot>)
    ensures
        nodes_in(a + b) == nodes_in(a) + nodes_in(b),
    decreases b.len(),
{
    if b.len() == 0 {
        assert(a + b =~= a);
    } else {
        lemma_nodes_in_add(a, b.drop_last());
        assert((a + b).drop_last() =~= a + b.drop_last());
    }
}

/// Connectors hold no node.
pub proof fn lemma_nodes_in_connectors(keys: Seq<u64>)
    ensures
        nodes_in(connectors(keys)) == 0,
    decreases keys.len(),
{
    if keys.len() > 0 {
        lemma_nodes_in_connectors(keys.drop_last());
        assert(connectors(keys).drop_last() =~= connectors(keys.drop_last()));
    }
}

/// What holds of a scan at every column: it has made as many slots as it has
/// seen, holds the node once if it is placed and not at all otherwise, and
/// the keys that wait are the end of the duties. Each connector it made was
/// one above or is a duty that waits no more, and each connector above that
/// does not end here was kept in its column.
pub proof fn lemma_scan(above: Seq<Slot>, label: u64, wanted: bool, duties: Seq<u64>)
    requires
        forall|d: int| 0 <= d < duties.len() ==> duties[d] != label,
    ensures
        ({
            let s = scan(above, label, wanted, duties);
            let used = duties.len() - s.left.len();
            &&& s.out.len() == above.len()
            &&& nodes_in(s.out) == if s.placed {
                1nat
            } else {
                0nat
            }
            &&& 0 <= used <= duties.len()
            &&& s.left == duties.skip(used)
            &&& forall|c: int|
                0 <= c < above.len() ==> match #[trigger] s.out[c] {
                    Slot::Connector(t) => t != label && (above[c] == Slot::Connector(t) || exists|
                        d: int,
                    |
                        0 <= d < used && duties[d] == t),
                    _ => true,
                }
            &&& forall|c: int|
                0 <= c < above.len() ==> match #[trigger] above[c] {
                    Slot::Connector(t) => t != label ==> s.out[c] == above[c],
                    _ => true,
                }
            &&& forall|d: int|
                0 <= d < used ==> exists|c: int|
                    0 <= c < above.len() && s.out[c] == Slot::Connector(#[trigger] duties[d])
            &&& s.placed ==> exists|c: int| 0 <= c < above.len() && s.out[c] is Node
        }),
    decreases above.len(),
{
    if above.len() > 0 {
        let head = above.drop_last();
        let slot = above.last();
        lemma_scan(head, label, wanted, duties);
        let s0 = scan(head, label, wanted, duties);
        let s = scan(above, label, wanted, duties);
        let used0 = duties.len() - s0.left.len();
        let used = duties.len() - s.left.len();
        assert(s.out.drop_last() =~= s0.out);
        assert(s.left == duties.skip(used)) by {
            if s.left != s0.left {
                assert(s0.left.skip(1) =~= duties.skip(used0 + 1));
            }
        }
        assert forall|c: int| 0 <= c < above.len() implies match #[trigger] s.out[c] {
            Slot::Connector(t) => t != label && (above[c] == Slot::Connector(t) || exists|d: int|
                0 <= d < used && duties[d] == t),
            _ => true,
        } by {
            if c < head.len() {
                assert(s.out[c] == s0.out[c]);
                assert(above[c] == head[c]);
                match s0.out[c] {
                    Slot::Connector(t) => {
                        if head[c] != Slot::Connector(t) {
                            let d = choose|d: int| 0 <= d < used0 && duties[d] == t;
                            assert(0 <= d < used && duties[d] == t);
                        }
                    },
                    _ => {},
                }
            } else {
                match s.out[c] {
                    Slot::Connector(t) => {
                        if above[c] != Slot::Connector(t) {
                            assert(s0.left[0] == duties[used0]);
                            assert(0 <= used0 < used && duties[used0] == t);
                        }
                    },
                    _ => {},
                }
            }
        }
        assert forall|c: int| 0 <= c < above.len() implies match #[trigger] above[c] {
            Slot::Connector(t) => t != label ==> s.out[c] == above[c],
            _ => true,
        } by {
            if c < head.len() {
                assert(s.out[c] == s0.out[c]);
                assert(above[c] == head[c]);
            }
        }
        assert forall|d: int| 0 <= d < used implies exists|c: int|
            0 <= c < above.len() && s.out[c] == Slot::Connector(#[trigger] duties[d]) by {
            if d < used0 {
                let c = choose|c: int|
                    0 <= c < head.len() && s0.out[c] == Slot::Connector(duties[d]);
                assert(s.out[c] == s0.out[c]);
            } else {
                assert(s0.left[0] == duties[used0]);
                assert(s.out[head.len() as int] == Slot::Connector(duties[d]));
            }
        }
        if s.placed {
            if s0.placed {
                let c = choose|c: int| 0 <= c < head.len() && s0.out[c] is Node;
                assert(s.out[c] == s0.out[c]);
            } else {
                assert(s.out[head.len() as int] is Node);
            }
        }
    } else {
        assert(duties.skip(0) =~= duties);
    }
}

/// What holds of each row made from the row above: it holds the node once;
/// each of its connectors was one above or is a duty, and does not end here;
/// each connector above that does not end here, and each duty, has a
/// connector in it.
pub proof fn lemma_next_row(above: Seq<Slot>, label: u64, wanted: bool, duties: Seq<u64>)
    requires
        forall|d: int| 0 <= d < duties.len() ==> duties[d] != label,
    ensures
        ({
            let row = next_row(above, label, wanted, duties);
            &&& nodes_in(row) == 1
            &&& above.len() <= row.len() <= above.len() + duties.len() + 1
            &&& exists|c: int| 0 <= c < row.len() && #[trigger] row[c] is Node
            &&& forall|c: int|
                0 <= c < row.len() ==> match #[trigger] row[c] {
                    Slot::Connector(t) => t != label && (above.contains(Slot::Connector(t))
                        || duties.contains(t)),
                    _ => true,
                }
            &&& forall|t: u64|
                t != label && (above.contains(Slot::Connector(t)) || duties.contains(t))
                    ==> #[trigger] row.contains(Slot::Connector(t))
        }),
{
    lemma_scan(above, label, wanted, duties);
    let s = scan(above, label, wanted, duties);
    let used = duties.len() - s.left.len();
    let row = next_row(above, label, wanted, duties);
    let tail = connectors(s.left);
    let last = if s.placed {
        Seq::<Slot>::empty()
    } else {
        seq![Slot::Node]
    };
    lemma_nodes_in_add(s.out + tail, last);
    lemma_nodes_in_add(s.out, tail);
    lemma_nodes_in_connectors(s.left);
    assert(nodes_in(last) == if s.placed {
        0nat
    } else {
        1nat
    }) by {
        if !s.placed {
            assert(last.drop_last() =~= Seq::<Slot>::empty());
            assert(nodes_in(last.drop_last()) == 0);
        }
    }
    if s.placed {
        let c = choose|c: int| 0 <= c < above.len() && s.out[c] is Node;
        assert(row[c] is Node);
    } else {
        assert(row[row.len() - 1] is Node);
    }
    assert forall|c: int| 0 <= c < row.len() implies match #[trigger] row[c] {
        Slot::Connector(t) => t != label && (above.contains(Slot::Connector(t)) || duties.contains(
            t,
        )),
        _ => true,
    } by {
        if c < s.out.len() {
            assert(row[c] == s.out[c]);
            match s.out[c] {
                Slot::Connector(t) => {
                    if above[c] == Slot::Connector(t) {
                        assert(above.contains(Slot::Connector(t)));
                    } else {
                        let d = choose|d: int| 0 <= d < used && duties[d] == t;
                        assert(duties.contains(t));
                    }
                },
                _ => {},
            }
        } else if c < s.out.len() + tail.len() {
            let d = c - s.out.len();
            assert(row[c] == tail[d]);
            assert(s.left[d] == duties[used + d]);
            assert(duties.contains(duties[used + d]));
        }
    }
    assert forall|t: u64|
        t != label && (above.contains(Slot::Connector(t)) || duties.contains(
            t,
        )) implies #[trigger] row.contains(Slot::Connector(t)) by {
        if duties.contains(t) {
            let d = choose|d: int| 0 <= d < duties.len() && duties[d] == t;
            if d < used {
                let c = choose|c: int|
                    0 <= c < above.len() && s.out[c] == Slot::Connector(duties[d]);
                assert(row[c] == Slot::Connector(t));
            } else {
                assert(s.left[d - used] == duties[d]);
                assert(row[s.out.len() + (d - used)] == Slot::Connector(t));
            }
        } else {
            let c = choose|c: int| 0 <= c < above.len() && above[c] == Slot::Connector(t);
            assert(s.out[c] == above[c]);
            assert(row[c] == Slot::Connector(t));
        }
    }
}

/// Whether the row `below` has a column for every edge that leaves the row
/// `above`: for each of its connectors, and for each key in `targets`, which
/// are the keys that the node of the row above has edges to.
pub open spec fn resolves(above: Seq<Slot>, targets: Seq<u64>, below: Seq<Slot>, own: u64) -> bool {
    &&& forall|c: int|
        0 <= c < above.len() ==> match #[trigger] above[c] {
            Slot::Connector(t) => column_of(below, own, t) is Some,
            _ => true,
        }
    &&& forall|d: int|
        0 <= d < targets.len() ==> column_of(below, own, #[trigger] targets[d]) is Some
}

/// An order that lists every node once is as long as the graph's own.
pub proof fn lemma_order_len<T: Label>(g: GraphView<T>, o: Seq<u64>)
    requires
        g.wf(),
        g.is_topological(o),
    ensures
        o.len() == g.order.len(),
{
    lemma_no_longer(o, g.order);
    lemma_no_longer(g.order, o);
}

/// What holds of every row of a graph laid out in an order in which each
/// node comes after the nodes that have an edge to it: the row holds the
/// node once, each connector points at a node that a later row shows, and
/// the row is no wider than the edges made so far allow.
pub proof fn lemma_layout<T: Label>(g: GraphView<T>, o: Seq<u64>, i: nat)
    requires
        g.wf(),
        g.is_topological(o),
        i < o.len(),
    ensures
        nodes_in(layout(g, o, i)) == 1,
        exists|c: int| 0 <= c < layout(g, o, i).len() && #[trigger] layout(g, o, i)[c] is Node,
        forall|c: int|
            0 <= c < layout(g, o, i).len() ==> match #[trigger] layout(g, o, i)[c] {
                Slot::Connector(t) => exists|j: int| i < j < o.len() && o[j] == t,
                _ => true,
            },
        1 <= layout(g, o, i).len() <= 1 + i * (o.len() + 1),
    decreases i,
{
    let row = layout(g, o, i);
    if i == 0 {
        assert(row.drop_last() =~= Seq::<Slot>::empty());
        assert(nodes_in(row.drop_last()) == 0);
        assert(row[0] is Node);
        assert(1 + i * (o.len() + 1) == 1) by (nonlinear_arith)
            requires
                i == 0,
        ;
    } else {
        let above = layout(g, o, (i - 1) as nat);
        let label = o[i as int];
        let parent = o[i - 1];
        let targets = g.nodes[parent].targets;
        let duties = without(targets, label);
        lemma_layout(g, o, (i - 1) as nat);
        assert(o.contains(parent));
        assert(g.contains(parent));
        lemma_without_contains(targets, label);
        assert forall|d: int| 0 <= d < duties.len() implies duties[d] != label by {
            assert(duties.contains(duties[d]));
        }
        lemma_next_row(above, label, g.has_edge(parent, label), duties);
        assert forall|c: int| 0 <= c < row.len() implies match #[trigger] row[c] {
            Slot::Connector(t) => exists|j: int| i < j < o.len() && o[j] == t,
            _ => true,
        } by {
            match row[c] {
                Slot::Connector(t) => {
                    if above.contains(Slot::Connector(t)) {
                        let a = choose|a: int|
                            0 <= a < above.len() && above[a] == Slot::Connector(t);
                        let j = choose|j: int| i - 1 < j < o.len() && o[j] == t;
                        assert(i < j < o.len() && o[j] == t);
                    } else {
                        assert(duties.contains(t));
                        assert(targets.contains(t));
                        assert(g.has_edge(parent, t));
                        assert(g.contains(t));
                        assert(o.contains(t));
                        let j = choose|j: int| 0 <= j < o.len() && o[j] == t;
                        assert(g.has_edge(o[i - 1], o[j]));
                        assert(i < j < o.len() && o[j] == t);
                    }
                },
                _ => {},
            }
        }
        assert(targets.len() <= o.len()) by {
            assert forall|k: u64| targets.contains(k) implies g.order.contains(k) by {
                assert(g.has_edge(parent, k));
            }
            lemma_no_longer(targets, g.order);
            lemma_order_len(g, o);
        }
        assert(1 + (i - 1) * (o.len() + 1) + o.len() + 1 == 1 + i * (o.len() + 1))
            by (nonlinear_arith);
    }
}

/// The last row has no connector: every edge has reached its node.
pub proof fn lemma_layout_ends<T: Label>(g: GraphView<T>, o: Seq<u64>)
    requires
        g.wf(),
        g.is_topological(o),
        o.len() > 0,
    ensures
        forall|c: int|
            0 <= c < layout(g, o, (o.len() - 1) as nat).len() ==> !(#[trigger] layout(
                g,
                o,
                (o.len() - 1) as nat,
            )[c] is Connector),
{
    lemma_layout(g, o, (o.len() - 1) as nat);
}

/// Each row has a column for every edge that leaves the row above it.
pub proof fn lemma_layout_resolves<T: Label>(g: GraphView<T>, o: Seq<u64>, i: nat)
    requires
        g.wf(),
        g.is_topological(o),
        i + 1 < o.len(),
    ensures
        resolves(
            layout(g, o, i),
            g.nodes[o[i as int]].targets,
            layout(g, o, i + 1),
            o[i as int + 1],
        ),
{
    let above = layout(g, o, i);
    let below = layout(g, o, i + 1);
    let label = o[i as int + 1];
    let parent = o[i as int];
    let targets = g.nodes[parent].targets;
    let duties = without(targets, label);
    assert(o.contains(parent));
    assert(g.contains(parent));
    lemma_without_contains(targets, label);
    assert forall|d: int| 0 <= d < duties.len() implies duties[d] != label by {
        assert(duties.contains(duties[d]));
    }
    lemma_next_row(above, label, g.has_edge(parent, label), duties);
    let n = choose|c: int| 0 <= c < below.len() && #[trigger] below[c] is Node;
    assert forall|t: u64|
        t == label || above.contains(Slot::Connector(t)) || targets.contains(
            t,
        ) implies #[trigger] column_of(below, label, t) is Some by {
        if t == label {
            lemma_column_found(below, label, t, 0, n);
        } else {
            assert(duties.contains(t) <==> targets.contains(t));
            assert(below.contains(Slot::Connector(t)));
            let c = choose|c: int| 0 <= c < below.len() && below[c] == Slot::Connector(t);
            lemma_column_found(below, label, t, 0, c);
        }
    }
    assert forall|c: int| 0 <= c < above.len() implies match #[trigger] above[c] {
        Slot::Connector(t) => column_of(below, label, t) is Some,
        _ => true,
    } by {
        match above[c] {
            Slot::Connector(t) => {
                assert(above.contains(Slot::Connector(t)));
                assert(column_of(below, label, t) is Some);
            },
            _ => {},
        }
    }
    assert forall|d: int| 0 <= d < targets.len() implies column_of(
        below,
        label,
        #[trigger] targets[d],
    ) is Some by {
        assert(targets.contains(targets[d]));
        assert(column_of(below, label, targets[d]) is Some);
    }
}

/// What stands in one column of a row: nothing, the node of the row, or an
/// edge on its way to the node of the label.
#[derive(Debug, PartialEq, Eq, Hash)]
pub enum Element<'a, T> {
    Empty,
    Node,
    Connector(&'a T),
}

impl<'a, T: Label> View for Element<'a, T> {
    type V = Slot;

    open spec fn view(&self) -> Slot {
        match self {
            Element::Empty => Slot::Empty,
            Element::Node => Slot::Node,
            Element::Connector(label) => Slot::Connector(label.key()),
        }
    }
}

impl<'a, T: Label> Element<'a, T> {
    /// Whether nothing stands in the column.
    pub fn is_empty(&self) -> (empty: bool)
        ensures
            empty == (self@ is Empty),
    {
        match self {
            Element::Empty => true,
            _ => false,
        }
    }

    /// Whether the node of the row stands in the column.
    pub fn is_node(&self) -> (node: bool)
        ensures
            node == (self@ is Node),
    {
        match self {
            Element::Node => true,
            _ => false,
        }
    }
}

/// One line of a diagram: the label of its node and what stands in each
/// column.
#[derive(Debug, PartialEq, Eq, Hash)]
pub struct Row<'a, T> {
    pub label: &'a T,
    pub elements: Vec<Element<'a, T>>,
}

/// What a row is to the contracts.
pub struct RowView<T> {
    pub label: T,
    pub slots: Seq<Slot>,
}

impl<'a, T: Label> View for Row<'a, T> {
    type V = RowView<T>;

    open spec fn view(&self) -> RowView<T> {
        RowView {
            label: *self.label,
            slots: self.elements@.map_values(|e: Element<'a, T>| e@),
        }
    }
}

impl<'a, T: Label> Row<'a, T> {
    /// A row without columns.
    pub fn new(label: &'a T) -> (row: Self)
        ensures
            row@ == (RowView { label: *label, slots: Seq::empty() }),
    {
        let row = Row { label, elements: Vec::new() };
        assert(row@.slots =~= Seq::empty());
        row
    }

    /// The first column that shows the key `wanted`.
    pub(crate) fn column(&self, wanted: u64) -> (column: Option<usize>)
        ensures
            match column {
                Some(c) => column_of(self@.slots, self@.label.key(), wanted) == Some(c as int),
                None => column_of(self@.slots, self@.label.key(), wanted) is None,
            },
    {
        let own = self.label.hash();
        let mut c: usize = 0;
        while c < self.elements.len()
            invariant
                c <= self.elements@.len(),
                own == self@.label.key(),
                column_of(self@.slots, own, wanted) == column_from(
                    self@.slots,
                    own,
                    wanted,
                    c as int,
                ),
            decreases self.elements@.len() - c,
        {
            let found = match &self.elements[c] {
                Element::Empty => false,
                Element::Node => own == wanted,
                Element::Connector(other) => other.hash() == wanted,
            };
            assert(found == shows(self@.slots[c as int], own, wanted));
            if found {
                return Some(c);
            }
            c += 1;
        }
        None
    }

    /// The first column that shows `label`: the node of the row if `label`
    /// is its own, or a connector to the node of `label`.
    pub fn index_of(&self, label: &T) -> (column: Option<usize>)
        ensures
            match column {
                Some(c) => column_of(self@.slots, self@.label.key(), label.key()) == Some(c as int),
                None => column_of(self@.slots, self@.label.key(), label.key()) is None,
            },
    {
        self.column(label.hash())
    }
}

/// Whether `rows` are the rows of the graph laid out in the order `o`.
pub open spec fn laid_out<T: Label>(g: GraphView<T>, o: Seq<u64>, rows: Seq<RowView<T>>) -> bool {
    &&& rows.len() == o.len()
    &&& forall|i: int|
        0 <= i < rows.len() ==> (#[trigger] rows[i]).label == g.nodes[o[i]].label && rows[i].slots
            == layout(g, o, i as nat)
}

impl<T: Label> Graph<T> {
    /// The labels of the nodes that the node under `above` has edges to,
    /// but for the node under `label`.
    fn duties<'a>(&'a self, above: u64, label: u64) -> (labels: Vec<&'a T>)
        requires
            self.wf(),
            self@.contains(above),
        ensures
            labels@.len() == without(self@.nodes[above].targets, label).len(),
            forall|d: int|
                0 <= d < labels@.len() ==> (#[trigger] labels@[d]).key() == without(
                    self@.nodes[above].targets,
                    label,
                )[d],
    {
        let mut labels: Vec<&'a T> = Vec::new();
        let node = match self.node(above) {
            Some(node) => node,
            None => return labels,
        };
        let ghost targets = node@.targets;
        let mut j: usize = 0;
        while j < node.degree()
            invariant
                self.wf(),
                self@.contains(above),
                node@ == self@.nodes[above],
                targets == node@.targets,
                j <= targets.len(),
                labels@.len() == without(targets.take(j as int), label).len(),
                forall|d: int|
                    0 <= d < labels@.len() ==> (#[trigger] labels@[d]).key() == without(
                        targets.take(j as int),
                        label,
                    )[d],
            decreases targets.len() - j,
        {
            let to = node.target(j);
            proof {
                assert(self@.has_edge(above, to));
                assert(targets.take(j + 1) =~= targets.take(j as int).push(to));
                assert(targets.take(j + 1).no_duplicates()) by {
                    let t = targets.take(j + 1);
                    assert forall|x: int, y: int|
                        0 <= x < t.len() && 0 <= y < t.len() && x != y implies t[x] != t[y] by {
                        assert(targets[x] != targets[y]);
                    }
                }
                lemma_without_push(targets.take(j as int), to, label);
            }
            if to != label {
                match self.node(to) {
                    Some(other) => labels.push(other.name()),
                    None => {},
                }
            }
            j += 1;
        }
        assert(targets.take(j as int) =~= targets);
        labels
    }

    /// The row of the node under `label` below the row `above`, which is
    /// the row of the node under `parent`.
    fn row_below<'a>(&'a self, above: &Row<'a, T>, parent: u64, name: &'a T) -> (row: Row<'a, T>)
        requires
            self.wf(),
            self@.contains(parent),
        ensures
            row@.label == *name,
            row@.slots == next_row(
                above@.slots,
                name.key(),
                self@.has_edge(parent, name.key()),
                without(self@.nodes[parent].targets, name.key()),
            ),
    {
        let label = name.hash();
        let ghost wanted_duties = without(self@.nodes[parent].targets, label);
        let wanted = match self.node(parent) {
            Some(node) => node.points_at(label),
            None => false,
        };
        let duties = self.duties(parent, label);
        let ghost duty_keys = duties@.map_values(|l: &'a T| l.key());
        assert(duty_keys =~= wanted_duties);
        let mut elements: Vec<Element<'a, T>> = Vec::new();
        let mut placed = false;
        let mut taken: usize = 0;
        let mut c: usize = 0;
        proof {
            assert(elements@.map_values(|e: Element<'a, T>| e@) =~= Seq::<Slot>::empty());
            assert(duty_keys.skip(0) =~= duty_keys);
            assert(above@.slots.take(0) =~= Seq::<Slot>::empty());
        }
        while c < above.elements.len()
            invariant
                c <= above.elements@.len(),
                taken <= duties@.len(),
                duty_keys == duties@.map_values(|l: &'a T| l.key()),
                scan(above@.slots.take(c as int), label, wanted, duty_keys).out
                    == elements@.map_values(|e: Element<'a, T>| e@),
                scan(above@.slots.take(c as int), label, wanted, duty_keys).placed == placed,
                scan(above@.slots.take(c as int), label, wanted, duty_keys).left
                    == duty_keys.skip(taken as int),
            decreases above.elements@.len() - c,
        {
            let ghost before = scan(above@.slots.take(c as int), label, wanted, duty_keys);
            let ghost slot = above@.slots[c as int];
            proof {
                assert(above@.slots.take(c + 1).drop_last() =~= above@.slots.take(c as int));
                assert(above@.slots.take(c + 1).last() == slot);
            }
            let ends_here = match &above.elements[c] {
                Element::Connector(other) => other.hash() == label,
                _ => false,
            };
            let free = match &above.elements[c] {
                Element::Connector(_) => ends_here,
                Element::Node => wanted,
                Element::Empty => true,
            };
            let passes = match &above.elements[c] {
                Element::Connector(_) => !ends_here,
                _ => false,
            };
            let element = if passes {
                match &above.elements[c] {
                    Element::Connector(other) => Element::Connector(*other),
                    _ => Element::Empty,
                }
            } else if !placed && free {
                placed = true;
                Element::Node
            } else if !ends_here && taken < duties.len() {
                let duty = duties[taken];
                taken += 1;
                proof {
                    assert(duty_keys.skip(taken as int) =~= before.left.skip(1));
                    assert(before.left[0] == duty.key());
                }
                Element::Connector(duty)
            } else {
                Element::Empty
            };
            elements.push(element);
            proof {
                let after = scan_step(before, slot, label, wanted);
                assert(elements@.map_values(|e: Element<'a, T>| e@) =~= after.out);
            }
            c += 1;
        }
        assert(above@.slots.take(c as int) =~= above@.slots);
        let ghost done = scan(above@.slots, label, wanted, duty_keys);
        let ghost first = taken as int;
        proof {
            assert(done.left.take(0) =~= Seq::<u64>::empty());
            assert(done.out + connectors(Seq::<u64>::empty()) =~= done.out);
        }
        while taken < duties.len()
            invariant
                0 <= first <= taken <= duties@.len(),
                duty_keys == duties@.map_values(|l: &'a T| l.key()),
                done.left == duty_keys.skip(first),
                elements@.map_values(|e: Element<'a, T>| e@) == done.out + connectors(
                    done.left.take(taken - first),
                ),
            decreases duties@.len() - taken,
        {
            let duty = duties[taken];
            let ghost n = taken - first;
            let ghost shown = elements@.map_values(|e: Element<'a, T>| e@);
            elements.push(Element::Connector(duty));
            taken += 1;
            proof {
                assert(duties@[first + n] == duty);
                assert(duty_keys[first + n] == duty.key());
                assert(done.left.len() == duty_keys.len() - first);
                assert(done.left[n] == duty_keys[first + n]);
                assert(done.left.take(n + 1) =~= done.left.take(n).push(duty.key()));
                assert(connectors(done.left.take(n + 1)) =~= connectors(done.left.take(n)).push(
                    Slot::Connector(duty.key()),
                ));
                assert(elements@.map_values(|e: Element<'a, T>| e@) =~= shown.push(
                    Slot::Connector(duty.key()),
                ));
                assert(shown.push(Slot::Connector(duty.key())) =~= done.out + connectors(
                    done.left.take(n + 1),
                ));
            }
        }
        assert(done.left.take(taken - first) =~= done.left);
        if !placed {
            elements.push(Element::Node);
        }
        let row = Row { label: name, elements };
        assert(row@.slots =~= finish(done));
        row
    }

    /// The rows of the diagram: one for each node, in the order of the sort,
    /// in which each node comes after the nodes that have an edge to it.
    pub fn get_rows<'a>(&'a self) -> (rows: Vec<Row<'a, T>>)
        requires
            self.wf(),
        ensures
            self@.is_topological(self@.sorted()),
            laid_out(self@, self@.sorted(), rows@.map_values(|r: Row<'a, T>| r@)),
    {
        let keys = self.sorted_keys();
        let mut rows: Vec<Row<'a, T>> = Vec::new();
        let mut i: usize = 0;
        while i < keys.len()
            invariant
                self.wf(),
                self@.is_topological(keys@),
                i <= keys@.len(),
                rows@.len() == i,
                forall|j: int|
                    0 <= j < i ==> (#[trigger] rows@[j])@.label == self@.nodes[keys@[j]].label
                        && rows@[j]@.slots == layout(self@, keys@, j as nat),
            decreases keys@.len() - i,
        {
            let key = keys[i];
            assert(keys@.contains(key));
            match self.node(key) {
                Some(node) => {
                    let row = if i == 0 {
                        let mut first = Row::new(node.name());
                        first.elements.push(Element::Node);
                        assert(first@.slots =~= seq![Slot::Node]);
                        first
                    } else {
                        let parent = keys[i - 1];
                        assert(keys@.contains(parent));
                        self.row_below(&rows[i - 1], parent, node.name())
                    };
                    rows.push(row);
                },
                None => {},
            }
            i += 1;
        }
        proof {
            let views = rows@.map_values(|r: Row<'a, T>| r@);
            assert(laid_out(self@, keys@, views));
        }
        rows
    }
}

} // verus!
