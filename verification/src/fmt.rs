use crate::graph::Graph;
use crate::label::Label;
use crate::layout::{
    column_of, laid_out, layout, lemma_column_from, lemma_layout, lemma_layout_resolves,
    lemma_nodes_in_add, lemma_order_len, nodes_in, resolves, Element, Row, Slot,
};
use crate::model::GraphView;
use crate::render::{block_text, draw, join, joined, lemma_place, Canvas, Grid};
use crate::seqs::lemma_no_longer;
use vstd::prelude::*;

verus! {

/// The paths that leave one column of a row: one from a connector, to the
/// first column below that shows its key; one from the node for each key in
/// `targets`; none from an empty column.
pub open spec fn column_paths(
    slot: Slot,
    c: int,
    targets: Seq<u64>,
    below: Seq<Slot>,
    own: u64,
) -> Seq<(int, int)> {
    match slot {
        Slot::Empty => Seq::empty(),
        Slot::Connector(t) => seq![(c, column_of(below, own, t)->0)],
        Slot::Node => targets.map_values(|t: u64| (c, column_of(below, own, t)->0)),
    }
}

/// The paths that leave the first `upto` columns of the row `above`, column
/// by column.
pub open spec fn paths(
    above: Seq<Slot>,
    targets: Seq<u64>,
    below: Seq<Slot>,
    own: u64,
    upto: nat,
) -> Seq<(int, int)>
    decreases upto,
{
    if upto == 0 {
        Seq::empty()
    } else {
        paths(above, targets, below, own, (upto - 1) as nat) + column_paths(
            above[upto - 1],
            upto - 1,
            targets,
            below,
            own,
        )
    }
}

/// The number of columns that the lines between two rows have.
pub open spec fn columns(above: Seq<Slot>, below: Seq<Slot>) -> nat {
    if above.len() >= below.len() && above.len() >= 1 {
        above.len()
    } else if below.len() >= 1 {
        below.len()
    } else {
        1
    }
}

/// The lines between the row `above` and the row `below`, whose node has the
/// key `own`. `targets` are the keys that the node above has edges to.
pub open spec fn connector_lines(
    above: Seq<Slot>,
    targets: Seq<u64>,
    below: Seq<Slot>,
    own: u64,
) -> Grid {
    draw(columns(above, below), paths(above, targets, below, own, above.len()))
}

/// Whether the lines between two rows can be counted in `usize`.
pub open spec fn block_fits(above: Seq<Slot>, targets: Seq<u64>, below: Seq<Slot>) -> bool {
    (above.len() + targets.len() + 1) * (2 * columns(above, below)) <= usize::MAX
}

/// What one column of a row shows: a blank where it is empty, the text of
/// the label in the column of the node, and a bar for a connector.
pub open spec fn slot_text(slot: Slot, name: Seq<char>) -> Seq<char> {
    match slot {
        Slot::Empty => seq![' '],
        Slot::Node => name,
        Slot::Connector(_) => seq!['|'],
    }
}

/// The text of a row: what each column shows, with a blank between each two.
pub open spec fn row_text(slots: Seq<Slot>, name: Seq<char>) -> Seq<char> {
    join(slots.map_values(|s: Slot| slot_text(s, name)), ' ')
}

/// The pieces of the diagram down to the `k`-th row: the text of each row,
/// and between each two rows the lines that join them.
pub open spec fn pieces<T: Label>(g: GraphView<T>, o: Seq<u64>, k: nat) -> Seq<Seq<char>>
    decreases k,
{
    if k == 0 {
        Seq::empty()
    } else if k == 1 {
        seq![row_text(layout(g, o, 0), g.nodes[o[0]].label.text())]
    } else {
        pieces(g, o, (k - 1) as nat).push(
            block_text(
                connector_lines(
                    layout(g, o, (k - 2) as nat),
                    g.nodes[o[k - 2]].targets,
                    layout(g, o, (k - 1) as nat),
                    o[k - 1],
                ),
            ),
        ).push(row_text(layout(g, o, (k - 1) as nat), g.nodes[o[k - 1]].label.text()))
    }
}

/// The diagram of the graph laid out in the order `o`: its pieces with a
/// line break between each two.
pub open spec fn diagram_text<T: Label>(g: GraphView<T>, o: Seq<u64>) -> Seq<char> {
    join(pieces(g, o, o.len()), '\n')
}

impl<T> GraphView<T> {
    /// The number of columns that no row of a diagram of the graph exceeds.
    pub open spec fn page_width(self) -> nat {
        self.order.len() * (self.order.len() + 1) + 1
    }

    /// Whether the positions and lines of a diagram of the graph can be
    /// counted in `usize`.
    pub open spec fn drawable(self) -> bool {
        (self.page_width() + self.order.len() + 1) * (2 * self.page_width()) <= usize::MAX
    }
}

/// std's `FromIterator<&char>` for `String`, through `Iterator::collect`: the
/// string that holds the characters of `chars`, in their order.
#[verifier::external_body]
fn text_of(chars: &Vec<char>) -> (text: String)
    ensures
        text@ == chars@,
{
    chars.iter().collect()
}

impl<'a, T: Label> Row<'a, T> {
    /// The characters of the row's text.
    pub(crate) fn chars(&self) -> (text: Vec<char>)
        ensures
            text@ == row_text(self@.slots, self@.label.text()),
    {
        let ghost name = self@.label.text();
        let ghost wanted = self@.slots.map_values(|s: Slot| slot_text(s, name));
        let mut parts: Vec<Vec<char>> = Vec::new();
        let mut c: usize = 0;
        while c < self.elements.len()
            invariant
                c <= self.elements@.len(),
                parts@.len() == c,
                name == self@.label.text(),
                forall|j: int|
                    0 <= j < c ==> (#[trigger] parts@[j])@ == slot_text(self@.slots[j], name),
            decreases self.elements@.len() - c,
        {
            let part = match &self.elements[c] {
                Element::Empty => {
                    let mut blank: Vec<char> = Vec::new();
                    blank.push(' ');
                    assert(blank@ =~= seq![' ']);
                    blank
                },
                Element::Node => self.label.show(),
                Element::Connector(_) => {
                    let mut bar: Vec<char> = Vec::new();
                    bar.push('|');
                    assert(bar@ =~= seq!['|']);
                    bar
                },
            };
            parts.push(part);
            c += 1;
        }
        assert(parts@.map_values(|p: Vec<char>| p@) =~= wanted);
        joined(&parts, ' ')
    }

    /// The text of the row: a blank for an empty column, the text of the
    /// label in the column of the node, a bar for a connector, and a blank
    /// between each two columns.
    pub fn text(&self) -> (text: String)
        ensures
            text@ == row_text(self@.slots, self@.label.text()),
    {
        text_of(&self.chars())
    }
}

/// The row up to a column holds the node no more often than the whole row.
proof fn lemma_nodes_in_take(slots: Seq<Slot>, c: int)
    requires
        0 <= c <= slots.len(),
    ensures
        nodes_in(slots.take(c)) <= nodes_in(slots),
{
    lemma_nodes_in_add(slots.take(c), slots.skip(c));
    assert(slots.take(c) + slots.skip(c) =~= slots);
}

/// No more paths leave a row than it has columns and its node has edges.
proof fn lemma_paths_len(above: Seq<Slot>, targets: Seq<u64>, below: Seq<Slot>, own: u64, upto: nat)
    requires
        upto <= above.len(),
    ensures
        paths(above, targets, below, own, upto).len() <= upto + nodes_in(above.take(upto as int))
            * targets.len(),
    decreases upto,
{
    if upto > 0 {
        lemma_paths_len(above, targets, below, own, (upto - 1) as nat);
        assert(above.take(upto as int).drop_last() =~= above.take(upto - 1));
        let n = nodes_in(above.take(upto - 1));
        assert((n + 1) * targets.len() == n * targets.len() + targets.len()) by (nonlinear_arith);
    } else {
        assert(0 * targets.len() == 0) by (nonlinear_arith);
    }
}

impl<T: Label> Graph<T> {
    /// Draws on `canvas` one path, from the column `from` to the column
    /// `to`.
    pub fn draw_connector(&self, canvas: &mut Canvas, from: usize, to: usize)
        requires
            old(canvas).wf(),
            from < old(canvas)@.tails.len(),
            to < old(canvas)@.tails.len(),
            old(canvas)@.lines.len() + 2 * old(canvas)@.tails.len() <= usize::MAX,
        ensures
            final(canvas).wf(),
            final(canvas)@ == old(canvas)@.place(from as int, to as int),
    {
        canvas.draw_connector(from, to);
    }

    /// The characters of the lines between two rows.
    pub(crate) fn connectors(&self, prev: &Row<T>, next: &Row<T>) -> (text: Vec<char>)
        requires
            self.wf(),
            self@.contains(prev@.label.key()),
            nodes_in(prev@.slots) <= 1,
            resolves(
                prev@.slots,
                self@.nodes[prev@.label.key()].targets,
                next@.slots,
                next@.label.key(),
            ),
            block_fits(prev@.slots, self@.nodes[prev@.label.key()].targets, next@.slots),
        ensures
            text@ == block_text(
                connector_lines(
                    prev@.slots,
                    self@.nodes[prev@.label.key()].targets,
                    next@.slots,
                    next@.label.key(),
                ),
            ),
    {
        let ghost above = prev@.slots;
        let ghost below = next@.slots;
        let ghost own = next@.label.key();
        let parent = prev.label.hash();
        let ghost targets = self@.nodes[parent].targets;
        let mut cols = prev.elements.len();
        if next.elements.len() > cols {
            cols = next.elements.len();
        }
        if cols < 1 {
            cols = 1;
        }
        assert(cols == columns(above, below));
        assert(2 * cols <= usize::MAX) by (nonlinear_arith)
            requires
                (above.len() + targets.len() + 1) * (2 * cols) <= usize::MAX,
        ;
        let mut canvas = Canvas::new(cols);
        let ghost mut done: Seq<(int, int)> = Seq::empty();
        let mut c: usize = 0;
        proof {
            assert(above.take(0) =~= Seq::<Slot>::empty());
        }
        while c < prev.elements.len()
            invariant
                self.wf(),
                self@.contains(parent),
                parent == prev@.label.key(),
                above == prev@.slots,
                below == next@.slots,
                own == next@.label.key(),
                targets == self@.nodes[parent].targets,
                cols == columns(above, below),
                nodes_in(above) <= 1,
                resolves(above, targets, below, own),
                (above.len() + targets.len() + 1) * (2 * cols) <= usize::MAX,
                c <= above.len(),
                canvas.wf(),
                canvas@.tails.len() == cols,
                canvas@ == draw(cols as nat, done),
                done == paths(above, targets, below, own, c as nat),
                canvas@.lines.len() <= done.len() * (2 * cols),
            decreases above.len() - c,
        {
            let ghost slot = above[c as int];
            let ghost before = done;
            proof {
                lemma_paths_len(above, targets, below, own, c as nat);
                lemma_paths_len(above, targets, below, own, (c + 1) as nat);
                lemma_nodes_in_take(above, c as int);
                lemma_nodes_in_take(above, c + 1);
                assert(nodes_in(above.take(c as int)) * targets.len() <= targets.len())
                    by (nonlinear_arith)
                    requires
                        nodes_in(above.take(c as int)) <= 1,
                ;
                assert(nodes_in(above.take(c + 1)) * targets.len() <= targets.len())
                    by (nonlinear_arith)
                    requires
                        nodes_in(above.take(c + 1)) <= 1,
                ;
            }
            match &prev.elements[c] {
                Element::Empty => {
                    proof {
                        assert(before + column_paths(slot, c as int, targets, below, own)
                            =~= before);
                    }
                },
                Element::Connector(label) => {
                    let key = label.hash();
                    proof {
                        lemma_column_from(below, own, key, 0);
                        lemma_room(
                            canvas@.lines.len() as int,
                            done.len() as int,
                            (above.len() + targets.len()) as int,
                            cols as int,
                        );
                        lemma_place(canvas@, c as int, column_of(below, own, key)->0);
                        lemma_grown(
                            canvas@.lines.len() as int,
                            done.len() as int,
                            cols as int,
                            canvas@.place(
                                c as int,
                                column_of(below, own, key)->0,
                            ).lines.len() as int,
                        );
                    }
                    match next.column(key) {
                        Some(to) => {
                            self.draw_connector(&mut canvas, c, to);
                            proof {
                                done = before.push((c as int, to as int));
                                assert(done.drop_last() =~= before);
                                assert(done =~= before + column_paths(
                                    slot,
                                    c as int,
                                    targets,
                                    below,
                                    own,
                                ));
                            }
                        },
                        None => {},
                    }
                },
                Element::Node => {
                    let node = self.node(parent);
                    match node {
                        Some(node) => {
                            let mut j: usize = 0;
                            proof {
                                assert(targets.take(0) =~= Seq::<u64>::empty());
                                assert(before + targets.take(0).map_values(
                                    |t: u64| (c as int, column_of(below, own, t)->0),
                                ) =~= before);
                            }
                            while j < node.degree()
                                invariant
                                    self.wf(),
                                    self@.contains(parent),
                                    node@ == self@.nodes[parent],
                                    targets == node@.targets,
                                    below == next@.slots,
                                    own == next@.label.key(),
                                    cols == columns(above, below),
                                    resolves(above, targets, below, own),
                                    (above.len() + targets.len() + 1) * (2 * cols) <= usize::MAX,
                                    c < above.len(),
                                    j <= targets.len(),
                                    before.len() <= c + targets.len(),
                                    before.len() + targets.len() <= above.len() + targets.len(),
                                    canvas.wf(),
                                    canvas@.tails.len() == cols,
                                    canvas@ == draw(cols as nat, done),
                                    done == before + targets.take(j as int).map_values(
                                        |t: u64| (c as int, column_of(below, own, t)->0),
                                    ),
                                    canvas@.lines.len() <= done.len() * (2 * cols),
                                decreases targets.len() - j,
                            {
                                let key = node.target(j);
                                let ghost so_far = done;
                                proof {
                                    lemma_column_from(below, own, key, 0);
                                    lemma_room(
                                        canvas@.lines.len() as int,
                                        done.len() as int,
                                        (above.len() + targets.len()) as int,
                                        cols as int,
                                    );
                                    lemma_place(canvas@, c as int, column_of(below, own, key)->0);
                                    lemma_grown(
                                        canvas@.lines.len() as int,
                                        done.len() as int,
                                        cols as int,
                                        canvas@.place(
                                            c as int,
                                            column_of(below, own, key)->0,
                                        ).lines.len() as int,
                                    );
                                }
                                match next.column(key) {
                                    Some(to) => {
                                        self.draw_connector(&mut canvas, c, to);
                                        proof {
                                            done = so_far.push((c as int, to as int));
                                            assert(done.drop_last() =~= so_far);
                                            assert(targets.take(j + 1) =~= targets.take(
                                                j as int,
                                            ).push(key));
                                            assert(done =~= before + targets.take(
                                                j + 1,
                                            ).map_values(
                                                |t: u64| (c as int, column_of(below, own, t)->0),
                                            ));
                                        }
                                    },
                                    None => {},
                                }
                                j += 1;
                            }
                            proof {
                                assert(targets.take(j as int) =~= targets);
                            }
                        },
                        None => {},
                    }
                },
            }
            c += 1;
        }
        canvas.text()
    }

    /// The lines between two rows of a diagram, as one text with a line
    /// break between each two lines. From each connector of the row above a
    /// path leads to the first column below that shows its label, and from
    /// the node above one path for each of its edges: a bar where the two
    /// columns are one, strokes that lean to the right or to the left
    /// otherwise. A path that would cross one drawn before waits as many
    /// lines as it takes to get clear of it.
    pub fn draw_connectors(&self, prev: &Row<T>, next: &Row<T>) -> (text: String)
        requires
            self.wf(),
            self@.contains(prev@.label.key()),
            nodes_in(prev@.slots) <= 1,
            resolves(
                prev@.slots,
                self@.nodes[prev@.label.key()].targets,
                next@.slots,
                next@.label.key(),
            ),
            block_fits(prev@.slots, self@.nodes[prev@.label.key()].targets, next@.slots),
        ensures
            text@ == block_text(
                connector_lines(
                    prev@.slots,
                    self@.nodes[prev@.label.key()].targets,
                    next@.slots,
                    next@.label.key(),
                ),
            ),
    {
        text_of(&self.connectors(prev, next))
    }
}

/// Between two rows of a laid-out graph, the lines can be counted where the
/// diagram of the graph can.
proof fn lemma_block_fits<T: Label>(g: GraphView<T>, o: Seq<u64>, i: nat)
    requires
        g.wf(),
        g.is_topological(o),
        g.drawable(),
        i + 1 < o.len(),
    ensures
        block_fits(layout(g, o, i), g.nodes[o[i as int]].targets, layout(g, o, i + 1)),
{
    let above = layout(g, o, i);
    let below = layout(g, o, i + 1);
    let targets = g.nodes[o[i as int]].targets;
    let n = o.len();
    let w = g.page_width();
    lemma_order_len(g, o);
    lemma_layout(g, o, i);
    lemma_layout(g, o, i + 1);
    assert(o.contains(o[i as int]));
    assert(targets.len() <= n) by {
        assert forall|k: u64| targets.contains(k) implies g.order.contains(k) by {
            assert(g.has_edge(o[i as int], k));
        }
        lemma_no_longer(targets, g.order);
    }
    assert(1 + i * (n + 1) <= w && 1 + (i + 1) * (n + 1) <= w) by (nonlinear_arith)
        requires
            i + 1 < n,
            w == n * (n + 1) + 1,
    ;
    let cols = columns(above, below);
    assert((above.len() + targets.len() + 1) * (2 * cols) <= (w + n + 1) * (2 * w))
        by (nonlinear_arith)
        requires
            above.len() <= w,
            targets.len() <= n,
            cols <= w,
    ;
}

impl<T: Label> Graph<T> {
    /// Whether the positions and lines of a diagram of the graph can be
    /// counted in `usize`, so that `diagram` can draw it.
    pub fn drawable(&self) -> (ok: bool)
        ensures
            ok == self@.drawable(),
    {
        let n = self.size();
        if n >= 0x1_0000 {
            assert(!self@.drawable()) by (nonlinear_arith)
                requires
                    n >= 0x1_0000,
                    n == self@.order.len(),
                    self@.page_width() == self@.order.len() * (self@.order.len() + 1) + 1,
                    self@.drawable() == ((self@.page_width() + self@.order.len() + 1) * (2
                        * self@.page_width()) <= usize::MAX),
                    usize::MAX <= 0xffff_ffff_ffff_ffff,
            ;
            return false;
        }
        let n = n as u128;
        assert(n * (n + 1) + 1 <= 0x1_0001_0000) by (nonlinear_arith)
            requires
                0 <= n < 0x1_0000,
        ;
        let width: u128 = n * (n + 1) + 1;
        assert((width + n + 1) * (2 * width) <= 0x4_0000_0000_0000_0000_0000) by (nonlinear_arith)
            requires
                0 <= n < 0x1_0000,
                0 <= width <= 0x1_0001_0000,
        ;
        (width + n + 1) * (2 * width) <= usize::MAX as u128
    }

    /// The diagram of the graph: a row for each node, in the order of the
    /// sort, in which each node comes after the nodes that have an edge to
    /// it, and between each two rows the lines that join them, with a line
    /// break between each two pieces. The text is empty where the graph has
    /// no node.
    pub fn diagram(&self) -> (text: String)
        requires
            self.wf(),
            self@.drawable(),
        ensures
            self@.is_topological(self@.sorted()),
            text@ == diagram_text(self@, self@.sorted()),
    {
        let rows = self.get_rows();
        let ghost views = rows@.map_values(|r: Row<T>| r@);
        let ghost o = self@.sorted();
        let mut result: Vec<Vec<char>> = Vec::new();
        let mut i: usize = 0;
        while i < rows.len()
            invariant
                self.wf(),
                self@.drawable(),
                self@.is_topological(o),
                views == rows@.map_values(|r: Row<T>| r@),
                laid_out(self@, o, views),
                i <= rows@.len(),
                result@.map_values(|p: Vec<char>| p@) == pieces(self@, o, i as nat),
            decreases rows@.len() - i,
        {
            let ghost before = result@.map_values(|p: Vec<char>| p@);
            proof {
                assert(views[i as int] == rows@[i as int]@);
                assert(o.contains(o[i as int]));
            }
            if i > 0 {
                proof {
                    assert(views[i - 1] == rows@[i - 1]@);
                    assert(o.contains(o[i - 1]));
                    lemma_layout(self@, o, (i - 1) as nat);
                    lemma_layout_resolves(self@, o, (i - 1) as nat);
                    lemma_block_fits(self@, o, (i - 1) as nat);
                }
                let block = self.connectors(&rows[i - 1], &rows[i]);
                result.push(block);
            }
            let line = rows[i].chars();
            result.push(line);
            proof {
                let after = result@.map_values(|p: Vec<char>| p@);
                if i > 0 {
                    assert(after =~= before.push(
                        block_text(
                            connector_lines(
                                layout(self@, o, (i - 1) as nat),
                                self@.nodes[o[i - 1]].targets,
                                layout(self@, o, i as nat),
                                o[i as int],
                            ),
                        ),
                    ).push(
                        row_text(
                            layout(self@, o, i as nat),
                            self@.nodes[o[i as int]].label.text(),
                        ),
                    ));
                } else {
                    assert(after =~= seq![
                        row_text(layout(self@, o, 0), self@.nodes[o[0]].label.text()),
                    ]);
                }
            }
            i += 1;
        }
        text_of(&joined(&result, '\n'))
    }
}

/// There is room for one more path while fewer are drawn than may be.
proof fn lemma_room(height: int, drawn: int, most: int, cols: int)
    requires
        0 <= height <= drawn * (2 * cols),
        0 <= drawn <= most,
        1 <= cols,
        (most + 1) * (2 * cols) <= usize::MAX,
    ensures
        height + 2 * cols <= usize::MAX,
{
    assert((drawn + 1) * (2 * cols) <= (most + 1) * (2 * cols)) by (nonlinear_arith)
        requires
            0 <= drawn <= most,
            1 <= cols,
    ;
    assert((drawn + 1) * (2 * cols) == drawn * (2 * cols) + 2 * cols) by (nonlinear_arith);
}

/// With one more path the lines are still no more than the paths allow.
proof fn lemma_grown(height: int, drawn: int, cols: int, after: int)
    requires
        0 <= height <= drawn * (2 * cols),
        after <= height + 2 * cols,
    ensures
        after <= (drawn + 1) * (2 * cols),
{
    assert((drawn + 1) * (2 * cols) == drawn * (2 * cols) + 2 * cols) by (nonlinear_arith);
}

} // verus!
