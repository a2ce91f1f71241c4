use dagraph::graph::Graph;
use dagraph::label::Keyed;
use dagraph::layout::{Element, Row};
use dagraph::render::Canvas;

#[test]
fn disconnected_line_rows() {
    let g = Graph::init(('a'..='c').collect());
    let mut rows = g.get_rows().into_iter();

    // A node that the node above has no edge to does not take its column.
    assert_eq!(rows.next(), Some(Row { label: &'a', elements: vec![Element::Node] }));
    assert_eq!(
        rows.next(),
        Some(Row { label: &'b', elements: vec![Element::Empty, Element::Node] })
    );
    assert_eq!(
        rows.next(),
        Some(Row { label: &'c', elements: vec![Element::Node, Element::Empty] })
    );
    assert!(rows.next().is_none());
}

#[test]
fn connected_line_rows() {
    let mut g = Graph::init(('a'..='c').collect());
    assert!(g.connect(&'a', &'b'));
    assert!(g.connect(&'b', &'c'));
    let mut rows = g.get_rows().into_iter();

    assert_eq!(rows.next(), Some(Row { label: &'a', elements: vec![Element::Node] }));
    assert_eq!(rows.next(), Some(Row { label: &'b', elements: vec![Element::Node] }));
    assert_eq!(rows.next(), Some(Row { label: &'c', elements: vec![Element::Node] }));
    assert!(rows.next().is_none());
}

#[test]
fn simple_unique_ordering_rows() {
    let mut g = Graph::init(('a'..='c').collect());
    assert!(g.connect(&'a', &'b'));
    assert!(g.connect(&'a', &'c'));
    assert!(g.connect(&'b', &'c'));

    assert_eq!(
        g.get_rows(),
        vec![
            Row { label: &'a', elements: vec![Element::Node] },
            Row { label: &'b', elements: vec![Element::Node, Element::Connector(&'c')] },
            Row { label: &'c', elements: vec![Element::Node, Element::Empty] }
        ]
    );
}

#[test]
fn complex_unique_ordering_rows() {
    let mut g = Graph::init(('a'..='e').collect());
    assert!(g.connect(&'a', &'b'));
    assert!(g.connect(&'a', &'c'));
    assert!(g.connect(&'b', &'c'));
    assert!(g.connect(&'b', &'e'));
    assert!(g.connect(&'c', &'d'));
    assert!(g.connect(&'c', &'e'));
    assert!(g.connect(&'e', &'d'));

    // A connector that ends in a row whose node has its column already leaves
    // its column empty; a key that waits goes behind the row.
    assert_eq!(
        g.get_rows(),
        vec![
            Row { label: &'a', elements: vec![Element::Node] },
            Row { label: &'b', elements: vec![Element::Node, Element::Connector(&'c')] },
            Row {
                label: &'c',
                elements: vec![Element::Node, Element::Empty, Element::Connector(&'e')],
            },
            Row {
                label: &'e',
                elements: vec![Element::Node, Element::Connector(&'d'), Element::Empty],
            },
            Row { label: &'d', elements: vec![Element::Node, Element::Empty, Element::Empty] }
        ]
    );
}

#[test]
fn disconnected_line() {
    let g = Graph::init(('a'..='c').collect());
    assert_eq!(format!("\n{}\n", g.diagram()), "\na\n\n  b\n\nc  \n");
}

#[test]
fn connected_line() {
    let mut g = Graph::init(('a'..='c').collect());
    assert!(g.connect(&'a', &'b'));
    assert!(g.connect(&'b', &'c'));

    assert_eq!(format!("\n{}\n", g.diagram()), r"
a
|
b
|
c
"
    );
}

#[test]
fn unique_ordering() {
    let mut g = Graph::init(('a'..='e').collect());
    assert!(g.connect(&'a', &'b'));
    assert!(g.connect(&'a', &'c'));
    assert!(g.connect(&'b', &'c'));
    assert!(g.connect(&'b', &'e'));
    assert!(g.connect(&'c', &'d'));
    assert!(g.connect(&'c', &'e'));
    assert!(g.connect(&'e', &'d'));

    let lines = [
        "a",
        "|\\",
        "b |",
        "|\\|",
        "|/\\",
        "|  \\",
        "c   |",
        "|\\ /",
        "| |",
        "|/|",
        "e |  ",
        "|/",
        "d    ",
    ];
    assert_eq!(g.diagram(), lines.join("\n"));
}

#[test]
fn complex() {
    let mut g = Graph::init(('a'..='f').collect());

    assert!(g.connect(&'a', &'b'));
    assert!(g.connect(&'b', &'c'));
    assert!(g.connect(&'a', &'d'));
    assert!(g.connect(&'c', &'e'));
    assert!(g.connect(&'d', &'c'));
    assert!(g.connect(&'d', &'e'));
    assert!(g.connect(&'d', &'f'));
    assert!(g.connect(&'f', &'e'));

    let lines = [
        "a",
        "|\\",
        "d |",
        "|\\|",
        "| \\",
        "| |\\",
        "| | |",
        "| | |\\",
        "f | | |",
        "| | |/",
        "| | |",
        "| |/|",
        "| | |",
        "|/| |",
        "| b | |",
        "| |/ /",
        "| | /",
        "| |/",
        "| |",
        "|/|",
        "| c   |",
        "|/   /",
        "|   /",
        "|  /",
        "| /",
        "|/",
        "e      ",
    ];
    assert_eq!(g.diagram(), lines.join("\n"));
}

#[test]
fn empty_graph_has_empty_diagram() {
    let g: Graph<char> = Graph::new();
    assert_eq!(g.diagram(), "");
    assert!(g.get_rows().is_empty());
}

#[test]
fn single_node_diagram_is_its_label() {
    let g = Graph::init(vec!['x']);
    assert_eq!(g.diagram(), "x");
}

#[test]
fn fan_out_leans_right_and_merge_leans_left() {
    let mut g = Graph::init(('a'..='c').collect());
    assert!(g.connect(&'a', &'b'));
    assert!(g.connect(&'a', &'c'));
    assert!(g.connect(&'b', &'c'));
    assert_eq!(g.diagram(), "a\n|\\\nb |\n|/\nc  ");
}

#[test]
fn components_are_laid_out_back_to_back() {
    let mut g = Graph::init(('a'..='e').collect());
    assert!(g.connect(&'a', &'b'));
    assert!(g.connect(&'a', &'c'));
    assert!(g.connect(&'b', &'c'));
    assert!(g.connect(&'d', &'e'));
    assert_eq!(g.diagram(), "a\n|\\\nb |\n|/\nc  \n\n  d\n /\ne  ");
}

#[test]
fn node_above_without_edge_to_the_row_hands_its_column_on() {
    let mut g = Graph::init(('a'..='d').collect());
    assert!(g.connect(&'a', &'d'));
    assert!(g.connect(&'b', &'a'));
    assert!(g.connect(&'c', &'d'));
    assert_eq!(
        g.get_rows(),
        vec![
            Row { label: &'b', elements: vec![Element::Node] },
            Row { label: &'a', elements: vec![Element::Node] },
            Row { label: &'c', elements: vec![Element::Connector(&'d'), Element::Node] },
            Row { label: &'d', elements: vec![Element::Node, Element::Empty] },
        ]
    );
    assert_eq!(g.diagram(), "b\n|\na\n|\n| c\n|/\nd  ");
}

#[test]
fn every_row_holds_its_node_once_and_the_last_no_connector() {
    let mut g = Graph::init(('a'..='f').collect());
    assert!(g.connect(&'a', &'b'));
    assert!(g.connect(&'b', &'c'));
    assert!(g.connect(&'a', &'d'));
    assert!(g.connect(&'c', &'e'));
    assert!(g.connect(&'d', &'c'));
    assert!(g.connect(&'d', &'e'));
    assert!(g.connect(&'d', &'f'));
    assert!(g.connect(&'f', &'e'));
    let rows = g.get_rows();
    assert_eq!(rows.len(), 6);
    for row in &rows {
        assert_eq!(row.elements.iter().filter(|e| e.is_node()).count(), 1);
    }
    let last = rows.last().unwrap();
    assert!(last.elements.iter().all(|e| e.is_node() || e.is_empty()));
}

#[test]
fn row_text_and_columns() {
    let row = Row {
        label: &'b',
        elements: vec![
            Element::Connector(&'e'),
            Element::Node,
            Element::Empty,
            Element::Connector(&'c'),
            Element::Connector(&'e'),
        ],
    };
    assert_eq!(row.text(), "| b   | |");
    assert_eq!(row.index_of(&'b'), Some(1));
    assert_eq!(row.index_of(&'e'), Some(0));
    assert_eq!(row.index_of(&'c'), Some(3));
    assert_eq!(row.index_of(&'z'), None);
    assert!(row.elements[2].is_empty());
    assert!(!row.elements[2].is_node());
    assert!(row.elements[1].is_node());
    assert!(!row.elements[0].is_empty());

    let blank: Row<'_, char> = Row::new(&'q');
    assert!(blank.elements.is_empty());
    assert_eq!(blank.text(), "");
    assert_eq!(blank.index_of(&'q'), None);
}

#[test]
fn connectors_between_two_rows() {
    let mut g = Graph::init(('a'..='c').collect());
    assert!(g.connect(&'a', &'b'));
    assert!(g.connect(&'a', &'c'));
    let above = Row { label: &'a', elements: vec![Element::Node] };
    let below = Row { label: &'b', elements: vec![Element::Node, Element::Connector(&'c')] };
    assert_eq!(g.draw_connectors(&above, &below), "|\\");

    let above = Row { label: &'b', elements: vec![Element::Node, Element::Connector(&'c')] };
    let below = Row { label: &'c', elements: vec![Element::Empty, Element::Node] };
    assert_eq!(g.draw_connectors(&above, &below), "  |");
}

#[test]
fn a_path_waits_where_it_would_cross_another() {
    // Two paths that swap their columns meet between them; the second waits
    // one line for the first to pass.
    let mut canvas = Canvas::new(2);
    let g: Graph<char> = Graph::new();
    g.draw_connector(&mut canvas, 0, 1);
    assert_eq!(canvas.text(), vec![' ', '\\']);
    g.draw_connector(&mut canvas, 1, 0);
    assert_eq!(canvas.height(), 2);
    let text: String = canvas.text().into_iter().collect();
    assert_eq!(text, " \\|\n /|");
}

#[test]
fn a_path_spans_one_line_for_each_position_between_two_columns() {
    let mut canvas = Canvas::new(3);
    canvas.draw_connector(0, 2);
    let text: String = canvas.text().into_iter().collect();
    assert_eq!(text, " \\\n  \\\n   \\");
    assert_eq!(canvas.height(), 3);

    let mut canvas = Canvas::new(3);
    canvas.draw_connector(2, 0);
    let text: String = canvas.text().into_iter().collect();
    assert_eq!(text, "   /\n  /\n /");

    let mut canvas = Canvas::new(1);
    canvas.draw_connector(0, 0);
    assert_eq!(canvas.text(), vec!['|']);
    assert_eq!(canvas.height(), 1);
}

#[test]
fn a_path_that_must_cross_a_bar_leaves_the_bar() {
    let mut canvas = Canvas::new(3);
    canvas.draw_connector(1, 1);
    canvas.draw_connector(2, 0);
    let text: String = canvas.text().into_iter().collect();
    assert_eq!(text, "  |/\n  |\n /|");
}

fn city(name: &'static str) -> Keyed<&'static str> {
    Keyed::new(name, name.len() as u64, name.chars().collect())
}

#[test]
fn labels_of_any_type_show_their_text() {
    let mut g = Graph::init(vec![city("Rome"), city("Paris"), city("Berlin")]);
    assert!(g.connect(&city("Rome"), &city("Paris")));
    assert!(g.connect(&city("Rome"), &city("Berlin")));
    assert!(g.is_adjacent(&city("Rome"), &city("Paris")));
    assert!(!g.is_adjacent(&city("Paris"), &city("Rome")));
    assert_eq!(g.get(&city("Paris")).unwrap().label.value, "Paris");
    assert_eq!(g.diagram(), "Rome\n|\\\nBerlin |\n  |\n  Paris");
}

#[test]
fn a_graph_is_drawable_while_its_diagram_can_be_counted() {
    let none: Graph<char> = Graph::new();
    assert!(none.drawable());
    let some = Graph::init(('a'..='z').collect());
    assert!(some.drawable());
    let many = Graph::init((0u32..).filter_map(char::from_u32).take(50_000).collect());
    assert_eq!(many.size(), 50_000);
    assert_eq!(many.drawable(), usize::BITS >= 64);
    let more = Graph::init((0u32..).filter_map(char::from_u32).take(60_000).collect());
    assert!(!more.drawable());
}
