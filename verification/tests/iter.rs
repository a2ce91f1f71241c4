use dagraph::graph::Graph;
use dagraph::iter::{EdgeIter, Iter, Mode, Order, Walk};
use dagraph::label::Label;

fn count_labels<T: Label>(mut labels: Iter<'_, T>) -> usize {
    let mut n = 0;
    while labels.next().is_some() {
        n += 1;
    }
    n
}

fn count_edges<T: Label>(mut edges: EdgeIter<'_, T>) -> usize {
    let mut n = 0;
    while edges.next().is_some() {
        n += 1;
    }
    n
}

fn collect_walk<'a, T: Label>(mut walk: Walk<'a, T>) -> Vec<&'a T> {
    let mut seen = Vec::new();
    while let Some(label) = walk.next() {
        seen.push(label);
    }
    seen
}

fn collect_order<'a, T: Label>(mut order: Order<'a, T>) -> Vec<&'a T> {
    let mut seen = Vec::new();
    while let Some(label) = order.next() {
        seen.push(label);
    }
    seen
}

#[test]
fn empty() {
    let g: Graph<()> = Graph::new();

    assert_eq!(count_labels(g.iter()), 0);
    assert_eq!(count_edges(g.edges()), 0);

    assert!(g.walk(&(), Mode::Depth).is_none());
    assert!(g.walk(&(), Mode::Bredth).is_none());

    assert_eq!(g.size(), 0);
    assert_eq!(collect_walk(g.dfs()).len(), 0);
    assert_eq!(collect_walk(g.bfs()).len(), 0);
}

#[test]
fn single() {
    let mut g = Graph::new();
    g.add(());

    assert_eq!(count_labels(g.iter()), 1);
    assert_eq!(count_edges(g.edges()), 0);

    assert_eq!(g.size(), 1);
    assert_eq!(collect_walk(g.bfs()).len(), 1);
    assert_eq!(collect_walk(g.dfs()).len(), 1);
}

fn index<T: Eq>(v: &Vec<&T>, t: T) -> i8 {
    v.iter().position(|el| el == &&t).unwrap() as i8
}

fn assert_order(search: &Vec<&char>) {
    assert!(index(search, 'a') < index(search, 'b'));
    assert!(index(search, 'a') < index(search, 'd'));
    assert!(index(search, 'b') < index(search, 'c'));
    assert!(index(search, 'd') < index(search, 'e'));
    assert!(index(search, 'd') < index(search, 'f'));
}

#[test]
fn iter_tree_bfs_vs_dfs() {
    let mut g = Graph::init(('a'..='f').collect());

    // a -> b -> c
    assert!(g.connect(&'a', &'b'));
    assert!(g.connect(&'b', &'c'));

    // a -> d -> e
    //      d -> f
    assert!(g.connect(&'a', &'d'));
    assert!(g.connect(&'d', &'e'));
    assert!(g.connect(&'d', &'f'));

    let bredth = collect_walk(g.dfs());
    let depth = collect_walk(g.bfs());

    assert_order(&bredth);
    assert_eq!((index(&bredth, 'b') - index(&bredth, 'c')).abs(), 1); // c directly below b

    assert_order(&depth);
    assert_eq!((index(&depth, 'b') - index(&depth, 'd')).abs(), 1); // d directly beside b
}

#[test]
fn edges() {
    let mut g = Graph::init(('a'..='f').collect());

    assert!(g.connect(&'a', &'b'));
    assert!(g.connect(&'b', &'c'));

    assert!(g.connect(&'d', &'e'));
    assert!(g.connect(&'d', &'f'));

    assert_eq!(count_edges(g.edges()), 4)
}

#[test]
fn iter() {
    let mut g = Graph::init(('a'..='f').collect());

    assert!(g.connect(&'a', &'b'));
    assert!(g.connect(&'b', &'c'));

    assert!(g.connect(&'d', &'e'));
    assert!(g.connect(&'d', &'f'));

    assert_eq!(count_labels(g.iter()), 6)
}

#[test]
fn ordering() {
    let mut g = Graph::init(('a'..='f').collect());

    assert!(g.connect(&'a', &'b')); // a
    assert!(g.connect(&'b', &'c')); // |\
    assert!(g.connect(&'a', &'d')); // b d
    assert!(g.connect(&'c', &'e')); // |/|\
    assert!(g.connect(&'d', &'c')); // c | f
    assert!(g.connect(&'d', &'e')); //  \|/
    assert!(g.connect(&'d', &'f')); //   e
    assert!(g.connect(&'f', &'e'));

    let order = collect_order(g.ordering());
    assert_eq!(index(&order, 'a'), 0);
    assert!(index(&order, 'b') < index(&order, 'c'));
    assert!(index(&order, 'd') < index(&order, 'c'));
    assert!(index(&order, 'd') < index(&order, 'f'));
    assert_eq!(index(&order, 'e'), 5);
}
