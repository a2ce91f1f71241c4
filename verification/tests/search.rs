use dagraph::graph::Graph;
use dagraph::iter::{Mode, Walk};
use dagraph::label::Label;

fn collect<'a, T: Label>(mut walk: Walk<'a, T>) -> Vec<&'a T> {
    let mut seen = Vec::new();
    while let Some(label) = walk.next() {
        seen.push(label);
    }
    seen
}

fn position<T: Eq>(v: &Vec<&T>, t: T) -> i8 {
    v.iter().position(|el| el == &&t).unwrap() as i8
}

fn assert_tree_order(search: &Vec<&char>) {
    assert!(position(search, 'a') < position(search, 'b'));
    assert!(position(search, 'a') < position(search, 'd'));
    assert!(position(search, 'b') < position(search, 'c'));
    assert!(position(search, 'd') < position(search, 'e'));
    assert!(position(search, 'd') < position(search, 'f'));
}

#[test]
fn search_tree_bfs_vs_dfs() {
    let mut g = Graph::init(('a'..='f').collect());

    // a -> b -> c
    assert!(g.connect(&'a', &'b'));
    assert!(g.connect(&'b', &'c'));

    // a -> d -> e
    //      d -> f
    assert!(g.connect(&'a', &'d'));
    assert!(g.connect(&'d', &'e'));
    assert!(g.connect(&'d', &'f'));

    let bredth = collect(g.walk(&'a', Mode::Depth).unwrap());
    let depth = collect(g.walk(&'a', Mode::Bredth).unwrap());

    assert_tree_order(&bredth);
    assert_eq!((position(&bredth, 'b') - position(&bredth, 'c')).abs(), 1); // c directly below b

    assert_tree_order(&depth);
    assert_eq!((position(&depth, 'b') - position(&depth, 'd')).abs(), 1); // d directly beside b
}

#[test]
fn unidirectional_cycle() {
    let mut g = Graph::init(('a'..='c').collect());

    // a -> b -> c; the edge c -> a would close a cycle and is refused
    assert!(g.connect(&'a', &'b'));
    assert!(g.connect(&'b', &'c'));
    assert!(!g.connect(&'c', &'a'));

    let depth = collect(g.walk(&'b', Mode::Bredth).unwrap());
    assert_eq!(depth, vec![&'b', &'c']);
}

#[test]
fn bidirectional_cycle() {
    let mut g = Graph::init(('a'..='c').collect());

    // Of two edges between the same nodes the second is refused.
    assert!(g.connect(&'a', &'b'));
    assert!(!g.connect(&'b', &'a'));
    assert!(g.connect(&'b', &'c'));
    assert!(!g.connect(&'c', &'b'));
    assert!(g.connect(&'a', &'c'));
    assert!(!g.connect(&'c', &'a'));

    let depth = collect(g.walk(&'a', Mode::Bredth).unwrap());
    assert_eq!(depth.len(), 3); // Only visit each once
}
