use dagraph::graph::Graph;

#[test]
fn basic() {
    let mut g = Graph::init(('a'..='d').collect());

    // a
    // |\
    // b c
    // |
    // d
    assert!(g.connect(&'a', &'b'));
    assert!(g.connect(&'a', &'c'));
    assert!(g.connect(&'b', &'d'));

    assert!(g.get_adjacent(&'a').unwrap().contains(&&'b'));
    assert!(g.get_adjacent(&'a').unwrap().contains(&&'c'));
    assert!(g.get_adjacent(&'b').unwrap().contains(&&'d'));
    assert!(g.get_adjacent(&'c').unwrap().is_empty());
    assert!(g.get_adjacent(&'d').unwrap().is_empty());

    assert!(g.get_adjacent(&'e').is_none());

    assert!(g.disconnect(&'a', &'c'));
    assert!(!g.get_adjacent(&'a').unwrap().contains(&&'c'));

    assert!(g.remove(&'b').is_some());
    assert!(g.get_adjacent(&'b').is_none());
    assert!(g.get_adjacent(&'a').unwrap().is_empty());
    assert!(g.get_adjacent(&'c').unwrap().is_empty());
}

#[test]
fn no_cycles() {
    let mut g = Graph::init(('a'..='e').collect());

    // a
    // |\
    // b c
    // |
    // d
    assert!(g.connect(&'a', &'b'));
    assert!(g.connect(&'a', &'c'));
    assert!(g.connect(&'b', &'d'));

    // Allowed
    assert!(g.connect(&'b', &'d'));
    assert!(g.connect(&'a', &'d'));
    assert!(g.connect(&'d', &'c'));

    // Not allowed
    assert!(!g.connect(&'a', &'a'));
    assert!(!g.connect(&'c', &'b'));
    assert!(!g.connect(&'d', &'a'));
    assert!(!g.connect(&'b', &'a'));
}
