use dagraph::graph::Graph;

#[test]
fn trivial_disconnected() {
    let g = Graph::init(('a'..='z').collect());

    assert_eq!(g.sources().len(), 26);
    assert_eq!(g.sinks().len(), 26);

    let mut n = 0;
    let mut parts = g.partition();
    while let Some(part) = parts.next() {
        assert_eq!(part.size(), 1);
        n += 1;
    }
    assert_eq!(n, 26);
}

#[test]
fn trivial_connected() {
    let mut g = Graph::init(('a'..='c').collect());
    assert!(g.connect(&'a', &'b'));
    assert!(g.connect(&'a', &'c'));
    assert!(g.connect(&'b', &'c'));

    assert_eq!(g.sources().len(), 1);
    assert!(g.sources().contains(&&'a'));

    assert_eq!(g.sinks().len(), 1);
    assert!(g.sinks().contains(&&'c'));

    let orig = g.clone();
    let mut parts = g.partition();
    assert_eq!(orig, parts.next().unwrap());
    assert_eq!(parts.next(), None);
}

#[test]
fn mix() {
    let mut g = Graph::init(('a'..='e').collect());
    assert!(g.connect(&'a', &'b'));
    assert!(g.connect(&'a', &'c'));
    assert!(g.connect(&'b', &'c'));
    assert!(g.connect(&'d', &'e'));

    assert_eq!(g.sources().len(), 2);
    assert!(g.sources().contains(&&'a'));
    assert!(g.sources().contains(&&'d'));

    assert_eq!(g.sinks().len(), 2);
    assert!(g.sinks().contains(&&'c'));
    assert!(g.sinks().contains(&&'e'));

    let mut parts = g.partition();
    while let Some(next) = parts.next() {
        if next.get(&'a').is_some() {
            assert_eq!(next.size(), 3);
        } else {
            assert_eq!(next.size(), 2);
        }
    }
}
