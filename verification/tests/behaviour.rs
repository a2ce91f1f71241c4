use dagraph::graph::Graph;
use dagraph::iter::{Mode, Walk};
use dagraph::label::{Keyed, Label};

fn drain<'a, T: Label>(mut walk: Walk<'a, T>) -> Vec<&'a T> {
    let mut seen = Vec::new();
    while let Some(label) = walk.next() {
        seen.push(label);
    }
    seen
}

fn sample() -> Graph<char> {
    let mut g = Graph::init(('a'..='h').collect());
    for (from, to) in [
        ('a', 'b'),
        ('a', 'c'),
        ('b', 'd'),
        ('c', 'd'),
        ('d', 'e'),
        ('f', 'g'),
        ('c', 'e'),
    ] {
        assert!(g.connect(&from, &to));
    }
    g
}

fn reaches(g: &Graph<char>, from: char, to: char) -> bool {
    drain(g.walk(&from, Mode::Depth).unwrap()).contains(&&to)
}

#[test]
fn an_edge_back_along_a_path_is_always_refused() {
    let mut g = sample();
    let labels: Vec<char> = ('a'..='h').collect();
    for &from in &labels {
        for &to in &labels {
            if from != to && reaches(&g, from, to) {
                let before = g.clone();
                assert!(!g.connect(&to, &from));
                assert_eq!(g, before);
            }
        }
    }
    // whatever was accepted, no node reaches itself over an edge
    for &from in &labels {
        for to in g.get_adjacent(&from).unwrap() {
            assert!(!reaches(&g, *to, from));
        }
    }
}

#[test]
fn an_edge_from_a_node_to_itself_is_always_refused() {
    let mut g = sample();
    for label in 'a'..='h' {
        let before = g.clone();
        assert!(!g.connect(&label, &label));
        assert_eq!(g, before);
    }
}

#[test]
fn an_edge_to_or_from_a_missing_node_is_refused() {
    let mut g = sample();
    assert!(!g.connect(&'a', &'z'));
    assert!(!g.connect(&'z', &'a'));
    assert!(!g.connect(&'y', &'z'));
}

#[test]
fn every_edge_points_forward_in_the_ordering() {
    let g = sample();
    let mut order = Vec::new();
    let mut it = g.ordering();
    while let Some(label) = it.next() {
        order.push(*label);
    }
    assert_eq!(order.len(), g.size());
    let at = |c: char| order.iter().position(|x| *x == c).unwrap();
    let mut edges = g.edges();
    let mut n = 0;
    while let Some((from, to)) = edges.next() {
        assert!(at(*from) < at(*to));
        n += 1;
    }
    assert_eq!(n, 7);
    for label in 'a'..='h' {
        assert_eq!(order.iter().filter(|x| **x == label).count(), 1);
    }
}

#[test]
fn a_walk_hands_out_each_node_in_reach_once() {
    let g = sample();
    let depth = drain(g.walk(&'a', Mode::Depth).unwrap());
    let bredth = drain(g.walk(&'a', Mode::Bredth).unwrap());
    assert_eq!(depth, vec![&'a', &'c', &'e', &'d', &'b']);
    assert_eq!(bredth, vec![&'a', &'b', &'c', &'d', &'e']);
    let mut one: Vec<char> = depth.iter().map(|l| **l).collect();
    let mut other: Vec<char> = bredth.iter().map(|l| **l).collect();
    one.sort();
    other.sort();
    assert_eq!(one, vec!['a', 'b', 'c', 'd', 'e']);
    assert_eq!(one, other);

    // what is out of reach is never handed out
    assert_eq!(drain(g.walk(&'d', Mode::Depth).unwrap()), vec![&'d', &'e']);
    assert_eq!(drain(g.walk(&'h', Mode::Bredth).unwrap()), vec![&'h']);
}

#[test]
fn a_walk_from_the_sources_hands_out_every_node() {
    let g = sample();
    let mut all: Vec<char> = drain(g.dfs()).iter().map(|l| **l).collect();
    assert_eq!(all.len(), 8);
    all.sort();
    assert_eq!(all, ('a'..='h').collect::<Vec<_>>());
    assert_eq!(drain(g.bfs()).len(), 8);
    assert_eq!(drain(g.search(Mode::default())), drain(g.dfs()));
}

#[test]
fn a_finished_walk_stays_finished() {
    let g = sample();
    let mut walk = g.walk(&'e', Mode::Depth).unwrap();
    assert_eq!(walk.next(), Some(&'e'));
    assert_eq!(walk.next(), None);
    assert_eq!(walk.next(), None);
}

#[test]
fn the_components_part_the_graph() {
    let g = sample();
    let whole = g.clone();
    let mut parts = g.partition();
    let mut seen: Vec<char> = Vec::new();
    let mut sizes = Vec::new();
    while let Some(part) = parts.next() {
        let mut labels = part.iter();
        let mut here = Vec::new();
        while let Some(label) = labels.next() {
            assert!(!seen.contains(label));
            here.push(*label);
        }
        // the edges of a part are those that its nodes had, and none leaves it
        for label in &here {
            let inside = part.get_adjacent(label).unwrap();
            let before = whole.get_adjacent(label).unwrap();
            assert_eq!(inside, before);
            for to in inside {
                assert!(here.contains(to));
            }
        }
        sizes.push(here.len());
        seen.extend(here);
    }
    assert_eq!(sizes, vec![5, 2, 1]);
    seen.sort();
    assert_eq!(seen, ('a'..='h').collect::<Vec<_>>());
    assert!(parts.next().is_none());
}

#[test]
fn nodes_joined_against_the_edges_are_one_component() {
    // a -> c <- b: neither a nor b reaches the other
    let mut g = Graph::init(vec!['a', 'b', 'c']);
    assert!(g.connect(&'a', &'c'));
    assert!(g.connect(&'b', &'c'));
    let whole = g.clone();
    let mut parts = g.partition();
    assert_eq!(parts.next(), Some(whole));
    assert_eq!(parts.next(), None);
}

#[test]
fn a_node_added_and_removed_leaves_the_graph_as_it_was() {
    let mut g = sample();
    let before = g.clone();
    g.add('x');
    assert_ne!(g, before);
    let node = g.remove(&'x').unwrap();
    assert_eq!(node.label, 'x');
    assert_eq!(g, before);
}

#[test]
fn a_node_that_is_added_again_loses_its_edges_and_keeps_those_to_it() {
    let mut g = Graph::init(vec!['a', 'b', 'c']);
    assert!(g.connect(&'a', &'b'));
    assert!(g.connect(&'b', &'c'));
    g.add('b');
    assert_eq!(g.size(), 3);
    assert!(g.is_adjacent(&'a', &'b'));
    assert!(!g.is_adjacent(&'b', &'c'));
    assert!(g.get_adjacent(&'b').unwrap().is_empty());
    // the place in the order stays
    let mut labels = g.iter();
    assert_eq!(labels.next(), Some(&'a'));
    assert_eq!(labels.next(), Some(&'b'));
    assert_eq!(labels.next(), Some(&'c'));
    assert_eq!(labels.next(), None);
}

#[test]
fn sources_sinks_order_and_single_component() {
    let mut g = Graph::init(vec!['a', 'b', 'c']);
    assert!(g.connect(&'a', &'b'));
    assert!(g.connect(&'a', &'c'));
    assert!(g.connect(&'b', &'c'));

    assert_eq!(g.sources(), vec![&'a']);
    assert_eq!(g.sinks(), vec![&'c']);

    let mut order = Vec::new();
    let mut it = g.ordering();
    while let Some(label) = it.next() {
        order.push(*label);
    }
    assert_eq!(order, vec!['a', 'b', 'c']);

    let whole = g.clone();
    let mut parts = g.partition();
    assert_eq!(parts.next().unwrap(), whole);
    assert!(parts.next().is_none());
}

#[test]
fn two_components_of_three_and_two() {
    let mut g = Graph::init(('a'..='e').collect());
    assert!(g.connect(&'a', &'b'));
    assert!(g.connect(&'a', &'c'));
    assert!(g.connect(&'b', &'c'));
    assert!(g.connect(&'d', &'e'));

    let mut parts = g.partition();
    let first = parts.next().unwrap();
    assert_eq!(first.size(), 3);
    assert!(first.get(&'a').is_some());
    assert!(first.get(&'d').is_none());
    let second = parts.next().unwrap();
    assert_eq!(second.size(), 2);
    assert!(second.get(&'d').is_some());
    assert!(second.is_adjacent(&'d', &'e'));
    assert!(parts.next().is_none());
}

#[test]
fn an_edge_that_closes_a_cycle_is_refused() {
    let mut g = Graph::init(vec!['a', 'b', 'c']);
    assert!(g.connect(&'a', &'b'));
    assert!(g.connect(&'b', &'c'));
    assert!(!g.connect(&'c', &'a'));
    assert!(!g.is_adjacent(&'c', &'a'));
}

#[test]
fn absent_is_not_empty() {
    let mut g = Graph::init(vec!['a', 'b']);
    assert!(g.connect(&'a', &'b'));
    assert_eq!(g.get_adjacent(&'b'), Some(vec![]));
    assert_eq!(g.get_adjacent(&'z'), None);
    assert!(g.get(&'z').is_none());
    assert!(g.remove(&'z').is_none());
    assert_eq!(g.size(), 2);
    assert_eq!(g.outdegree(&'a'), Some(1));
    assert_eq!(g.outdegree(&'b'), Some(0));
    assert_eq!(g.outdegree(&'z'), None);
    assert_eq!(g.indegree(&'a'), Some(0));
    assert_eq!(g.indegree(&'b'), Some(1));
    assert_eq!(g.indegree(&'z'), None);
    assert!(g.walk(&'z', Mode::Depth).is_none());
}

#[test]
fn disconnect_says_whether_it_took_an_edge() {
    let mut g = Graph::init(vec!['a', 'b', 'c']);
    assert!(g.connect(&'a', &'b'));
    assert!(g.connect(&'a', &'c'));
    assert!(!g.disconnect(&'b', &'a'));
    assert!(!g.disconnect(&'a', &'z'));
    assert!(!g.disconnect(&'z', &'a'));
    assert!(g.disconnect(&'a', &'b'));
    assert!(!g.disconnect(&'a', &'b'));
    assert_eq!(g.get_adjacent(&'a'), Some(vec![&'c']));
    // the edge may be made again, and now the other way round
    assert!(g.connect(&'b', &'a'));
}

#[test]
fn removing_a_node_takes_the_edges_that_point_at_it() {
    let mut g = sample();
    let node = g.remove(&'d').unwrap();
    assert_eq!(node.label, 'd');
    assert!(node.is_adjacent_to(&'e'));
    assert_eq!(g.size(), 7);
    assert_eq!(g.get_adjacent(&'b'), Some(vec![]));
    assert_eq!(g.get_adjacent(&'c'), Some(vec![&'e']));
    assert_eq!(g.indegree(&'e'), Some(1));
    let mut labels = g.iter();
    let mut rest = Vec::new();
    while let Some(label) = labels.next() {
        rest.push(*label);
    }
    assert_eq!(rest, vec!['a', 'b', 'c', 'e', 'f', 'g', 'h']);
}

#[test]
fn a_node_on_its_own_takes_and_gives_up_edges() {
    let mut g = Graph::init(vec!['a', 'b']);
    assert!(g.connect(&'a', &'b'));
    let mut node = g.remove(&'a').unwrap();
    assert!(node.is_adjacent_to(&'b'));
    node.connect_to(&'c');
    node.connect_to(&'c');
    assert!(node.is_adjacent_to(&'c'));
    node.disconnect_from(&'b');
    assert!(!node.is_adjacent_to(&'b'));
    node.disconnect_from(&'b');
    assert!(node.is_adjacent_to(&'c'));
}

#[test]
fn degrees_count_edges() {
    let g = sample();
    let degrees = g.indegrees();
    assert_eq!(degrees.len(), 8);
    assert_eq!(degrees[&'a'.hash()], 0);
    assert_eq!(degrees[&'d'.hash()], 2);
    assert_eq!(degrees[&'e'.hash()], 2);
    assert_eq!(degrees[&'h'.hash()], 0);
    assert_eq!(g.sources(), vec![&'a', &'f', &'h']);
    assert_eq!(g.sinks(), vec![&'e', &'g', &'h']);
    assert_eq!(g.pick(), Some(&'a'));
    let none: Graph<char> = Graph::default();
    assert_eq!(none.pick(), None);
    assert_eq!(none.size(), 0);
}

#[test]
fn labels_and_edges_in_bulk() {
    let mut g = Graph::new();
    g.extend(vec!['a', 'b', 'c']);
    g.extend(vec!['c', 'd']);
    assert_eq!(g.size(), 4);
    g.extend_edges(&vec![(&'a', &'b'), (&'b', &'a'), (&'b', &'c'), (&'c', &'c'), (&'d', &'z')]);
    assert!(g.is_adjacent(&'a', &'b'));
    assert!(!g.is_adjacent(&'b', &'a'));
    assert!(g.is_adjacent(&'b', &'c'));
    let mut edges = g.edges();
    assert_eq!(edges.next(), Some((&'a', &'b')));
    assert_eq!(edges.next(), Some((&'b', &'c')));
    assert_eq!(edges.next(), None);
    let mut nodes = g.nodes();
    assert_eq!(nodes.next().unwrap().label, 'a');
}

#[test]
fn the_key_and_text_of_the_labels_at_hand() {
    assert_eq!('a'.hash(), 97);
    assert_eq!('a'.show(), vec!['a']);
    assert_eq!(().hash(), 0);
    assert_eq!(().show(), vec!['(', ')']);
    let label = Keyed::new(7, 42, vec!['7']);
    assert_eq!(label.hash(), 42);
    assert_eq!(label.show(), vec!['7']);
    assert_eq!(label.value, 7);
}

#[test]
fn values_that_std_can_hash_and_show_make_labels() {
    let one = Keyed::of(String::from("one"));
    let same = Keyed::of(String::from("one"));
    let two = Keyed::of(String::from("two"));
    assert_eq!(one.hash(), same.hash());
    assert_ne!(one.hash(), two.hash());
    assert_ne!(one.hash(), 0);
    assert_eq!(one.show(), vec!['o', 'n', 'e']);
    assert_eq!(Keyed::of(-12).show(), vec!['-', '1', '2']);

    let mut g = Graph::init(vec![one, two]);
    assert!(g.connect(&same, &Keyed::of(String::from("two"))));
    assert_eq!(g.diagram(), "one\n|\ntwo");
}
