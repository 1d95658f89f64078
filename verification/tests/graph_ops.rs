use re::graph::{Edge, Graph};
use re::nfa::NfaArrow;

fn edge(from: usize, ch: char, to: usize) -> Edge {
    Edge { from, ch: NfaArrow::Char(ch), to }
}

#[test]
fn add_edge() {
    let mut g = Graph::new(2);
    g = g.add_edge(0, NfaArrow::Char('a'), 1);
    assert_eq!(g.edges, vec![edge(0, 'a', 1)]);
    g = g.add_edge(0, NfaArrow::Char('b'), 2);
    assert_eq!(g.edges, vec![edge(0, 'a', 1), edge(0, 'b', 2)]);
}

#[test]
fn test_concat() {
    let g1 = Graph::new(2)
        .add_edge(0, NfaArrow::Char('a'), 1)
        .add_edge(1, NfaArrow::Char('b'), 2);
    let g2 = Graph::new(2)
        .add_edge(0, NfaArrow::Char('c'), 1)
        .add_edge(1, NfaArrow::Char('d'), 2);

    let expected = Graph {
        node_count: 5,
        final_node: 4,
        edges: vec![edge(0, 'a', 1), edge(1, 'b', 2), edge(2, 'c', 3), edge(3, 'd', 4)],
    };
    assert_eq!(g1.concat(g2), expected);
}

#[test]
fn test_attach_parallel() {
    let g1 = Graph::new(4)
        .add_edge(0, NfaArrow::Char('a'), 1)
        .add_edge(1, NfaArrow::Char('b'), 2)
        .add_edge(2, NfaArrow::Char('c'), 3)
        .add_edge(3, NfaArrow::Char('d'), 4);
    let g2 = Graph::new(3)
        .add_edge(0, NfaArrow::Char('e'), 1)
        .add_edge(1, NfaArrow::Char('f'), 2)
        .add_edge(2, NfaArrow::Char('g'), 3);

    let expected = Graph {
        node_count: 7,
        final_node: 4,
        edges: vec![
            edge(0, 'a', 1),
            edge(1, 'b', 2),
            edge(2, 'c', 3),
            edge(3, 'd', 4),
            edge(1, 'e', 5),
            edge(5, 'f', 6),
            edge(6, 'g', 3),
        ],
    };
    assert_eq!(g1.attach_parallel(g2, 1, 3), expected);
}
