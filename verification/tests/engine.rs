use re::graph::Graph;
use re::nfa::NfaArrow::{Char, Dot, Epsilon};
use re::nfa::{follow_empty, step};

#[test]
fn test_follow_empty() {
    let graph = Graph::new(3)
        .add_edge(0, Char('b'), 1)
        .add_edge(1, Char('c'), 4)
        .add_edge(2, Char('d'), 3)
        .add_edge(1, Epsilon, 2)
        .add_edge(1, Epsilon, 5)
        .add_edge(2, Epsilon, 1)
        .add_edge(2, Char('e'), 3)
        .add_edge(2, Epsilon, 0);

    let mut expected = vec![false; 6];
    for v in [0, 2, 5, 1] {
        expected[v] = true;
    }

    let mut state = vec![false; 6];
    state[1] = true;
    assert_eq!(expected, follow_empty(&graph, state));
}

#[test]
fn test_step() {
    let graph = Graph::new(3)
        .add_edge(0, Dot, 0)
        .add_edge(0, Char('b'), 1)
        .add_edge(1, Char('c'), 4)
        .add_edge(2, Char('d'), 3)
        .add_edge(1, Epsilon, 2)
        .add_edge(2, Epsilon, 0)
        .add_edge(3, Epsilon, 0)
        .add_edge(4, Char('z'), 5)
        .add_edge(5, Char('z'), 6)
        .add_edge(7, Char('u'), 6)
        .add_edge(7, Epsilon, 9)
        .add_edge(9, Char('z'), 10)
        .add_edge(10, Char('u'), 6)
        .add_edge(5, Epsilon, 8);

    let mut expected = vec![false; 11];
    expected[5] = true;

    let mut initial_states = vec![false; 11];
    for v in [1, 3, 4, 7] {
        initial_states[v] = true;
    }
    assert_eq!(expected, step(&graph, &initial_states, &Char('z')));
}
