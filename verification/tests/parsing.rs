use re::graph::Graph;
use re::nfa::NfaArrow::{Char, Dot, Epsilon, OneOf};
use re::parser::parse_inner;

#[test]
fn test_parse_inner() {
    let graph = Graph::new(3)
        .add_edge(0, Dot, 0)
        .add_edge(0, Char('a'), 1)
        .add_edge(1, OneOf(vec!['b', 'c', 'd']), 2)
        .add_edge(2, Epsilon, 1)
        .add_edge(2, Char('e'), 3)
        .add_edge(0, Char('q'), 4)
        .add_edge(0, Epsilon, 4)
        .add_edge(4, Epsilon, 0)
        .add_edge(4, Dot, 5)
        .add_edge(5, Char('\\'), 3)
        .add_edge(0, Epsilon, 3);

    match parse_inner(r"a[bcd]+e|(q*.\\)?", None) {
        Err(e) => panic!("Failed to parse: {:?}", e),
        Ok(res) => assert_eq!(res, (graph, 17)),
    }
}

#[test]
fn test_parse_brackets() {
    let graph = Graph::new(1).add_edge(0, Dot, 0).add_edge(0, OneOf(vec!['b', 'c']), 1);

    match parse_inner(r"[bc]", None) {
        Err(e) => panic!("Failed to parse: {:?}", e),
        Ok(res) => assert_eq!(res, (graph, 4)),
    }
}
