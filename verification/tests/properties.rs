use re::dfa::{check, walk_dfa, DFA};
use re::graph::Graph;
use re::nfa::walk;
use re::nfa::NfaArrow::{Char, Epsilon};
use re::parser::{parse, ParseError};

fn nfa_matches(pattern: &str, text: &str) -> bool {
    walk(parse(pattern).unwrap(), text.to_string())
}

fn dfa_matches(pattern: &str, text: &str) -> bool {
    walk_dfa(parse(pattern).unwrap(), text.to_string())
}

fn both(pattern: &str, text: &str) -> bool {
    let n = nfa_matches(pattern, text);
    let d = dfa_matches(pattern, text);
    assert_eq!(n, d, "engines disagree on /{}/ against {:?}", pattern, text);
    n
}

// Both walkers give the same verdict on a spread of patterns and inputs.
#[test]
fn engines_agree() {
    for (p, w) in [
        ("", ""),
        ("", "xyz"),
        ("abc", "xabcy"),
        ("^abc$", "abc"),
        ("a[bc]d", "abd"),
        ("a[^bc]d", "abd"),
        ("(a+|b)*", "ab"),
        ("(abc|)ef", "abcdef"),
        ("a.*c", "axyzc"),
        ("^(ab|cd)e", "abcde"),
        ("a|b+", "bbb"),
        ("x*y+z?", "xxyyz"),
        ("$", ""),
        ("^$", ""),
        ("^", ""),
        ("a$", "aa"),
        ("a$", "ab"),
    ] {
        both(p, w);
    }
}

// The empty pattern matches anything, including the empty input.
#[test]
fn empty_pattern_matches_everything() {
    assert!(both("", ""));
    assert!(both("", "a"));
    assert!(both("", "any text at all"));
}

// `a?` matches the empty string and one `a`.
#[test]
fn question_quantifier_law() {
    assert!(both("^a?$", ""));
    assert!(both("^a?$", "a"));
    assert!(!both("^a?$", "aa"));
}

// `a*` matches any number of `a`s, zero included.
#[test]
fn star_quantifier_law() {
    assert!(both("^a*$", ""));
    assert!(both("^a*$", "a"));
    assert!(both("^a*$", "aa"));
    assert!(both("^a*$", "aaaaaaaa"));
    assert!(!both("^a*$", "aab"));
}

// `a+` matches one or more `a`s but not the empty string.
#[test]
fn plus_quantifier_law() {
    assert!(!both("^a+$", ""));
    assert!(both("^a+$", "a"));
    assert!(both("^a+$", "aa"));
    assert!(both("^a+$", "aaaaaaaa"));
    assert!(!both("^a+$", "b"));
}

// Composition with the empty graph: appending a graph with no edges and
// final node 0 onto a graph whose final node is its last node changes
// nothing.
#[test]
fn concat_with_empty_graph_is_identity() {
    let a = Graph::new(2)
        .add_edge(0, Char('a'), 1)
        .add_edge(1, Char('b'), 2);
    let empty_graph = Graph::new(0);
    let before = a.clone();
    let c = a.concat(empty_graph);
    assert_eq!(c, before);
}

// Edge deduplication: inserting the same edge twice yields a graph equal
// to the single insertion.
#[test]
fn add_edge_deduplicates() {
    let once = Graph::new(2).add_edge(0, Char('a'), 1);
    let twice = Graph::new(2).add_edge(0, Char('a'), 1).add_edge(0, Char('a'), 1);
    assert_eq!(once, twice);
    let re_added = once.clone().add_edge(0, Char('a'), 1);
    assert_eq!(once, re_added);
}

// Node-count monotonicity: after every combinator, the node count stays
// above the final node and above every edge endpoint.
fn assert_counts(g: &Graph) {
    assert!(g.node_count > g.final_node);
    for e in &g.edges {
        assert!(e.from < g.node_count);
        assert!(e.to < g.node_count);
    }
}

#[test]
fn node_count_stays_above_final_and_endpoints() {
    let g = Graph::new(1).add_edge(0, Char('a'), 1);
    assert_counts(&g);
    let h = Graph::new(1).add_edge(0, Char('b'), 1);
    let joined = g.clone().concat(h.clone());
    assert_counts(&joined);
    let grafted = joined.clone().attach_parallel(h, 0, joined.final_node);
    assert_counts(&grafted);
    let looped = grafted.add_edge(0, Epsilon, 2);
    assert_counts(&looped);
}

// Each parse error comes on the inputs that owe it.
#[test]
fn escape_at_end_is_rejected() {
    assert_eq!(parse("a\\"), Err(ParseError::EscapeAtEol));
}

#[test]
fn unknown_escape_is_rejected() {
    assert_eq!(parse("\\x"), Err(ParseError::UnexpectedEscape('x')));
}

#[test]
fn leading_or_stacked_quantifiers_are_rejected() {
    assert_eq!(parse("*a"), Err(ParseError::CannotApply('*')));
    assert_eq!(parse("+a"), Err(ParseError::CannotApply('+')));
    assert_eq!(parse("?a"), Err(ParseError::CannotApply('?')));
    assert_eq!(parse("a**"), Err(ParseError::CannotApply('*')));
    assert_eq!(parse("a+?"), Err(ParseError::CannotApply('?')));
}

#[test]
fn unmatched_close_paren_is_rejected() {
    assert_eq!(parse(")"), Err(ParseError::UnexpectedChar(')')));
    assert_eq!(parse("abc)"), Err(ParseError::UnexpectedChar(')')));
}

#[test]
fn unclosed_group_is_rejected() {
    assert_eq!(parse("(abc"), Err(ParseError::ExpectedGotEol(')')));
}

#[test]
fn unclosed_class_is_rejected() {
    assert_eq!(parse("a["), Err(ParseError::UnexpectedEol));
    assert_eq!(parse("a[]b"), Err(ParseError::UnexpectedEol));
    assert_eq!(parse("a[\\"), Err(ParseError::UnexpectedEol));
}

// The front-end convenience: parse errors pass through, verdicts come
// from the DFA overlay.
#[test]
fn check_reports_verdicts_and_errors() {
    assert_eq!(check("abc", "xxabcxx"), Ok(true));
    assert_eq!(check("^abc$", "xxabcxx"), Ok(false));
    assert_eq!(check(")", "anything"), Err(ParseError::UnexpectedChar(')')));
}

// A reused overlay keeps its table and still answers like the NFA when
// the walks repeat the same text.
#[test]
fn dfa_reuse_is_consistent() {
    let mut d = DFA::new(parse("abc").unwrap());
    assert!(d.walk("xabcy".to_string()));
    let states_after_first = d.states.len();
    assert!(d.walk("xabcy".to_string()));
    assert!(states_after_first >= 2);
}

// Single-character inputs and boundaries.
#[test]
fn single_character_inputs() {
    assert!(both("a", "a"));
    assert!(!both("a", "b"));
    assert!(both(".", "z"));
    assert!(!both("ab", "a"));
}

// The pathological pattern: many optional atoms followed by as many
// required ones, against a long input.  Subset simulation keeps this
// polynomial; both engines must finish and agree.
#[test]
fn pathological_pattern_is_polynomial() {
    let mut pattern = String::new();
    for _ in 0..100 {
        pattern.push_str("a?");
    }
    for _ in 0..100 {
        pattern.push('a');
    }
    let haystack = "a".repeat(1000);
    assert!(both(&pattern, &haystack));
    let miss = "z".repeat(1000);
    assert!(!both(&pattern, &miss));
}
