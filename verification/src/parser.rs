//! The pattern compiler: a recursive-descent parser from a pattern
//! string to an NFA graph.
//!
//! The grammar, informally:
//!
//! ```text
//! regex      := ( alt )* EOF
//! alt        := atom ( '|' regex )?
//! atom       := literal | escape | dot | anchor | group | charclass
//!               then optional quantifier
//! quantifier := '?' | '*' | '+'
//! group      := '(' regex ')'
//! charclass  := '[' '^'? class-item+ ']'
//! escape     := '\' one-of { '\' '+' '*' '(' ')' '[' ']' '.' '?' }
//! ```
//!
//! A top-level parse first puts a `Dot` self-loop on node 0, which makes
//! the search unanchored: any prefix of the input can be skipped.

use vstd::prelude::*;
use vstd::slice::slice_subrange;

use crate::graph::{
    add_edge_model, attach_model, bounded, concat_model, covers_final, lemma_add_edge_model_props,
    lemma_add_edge_preserves_wf, lemma_attach_preserves_wf, lemma_concat_preserves_wf, new_model,
    tight, wf, EdgeModel, Graph, GraphModel,
};
use crate::nfa::{
    chars_of, empty_input_state, init_model, label_step, lemma_eps_closure_base, walk_from,
    walk_model, ArrowModel, NfaArrow, NFA,
};

verus! {

/// Why a pattern was rejected.  All errors are parse-time; matching is
/// total.
#[derive(Debug, PartialEq, Eq, Clone, Copy)]
pub enum ParseError {
    /// `\` with nothing after it.
    EscapeAtEol,
    /// `\x` where `x` is not an escapable character.
    UnexpectedEscape(char),
    /// A quantifier with nothing to apply to: at the start of a scope or
    /// right after another quantifier.
    CannotApply(char),
    /// A character no rule accepts, such as an unmatched `)`.
    UnexpectedChar(char),
    /// The input ended while a closing delimiter was still owed.
    ExpectedGotEol(char),
    /// The input ended inside a character class or after `\`.
    UnexpectedEol,
    /// A character class with no members.
    EmptyCharacterClass,
}

/// The characters that may stand after a backslash.
pub open spec fn escapable(c: char) -> bool {
    c == '\\' || c == '+' || c == '*' || c == '(' || c == ')' || c == '[' || c == ']' || c == '.'
        || c == '?'
}

/// A quantifier may follow any character but another quantifier.
pub open spec fn quantifier_may_follow(c: char) -> bool {
    !(c == '*' || c == '+' || c == '?')
}

/// A quantifier applies only if a previous character exists and is not
/// itself a quantifier.
pub fn can_apply_metacharacter(ch: Option<char>) -> (r: bool)
    ensures
        r == match ch {
            Option::None => false,
            Option::Some(c) => quantifier_may_follow(c),
        },
{
    match ch {
        Option::None => false,
        Option::Some(c) => !(c == '*' || c == '+' || c == '?'),
    }
}

/// One pass of the character-class scanner, starting right after `[` at
/// offset `j`, with the members collected so far and the exclusiveness
/// flag.  `^` counts only at offset 0; `]` is a member at offset 0 (or
/// at offset 1 of an exclusive class) and terminates the class anywhere
/// else; `\` takes the next character literally.
pub open spec fn class_loop(
    p: Seq<char>,
    j: nat,
    chars: Seq<char>,
    exclusive: bool,
) -> Result<(ArrowModel, nat), ParseError>
    decreases p.len() - j,
{
    if j >= p.len() {
        Err(ParseError::UnexpectedEol)
    } else if p[j as int] == '\\' {
        if j + 1 >= p.len() {
            Err(ParseError::UnexpectedEol)
        } else {
            class_loop(p, j + 2, chars.push(p[j as int + 1]), exclusive)
        }
    } else if p[j as int] == '^' && j == 0 {
        class_loop(p, j + 1, chars, true)
    } else if p[j as int] == ']' && (j == 0 || (exclusive && j == 1)) {
        class_loop(p, j + 1, chars.push(']'), exclusive)
    } else if p[j as int] == ']' {
        if chars.len() == 0 {
            Err(ParseError::EmptyCharacterClass)
        } else if exclusive {
            Ok((ArrowModel::NotOneOf(chars), j + 1))
        } else {
            Ok((ArrowModel::OneOf(chars), j + 1))
        }
    } else {
        class_loop(p, j + 1, chars.push(p[j as int]), exclusive)
    }
}

/// What the character-class parser returns on the text following `[`.
pub open spec fn class_model(p: Seq<char>) -> Result<(ArrowModel, nat), ParseError> {
    class_loop(p, 0, Seq::empty(), false)
}

/// The class result carried over to models.
pub open spec fn class_to_model(r: Result<(NfaArrow, usize), ParseError>) -> Result<
    (ArrowModel, nat),
    ParseError,
> {
    match r {
        Ok((a, n)) => Ok((a@, n as nat)),
        Err(e) => Err(e),
    }
}

/// Scans a character class.  `char_class` is the pattern text right
/// after the opening `[`; the count returned includes the closing `]`.
fn parse_character_class(char_class: &[char]) -> (r: Result<(NfaArrow, usize), ParseError>)
    requires
        char_class@.len() < usize::MAX,
    ensures
        class_to_model(r) == class_model(char_class@),
        r matches Ok(pair) ==> 1 <= pair.1 <= char_class@.len(),
{
    let ghost p = char_class@;
    let ghost target = class_model(p);
    let mut j: usize = 0;
    let mut chars: Vec<char> = Vec::new();
    let mut exclusive = false;
    loop
        invariant
            p == char_class@,
            p.len() < usize::MAX,
            j <= p.len(),
            target == class_model(p),
            class_loop(p, j as nat, chars@, exclusive) == target,
        decreases p.len() - j,
    {
        if j >= char_class.len() {
            proof {
                assert(class_loop(p, j as nat, chars@, exclusive) == Err::<
                    (ArrowModel, nat),
                    ParseError,
                >(ParseError::UnexpectedEol));
            }
            return Err(ParseError::UnexpectedEol);
        }
        let c = char_class[j];
        if c == '\\' {
            if j + 1 >= char_class.len() {
                proof {
                    assert(class_loop(p, j as nat, chars@, exclusive) == Err::<
                        (ArrowModel, nat),
                        ParseError,
                    >(ParseError::UnexpectedEol));
                }
                return Err(ParseError::UnexpectedEol);
            }
            chars.push(char_class[j + 1]);
            j = j + 2;
        } else if c == '^' && j == 0 {
            exclusive = true;
            j = j + 1;
        } else if c == ']' && (j == 0 || (exclusive && j == 1)) {
            chars.push(']');
            j = j + 1;
        } else if c == ']' {
            if chars.len() == 0 {
                proof {
                    assert(class_loop(p, j as nat, chars@, exclusive) == Err::<
                        (ArrowModel, nat),
                        ParseError,
                    >(ParseError::EmptyCharacterClass));
                }
                return Err(ParseError::EmptyCharacterClass);
            }
            proof {
                assert(class_loop(p, j as nat, chars@, exclusive) == Ok::<
                    (ArrowModel, nat),
                    ParseError,
                >(
                    (
                        if exclusive {
                            ArrowModel::NotOneOf(chars@)
                        } else {
                            ArrowModel::OneOf(chars@)
                        },
                        (j + 1) as nat,
                    ),
                ));
            }
            let arrow = if exclusive {
                NfaArrow::NotOneOf(chars)
            } else {
                NfaArrow::OneOf(chars)
            };
            return Ok((arrow, j + 1));
        } else {
            chars.push(c);
            j = j + 1;
        }
    }
}

/// An atom appended to the graph: an edge from the current final node to
/// a fresh node, which becomes the new final node.
pub open spec fn atom_model(g: GraphModel, a: ArrowModel) -> GraphModel {
    let g2 = add_edge_model(g, g.final_node, a, g.final_node + 1);
    GraphModel { final_node: g.final_node + 1, ..g2 }
}

/// Appending an atom preserves well-formedness and allocates at most one
/// node.
proof fn lemma_atom_wf(g: GraphModel, a: ArrowModel)
    requires
        wf(g),
    ensures
        wf(atom_model(g, a)),
        atom_model(g, a).final_node == g.final_node + 1,
        g.node_count <= atom_model(g, a).node_count,
        atom_model(g, a).node_count <= g.node_count + 1,
{
    let fin = g.final_node;
    lemma_add_edge_model_props(g, fin, a, fin + 1);
    let g2 = add_edge_model(g, fin, a, fin + 1);
    let r = atom_model(g, a);
    let e = EdgeModel { from: fin, ch: a, to: fin + 1 };
    let i = choose|i: int| 0 <= i < g2.edges.len() && g2.edges[i] == e;
    assert(covers_final(r));
    assert(bounded(r));
    if r.node_count == g.node_count {
        // The fresh node already existed; the old witness for tightness
        // still stands, unless the final node itself was the last node,
        // which the grown count contradicts.
        assert(g2.node_count >= fin + 2);
        assert(tight(r));
    } else {
        assert(r.node_count == fin + 2);
        assert(tight(r));
    }
}

/// The graph a scope starts from: a top-level scope begins with a `Dot`
/// self-loop on node 0, which realizes the unanchored search; an inner
/// scope starts empty.
pub open spec fn start_graph(stop: Option<char>) -> GraphModel {
    match stop {
        Option::Some(_) => new_model(0),
        Option::None => add_edge_model(new_model(0), 0, ArrowModel::Dot, 0),
    }
}

/// The start graph is well-formed and has one node.
proof fn lemma_start_graph_wf(stop: Option<char>)
    ensures
        wf(start_graph(stop)),
        start_graph(stop).node_count == 1,
        start_graph(stop).final_node == 0,
{
    let g0 = new_model(0);
    assert(wf(g0));
    if stop is None {
        lemma_add_edge_model_props(g0, 0, ArrowModel::Dot, 0);
    }
}

/// `i + step`, capped at `len`: where the parser lands after consuming a
/// group or a character class.
pub open spec fn advance(len: nat, i: nat, step: nat) -> nat {
    if i + step <= len {
        i + step
    } else {
        len
    }
}

/// One scope of the parse, from offset `i`, with the graph built so far
/// and `prev`, the entry node of the most recent atom (what a postfix
/// quantifier loops).  The scope ends at the end of the pattern, at the
/// caller's `stop` character, or at `|`, which parses the rest of the
/// scope and grafts it as a parallel branch from node 0 to the current
/// final node.
pub open spec fn parse_loop(
    p: Seq<char>,
    i: nat,
    stop: Option<char>,
    g: GraphModel,
    prev: nat,
) -> Result<(GraphModel, nat), ParseError>
    decreases p.len() - i, 0int,
{
    if i >= p.len() {
        match stop {
            Option::None => Ok((g, i)),
            Option::Some(c) => Err(ParseError::ExpectedGotEol(c)),
        }
    } else {
        let c = p[i as int];
        let fin = g.final_node;
        if stop == Option::Some(c) {
            Ok((g, i + 1))
        } else if c == '.' {
            parse_loop(p, i + 1, stop, atom_model(g, ArrowModel::Dot), fin)
        } else if c == '^' {
            parse_loop(p, i + 1, stop, atom_model(g, ArrowModel::LineStart), fin)
        } else if c == '$' {
            parse_loop(p, i + 1, stop, atom_model(g, ArrowModel::LineEnd), fin)
        } else if c == '\\' {
            if i + 1 >= p.len() {
                Err(ParseError::EscapeAtEol)
            } else if escapable(p[i as int + 1]) {
                parse_loop(p, i + 2, stop, atom_model(g, ArrowModel::Char(p[i as int + 1])), fin)
            } else {
                Err(ParseError::UnexpectedEscape(p[i as int + 1]))
            }
        } else if c == '|' {
            match parse_model(p.skip(i as int + 1), stop) {
                Err(e) => Err(e),
                Ok((rg, rc)) => if rg.edges.len() == 0 {
                    Ok((add_edge_model(g, 0, ArrowModel::Epsilon, fin), i + 1 + rc))
                } else {
                    Ok((attach_model(g, rg, 0, fin), i + 1 + rc))
                },
            }
        } else if c == '?' {
            if i == 0 || !quantifier_may_follow(p[i as int - 1]) {
                Err(ParseError::CannotApply('?'))
            } else {
                parse_loop(p, i + 1, stop, add_edge_model(g, prev, ArrowModel::Epsilon, fin), prev)
            }
        } else if c == '+' {
            if i == 0 || !quantifier_may_follow(p[i as int - 1]) {
                Err(ParseError::CannotApply('+'))
            } else {
                parse_loop(p, i + 1, stop, add_edge_model(g, fin, ArrowModel::Epsilon, prev), prev)
            }
        } else if c == '*' {
            if i == 0 || !quantifier_may_follow(p[i as int - 1]) {
                Err(ParseError::CannotApply('*'))
            } else {
                parse_loop(
                    p,
                    i + 1,
                    stop,
                    add_edge_model(
                        add_edge_model(g, prev, ArrowModel::Epsilon, fin),
                        fin,
                        ArrowModel::Epsilon,
                        prev,
                    ),
                    prev,
                )
            }
        } else if c == '(' {
            match parse_model(p.skip(i as int + 1), Option::Some(')')) {
                Err(e) => Err(e),
                Ok((ig, ic)) => parse_loop(
                    p,
                    advance(p.len(), i, 1 + ic),
                    stop,
                    concat_model(g, ig),
                    fin,
                ),
            }
        } else if c == '[' {
            match class_model(p.skip(i as int + 1)) {
                Err(e) => Err(e),
                Ok((arrow, cl)) => parse_loop(
                    p,
                    advance(p.len(), i, 1 + cl),
                    stop,
                    atom_model(g, arrow),
                    fin,
                ),
            }
        } else if c == ')' {
            Err(ParseError::UnexpectedChar(')'))
        } else {
            parse_loop(p, i + 1, stop, atom_model(g, ArrowModel::Char(c)), fin)
        }
    }
}

/// What parsing one scope of `p` returns: the graph and the count of
/// characters consumed.
pub open spec fn parse_model(p: Seq<char>, stop: Option<char>) -> Result<
    (GraphModel, nat),
    ParseError,
>
    decreases p.len(), 1int,
{
    parse_loop(p, 0, stop, start_graph(stop), 0)
}

/// The scope result carried over to models.
pub open spec fn parse_to_model(r: Result<(Graph, usize), ParseError>) -> Result<
    (GraphModel, nat),
    ParseError,
> {
    match r {
        Ok((g, n)) => Ok((g@, n as nat)),
        Err(e) => Err(e),
    }
}

/// Parses one scope of `pattern` from the start, stopping at `stop_at`.
#[verifier::rlimit(100)]
fn parse_at(pattern: &[char], stop_at: Option<char>) -> (r: Result<(Graph, usize), ParseError>)
    requires
        pattern@.len() < usize::MAX,
    ensures
        parse_to_model(r) == parse_model(pattern@, stop_at),
        r matches Ok(pair) ==> wf(pair.0@) && pair.0@.node_count <= pair.1 + 1 && pair.1
            <= pattern@.len(),
    decreases pattern@.len(),
{
    let ghost p = pattern@;
    let ghost target = parse_model(p, stop_at);
    let mut graph = Graph::new(0);
    if matches!(stop_at, Option::None) {
        graph = graph.add_edge(0, NfaArrow::Dot, 0);
    }
    proof {
        lemma_start_graph_wf(stop_at);
        assert(graph@ == start_graph(stop_at));
    }
    let mut previous_node: usize = 0;
    let mut i: usize = 0;
    while i < pattern.len()
        invariant
            p == pattern@,
            p.len() < usize::MAX,
            i <= p.len(),
            target == parse_model(p, stop_at),
            wf(graph@),
            graph@.node_count <= i + 1,
            previous_node < graph@.node_count,
            parse_loop(p, i as nat, stop_at, graph@, previous_node as nat) == target,
        decreases p.len() - i,
    {
        let c = pattern[i];
        let fin = graph.final_node;
        let ghost g_old = graph@;
        let ghost prev_old = previous_node as nat;
        proof {
            assert(fin as nat == g_old.final_node);
            assert(fin < graph.node_count);
        }
        let is_stop = match stop_at {
            Option::Some(sc) => sc == c,
            Option::None => false,
        };
        if is_stop {
            proof {
                assert(parse_loop(p, i as nat, stop_at, g_old, prev_old) == Ok::<
                    (GraphModel, nat),
                    ParseError,
                >((g_old, (i + 1) as nat)));
            }
            return Ok((graph, i + 1));
        } else if c == '.' {
            graph = graph.add_edge(fin, NfaArrow::Dot, fin + 1);
            graph.final_node = fin + 1;
            previous_node = fin;
            proof {
                lemma_atom_wf(g_old, ArrowModel::Dot);
                assert(graph@ =~= atom_model(g_old, ArrowModel::Dot));
            }
            i = i + 1;
        } else if c == '^' {
            graph = graph.add_edge(fin, NfaArrow::LineStart, fin + 1);
            graph.final_node = fin + 1;
            previous_node = fin;
            proof {
                lemma_atom_wf(g_old, ArrowModel::LineStart);
                assert(graph@ =~= atom_model(g_old, ArrowModel::LineStart));
            }
            i = i + 1;
        } else if c == '$' {
            graph = graph.add_edge(fin, NfaArrow::LineEnd, fin + 1);
            graph.final_node = fin + 1;
            previous_node = fin;
            proof {
                lemma_atom_wf(g_old, ArrowModel::LineEnd);
                assert(graph@ =~= atom_model(g_old, ArrowModel::LineEnd));
            }
            i = i + 1;
        } else if c == '\\' {
            if i + 1 >= pattern.len() {
                proof {
                    assert(parse_loop(p, i as nat, stop_at, g_old, prev_old) == Err::<
                        (GraphModel, nat),
                        ParseError,
                    >(ParseError::EscapeAtEol));
                }
                return Err(ParseError::EscapeAtEol);
            }
            let d = pattern[i + 1];
            if d == '\\' || d == '+' || d == '*' || d == '(' || d == ')' || d == '[' || d == ']'
                || d == '.' || d == '?' {
                graph = graph.add_edge(fin, NfaArrow::Char(d), fin + 1);
                graph.final_node = fin + 1;
                previous_node = fin;
                proof {
                    lemma_atom_wf(g_old, ArrowModel::Char(d));
                    assert(graph@ =~= atom_model(g_old, ArrowModel::Char(d)));
                }
                i = i + 2;
            } else {
                proof {
                    assert(parse_loop(p, i as nat, stop_at, g_old, prev_old) == Err::<
                        (GraphModel, nat),
                        ParseError,
                    >(ParseError::UnexpectedEscape(d)));
                }
                return Err(ParseError::UnexpectedEscape(d));
            }
        } else if c == '|' {
            let rest = slice_subrange(pattern, i + 1, pattern.len());
            proof {
                assert(rest@ =~= p.skip(i as int + 1));
            }
            match parse_at(rest, stop_at) {
                Err(e) => {
                    return Err(e);
                },
                Ok((rg, rc)) => {
                    let ghost rgm = rg@;
                    if rg.edges.len() == 0 {
                        graph = graph.add_edge(0, NfaArrow::Epsilon, fin);
                        proof {
                            lemma_add_edge_preserves_wf(g_old, 0, ArrowModel::Epsilon, fin as nat);
                        }
                    } else {
                        graph = graph.attach_parallel(rg, 0, fin);
                        proof {
                            lemma_attach_preserves_wf(g_old, rgm, 0, fin as nat);
                        }
                    }
                    proof {
                        assert(parse_loop(p, i as nat, stop_at, g_old, prev_old) == Ok::<
                            (GraphModel, nat),
                            ParseError,
                        >((graph@, (i + 1 + rc) as nat)));
                    }
                    return Ok((graph, i + 1 + rc));
                },
            }
        } else if c == '?' {
            let applicable = if i == 0 {
                false
            } else {
                can_apply_metacharacter(Some(pattern[i - 1]))
            };
            if !applicable {
                proof {
                    assert(parse_loop(p, i as nat, stop_at, g_old, prev_old) == Err::<
                        (GraphModel, nat),
                        ParseError,
                    >(ParseError::CannotApply('?')));
                }
                return Err(ParseError::CannotApply('?'));
            }
            graph = graph.add_edge(previous_node, NfaArrow::Epsilon, fin);
            proof {
                lemma_add_edge_preserves_wf(g_old, prev_old, ArrowModel::Epsilon, fin as nat);
            }
            i = i + 1;
        } else if c == '+' {
            let applicable = if i == 0 {
                false
            } else {
                can_apply_metacharacter(Some(pattern[i - 1]))
            };
            if !applicable {
                proof {
                    assert(parse_loop(p, i as nat, stop_at, g_old, prev_old) == Err::<
                        (GraphModel, nat),
                        ParseError,
                    >(ParseError::CannotApply('+')));
                }
                return Err(ParseError::CannotApply('+'));
            }
            graph = graph.add_edge(fin, NfaArrow::Epsilon, previous_node);
            proof {
                lemma_add_edge_preserves_wf(g_old, fin as nat, ArrowModel::Epsilon, prev_old);
            }
            i = i + 1;
        } else if c == '*' {
            let applicable = if i == 0 {
                false
            } else {
                can_apply_metacharacter(Some(pattern[i - 1]))
            };
            if !applicable {
                proof {
                    assert(parse_loop(p, i as nat, stop_at, g_old, prev_old) == Err::<
                        (GraphModel, nat),
                        ParseError,
                    >(ParseError::CannotApply('*')));
                }
                return Err(ParseError::CannotApply('*'));
            }
            graph = graph.add_edge(previous_node, NfaArrow::Epsilon, fin);
            proof {
                lemma_add_edge_preserves_wf(g_old, prev_old, ArrowModel::Epsilon, fin as nat);
            }
            let ghost g_mid = graph@;
            graph = graph.add_edge(fin, NfaArrow::Epsilon, previous_node);
            proof {
                lemma_add_edge_preserves_wf(g_mid, fin as nat, ArrowModel::Epsilon, prev_old);
            }
            i = i + 1;
        } else if c == '(' {
            let rest = slice_subrange(pattern, i + 1, pattern.len());
            proof {
                assert(rest@ =~= p.skip(i as int + 1));
            }
            match parse_at(rest, Some(')')) {
                Err(e) => {
                    return Err(e);
                },
                Ok((inner, ic)) => {
                    let ghost ig = inner@;
                    graph = graph.concat(inner);
                    previous_node = fin;
                    proof {
                        lemma_concat_preserves_wf(g_old, ig);
                        assert(advance(p.len(), i as nat, (1 + ic) as nat) == (i + 1 + ic) as nat);
                    }
                    i = i + 1 + ic;
                },
            }
        } else if c == '[' {
            let rest = slice_subrange(pattern, i + 1, pattern.len());
            proof {
                assert(rest@ =~= p.skip(i as int + 1));
            }
            match parse_character_class(rest) {
                Err(e) => {
                    return Err(e);
                },
                Ok((class_arrow, cl)) => {
                    let ghost am = class_arrow@;
                    graph = graph.add_edge(fin, class_arrow, fin + 1);
                    graph.final_node = fin + 1;
                    previous_node = fin;
                    proof {
                        lemma_atom_wf(g_old, am);
                        assert(graph@ =~= atom_model(g_old, am));
                        assert(advance(p.len(), i as nat, (1 + cl) as nat) == (i + 1 + cl) as nat);
                    }
                    i = i + 1 + cl;
                },
            }
        } else if c == ')' {
            proof {
                assert(parse_loop(p, i as nat, stop_at, g_old, prev_old) == Err::<
                    (GraphModel, nat),
                    ParseError,
                >(ParseError::UnexpectedChar(')')));
            }
            return Err(ParseError::UnexpectedChar(')'));
        } else {
            graph = graph.add_edge(fin, NfaArrow::Char(c), fin + 1);
            graph.final_node = fin + 1;
            previous_node = fin;
            proof {
                lemma_atom_wf(g_old, ArrowModel::Char(c));
                assert(graph@ =~= atom_model(g_old, ArrowModel::Char(c)));
            }
            i = i + 1;
        }
    }
    match stop_at {
        Option::None => {
            proof {
                assert(parse_loop(p, i as nat, stop_at, graph@, previous_node as nat) == Ok::<
                    (GraphModel, nat),
                    ParseError,
                >((graph@, i as nat)));
            }
            Ok((graph, i))
        },
        Option::Some(sc) => {
            proof {
                assert(parse_loop(p, i as nat, stop_at, graph@, previous_node as nat) == Err::<
                    (GraphModel, nat),
                    ParseError,
                >(ParseError::ExpectedGotEol(sc)));
            }
            Err(ParseError::ExpectedGotEol(sc))
        },
    }
}


/// Parses one scope of the pattern: at top level `stop_at` is `None`; a
/// group is parsed with `stop_at == Some(')')`.  Returns the NFA and the
/// number of pattern characters consumed.
pub fn parse_inner(pattern: &str, stop_at: Option<char>) -> (r: Result<(NFA, usize), ParseError>)
    requires
        pattern@.len() < usize::MAX,
    ensures
        parse_to_model(r) == parse_model(pattern@, stop_at),
        r matches Ok(pair) ==> wf(pair.0@) && pair.0@.node_count <= pair.1 + 1 && pair.1
            <= pattern@.len(),
{
    let chars = chars_of(pattern);
    parse_at(chars.as_slice(), stop_at)
}

/// The compile result carried over to models; the consumed count of a
/// whole-pattern parse says nothing and is dropped.
pub open spec fn graph_to_model(r: Result<Graph, ParseError>) -> Result<GraphModel, ParseError> {
    match r {
        Ok(g) => Ok(g@),
        Err(e) => Err(e),
    }
}

/// What compiling a whole pattern yields.
pub open spec fn parse_result_model(p: Seq<char>) -> Result<GraphModel, ParseError> {
    match parse_model(p, Option::None) {
        Ok((g, n)) => Ok(g),
        Err(e) => Err(e),
    }
}

/// Compiles a pattern into an NFA.  The graph returned is exactly the
/// one the grammar assigns to the pattern, and it is well-formed; the
/// error returned is exactly the one the grammar assigns to a rejected
/// pattern.
pub fn parse(pattern: &str) -> (r: Result<NFA, ParseError>)
    requires
        pattern@.len() < usize::MAX,
    ensures
        graph_to_model(r) == parse_result_model(pattern@),
        r matches Ok(g) ==> wf(g@),
{
    match parse_inner(pattern, None) {
        Ok((graph, _consumed)) => Ok(graph),
        Err(e) => Err(e),
    }
}

/// The empty pattern is accepted, and its NFA matches every input, the
/// empty one included.
pub proof fn lemma_empty_pattern_matches_all(w: Seq<char>)
    ensures
        parse_result_model(Seq::empty()) matches Ok(g) && walk_model(g, w),
{
    let p = Seq::<char>::empty();
    let g0 = start_graph(Option::None);
    lemma_start_graph_wf(Option::None);
    assert(parse_loop(p, 0, Option::None, g0, 0) == Ok::<(GraphModel, nat), ParseError>((g0, 0)));
    // The start graph holds nothing but the `Dot` self-loop on node 0,
    // its final node: every walk holds node 0 from the beginning.
    assert(g0.edges.len() == 1 && g0.edges[0].ch == ArrowModel::Dot) by {
        assert(!new_model(0).edges.contains(EdgeModel { from: 0, ch: ArrowModel::Dot, to: 0 }));
    }
    assert(g0.final_node == 0);
    let base = Set::new(|v: nat| v == 0);
    let s0 = init_model(g0);
    assert(base.contains(0));
    lemma_eps_closure_base(g0, base.union(label_step(g0, base, ArrowModel::LineStart)));
    assert(s0.contains(0));
    if w.len() == 0 {
        lemma_eps_closure_base(g0, s0.union(label_step(g0, s0, ArrowModel::LineEnd)));
        assert(empty_input_state(g0, s0).contains(0));
    } else {
        assert(walk_from(g0, s0, w, 0));
    }
}

} // verus!
