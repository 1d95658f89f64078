//! The DFA overlay: lazy subset construction over the NFA, with each
//! encountered set of NFA nodes memoized as one DFA state and each
//! discovered transition keyed by the input character that produced it.

use vstd::prelude::*;

use crate::graph::{bounded, GraphModel};
use crate::nfa::{
    chars_of, empty_input_state, follow_char, follow_char_model, follow_empty, init_model,
    initial_state, is_empty_state, set_of, state_empty, step_with_line_end, union_state, walk_from,
    walk_model, NFAState, NFA,
};
use crate::parser::{parse, parse_result_model, ParseError};

verus! {

/// One state of the lazy DFA: a set of NFA nodes, and the transitions
/// discovered so far, keyed by input character.
pub struct DState {
    nfa_states: NFAState,
    next_states: Vec<(char, usize)>,
}

/// Mathematical form of a DFA state.
#[verifier::ext_equal]
pub struct DStateModel {
    pub nfa: Set<nat>,
    pub next: Map<char, nat>,
}

/// The transition table an association list holds.
pub open spec fn assoc_map(entries: Seq<(char, usize)>) -> Map<char, nat>
    decreases entries.len(),
{
    if entries.len() == 0 {
        Map::empty()
    } else {
        assoc_map(entries.drop_last()).insert(entries.last().0, entries.last().1 as nat)
    }
}

impl View for DState {
    type V = DStateModel;

    closed spec fn view(&self) -> DStateModel {
        DStateModel { nfa: set_of(self.nfa_states@), next: assoc_map(self.next_states@) }
    }
}

impl DState {
    /// Inner consistency of one DFA state: the node vector covers the
    /// graph, every recorded transition leads into the table, and no
    /// character is recorded twice.
    pub closed spec fn wf(&self, node_count: nat, table_len: nat) -> bool {
        &&& self.nfa_states@.len() == node_count
        &&& forall|k: int|
            0 <= k < self.next_states@.len() ==> (#[trigger] self.next_states@[k]).1 < table_len
        &&& forall|k1: int, k2: int|
            0 <= k1 < k2 < self.next_states@.len() ==> self.next_states@[k1].0
                != self.next_states@[k2].0
    }
}

/// One DFA transition on `c`: a memoized transition is followed; a
/// missing one is computed with `follow_char`, recorded in the current
/// state, and its target appended to the table.
pub open spec fn dfa_step_model(
    g: GraphModel,
    table: Seq<DStateModel>,
    cur: nat,
    c: char,
    is_last: bool,
) -> (Seq<DStateModel>, nat) {
    let ds = table[cur as int];
    if ds.next.dom().contains(c) {
        (table, ds.next[c])
    } else {
        let target = DStateModel {
            nfa: follow_char_model(g, ds.nfa, c, is_last),
            next: Map::empty(),
        };
        let recorded = DStateModel { nfa: ds.nfa, next: ds.next.insert(c, table.len() as nat) };
        (table.update(cur as int, recorded).push(target), table.len() as nat)
    }
}

/// The walk from position `i` in DFA state `cur`: accept as soon as the
/// current state holds the final node, stop as soon as it runs empty.
/// Yields the table and position the walk ends in, and its verdict.
pub open spec fn dfa_walk_from(
    g: GraphModel,
    table: Seq<DStateModel>,
    cur: nat,
    w: Seq<char>,
    i: nat,
) -> (Seq<DStateModel>, nat, bool)
    decreases w.len() - i,
{
    if i >= w.len() {
        (table, cur, table[cur as int].nfa.contains(g.final_node))
    } else if table[cur as int].nfa.contains(g.final_node) {
        (table, cur, true)
    } else {
        let stepped = dfa_step_model(g, table, cur, w[i as int], i + 1 == w.len());
        if state_empty(stepped.0[stepped.1 as int].nfa) {
            (stepped.0, stepped.1, false)
        } else {
            dfa_walk_from(g, stepped.0, stepped.1, w, i + 1)
        }
    }
}

/// A whole walk: from DFA state 0, with the same handling of an empty
/// input as the direct simulation (the `LineEnd` step fires before the
/// terminal membership test, and the table is left alone).
pub open spec fn dfa_walk_model(g: GraphModel, table: Seq<DStateModel>, w: Seq<char>) -> (
    Seq<DStateModel>,
    nat,
    bool,
) {
    if w.len() == 0 {
        (table, 0, empty_input_state(g, table[0].nfa).contains(g.final_node))
    } else {
        dfa_walk_from(g, table, 0, w, 0)
    }
}

/// The DFA overlay over a compiled NFA.  The table is append-only; state
/// 0 is the initial state.
pub struct DFA {
    nfa: NFA,
    pub states: Vec<DState>,
    pub current_state: usize,
}

impl DFA {
    /// The compiled NFA the overlay runs.
    pub closed spec fn nfa_model(&self) -> GraphModel {
        self.nfa@
    }

    /// The table of DFA states built so far.
    pub closed spec fn table(&self) -> Seq<DStateModel> {
        self.states@.map_values(|d: DState| d@)
    }

    /// The DFA state the walk stands in.
    pub closed spec fn cur(&self) -> nat {
        self.current_state as nat
    }

    /// Consistency of the whole overlay.
    pub closed spec fn wf(&self) -> bool {
        &&& bounded(self.nfa@)
        &&& 1 <= self.states@.len()
        &&& (self.current_state as nat) < self.states@.len()
        &&& forall|i: int|
            0 <= i < self.states@.len() ==> (#[trigger] self.states@[i]).wf(
                self.nfa@.node_count,
                self.states@.len() as nat,
            )
    }

    /// A table that holds nothing but the initial state, with no
    /// transition discovered yet.
    pub closed spec fn fresh(&self) -> bool {
        &&& self.states@.len() == 1
        &&& self.states@[0]@.next == Map::<char, nat>::empty()
        &&& self.states@[0]@.nfa == init_model(self.nfa@)
        &&& self.current_state == 0
    }

    /// A fresh overlay: one DFA state holding the NFA's initial state
    /// set.
    pub fn new(nfa: NFA) -> (d: DFA)
        requires
            bounded(nfa@),
        ensures
            d.wf(),
            d.fresh(),
            d.nfa_model() == nfa@,
    {
        let init = DState { nfa_states: initial_state(&nfa), next_states: Vec::new() };
        let d = DFA { nfa, states: vec![init], current_state: 0 };
        proof {
            assert(d.states@[0].wf(d.nfa@.node_count, 1));
        }
        d
    }
}

/// The recorded target for `c`, if one exists.
fn lookup_next(entries: &Vec<(char, usize)>, c: char) -> (r: Option<usize>)
    ensures
        match r {
            Option::Some(d) => exists|k: int|
                0 <= k < entries@.len() && (#[trigger] entries@[k]).0 == c && entries@[k].1 == d,
            Option::None => forall|k: int|
                0 <= k < entries@.len() ==> (#[trigger] entries@[k]).0 != c,
        },
{
    let mut k: usize = 0;
    while k < entries.len()
        invariant
            k <= entries.len(),
            forall|j: int| 0 <= j < k ==> (#[trigger] entries@[j]).0 != c,
        decreases entries@.len() - k,
    {
        let pair = entries[k];
        if pair.0 == c {
            return Some(pair.1);
        }
        k = k + 1;
    }
    None
}

/// An association list with distinct keys means exactly what its map
/// says: a key is present iff some entry carries it, and it maps to that
/// entry's value.
proof fn lemma_assoc_map_lookup(entries: Seq<(char, usize)>, c: char)
    requires
        forall|k1: int, k2: int|
            0 <= k1 < k2 < entries.len() ==> (#[trigger] entries[k1]).0 != (#[trigger] entries[k2]).0,
    ensures
        assoc_map(entries).dom().contains(c) == (exists|k: int|
            0 <= k < entries.len() && (#[trigger] entries[k]).0 == c),
        forall|k: int|
            0 <= k < entries.len() && (#[trigger] entries[k]).0 == c ==> assoc_map(entries)[c]
                == entries[k].1 as nat,
    decreases entries.len(),
{
    if entries.len() > 0 {
        let prefix = entries.drop_last();
        assert forall|k1: int, k2: int|
            0 <= k1 < k2 < prefix.len() implies (#[trigger] prefix[k1]).0
            != (#[trigger] prefix[k2]).0 by {
            assert(prefix[k1] == entries[k1] && prefix[k2] == entries[k2]);
        }
        lemma_assoc_map_lookup(prefix, c);
        let last = entries.last();
        if last.0 == c {
            assert(entries[entries.len() - 1].0 == c);
            assert forall|k: int| 0 <= k < entries.len() && (#[trigger] entries[k]).0 == c
                implies assoc_map(entries)[c] == entries[k].1 as nat by {
                if k < entries.len() - 1 {
                    assert(entries[k].0 != entries[entries.len() - 1].0);
                }
            }
        } else {
            assert forall|k: int| 0 <= k < entries.len() && (#[trigger] entries[k]).0 == c
                implies assoc_map(entries)[c] == entries[k].1 as nat by {
                assert(k < entries.len() - 1);
                assert(prefix[k] == entries[k]);
            }
            assert((exists|k: int| 0 <= k < entries.len() && (#[trigger] entries[k]).0 == c) == (
            exists|k: int| 0 <= k < prefix.len() && (#[trigger] prefix[k]).0 == c)) by {
                if exists|k: int| 0 <= k < entries.len() && (#[trigger] entries[k]).0 == c {
                    let k = choose|k: int| 0 <= k < entries.len() && (#[trigger] entries[k]).0 == c;
                    assert(prefix[k] == entries[k]);
                }
            }
        }
    }
}

/// A copy of a state vector with the same contents.
fn bools_dup(a: &Vec<bool>) -> (r: Vec<bool>)
    ensures
        r@ == a@,
{
    let mut r: Vec<bool> = Vec::new();
    let mut i: usize = 0;
    while i < a.len()
        invariant
            i <= a.len(),
            r@ == a@.subrange(0, i as int),
        decreases a@.len() - i,
    {
        r.push(a[i]);
        i = i + 1;
    }
    proof {
        assert(r@ =~= a@);
    }
    r
}

/// A copy of a transition list with the same contents.
fn pairs_dup(a: &Vec<(char, usize)>) -> (r: Vec<(char, usize)>)
    ensures
        r@ == a@,
{
    let mut r: Vec<(char, usize)> = Vec::new();
    let mut i: usize = 0;
    while i < a.len()
        invariant
            i <= a.len(),
            r@ == a@.subrange(0, i as int),
        decreases a@.len() - i,
    {
        r.push(a[i]);
        i = i + 1;
    }
    proof {
        assert(r@ =~= a@);
    }
    r
}

impl DFA {
    /// One transition on `c`: follows the memoized target if the current
    /// state has seen `c` before, otherwise computes the next state set,
    /// appends it to the table, and records the transition.
    fn next(&mut self, c: char, is_last: bool)
        requires
            old(self).wf(),
        ensures
            final(self).wf(),
            final(self).nfa_model() == old(self).nfa_model(),
            ({
                let stepped = dfa_step_model(
                    old(self).nfa_model(),
                    old(self).table(),
                    old(self).current_state as nat,
                    c,
                    is_last,
                );
                final(self).table() == stepped.0 && final(self).current_state as nat == stepped.1
            }),
    {
        let ghost table0 = self.table();
        let ghost cur0 = self.current_state as nat;
        let next_index = self.states.len();
        let cur = self.current_state;
        let found = lookup_next(&self.states[cur].next_states, c);
        proof {
            assert(self.states@[cur as int].wf(self.nfa@.node_count, self.states@.len() as nat));
            lemma_assoc_map_lookup(self.states@[cur as int].next_states@, c);
            assert(table0[cur as int] == self.states@[cur as int]@);
        }
        match found {
            Option::Some(d) => {
                proof {
                    assert(table0[cur as int].next.dom().contains(c));
                    assert(table0[cur as int].next[c] == d as nat);
                    assert(d < self.states@.len());
                }
                self.current_state = d;
            },
            Option::None => {
                proof {
                    assert(!table0[cur as int].next.dom().contains(c));
                }
                let ns = follow_char(&self.nfa, &self.states[cur].nfa_states, c, is_last);
                let nb = bools_dup(&self.states[cur].nfa_states);
                let mut np = pairs_dup(&self.states[cur].next_states);
                np.push((c, next_index));
                let ghost old_entries = self.states@[cur as int].next_states@;
                let recorded = DState { nfa_states: nb, next_states: np };
                self.states.set(cur, recorded);
                self.states.push(DState { nfa_states: ns, next_states: Vec::new() });
                self.current_state = next_index;
                proof {
                    let stepped = dfa_step_model(self.nfa@, table0, cur0, c, is_last);
                    assert(np@.drop_last() =~= old_entries);
                    assert(assoc_map(np@) == assoc_map(old_entries).insert(c, next_index as nat));
                    assert(self.states@[cur as int]@ =~= stepped.0[cur as int]);
                    assert(self.states@[self.states@.len() - 1]@ =~= stepped.0[self.states@.len()
                        - 1]);
                    assert(self.table() =~= stepped.0);
                    // Consistency of every state in the grown table.
                    assert forall|i: int| 0 <= i < self.states@.len() implies (
                    #[trigger] self.states@[i]).wf(
                        self.nfa@.node_count,
                        self.states@.len() as nat,
                    ) by {
                        let n = self.states@.len();
                        if i == cur as int {
                            assert forall|k1: int, k2: int| 0 <= k1 < k2 < np@.len() implies np@[k1].0
                                != np@[k2].0 by {
                                if k2 == np@.len() - 1 {
                                    assert(np@[k1] == old_entries[k1]);
                                }
                            }
                        } else if i == n - 1 {
                        } else {
                            assert(self.states@[i] == old(self).states@[i]);
                            assert(old(self).states@[i].wf(self.nfa@.node_count, (n - 1) as nat));
                        }
                    }
                }
            },
        }
    }

    /// Runs the overlay against `text` and reports whether the NFA
    /// matches: the table keeps every state discovered on the way and
    /// the walk is exactly the subset construction's.
    /// The node set of the DFA state the walk stands in.
    fn get_current_states(&self) -> (r: &NFAState)
        requires
            self.wf(),
        ensures
            r@.len() == self.nfa_model().node_count,
            set_of(r@) == self.table()[self.cur() as int].nfa,
    {
        proof {
            assert(self.states@[self.current_state as int].wf(
                self.nfa@.node_count,
                self.states@.len() as nat,
            ));
            assert(self.table()[self.current_state as int] == self.states@[self.current_state as int]@);
        }
        &self.states[self.current_state].nfa_states
    }

    pub fn walk(&mut self, text: String) -> (r: bool)
        requires
            old(self).wf(),
        ensures
            final(self).wf(),
            final(self).nfa_model() == old(self).nfa_model(),
            ({
                let walked = dfa_walk_model(old(self).nfa_model(), old(self).table(), text@);
                &&& final(self).table() == walked.0
                &&& final(self).cur() == walked.1
                &&& r == walked.2
            }),
            old(self).fresh() ==> r == walk_model(old(self).nfa_model(), text@),
    {
        let ghost g = self.nfa@;
        let ghost table0 = self.table();
        let ghost target = dfa_walk_model(g, table0, text@);
        proof {
            if old(self).fresh() {
                assert(table0[0] == old(self).states@[0]@);
                lemma_fresh_dfa_matches_nfa(g, table0, text@);
            }
        }
        self.current_state = 0;
        let w = chars_of(text.as_str());
        if w.len() == 0 {
            // The loop below never runs on an empty input, but `LineEnd`
            // anchors still apply: fire them before the terminal
            // membership test, leaving the table alone.
            let le = step_with_line_end(&self.nfa, &self.states[0].nfa_states);
            let ext = union_state(&self.states[0].nfa_states, &le);
            let closed = follow_empty(&self.nfa, ext);
            proof {
                assert(table0[0].nfa == set_of(self.states@[0].nfa_states@));
                assert(set_of(closed@) == empty_input_state(g, table0[0].nfa));
            }
            let r = closed[self.nfa.final_node];
            proof {
                assert(r == set_of(closed@).contains(g.final_node));
            }
            return r;
        }
        let mut i: usize = 0;
        while i < w.len()
            invariant
                self.wf(),
                self.nfa_model() == g,
                g == old(self).nfa_model(),
                table0 == old(self).table(),
                i <= w@.len(),
                w@.len() > 0,
                w@ == text@,
                target == dfa_walk_model(g, table0, text@),
                old(self).fresh() ==> target.2 == walk_model(g, text@),
                dfa_walk_from(g, self.table(), self.current_state as nat, w@, i as nat) == target,
            decreases w@.len() - i,
        {
            let fin = self.nfa.final_node;
            if self.get_current_states()[fin] {
                proof {
                    assert(self.table()[self.cur() as int].nfa.contains(g.final_node));
                }
                return true;
            }
            proof {
                assert(!self.table()[self.cur() as int].nfa.contains(g.final_node));
            }
            let ghost table_before = self.table();
            let ghost cur_before = self.current_state as nat;
            self.next(w[i], i + 1 == w.len());
            if is_empty_state(self.get_current_states()) {
                proof {
                    assert(dfa_walk_from(g, table_before, cur_before, w@, i as nat) == (
                    self.table(),
                    self.current_state as nat,
                    false,
                    ));
                }
                return false;
            }
            proof {
                assert(dfa_walk_from(g, table_before, cur_before, w@, i as nat) == dfa_walk_from(
                    g,
                    self.table(),
                    self.current_state as nat,
                    w@,
                    (i + 1) as nat,
                ));
            }
            i = i + 1;
        }
        let fin = self.nfa.final_node;
        let r = self.get_current_states()[fin];
        proof {
            assert(dfa_walk_from(g, self.table(), self.cur(), w@, i as nat) == (
            self.table(),
            self.cur(),
            r,
            ));
        }
        r
    }
}

/// In a fresh overlay the walk never finds a memoized transition: it
/// always stands in the youngest state of the table, whose memo is
/// empty, so every transition is computed with `follow_char` — exactly
/// the direct simulation's step.
proof fn lemma_dfa_walk_from_matches(g: GraphModel, table: Seq<DStateModel>, w: Seq<char>, i: nat)
    requires
        table.len() >= 1,
        table[table.len() - 1].next == Map::<char, nat>::empty(),
    ensures
        dfa_walk_from(g, table, (table.len() - 1) as nat, w, i).2 == walk_from(
            g,
            table[table.len() - 1].nfa,
            w,
            i,
        ),
    decreases w.len() - i,
{
    let cur = (table.len() - 1) as nat;
    let s = table[cur as int].nfa;
    if i < w.len() && !s.contains(g.final_node) {
        assert(!table[cur as int].next.dom().contains(w[i as int]));
        let stepped = dfa_step_model(g, table, cur, w[i as int], i + 1 == w.len());
        let t2 = stepped.0;
        assert(stepped.1 == t2.len() - 1);
        assert(t2[t2.len() - 1].nfa == follow_char_model(g, s, w[i as int], i + 1 == w.len()));
        assert(t2[t2.len() - 1].next == Map::<char, nat>::empty());
        if !state_empty(t2[t2.len() - 1].nfa) {
            lemma_dfa_walk_from_matches(g, t2, w, i + 1);
        }
    }
}

/// The two matchers agree: a walk over a fresh DFA overlay returns
/// exactly what the direct NFA simulation returns, on every input.
pub proof fn lemma_fresh_dfa_matches_nfa(g: GraphModel, table: Seq<DStateModel>, w: Seq<char>)
    requires
        table.len() == 1,
        table[0].next == Map::<char, nat>::empty(),
        table[0].nfa == init_model(g),
    ensures
        dfa_walk_model(g, table, w).2 == walk_model(g, w),
{
    if w.len() > 0 {
        lemma_dfa_walk_from_matches(g, table, w, 0);
    }
}

/// Runs the pattern against `text` by lazy subset construction: builds a
/// fresh DFA overlay and walks it.  The verdict is the NFA's.
pub fn walk_dfa(nfa: NFA, text: String) -> (r: bool)
    requires
        bounded(nfa@),
    ensures
        r == walk_model(nfa@, text@),
{
    let mut d = DFA::new(nfa);
    d.walk(text)
}

/// Compiles the pattern and matches `string` against it, through the DFA
/// overlay: the convenience front end.
pub fn check(pattern: &str, string: &str) -> (r: Result<bool, ParseError>)
    requires
        pattern@.len() < usize::MAX,
    ensures
        match r {
            Ok(b) => parse_result_model(pattern@) matches Ok(g) && b == walk_model(g, string@),
            Err(e) => parse_result_model(pattern@) == Err::<GraphModel, ParseError>(e),
        },
{
    match parse(pattern) {
        Ok(graph) => {
            let text = string.to_owned();
            Ok(walk_dfa(graph, text))
        },
        Err(e) => Err(e),
    }
}

} // verus!
