//! The NFA alphabet and the multi-state simulation engine.

use vstd::prelude::*;
use vstd::string::StrSliceExecFns;

use crate::graph::{bounded, concat_edges, concat_model, new_model, Graph, GraphModel};

verus! {

/// A compiled pattern: a graph over NFA arrows.
pub type NFA = Graph;

/// The working state of a simulation: one flag per node of the graph.
pub type NFAState = Vec<bool>;

/// An edge label: what a transition demands of the input.
///
/// `Epsilon`, `LineStart` and `LineEnd` consume no character; the others
/// consume exactly one.
#[derive(Debug, PartialEq, Eq, Clone)]
pub enum NfaArrow {
    Epsilon,
    Char(char),
    OneOf(Vec<char>),
    NotOneOf(Vec<char>),
    Dot,
    LineStart,
    LineEnd,
}

/// Mathematical form of an arrow: character classes as sequences.
#[verifier::ext_equal]
pub enum ArrowModel {
    Epsilon,
    Char(char),
    OneOf(Seq<char>),
    NotOneOf(Seq<char>),
    Dot,
    LineStart,
    LineEnd,
}

impl View for NfaArrow {
    type V = ArrowModel;

    open spec fn view(&self) -> ArrowModel {
        match self {
            NfaArrow::Epsilon => ArrowModel::Epsilon,
            NfaArrow::Char(c) => ArrowModel::Char(*c),
            NfaArrow::OneOf(cs) => ArrowModel::OneOf(cs@),
            NfaArrow::NotOneOf(cs) => ArrowModel::NotOneOf(cs@),
            NfaArrow::Dot => ArrowModel::Dot,
            NfaArrow::LineStart => ArrowModel::LineStart,
            NfaArrow::LineEnd => ArrowModel::LineEnd,
        }
    }
}

/// Element-wise equality of two character vectors.
fn chars_eq(a: &Vec<char>, b: &Vec<char>) -> (r: bool)
    ensures
        r == (a@ == b@),
{
    if a.len() != b.len() {
        return false;
    }
    let mut i: usize = 0;
    while i < a.len()
        invariant
            i <= a.len(),
            a@.len() == b@.len(),
            forall|j: int| 0 <= j < i ==> a@[j] == b@[j],
        decreases a@.len() - i,
    {
        if a[i] != b[i] {
            return false;
        }
        i = i + 1;
    }
    proof {
        assert(a@ =~= b@);
    }
    true
}

/// Structural equality of two arrows; classes compare by their sequences.
pub fn arrow_eq(a: &NfaArrow, b: &NfaArrow) -> (r: bool)
    ensures
        r == (a@ == b@),
{
    match (a, b) {
        (NfaArrow::Epsilon, NfaArrow::Epsilon) => true,
        (NfaArrow::Char(x), NfaArrow::Char(y)) => *x == *y,
        (NfaArrow::OneOf(x), NfaArrow::OneOf(y)) => chars_eq(x, y),
        (NfaArrow::NotOneOf(x), NfaArrow::NotOneOf(y)) => chars_eq(x, y),
        (NfaArrow::Dot, NfaArrow::Dot) => true,
        (NfaArrow::LineStart, NfaArrow::LineStart) => true,
        (NfaArrow::LineEnd, NfaArrow::LineEnd) => true,
        _ => false,
    }
}

/// A copy of an arrow with the same model.
pub fn arrow_dup(a: &NfaArrow) -> (r: NfaArrow)
    ensures
        r@ == a@,
{
    match a {
        NfaArrow::Epsilon => NfaArrow::Epsilon,
        NfaArrow::Char(c) => NfaArrow::Char(*c),
        NfaArrow::OneOf(cs) => NfaArrow::OneOf(chars_dup(cs)),
        NfaArrow::NotOneOf(cs) => NfaArrow::NotOneOf(chars_dup(cs)),
        NfaArrow::Dot => NfaArrow::Dot,
        NfaArrow::LineStart => NfaArrow::LineStart,
        NfaArrow::LineEnd => NfaArrow::LineEnd,
    }
}

/// The set of nodes a state vector holds.
pub open spec fn set_of(bs: Seq<bool>) -> Set<nat> {
    Set::new(|v: nat| v < bs.len() && bs[v as int])
}

/// Whether an arrow matches the character `c` (and consumes it).
pub open spec fn consumes(a: ArrowModel, c: char) -> bool {
    match a {
        ArrowModel::Char(ch) => c == ch,
        ArrowModel::Dot => true,
        ArrowModel::OneOf(cs) => cs.contains(c),
        ArrowModel::NotOneOf(cs) => !cs.contains(c),
        _ => false,
    }
}

/// The nodes reached from `s` along edges labeled exactly `label`.
pub open spec fn label_step(g: GraphModel, s: Set<nat>, label: ArrowModel) -> Set<nat> {
    Set::new(
        |v: nat|
            exists|j: int|
                0 <= j < g.edges.len() && s.contains((#[trigger] g.edges[j]).from)
                    && g.edges[j].ch == label && g.edges[j].to == v,
    )
}

/// The nodes reached from `s` along edges whose label matches `c`.
pub open spec fn char_step(g: GraphModel, s: Set<nat>, c: char) -> Set<nat> {
    Set::new(
        |v: nat|
            exists|j: int|
                0 <= j < g.edges.len() && s.contains((#[trigger] g.edges[j]).from) && consumes(
                    g.edges[j].ch,
                    c,
                ) && g.edges[j].to == v,
    )
}

/// `s` together with its immediate epsilon successors.
pub open spec fn eps_step(g: GraphModel, s: Set<nat>) -> Set<nat> {
    s.union(label_step(g, s, ArrowModel::Epsilon))
}

/// `k` rounds of epsilon extension.
pub open spec fn eps_iter(g: GraphModel, s: Set<nat>, k: nat) -> Set<nat>
    decreases k,
{
    if k == 0 {
        s
    } else {
        eps_step(g, eps_iter(g, s, (k - 1) as nat))
    }
}

/// The epsilon closure of `s`: every node reachable from `s` along
/// epsilon edges alone.
pub open spec fn eps_closure(g: GraphModel, s: Set<nat>) -> Set<nat> {
    Set::new(|v: nat| exists|k: nat| eps_iter(g, s, k).contains(v))
}

/// A set that no epsilon edge leaves.
pub open spec fn eps_closed(g: GraphModel, s: Set<nat>) -> bool {
    forall|j: int|
        0 <= j < g.edges.len() && s.contains((#[trigger] g.edges[j]).from) && g.edges[j].ch
            == ArrowModel::Epsilon ==> s.contains(g.edges[j].to)
}

/// The closure contains its base set.
pub proof fn lemma_eps_closure_base(g: GraphModel, s: Set<nat>)
    ensures
        s.subset_of(eps_closure(g, s)),
{
    assert forall|v: nat| s.contains(v) implies eps_closure(g, s).contains(v) by {
        assert(eps_iter(g, s, 0).contains(v));
    }
}

/// The closure is closed under epsilon edges.
pub proof fn lemma_eps_closure_closed(g: GraphModel, s: Set<nat>)
    ensures
        eps_closed(g, eps_closure(g, s)),
{
    assert forall|j: int|
        0 <= j < g.edges.len() && eps_closure(g, s).contains((#[trigger] g.edges[j]).from)
            && g.edges[j].ch == ArrowModel::Epsilon implies eps_closure(g, s).contains(
        g.edges[j].to,
    ) by {
        let k = choose|k: nat| eps_iter(g, s, k).contains(g.edges[j].from);
        assert(label_step(g, eps_iter(g, s, k), ArrowModel::Epsilon).contains(g.edges[j].to));
        assert(eps_iter(g, s, k + 1).contains(g.edges[j].to));
    }
}

/// Each round of epsilon extension stays inside any closed superset.
proof fn lemma_eps_iter_subset(g: GraphModel, s: Set<nat>, t: Set<nat>, k: nat)
    requires
        s.subset_of(t),
        eps_closed(g, t),
    ensures
        eps_iter(g, s, k).subset_of(t),
    decreases k,
{
    if k > 0 {
        lemma_eps_iter_subset(g, s, t, (k - 1) as nat);
        let prev = eps_iter(g, s, (k - 1) as nat);
        assert forall|v: nat| eps_iter(g, s, k).contains(v) implies t.contains(v) by {
            if !prev.contains(v) {
                let j = choose|j: int|
                    0 <= j < g.edges.len() && prev.contains((#[trigger] g.edges[j]).from)
                        && g.edges[j].ch == ArrowModel::Epsilon && g.edges[j].to == v;
                assert(t.contains(g.edges[j].from));
            }
        }
    }
}

/// The closure is the least closed superset of its base set.
pub proof fn lemma_eps_closure_minimal(g: GraphModel, s: Set<nat>, t: Set<nat>)
    requires
        s.subset_of(t),
        eps_closed(g, t),
    ensures
        eps_closure(g, s).subset_of(t),
{
    assert forall|v: nat| eps_closure(g, s).contains(v) implies t.contains(v) by {
        let k = choose|k: nat| eps_iter(g, s, k).contains(v);
        lemma_eps_iter_subset(g, s, t, k);
    }
}

/// A closed superset of the base that lies inside the closure is the
/// closure.
pub proof fn lemma_eps_closure_unique(g: GraphModel, s: Set<nat>, t: Set<nat>)
    requires
        s.subset_of(t),
        eps_closed(g, t),
        t.subset_of(eps_closure(g, s)),
    ensures
        t == eps_closure(g, s),
{
    lemma_eps_closure_minimal(g, s, t);
    assert(t =~= eps_closure(g, s));
}

/// How many flags of a state vector are set.
pub open spec fn count_true(bs: Seq<bool>) -> nat
    decreases bs.len(),
{
    if bs.len() == 0 {
        0
    } else {
        count_true(bs.drop_last()) + if bs.last() {
            1nat
        } else {
            0nat
        }
    }
}

/// Setting a clear flag raises the count by one.
proof fn lemma_count_true_update(bs: Seq<bool>, i: int)
    requires
        0 <= i < bs.len(),
        !bs[i],
    ensures
        count_true(bs.update(i, true)) == count_true(bs) + 1,
    decreases bs.len(),
{
    let upd = bs.update(i, true);
    if i == bs.len() - 1 {
        assert(upd.drop_last() =~= bs.drop_last());
        assert(upd.last());
    } else {
        assert(upd.drop_last() =~= bs.drop_last().update(i, true));
        assert(upd.last() == bs.last());
        lemma_count_true_update(bs.drop_last(), i);
    }
}

/// The count never exceeds the vector's length.
proof fn lemma_count_true_le(bs: Seq<bool>)
    ensures
        count_true(bs) <= bs.len(),
    decreases bs.len(),
{
    if bs.len() > 0 {
        lemma_count_true_le(bs.drop_last());
    }
}

/// A state vector of `n` clear flags.
fn empty_state(n: usize) -> (r: NFAState)
    ensures
        r@.len() == n as nat,
        forall|i: int| 0 <= i < n ==> !r@[i],
{
    let mut r: Vec<bool> = Vec::new();
    let mut i: usize = 0;
    while i < n
        invariant
            i <= n,
            r@.len() == i as nat,
            forall|j: int| 0 <= j < i ==> !r@[j],
        decreases n - i,
    {
        r.push(false);
        i = i + 1;
    }
    r
}

/// Whether a character vector holds `c`.
fn contains_char(cs: &Vec<char>, c: char) -> (r: bool)
    ensures
        r == cs@.contains(c),
{
    let mut i: usize = 0;
    while i < cs.len()
        invariant
            i <= cs.len(),
            forall|j: int| 0 <= j < i ==> cs@[j] != c,
        decreases cs@.len() - i,
    {
        if cs[i] == c {
            return true;
        }
        i = i + 1;
    }
    false
}

/// Whether an arrow matches the character `c`.
fn arrow_consumes(a: &NfaArrow, c: char) -> (r: bool)
    ensures
        r == consumes(a@, c),
{
    match a {
        NfaArrow::Char(ch) => *ch == c,
        NfaArrow::Dot => true,
        NfaArrow::OneOf(cs) => contains_char(cs, c),
        NfaArrow::NotOneOf(cs) => !contains_char(cs, c),
        _ => false,
    }
}

/// The union of two state vectors of the same length.
pub fn union_state(a: &NFAState, b: &NFAState) -> (r: NFAState)
    requires
        a@.len() == b@.len(),
    ensures
        r@.len() == a@.len(),
        set_of(r@) == set_of(a@).union(set_of(b@)),
{
    let mut r: Vec<bool> = Vec::new();
    let mut i: usize = 0;
    while i < a.len()
        invariant
            i <= a.len(),
            a@.len() == b@.len(),
            r@.len() == i as nat,
            forall|j: int| 0 <= j < i ==> r@[j] == (a@[j] || b@[j]),
        decreases a@.len() - i,
    {
        r.push(a[i] || b[i]);
        i = i + 1;
    }
    proof {
        assert(set_of(r@) =~= set_of(a@).union(set_of(b@)));
    }
    r
}

/// Only prefixes of the edge list considered: used to state the loop
/// invariants of the stepping functions.
pub open spec fn label_step_upto(g: GraphModel, s: Set<nat>, label: ArrowModel, n: int) -> Set<
    nat,
> {
    Set::new(
        |v: nat|
            exists|j: int|
                0 <= j < n && j < g.edges.len() && s.contains((#[trigger] g.edges[j]).from)
                    && g.edges[j].ch == label && g.edges[j].to == v,
    )
}

/// The counterpart of `label_step_upto` for character steps.
pub open spec fn char_step_upto(g: GraphModel, s: Set<nat>, c: char, n: int) -> Set<nat> {
    Set::new(
        |v: nat|
            exists|j: int|
                0 <= j < n && j < g.edges.len() && s.contains((#[trigger] g.edges[j]).from)
                    && consumes(g.edges[j].ch, c) && g.edges[j].to == v,
    )
}

/// The nodes reached from `states` along edges labeled exactly `label`.
pub fn step(nfa: &Graph, states: &NFAState, label: &NfaArrow) -> (r: NFAState)
    requires
        bounded(nfa@),
        states@.len() == nfa@.node_count,
    ensures
        r@.len() == nfa@.node_count,
        set_of(r@) == label_step(nfa@, set_of(states@), label@),
{
    let ghost s = set_of(states@);
    let mut r = empty_state(nfa.node_count);
    proof {
        assert(set_of(r@) =~= label_step_upto(nfa@, s, label@, 0));
    }
    let mut j: usize = 0;
    while j < nfa.edges.len()
        invariant
            j <= nfa.edges.len(),
            bounded(nfa@),
            states@.len() == nfa@.node_count,
            s == set_of(states@),
            r@.len() == nfa@.node_count,
            set_of(r@) == label_step_upto(nfa@, s, label@, j as int),
        decreases nfa.edges@.len() - j,
    {
        let e = &nfa.edges[j];
        proof {
            assert(nfa@.edges[j as int] == nfa.edges@[j as int]@);
            assert(nfa@.edges[j as int].from < nfa@.node_count);
            assert(nfa@.edges[j as int].to < nfa@.node_count);
        }
        if states[e.from] && arrow_eq(&e.ch, label) {
            let ghost before = r@;
            r.set(e.to, true);
            proof {
                assert(set_of(r@) =~= label_step_upto(nfa@, s, label@, j as int + 1)) by {
                    assert(set_of(r@) =~= set_of(before).insert(e.to as nat));
                }
            }
        } else {
            proof {
                assert(set_of(r@) =~= label_step_upto(nfa@, s, label@, j as int + 1));
            }
        }
        j = j + 1;
    }
    proof {
        assert(set_of(r@) =~= label_step(nfa@, s, label@));
    }
    r
}

/// The nodes reached from `states` along edges whose label matches `c`.
pub fn step_with_char(nfa: &Graph, states: &NFAState, c: char) -> (r: NFAState)
    requires
        bounded(nfa@),
        states@.len() == nfa@.node_count,
    ensures
        r@.len() == nfa@.node_count,
        set_of(r@) == char_step(nfa@, set_of(states@), c),
{
    let ghost s = set_of(states@);
    let mut r = empty_state(nfa.node_count);
    proof {
        assert(set_of(r@) =~= char_step_upto(nfa@, s, c, 0));
    }
    let mut j: usize = 0;
    while j < nfa.edges.len()
        invariant
            j <= nfa.edges.len(),
            bounded(nfa@),
            states@.len() == nfa@.node_count,
            s == set_of(states@),
            r@.len() == nfa@.node_count,
            set_of(r@) == char_step_upto(nfa@, s, c, j as int),
        decreases nfa.edges@.len() - j,
    {
        let e = &nfa.edges[j];
        proof {
            assert(nfa@.edges[j as int] == nfa.edges@[j as int]@);
            assert(nfa@.edges[j as int].from < nfa@.node_count);
            assert(nfa@.edges[j as int].to < nfa@.node_count);
        }
        if states[e.from] && arrow_consumes(&e.ch, c) {
            let ghost before = r@;
            r.set(e.to, true);
            proof {
                assert(set_of(r@) =~= char_step_upto(nfa@, s, c, j as int + 1)) by {
                    assert(set_of(r@) =~= set_of(before).insert(e.to as nat));
                }
            }
        } else {
            proof {
                assert(set_of(r@) =~= char_step_upto(nfa@, s, c, j as int + 1));
            }
        }
        j = j + 1;
    }
    proof {
        assert(set_of(r@) =~= char_step(nfa@, s, c));
    }
    r
}

/// The nodes reached from `state` along `LineEnd` edges.
pub fn step_with_line_end(nfa: &Graph, state: &NFAState) -> (r: NFAState)
    requires
        bounded(nfa@),
        state@.len() == nfa@.node_count,
    ensures
        r@.len() == nfa@.node_count,
        set_of(r@) == label_step(nfa@, set_of(state@), ArrowModel::LineEnd),
{
    step(nfa, state, &NfaArrow::LineEnd)
}

/// The epsilon closure of `state`, computed as a fixed point: passes over
/// the edge list mark epsilon successors until nothing changes.
pub fn follow_empty(nfa: &Graph, state: NFAState) -> (r: NFAState)
    requires
        bounded(nfa@),
        state@.len() == nfa@.node_count,
    ensures
        r@.len() == nfa@.node_count,
        set_of(r@) == eps_closure(nfa@, set_of(state@)),
{
    let ghost s0 = set_of(state@);
    proof {
        lemma_eps_closure_base(nfa@, s0);
    }
    let mut st = state;
    proof {
        lemma_count_true_le(st@);
    }
    loop
        invariant
            bounded(nfa@),
            st@.len() == nfa@.node_count,
            s0.subset_of(set_of(st@)),
            set_of(st@).subset_of(eps_closure(nfa@, s0)),
            count_true(st@) <= nfa@.node_count,
        ensures
            st@.len() == nfa@.node_count,
            set_of(st@) == eps_closure(nfa@, s0),
        decreases nfa@.node_count - count_true(st@),
    {
        let ghost entry = st@;
        let mut changed = false;
        let mut j: usize = 0;
        while j < nfa.edges.len()
            invariant
                j <= nfa.edges.len(),
                bounded(nfa@),
                st@.len() == nfa@.node_count,
                s0.subset_of(set_of(st@)),
                set_of(st@).subset_of(eps_closure(nfa@, s0)),
                entry.len() == st@.len(),
                forall|v: int| 0 <= v < entry.len() && entry[v] ==> st@[v],
                !changed ==> st@ == entry,
                !changed ==> forall|k: int|
                    0 <= k < j && set_of(st@).contains((#[trigger] nfa@.edges[k]).from)
                        && nfa@.edges[k].ch == ArrowModel::Epsilon ==> set_of(st@).contains(
                        nfa@.edges[k].to,
                    ),
                changed ==> count_true(st@) >= count_true(entry) + 1,
            decreases nfa.edges@.len() - j,
        {
            let e = &nfa.edges[j];
            proof {
                assert(nfa@.edges[j as int] == nfa.edges@[j as int]@);
                assert(nfa@.edges[j as int].from < nfa@.node_count);
                assert(nfa@.edges[j as int].to < nfa@.node_count);
            }
            if st[e.from] && arrow_eq(&e.ch, &NfaArrow::Epsilon) && !st[e.to] {
                proof {
                    lemma_count_true_update(st@, e.to as int);
                    // The freshly marked node is epsilon-reachable: its
                    // source already was, and the closure is closed.
                    lemma_eps_closure_closed(nfa@, s0);
                    assert(eps_closure(nfa@, s0).contains(nfa@.edges[j as int].from));
                    assert(eps_closure(nfa@, s0).contains(nfa@.edges[j as int].to));
                }
                let ghost before = st@;
                st.set(e.to, true);
                changed = true;
                proof {
                    assert forall|v: nat| set_of(st@).contains(v) implies eps_closure(
                        nfa@,
                        s0,
                    ).contains(v) by {
                        if v != e.to as nat {
                            assert(set_of(before).contains(v));
                        }
                    }
                }
            }
            j = j + 1;
        }
        if !changed {
            proof {
                assert(eps_closed(nfa@, set_of(st@)));
                lemma_eps_closure_unique(nfa@, s0, set_of(st@));
            }
            break ;
        }
        proof {
            lemma_count_true_le(st@);
        }
    }
    st
}

/// What one input character does to a state set: a character step,
/// a `LineEnd` step folded in when the character is the last one, and
/// the epsilon closure of the result.
pub open spec fn follow_char_model(g: GraphModel, s: Set<nat>, c: char, is_last: bool) -> Set<
    nat,
> {
    let stepped = char_step(g, s, c);
    let extended = if is_last {
        stepped.union(label_step(g, stepped, ArrowModel::LineEnd))
    } else {
        stepped
    };
    eps_closure(g, extended)
}

/// Feeds one character to the state set: steps along matching edges,
/// fires `LineEnd` transitions when this is the last character, and
/// closes under epsilon edges.
pub fn follow_char(nfa: &Graph, state: &NFAState, c: char, is_last: bool) -> (r: NFAState)
    requires
        bounded(nfa@),
        state@.len() == nfa@.node_count,
    ensures
        r@.len() == nfa@.node_count,
        set_of(r@) == follow_char_model(nfa@, set_of(state@), c, is_last),
{
    let mut new_state = step_with_char(nfa, state, c);
    if is_last {
        let le = step_with_line_end(nfa, &new_state);
        new_state = union_state(&new_state, &le);
    }
    follow_empty(nfa, new_state)
}

/// The state a walk starts from: node 0, the targets of its `LineStart`
/// edges, and the epsilon closure of both.
pub open spec fn init_model(g: GraphModel) -> Set<nat> {
    let base = Set::new(|v: nat| v == 0);
    eps_closure(g, base.union(label_step(g, base, ArrowModel::LineStart)))
}

/// The initial state set of the NFA.
pub fn initial_state(nfa: &Graph) -> (r: NFAState)
    requires
        bounded(nfa@),
    ensures
        r@.len() == nfa@.node_count,
        set_of(r@) == init_model(nfa@),
{
    let mut state = empty_state(nfa.node_count);
    state.set(0, true);
    proof {
        assert(set_of(state@) =~= Set::new(|v: nat| v == 0));
    }
    let ls = step(nfa, &state, &NfaArrow::LineStart);
    let state = union_state(&state, &ls);
    follow_empty(nfa, state)
}

/// Whether a state set holds no node at all.
pub open spec fn state_empty(s: Set<nat>) -> bool {
    forall|v: nat| !s.contains(v)
}

/// Whether a state vector holds no node.
pub fn is_empty_state(s: &NFAState) -> (r: bool)
    ensures
        r == state_empty(set_of(s@)),
{
    let mut i: usize = 0;
    while i < s.len()
        invariant
            i <= s.len(),
            forall|j: int| 0 <= j < i ==> !s@[j],
        decreases s@.len() - i,
    {
        if s[i] {
            proof {
                assert(set_of(s@).contains(i as nat));
            }
            return false;
        }
        i = i + 1;
    }
    true
}

/// The walk from position `i` in state set `s`: accept as soon as the
/// final node is held, stop as soon as the state set runs empty.
pub open spec fn walk_from(g: GraphModel, s: Set<nat>, w: Seq<char>, i: nat) -> bool
    decreases w.len() - i,
{
    if i >= w.len() {
        s.contains(g.final_node)
    } else if s.contains(g.final_node) {
        true
    } else {
        let s2 = follow_char_model(g, s, w[i as int], i + 1 == w.len());
        if state_empty(s2) {
            false
        } else {
            walk_from(g, s2, w, i + 1)
        }
    }
}

/// The state against which an empty input is judged: the initial state
/// with its `LineEnd` transitions fired.
pub open spec fn empty_input_state(g: GraphModel, s0: Set<nat>) -> Set<nat> {
    eps_closure(g, s0.union(label_step(g, s0, ArrowModel::LineEnd)))
}

/// Whether the pattern graph `g` matches the input `w`.
pub open spec fn walk_model(g: GraphModel, w: Seq<char>) -> bool {
    let s0 = init_model(g);
    if w.len() == 0 {
        empty_input_state(g, s0).contains(g.final_node)
    } else {
        walk_from(g, s0, w, 0)
    }
}

/// Runs the NFA against `text` and reports whether it matches.
pub fn walk(nfa: NFA, text: String) -> (r: bool)
    requires
        bounded(nfa@),
    ensures
        r == walk_model(nfa@, text@),
{
    let w = chars_of(text.as_str());
    let mut state = initial_state(&nfa);
    if w.len() == 0 {
        // An empty input never enters the loop, but `LineEnd` anchors
        // still apply: fire them before the terminal membership test.
        let le = step_with_line_end(&nfa, &state);
        let state = union_state(&state, &le);
        let closed = follow_empty(&nfa, state);
        return closed[nfa.final_node];
    }
    let mut i: usize = 0;
    while i < w.len()
        invariant
            bounded(nfa@),
            i <= w.len(),
            w@ == text@,
            w@.len() > 0,
            state@.len() == nfa@.node_count,
            walk_from(nfa@, set_of(state@), w@, i as nat) == walk_model(nfa@, text@),
        decreases w@.len() - i,
    {
        if state[nfa.final_node] {
            proof {
                assert(set_of(state@).contains(nfa@.final_node));
            }
            return true;
        }
        proof {
            assert(!set_of(state@).contains(nfa@.final_node));
        }
        let ghost s_before = set_of(state@);
        state = follow_char(&nfa, &state, w[i], i + 1 == w.len());
        if is_empty_state(&state) {
            return false;
        }
        proof {
            assert(walk_from(nfa@, s_before, w@, i as nat) == walk_from(
                nfa@,
                set_of(state@),
                w@,
                (i + 1) as nat,
            ));
        }
        i = i + 1;
    }
    proof {
        if set_of(state@).contains(nfa@.final_node) {
            assert(state@[nfa@.final_node as int]);
        }
    }
    state[nfa.final_node]
}

/// Appending the empty graph (final node 0, no edges) to a graph whose
/// final node is its last node yields that graph itself, so every walk
/// agrees: composition with the empty graph changes nothing.  (A graph
/// whose final node is not its last node is renumbered by `concat`, and
/// the claim does not hold of it.)
pub proof fn lemma_concat_empty_identity(a: GraphModel, w: Seq<char>)
    requires
        a.node_count == a.final_node + 1,
    ensures
        concat_model(a, new_model(0)) == a,
        walk_model(concat_model(a, new_model(0)), w) == walk_model(a, w),
{
    let empty = new_model(0);
    assert(concat_edges(a, empty.edges, a.final_node, (a.node_count - 1) as nat) == a);
    assert(concat_model(a, empty) =~= a);
}

/// The characters of a string, in order.
pub fn chars_of(s: &str) -> (r: Vec<char>)
    ensures
        r@ == s@,
{
    let n = s.unicode_len();
    let mut r: Vec<char> = Vec::new();
    let mut i: usize = 0;
    while i < n
        invariant
            i <= n,
            n as nat == s@.len(),
            r@ == s@.subrange(0, i as int),
        decreases n - i,
    {
        r.push(s.get_char(i));
        i = i + 1;
        proof {
            assert(r@ =~= s@.subrange(0, i as int));
        }
    }
    proof {
        assert(r@ =~= s@);
    }
    r
}

/// A copy of a character vector with the same contents.
fn chars_dup(a: &Vec<char>) -> (r: Vec<char>)
    ensures
        r@ == a@,
{
    let mut r: Vec<char> = Vec::new();
    let mut i: usize = 0;
    while i < a.len()
        invariant
            i <= a.len(),
            r@ == a@.subrange(0, i as int),
        decreases a@.len() - i,
    {
        r.push(a[i]);
        i = i + 1;
    }
    proof {
        assert(r@ =~= a@);
    }
    r
}

} // verus!
