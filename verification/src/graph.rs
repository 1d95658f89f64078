//! A labeled directed multigraph with a designated entry node (always 0)
//! and a single final node, together with the three combinators that
//! realize Thompson-style NFA construction by node renumbering.

use vstd::prelude::*;

use crate::nfa::{arrow_dup, arrow_eq, ArrowModel, NfaArrow};

verus! {

/// One labeled edge of the graph.
#[derive(Debug, PartialEq, Eq, Clone)]
pub struct Edge {
    pub from: usize,
    pub ch: NfaArrow,
    pub to: usize,
}

/// Mathematical form of an edge.
#[verifier::ext_equal]
pub struct EdgeModel {
    pub from: nat,
    pub ch: ArrowModel,
    pub to: nat,
}

impl View for Edge {
    type V = EdgeModel;

    open spec fn view(&self) -> EdgeModel {
        EdgeModel { from: self.from as nat, ch: self.ch@, to: self.to as nat }
    }
}

/// A multigraph over arrow-labeled edges.  Node 0 is the entry node;
/// `final_node` is the single accepting node; `node_count` is one more
/// than the largest node identifier in use, so fresh nodes can be
/// allocated.
#[derive(Debug, PartialEq, Eq, Clone)]
pub struct Graph {
    pub edges: Vec<Edge>,
    pub node_count: usize,
    pub final_node: usize,
}

/// Mathematical form of a graph: a sequence of edge models (the order of
/// insertion is kept, and equality of graphs is sensitive to it).
#[verifier::ext_equal]
pub struct GraphModel {
    pub edges: Seq<EdgeModel>,
    pub node_count: nat,
    pub final_node: nat,
}

impl View for Graph {
    type V = GraphModel;

    open spec fn view(&self) -> GraphModel {
        GraphModel {
            edges: self.edges@.map_values(|e: Edge| e@),
            node_count: self.node_count as nat,
            final_node: self.final_node as nat,
        }
    }
}

/// The graph `new(final_node)` returns: no edges yet.
pub open spec fn new_model(final_node: nat) -> GraphModel {
    GraphModel { edges: Seq::empty(), node_count: final_node + 1, final_node }
}

/// A node count extended to cover `node`.
pub open spec fn grow(node_count: nat, node: nat) -> nat {
    if node + 1 > node_count {
        node + 1
    } else {
        node_count
    }
}

/// The graph `add_edge` returns: the edge is appended unless it is
/// already present, and the node count is extended to cover both
/// endpoints.
pub open spec fn add_edge_model(g: GraphModel, from: nat, ch: ArrowModel, to: nat) -> GraphModel {
    let e = EdgeModel { from, ch, to };
    GraphModel {
        edges: if g.edges.contains(e) {
            g.edges
        } else {
            g.edges.push(e)
        },
        node_count: grow(grow(g.node_count, from), to),
        final_node: g.final_node,
    }
}

/// Renumbering used by `concat`: node 0 of the appended graph is
/// identified with the base graph's final node; every other node is
/// shifted by `offset`.
pub open spec fn concat_node(x: nat, a_final: nat, offset: nat) -> nat {
    if x == 0 {
        a_final
    } else {
        x + offset
    }
}

/// Renumbering used by `attach_parallel`: node 0 of the grafted graph
/// becomes `from`, its final node becomes `to`, and every other node is
/// shifted by `offset`.  As in the executable code, the test for node 0
/// comes first, so a grafted graph whose final node is 0 maps it to
/// `from`.
pub open spec fn attach_node(x: nat, b_final: nat, from: nat, to: nat, offset: nat) -> nat {
    if x == 0 {
        from
    } else if x == b_final {
        to
    } else {
        x + offset
    }
}

/// Folding the edges of the appended graph into the base, one `add_edge`
/// at a time, under the `concat` renumbering.
pub open spec fn concat_edges(
    g: GraphModel,
    rest: Seq<EdgeModel>,
    a_final: nat,
    offset: nat,
) -> GraphModel
    decreases rest.len(),
{
    if rest.len() == 0 {
        g
    } else {
        let e = rest[0];
        concat_edges(
            add_edge_model(
                g,
                concat_node(e.from, a_final, offset),
                e.ch,
                concat_node(e.to, a_final, offset),
            ),
            rest.skip(1),
            a_final,
            offset,
        )
    }
}

/// The graph `concat` returns.
pub open spec fn concat_model(a: GraphModel, b: GraphModel) -> GraphModel {
    let offset = (a.node_count - 1) as nat;
    let g = concat_edges(a, b.edges, a.final_node, offset);
    GraphModel { final_node: b.final_node + offset, ..g }
}

/// Folding the edges of the grafted graph into the base, one `add_edge`
/// at a time, under the `attach_parallel` renumbering.
pub open spec fn attach_edges(
    g: GraphModel,
    rest: Seq<EdgeModel>,
    b_final: nat,
    from: nat,
    to: nat,
    offset: nat,
) -> GraphModel
    decreases rest.len(),
{
    if rest.len() == 0 {
        g
    } else {
        let e = rest[0];
        attach_edges(
            add_edge_model(
                g,
                attach_node(e.from, b_final, from, to, offset),
                e.ch,
                attach_node(e.to, b_final, from, to, offset),
            ),
            rest.skip(1),
            b_final,
            from,
            to,
            offset,
        )
    }
}

/// The graph `attach_parallel` returns: the final node of the base graph
/// is unchanged.
pub open spec fn attach_model(a: GraphModel, b: GraphModel, from: nat, to: nat) -> GraphModel {
    let offset = (a.node_count - 1) as nat;
    attach_edges(a, b.edges, b.final_node, from, to, offset)
}

/// Every edge endpoint and the final node lie below the node count.
pub open spec fn bounded(g: GraphModel) -> bool {
    &&& g.final_node < g.node_count
    &&& forall|i: int|
        0 <= i < g.edges.len() ==> (#[trigger] g.edges[i]).from < g.node_count
            && g.edges[i].to < g.node_count
}

/// No edge appears twice: insertion deduplicates totally.
pub open spec fn dedup_ok(g: GraphModel) -> bool {
    forall|i: int, j: int| 0 <= i < j < g.edges.len() ==> #[trigger] g.edges[i] != #[trigger] g.edges[j]
}

/// The final node is the entry node or an endpoint of some edge.
pub open spec fn covers_final(g: GraphModel) -> bool {
    g.final_node == 0 || exists|i: int|
        0 <= i < g.edges.len() && ((#[trigger] g.edges[i]).from == g.final_node || g.edges[i].to
            == g.final_node)
}

/// The node count is exactly one more than the largest node in use:
/// either the final node is the last node, or some edge reaches the last
/// node.
pub open spec fn tight(g: GraphModel) -> bool {
    g.node_count == g.final_node + 1 || exists|i: int|
        0 <= i < g.edges.len() && ((#[trigger] g.edges[i]).from + 1 == g.node_count
            || g.edges[i].to + 1 == g.node_count)
}

/// Well-formedness of a graph as the parser builds and the walkers read
/// it.
pub open spec fn wf(g: GraphModel) -> bool {
    bounded(g) && dedup_ok(g) && tight(g) && covers_final(g)
}

impl Graph {
    /// A fresh graph with the given final node and no edges.
    pub fn new(final_node: usize) -> (g: Graph)
        requires
            final_node < usize::MAX,
        ensures
            g@ == new_model(final_node as nat),
    {
        let g = Graph { edges: Vec::new(), node_count: final_node + 1, final_node };
        proof {
            assert(g@ =~= new_model(final_node as nat));
        }
        g
    }

    /// Whether the graph already holds this exact edge.
    fn has_edge(&self, from: usize, ch: &NfaArrow, to: usize) -> (r: bool)
        ensures
            r == self@.edges.contains(EdgeModel { from: from as nat, ch: ch@, to: to as nat }),
    {
        let ghost e = EdgeModel { from: from as nat, ch: ch@, to: to as nat };
        let mut i: usize = 0;
        while i < self.edges.len()
            invariant
                i <= self.edges.len(),
                e == (EdgeModel { from: from as nat, ch: ch@, to: to as nat }),
                forall|j: int| 0 <= j < i ==> self@.edges[j] != e,
            decreases self.edges@.len() - i,
        {
            let cand = &self.edges[i];
            if cand.from == from && cand.to == to && arrow_eq(&cand.ch, ch) {
                proof {
                    assert(self@.edges[i as int] =~= e);
                }
                return true;
            }
            proof {
                assert(self@.edges[i as int] != e);
            }
            i = i + 1;
        }
        proof {
            if self@.edges.contains(e) {
                let j = choose|j: int| 0 <= j < self@.edges.len() && self@.edges[j] == e;
                assert(self@.edges[j] != e);
            }
        }
        false
    }

    /// Appends the edge `(from, ch, to)` unless it is already present,
    /// and extends the node count to cover both endpoints.
    pub fn add_edge(self, from: usize, ch: NfaArrow, to: usize) -> (g: Graph)
        requires
            from < usize::MAX,
            to < usize::MAX,
        ensures
            g@ == add_edge_model(self@, from as nat, ch@, to as nat),
    {
        let ghost pre = self@;
        let mut g = self;
        if !g.has_edge(from, &ch, to) {
            g.edges.push(Edge { from, ch, to });
        }
        if from + 1 > g.node_count {
            g.node_count = from + 1;
        }
        if to + 1 > g.node_count {
            g.node_count = to + 1;
        }
        proof {
            assert(g@.edges =~= add_edge_model(pre, from as nat, ch@, to as nat).edges);
            assert(g@ =~= add_edge_model(pre, from as nat, ch@, to as nat));
        }
        g
    }

    /// Appends `other` onto `self`, identifying `other`'s entry node with
    /// `self`'s final node; the result's final node is `other`'s, shifted
    /// past `self`'s nodes.
    pub fn concat(self, other: Graph) -> (g: Graph)
        requires
            bounded(self@),
            bounded(other@),
            self@.node_count + other@.node_count <= usize::MAX,
        ensures
            g@ == concat_model(self@, other@),
    {
        let ghost a = self@;
        let ghost b = other@;
        let offset = self.node_count - 1;
        let a_final = self.final_node;
        let mut g = self;
        let mut i: usize = 0;
        while i < other.edges.len()
            invariant
                i <= other.edges.len(),
                b == other@,
                bounded(b),
                offset + 1 + b.node_count <= usize::MAX,
                a_final as nat == a.final_node,
                a.final_node < offset + 1,
                offset as nat == a.node_count - 1,
                g@ == concat_edges(a, b.edges.take(i as int), a.final_node, offset as nat),
            decreases other.edges@.len() - i,
        {
            let e = &other.edges[i];
            proof {
                assert(b.edges[i as int] == other.edges@[i as int]@);
                assert(b.edges[i as int].from < b.node_count);
                assert(b.edges[i as int].to < b.node_count);
            }
            let e_from = if e.from == 0 {
                a_final
            } else {
                e.from + offset
            };
            let e_to = if e.to == 0 {
                a_final
            } else {
                e.to + offset
            };
            let ch = arrow_dup(&e.ch);
            proof {
                lemma_concat_edges_snoc(a, b.edges.take(i as int + 1), a.final_node, offset as nat);
                assert(b.edges.take(i as int + 1).drop_last() =~= b.edges.take(i as int));
                assert(b.edges.take(i as int + 1).last() == b.edges[i as int]);
            }
            g = g.add_edge(e_from, ch, e_to);
            i = i + 1;
        }
        proof {
            assert(b.edges.take(b.edges.len() as int) =~= b.edges);
        }
        g.final_node = other.final_node + offset;
        proof {
            assert(g@ =~= concat_model(a, b));
        }
        g
    }

    /// Grafts `other` as a parallel branch of `self` that leaves node
    /// `from` and rejoins at node `to`; `self`'s final node is unchanged.
    pub fn attach_parallel(self, other: Graph, from: usize, to: usize) -> (g: Graph)
        requires
            bounded(self@),
            bounded(other@),
            self@.node_count + other@.node_count <= usize::MAX,
            from < self@.node_count,
            to < self@.node_count,
        ensures
            g@ == attach_model(self@, other@, from as nat, to as nat),
    {
        let ghost a = self@;
        let ghost b = other@;
        let offset = self.node_count - 1;
        let b_final = other.final_node;
        let mut g = self;
        let mut i: usize = 0;
        while i < other.edges.len()
            invariant
                i <= other.edges.len(),
                b == other@,
                bounded(b),
                offset + 1 + b.node_count <= usize::MAX,
                from < offset + 1,
                to < offset + 1,
                b_final as nat == b.final_node,
                offset as nat == a.node_count - 1,
                g@ == attach_edges(
                    a,
                    b.edges.take(i as int),
                    b.final_node,
                    from as nat,
                    to as nat,
                    offset as nat,
                ),
            decreases other.edges@.len() - i,
        {
            let e = &other.edges[i];
            proof {
                assert(b.edges[i as int] == other.edges@[i as int]@);
                assert(b.edges[i as int].from < b.node_count);
                assert(b.edges[i as int].to < b.node_count);
            }
            let e_from = if e.from == 0 {
                from
            } else if e.from == b_final {
                to
            } else {
                e.from + offset
            };
            let e_to = if e.to == 0 {
                from
            } else if e.to == b_final {
                to
            } else {
                e.to + offset
            };
            let ch = arrow_dup(&e.ch);
            proof {
                lemma_attach_edges_snoc(
                    a,
                    b.edges.take(i as int + 1),
                    b.final_node,
                    from as nat,
                    to as nat,
                    offset as nat,
                );
                assert(b.edges.take(i as int + 1).drop_last() =~= b.edges.take(i as int));
                assert(b.edges.take(i as int + 1).last() == b.edges[i as int]);
            }
            g = g.add_edge(e_from, ch, e_to);
            i = i + 1;
        }
        proof {
            assert(b.edges.take(b.edges.len() as int) =~= b.edges);
            assert(g@ =~= attach_model(a, b, from as nat, to as nat));
        }
        g
    }
}

/// What a single `add_edge` does to a graph model: the final node is
/// kept, the node count grows just enough to cover the new endpoints,
/// earlier edges are kept in place, the new edge is present afterwards,
/// and every well-formedness property is preserved.
pub proof fn lemma_add_edge_model_props(g: GraphModel, from: nat, ch: ArrowModel, to: nat)
    ensures
        ({
            let r = add_edge_model(g, from, ch, to);
            &&& r.final_node == g.final_node
            &&& g.node_count <= r.node_count
            &&& r.node_count == grow(grow(g.node_count, from), to)
            &&& g.edges.is_prefix_of(r.edges)
            &&& r.edges.contains(EdgeModel { from, ch, to })
            &&& bounded(g) ==> bounded(r)
            &&& dedup_ok(g) ==> dedup_ok(r)
            &&& bounded(g) && tight(g) ==> tight(r)
            &&& covers_final(g) ==> covers_final(r)
        }),
{
    let e = EdgeModel { from, ch, to };
    let r = add_edge_model(g, from, ch, to);
    if g.edges.contains(e) {
        assert(g.edges.is_prefix_of(r.edges));
        if bounded(g) {
            let i = choose|i: int| 0 <= i < g.edges.len() && g.edges[i] == e;
            assert(g.edges[i].from < g.node_count && g.edges[i].to < g.node_count);
            assert(r.node_count == g.node_count);
        }
    } else {
        assert(r.edges == g.edges.push(e));
        assert(r.edges[g.edges.len() as int] == e);
        assert(r.edges.contains(e));
        assert(g.edges =~= r.edges.subrange(0, g.edges.len() as int));
        if bounded(g) {
            assert forall|i: int| 0 <= i < r.edges.len() implies (#[trigger] r.edges[i]).from
                < r.node_count && r.edges[i].to < r.node_count by {
                if i < g.edges.len() {
                    assert(r.edges[i] == g.edges[i]);
                }
            }
        }
        if dedup_ok(g) {
            assert forall|i: int, j: int| 0 <= i < j < r.edges.len() implies #[trigger] r.edges[i]
                != #[trigger] r.edges[j] by {
                if j < g.edges.len() {
                    assert(r.edges[i] == g.edges[i] && r.edges[j] == g.edges[j]);
                } else {
                    assert(r.edges[j] == e);
                    assert(r.edges[i] == g.edges[i]);
                    assert(!g.edges.contains(e));
                    assert(g.edges[i] != e);
                }
            }
        }
        if bounded(g) && tight(g) {
            if r.node_count == g.node_count {
                if g.node_count != g.final_node + 1 {
                    let i = choose|i: int|
                        0 <= i < g.edges.len() && ((#[trigger] g.edges[i]).from + 1 == g.node_count
                            || g.edges[i].to + 1 == g.node_count);
                    assert(r.edges[i] == g.edges[i]);
                }
            } else {
                let last = g.edges.len() as int;
                assert(r.edges[last] == e);
                assert(from + 1 == r.node_count || to + 1 == r.node_count);
            }
        }
        if covers_final(g) && g.final_node != 0 {
            let i = choose|i: int|
                0 <= i < g.edges.len() && ((#[trigger] g.edges[i]).from == g.final_node
                    || g.edges[i].to == g.final_node);
            assert(r.edges[i] == g.edges[i]);
        }
    }
}

/// Inserting an edge that is already present is a no-op: adding the same
/// edge twice yields the graph of the single insertion.
pub proof fn lemma_add_edge_dedup(g: GraphModel, from: nat, ch: ArrowModel, to: nat)
    ensures
        add_edge_model(add_edge_model(g, from, ch, to), from, ch, to) == add_edge_model(
            g,
            from,
            ch,
            to,
        ),
{
    let e = EdgeModel { from, ch, to };
    let r = add_edge_model(g, from, ch, to);
    if g.edges.contains(e) {
        assert(r.edges.contains(e));
    } else {
        assert(r.edges == g.edges.push(e));
        assert(r.edges[g.edges.len() as int] == e);
        assert(r.edges.contains(e));
    }
    assert(add_edge_model(r, from, ch, to) =~= r);
}

/// Unrolling `concat_edges` from the back: folding `rest` is folding all
/// but its last edge, then adding the last edge.
pub proof fn lemma_concat_edges_snoc(g: GraphModel, rest: Seq<EdgeModel>, a_final: nat, offset: nat)
    requires
        rest.len() > 0,
    ensures
        concat_edges(g, rest, a_final, offset) == add_edge_model(
            concat_edges(g, rest.drop_last(), a_final, offset),
            concat_node(rest.last().from, a_final, offset),
            rest.last().ch,
            concat_node(rest.last().to, a_final, offset),
        ),
    decreases rest.len(),
{
    let g2 = add_edge_model(
        g,
        concat_node(rest[0].from, a_final, offset),
        rest[0].ch,
        concat_node(rest[0].to, a_final, offset),
    );
    if rest.len() == 1 {
        assert(rest.drop_last() =~= Seq::<EdgeModel>::empty());
        assert(rest.skip(1) =~= Seq::<EdgeModel>::empty());
        assert(concat_edges(g2, Seq::<EdgeModel>::empty(), a_final, offset) == g2);
        assert(concat_edges(g, rest, a_final, offset) == g2);
        assert(concat_edges(g, rest.drop_last(), a_final, offset) == g);
        assert(rest.last() == rest[0]);
    } else {
        assert(concat_edges(g, rest, a_final, offset) == concat_edges(
            g2,
            rest.skip(1),
            a_final,
            offset,
        ));
        lemma_concat_edges_snoc(g2, rest.skip(1), a_final, offset);
        assert(rest.skip(1).drop_last() =~= rest.drop_last().skip(1));
        assert(rest.skip(1).last() == rest.last());
        assert(rest.drop_last()[0] == rest[0]);
        assert(rest.drop_last().len() > 0);
        assert(concat_edges(g, rest.drop_last(), a_final, offset) == concat_edges(
            g2,
            rest.drop_last().skip(1),
            a_final,
            offset,
        ));
    }
}

/// A prefix of a prefix is a prefix.
proof fn lemma_prefix_trans(a: Seq<EdgeModel>, b: Seq<EdgeModel>, c: Seq<EdgeModel>)
    requires
        a.is_prefix_of(b),
        b.is_prefix_of(c),
    ensures
        a.is_prefix_of(c),
{
    assert(a =~= c.subrange(0, a.len() as int)) by {
        assert forall|i: int| 0 <= i < a.len() implies a[i] == c.subrange(0, a.len() as int)[i] by {
            assert(a[i] == b.subrange(0, a.len() as int)[i]);
            assert(b[i] == c.subrange(0, b.len() as int)[i]);
        }
    }
}

/// Membership in a sequence survives extension to a longer sequence.
proof fn lemma_prefix_contains(a: Seq<EdgeModel>, b: Seq<EdgeModel>, e: EdgeModel)
    requires
        a.is_prefix_of(b),
        a.contains(e),
    ensures
        b.contains(e),
{
    let i = choose|i: int| 0 <= i < a.len() && a[i] == e;
    assert(a[i] == b.subrange(0, a.len() as int)[i]);
    assert(b[i] == e);
}

/// What folding a sequence of renumbered edges (as `concat` does) leaves
/// of the base graph: well-formedness short of the final-node clauses is
/// preserved, the base's edges stay in place, every renumbered edge is
/// present afterwards, and the node count is bounded by the base's and
/// by the renumbered range.
proof fn lemma_concat_edges_props(
    g: GraphModel,
    rest: Seq<EdgeModel>,
    a_final: nat,
    offset: nat,
    b_nc: nat,
)
    requires
        bounded(g),
        dedup_ok(g),
        tight(g),
        covers_final(g),
        a_final < g.node_count,
        forall|k: int|
            0 <= k < rest.len() ==> (#[trigger] rest[k]).from < b_nc && rest[k].to < b_nc,
    ensures
        ({
            let r = concat_edges(g, rest, a_final, offset);
            &&& bounded(r)
            &&& dedup_ok(r)
            &&& tight(r)
            &&& covers_final(r)
            &&& r.final_node == g.final_node
            &&& g.node_count <= r.node_count
            &&& r.node_count <= g.node_count || r.node_count <= b_nc + offset
            &&& g.edges.is_prefix_of(r.edges)
            &&& forall|k: int|
                0 <= k < rest.len() ==> r.edges.contains(
                    EdgeModel {
                        from: concat_node((#[trigger] rest[k]).from, a_final, offset),
                        ch: rest[k].ch,
                        to: concat_node(rest[k].to, a_final, offset),
                    },
                )
        }),
    decreases rest.len(),
{
    let r = concat_edges(g, rest, a_final, offset);
    if rest.len() == 0 {
        assert(g.edges =~= r.edges.subrange(0, g.edges.len() as int));
    } else {
        let e = rest[0];
        let m_from = concat_node(e.from, a_final, offset);
        let m_to = concat_node(e.to, a_final, offset);
        let me = EdgeModel { from: m_from, ch: e.ch, to: m_to };
        lemma_add_edge_model_props(g, m_from, e.ch, m_to);
        let g2 = add_edge_model(g, m_from, e.ch, m_to);
        assert(rest[0].from < b_nc && rest[0].to < b_nc);
        assert(g2.node_count <= g.node_count || g2.node_count <= b_nc + offset);
        lemma_concat_edges_props(g2, rest.skip(1), a_final, offset, b_nc);
        assert(r == concat_edges(g2, rest.skip(1), a_final, offset));
        lemma_prefix_trans(g.edges, g2.edges, r.edges);
        lemma_prefix_contains(g2.edges, r.edges, me);
        assert forall|k: int| 0 <= k < rest.len() implies r.edges.contains(
            EdgeModel {
                from: concat_node((#[trigger] rest[k]).from, a_final, offset),
                ch: rest[k].ch,
                to: concat_node(rest[k].to, a_final, offset),
            },
        ) by {
            if k > 0 {
                assert(rest.skip(1)[k - 1] == rest[k]);
            }
        }
    }
}

/// The counterpart of `lemma_concat_edges_props` for the renumbering of
/// `attach_parallel`.
proof fn lemma_attach_edges_props(
    g: GraphModel,
    rest: Seq<EdgeModel>,
    b_final: nat,
    from: nat,
    to: nat,
    offset: nat,
    b_nc: nat,
)
    requires
        bounded(g),
        dedup_ok(g),
        tight(g),
        covers_final(g),
        from < g.node_count,
        to < g.node_count,
        forall|k: int|
            0 <= k < rest.len() ==> (#[trigger] rest[k]).from < b_nc && rest[k].to < b_nc,
    ensures
        ({
            let r = attach_edges(g, rest, b_final, from, to, offset);
            &&& bounded(r)
            &&& dedup_ok(r)
            &&& tight(r)
            &&& covers_final(r)
            &&& r.final_node == g.final_node
            &&& g.node_count <= r.node_count
            &&& r.node_count <= g.node_count || r.node_count <= b_nc + offset
            &&& g.edges.is_prefix_of(r.edges)
        }),
    decreases rest.len(),
{
    let r = attach_edges(g, rest, b_final, from, to, offset);
    if rest.len() == 0 {
        assert(g.edges =~= r.edges.subrange(0, g.edges.len() as int));
    } else {
        let e = rest[0];
        let m_from = attach_node(e.from, b_final, from, to, offset);
        let m_to = attach_node(e.to, b_final, from, to, offset);
        lemma_add_edge_model_props(g, m_from, e.ch, m_to);
        let g2 = add_edge_model(g, m_from, e.ch, m_to);
        assert(rest[0].from < b_nc && rest[0].to < b_nc);
        assert(g2.node_count <= g.node_count || g2.node_count <= b_nc + offset);
        lemma_attach_edges_props(g2, rest.skip(1), b_final, from, to, offset, b_nc);
        assert(r == attach_edges(g2, rest.skip(1), b_final, from, to, offset));
        lemma_prefix_trans(g.edges, g2.edges, r.edges);
    }
}

/// `add_edge` preserves well-formedness: in particular the node count
/// stays above the final node and above both endpoints of every edge.
pub proof fn lemma_add_edge_preserves_wf(g: GraphModel, from: nat, ch: ArrowModel, to: nat)
    requires
        wf(g),
    ensures
        wf(add_edge_model(g, from, ch, to)),
{
    lemma_add_edge_model_props(g, from, ch, to);
}

/// `concat` preserves well-formedness: the node count of the result
/// stays above its final node and above every edge endpoint, and grows
/// by at most the appended graph's node count.
pub proof fn lemma_concat_preserves_wf(a: GraphModel, b: GraphModel)
    requires
        wf(a),
        wf(b),
    ensures
        wf(concat_model(a, b)),
        concat_model(a, b).final_node == b.final_node + a.node_count - 1,
        a.node_count <= concat_model(a, b).node_count,
        concat_model(a, b).node_count <= a.node_count + b.node_count - 1,
{
    let offset = (a.node_count - 1) as nat;
    lemma_concat_edges_props(a, b.edges, a.final_node, offset, b.node_count);
    let f = concat_edges(a, b.edges, a.final_node, offset);
    let r = concat_model(a, b);
    assert(r.edges == f.edges && r.node_count == f.node_count);
    if b.final_node != 0 {
        // The appended graph's final node is reached by some edge; its
        // renumbered image reaches the result's final node.
        let k = choose|k: int|
            0 <= k < b.edges.len() && ((#[trigger] b.edges[k]).from == b.final_node
                || b.edges[k].to == b.final_node);
        let me = EdgeModel {
            from: concat_node(b.edges[k].from, a.final_node, offset),
            ch: b.edges[k].ch,
            to: concat_node(b.edges[k].to, a.final_node, offset),
        };
        assert(f.edges.contains(me));
        let i = choose|i: int| 0 <= i < f.edges.len() && f.edges[i] == me;
        assert(me.from == r.final_node || me.to == r.final_node);
        assert(f.edges[i].from < f.node_count && f.edges[i].to < f.node_count);
        assert(covers_final(r));
        assert(bounded(r));
        if f.node_count == f.final_node + 1 {
            // Then nothing grew past the base graph, yet the renumbered
            // final edge lies beyond it: impossible.
            assert(f.node_count >= offset + 1);
            assert(a.final_node == offset);
            assert(me.from >= offset + 1 || me.to >= offset + 1);
            assert(false);
        }
        assert(tight(r));
    } else {
        // The result's final node is the last node of the base graph.
        assert(r.final_node == offset);
        if a.node_count == a.final_node + 1 {
            assert(r.final_node == a.final_node);
            if a.final_node != 0 {
                let i = choose|i: int|
                    0 <= i < a.edges.len() && ((#[trigger] a.edges[i]).from == a.final_node
                        || a.edges[i].to == a.final_node);
                lemma_prefix_contains(a.edges, f.edges, a.edges[i]);
                let j = choose|j: int| 0 <= j < f.edges.len() && f.edges[j] == a.edges[i];
                assert(covers_final(r));
            }
        } else {
            let i = choose|i: int|
                0 <= i < a.edges.len() && ((#[trigger] a.edges[i]).from + 1 == a.node_count
                    || a.edges[i].to + 1 == a.node_count);
            lemma_prefix_contains(a.edges, f.edges, a.edges[i]);
            let j = choose|j: int| 0 <= j < f.edges.len() && f.edges[j] == a.edges[i];
            assert(covers_final(r));
        }
        assert(bounded(r));
        if f.node_count == f.final_node + 1 {
            assert(f.node_count >= offset + 1);
            assert(a.final_node == offset);
            assert(r.node_count == r.final_node + 1);
        }
        assert(tight(r));
    }
}

/// `attach_parallel` preserves well-formedness: the final node is
/// unchanged, the node count stays above it and above every edge
/// endpoint, and grows by at most the grafted graph's node count.
pub proof fn lemma_attach_preserves_wf(a: GraphModel, b: GraphModel, from: nat, to: nat)
    requires
        wf(a),
        wf(b),
        from < a.node_count,
        to < a.node_count,
    ensures
        wf(attach_model(a, b, from, to)),
        attach_model(a, b, from, to).final_node == a.final_node,
        a.node_count <= attach_model(a, b, from, to).node_count,
        attach_model(a, b, from, to).node_count <= a.node_count + b.node_count - 1,
{
    let offset = (a.node_count - 1) as nat;
    lemma_attach_edges_props(a, b.edges, b.final_node, from, to, offset, b.node_count);
    let r = attach_model(a, b, from, to);
    if a.final_node != 0 {
        let i = choose|i: int|
            0 <= i < a.edges.len() && ((#[trigger] a.edges[i]).from == a.final_node
                || a.edges[i].to == a.final_node);
        lemma_prefix_contains(a.edges, r.edges, a.edges[i]);
        let j = choose|j: int| 0 <= j < r.edges.len() && r.edges[j] == a.edges[i];
        assert(covers_final(r));
    }
}

/// Unrolling `attach_edges` from the back.
pub proof fn lemma_attach_edges_snoc(
    g: GraphModel,
    rest: Seq<EdgeModel>,
    b_final: nat,
    from: nat,
    to: nat,
    offset: nat,
)
    requires
        rest.len() > 0,
    ensures
        attach_edges(g, rest, b_final, from, to, offset) == add_edge_model(
            attach_edges(g, rest.drop_last(), b_final, from, to, offset),
            attach_node(rest.last().from, b_final, from, to, offset),
            rest.last().ch,
            attach_node(rest.last().to, b_final, from, to, offset),
        ),
    decreases rest.len(),
{
    let g2 = add_edge_model(
        g,
        attach_node(rest[0].from, b_final, from, to, offset),
        rest[0].ch,
        attach_node(rest[0].to, b_final, from, to, offset),
    );
    if rest.len() == 1 {
        assert(rest.drop_last() =~= Seq::<EdgeModel>::empty());
        assert(rest.skip(1) =~= Seq::<EdgeModel>::empty());
        assert(attach_edges(g2, Seq::<EdgeModel>::empty(), b_final, from, to, offset) == g2);
        assert(attach_edges(g, rest, b_final, from, to, offset) == g2);
        assert(attach_edges(g, rest.drop_last(), b_final, from, to, offset) == g);
        assert(rest.last() == rest[0]);
    } else {
        assert(attach_edges(g, rest, b_final, from, to, offset) == attach_edges(
            g2,
            rest.skip(1),
            b_final,
            from,
            to,
            offset,
        ));
        lemma_attach_edges_snoc(g2, rest.skip(1), b_final, from, to, offset);
        assert(rest.skip(1).drop_last() =~= rest.drop_last().skip(1));
        assert(rest.skip(1).last() == rest.last());
        assert(rest.drop_last()[0] == rest[0]);
        assert(rest.drop_last().len() > 0);
        assert(attach_edges(g, rest.drop_last(), b_final, from, to, offset) == attach_edges(
            g2,
            rest.drop_last().skip(1),
            b_final,
            from,
            to,
            offset,
        ));
    }
}

} // verus!
