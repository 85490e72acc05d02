//! The transition store: a `petgraph` directed graph whose node weights are
//! state names and whose edge weights are symbols.
//!
//! The functions that call `petgraph` are believed, not proved. Each states
//! what the method it calls does, over two sequences that stand for what the
//! graph holds: its node weights and its edges, both in the order of
//! insertion. What is said here of those sequences alone, as in
//! `lemma_outgoing`, is proved.

use petgraph::graph::NodeIndex;
use petgraph::visit::EdgeRef;
use vstd::prelude::*;

verus! {

/// `petgraph::Directed`, the marker of graphs whose edges have a direction.
#[verifier::external_type_specification]
#[verifier::external_body]
pub struct ExDirected(petgraph::Directed);

/// `petgraph::graph::Graph`, of which nothing is known but what the
/// functions of this module state.
#[verifier::external_type_specification]
#[verifier::external_body]
#[verifier::reject_recursive_types(N)]
#[verifier::reject_recursive_types(E)]
#[verifier::reject_recursive_types(Ty)]
#[verifier::reject_recursive_types(Ix)]
pub struct ExGraph<N, E, Ty, Ix>(petgraph::graph::Graph<N, E, Ty, Ix>);

/// A directed graph with a name on each node and a symbol on each edge.
pub type TransitionGraph = petgraph::graph::Graph<String, String, petgraph::Directed, u32>;

/// The node weights of a graph; position `i` holds the weight of the node with index `i`.
pub uninterp spec fn graph_nodes(g: TransitionGraph) -> Seq<Seq<char>>;

/// The edges of a graph as (source index, weight, target index); position `i`
/// holds the edge with index `i`.
pub uninterp spec fn graph_edges(g: TransitionGraph) -> Seq<(int, Seq<char>, int)>;

/// What a list of (weight, target) pairs holds, as plain values.
pub open spec fn labelled(pairs: Seq<(String, usize)>) -> Seq<(Seq<char>, int)> {
    Seq::new(pairs.len(), |i: int| (pairs[i].0@, pairs[i].1 as int))
}

/// The edges that leave `from`, as (weight, target), the one added last first.
pub open spec fn outgoing(edges: Seq<(int, Seq<char>, int)>, from: int) -> Seq<(Seq<char>, int)>
    decreases edges.len(),
{
    if edges.len() == 0 {
        Seq::empty()
    } else {
        let rest = outgoing(edges.drop_last(), from);
        if edges.last().0 == from {
            seq![(edges.last().1, edges.last().2)] + rest
        } else {
            rest
        }
    }
}

/// `Graph::default`: a graph without nodes and edges.
#[verifier::external_body]
pub(crate) fn graph_new() -> (g: TransitionGraph)
    ensures
        graph_nodes(g) == Seq::<Seq<char>>::empty(),
        graph_edges(g) == Seq::<(int, Seq<char>, int)>::empty(),
{
    TransitionGraph::default()
}

/// `Graph::add_node`: appends a node with the given weight and returns its
/// index, which is the number of nodes before the call. The edges stay.
/// `petgraph` panics when the index type has no room for one more node.
#[verifier::external_body]
pub(crate) fn graph_add_node(g: &mut TransitionGraph, name: String) -> (index: usize)
    requires
        graph_nodes(*old(g)).len() < u32::MAX,
    ensures
        graph_nodes(*final(g)) == graph_nodes(*old(g)).push(name@),
        graph_edges(*final(g)) == graph_edges(*old(g)),
        index == graph_nodes(*old(g)).len(),
{
    g.add_node(name).index()
}

/// `Graph::add_edge`: appends an edge between two existing nodes. The nodes
/// stay. `petgraph` panics when an end point does not exist or when the index
/// type has no room for one more edge.
#[verifier::external_body]
pub(crate) fn graph_add_edge(g: &mut TransitionGraph, from: usize, to: usize, symbol: String)
    requires
        from < graph_nodes(*old(g)).len(),
        to < graph_nodes(*old(g)).len(),
        graph_nodes(*old(g)).len() <= u32::MAX,
        graph_edges(*old(g)).len() < u32::MAX,
    ensures
        graph_nodes(*final(g)) == graph_nodes(*old(g)),
        graph_edges(*final(g)) == graph_edges(*old(g)).push((from as int, symbol@, to as int)),
{
    g.add_edge(NodeIndex::new(from), NodeIndex::new(to), symbol);
}

/// `Graph::edge_count`: the number of edges.
#[verifier::external_body]
pub(crate) fn graph_edge_count(g: &TransitionGraph) -> (count: usize)
    ensures
        count == graph_edges(*g).len(),
{
    g.edge_count()
}

/// `Graph::edges`: the edges that leave an existing node, each handed out as
/// its weight and the index of its target. `petgraph` threads the edges of a
/// node on a list to whose front `add_edge` links, so the edge added last
/// comes first.
#[verifier::external_body]
pub(crate) fn graph_edges_from(g: &TransitionGraph, from: usize) -> (out: Vec<(String, usize)>)
    requires
        from < graph_nodes(*g).len(),
        graph_nodes(*g).len() <= u32::MAX,
    ensures
        labelled(out@) == outgoing(graph_edges(*g), from as int),
{
    g.edges(NodeIndex::new(from)).map(|e| (e.weight().clone(), e.target().index())).collect()
}

/// A pair is among the edges that leave a node exactly if the edge is in the graph.
pub proof fn lemma_outgoing(edges: Seq<(int, Seq<char>, int)>, from: int, symbol: Seq<char>, to: int)
    ensures
        outgoing(edges, from).contains((symbol, to)) <==> edges.contains((from, symbol, to)),
    decreases edges.len(),
{
    let out = outgoing(edges, from);
    if edges.len() > 0 {
        let rest = edges.drop_last();
        let last = edges.last();
        let out_rest = outgoing(rest, from);
        lemma_outgoing(rest, from, symbol, to);
        if out.contains((symbol, to)) {
            let i = choose|i: int| 0 <= i < out.len() && out[i] == (symbol, to);
            if last.0 == from && i == 0 {
                assert(edges[edges.len() - 1] == (from, symbol, to));
            } else {
                if last.0 == from {
                    assert(out_rest[i - 1] == (symbol, to));
                } else {
                    assert(out_rest[i] == (symbol, to));
                }
                let e = choose|e: int| 0 <= e < rest.len() && rest[e] == (from, symbol, to);
                assert(edges[e] == (from, symbol, to));
            }
        }
        if edges.contains((from, symbol, to)) {
            let e = choose|e: int| 0 <= e < edges.len() && edges[e] == (from, symbol, to);
            if e == edges.len() - 1 {
                assert(out[0] == (symbol, to));
            } else {
                assert(rest[e] == (from, symbol, to));
                let i = choose|i: int| 0 <= i < out_rest.len() && out_rest[i] == (symbol, to);
                if last.0 == from {
                    assert(out[i + 1] == (symbol, to));
                } else {
                    assert(out[i] == (symbol, to));
                }
            }
        }
    }
}

} // verus!
