//! The laws the graph operations obey: parse determinism, edge
//! uniqueness, and the merge identities.

use vstd::prelude::*;
use crate::graph::{
    GraphModel, spec_from_tokens, spec_empty_graph, spec_merge_graph, spec_merge_nodes,
    spec_merge_node, spec_merge_edges, spec_get_or_create, spec_add_edge, find_node,
    lemma_find_node, has_edge,
};
use crate::tokenizer::TokenModel;

verus! {

/// Parser determinism: equal token streams parse to equal results.
pub proof fn lemma_parse_deterministic(ts1: Seq<TokenModel>, ts2: Seq<TokenModel>)
    requires
        ts1 == ts2,
    ensures
        spec_from_tokens(ts1) == spec_from_tokens(ts2),
{
}

/// Edge uniqueness: in a well-formed graph — and every graph the parser
/// or the merge yields is one — at most one edge joins any source to any
/// destination.
pub proof fn lemma_edge_uniqueness(g: GraphModel)
    requires
        g.wf(),
    ensures
        forall|i: int, j: int|
            #![trigger g.edges[i], g.edges[j]]
            0 <= i < g.edges.len() && 0 <= j < g.edges.len() && i != j ==> !(g.edges[i].src
                == g.edges[j].src && g.edges[i].dst == g.edges[j].dst),
{
}

/// Merging the empty graph into an unnamed graph changes nothing. (A
/// named graph is the one exception: merging clears the name, since the
/// empty graph bears none.)
pub proof fn lemma_merge_empty_identity(g: GraphModel)
    requires
        g.wf(),
        g.name is None,
    ensures
        spec_merge_graph(g, spec_empty_graph(None)) == g,
{
    let e = spec_empty_graph(None);
    assert(g.name == e.name);
    let start = GraphModel {
        name: if g.name == e.name {
            g.name
        } else {
            None
        },
        ..g
    };
    assert(start == g);
    assert(spec_merge_nodes(g, e, 0) == g);
}

/// Merging an empty graph that bears the same name changes nothing:
/// the name survives, and there is nothing to add.
pub proof fn lemma_merge_empty_same_name(g: GraphModel)
    requires
        g.wf(),
    ensures
        spec_merge_graph(g, spec_empty_graph(g.name)) == g,
{
    let e = spec_empty_graph(g.name);
    let start = GraphModel {
        name: if g.name == e.name {
            g.name
        } else {
            None
        },
        ..g
    };
    assert(start == g);
    assert(spec_merge_nodes(g, e, 0) == g);
}

/// In a well-formed graph the first node bearing a node's name is that
/// node itself.
proof fn lemma_find_node_self(g: GraphModel, i: int)
    requires
        g.wf(),
        0 <= i < g.nodes.len(),
    ensures
        find_node(g.nodes, g.nodes[i].name) == i,
{
    lemma_find_node(g.nodes, g.nodes[i].name);
    let r = find_node(g.nodes, g.nodes[i].name);
    if r == -1 {
        assert(g.nodes[i].name != g.nodes[i].name);
    } else {
        if r < i {
            assert(g.nodes[r].name != g.nodes[i].name);
        } else if r > i {
            assert(g.nodes[i].name != g.nodes[i].name);
        }
    }
}

proof fn lemma_merge_self_edges(g: GraphModel, i: int, j: int)
    requires
        g.wf(),
        0 <= i < g.nodes.len(),
        0 <= j,
    ensures
        spec_merge_edges(g, g, i, i, j) == g,
    decreases g.edges.len() - j,
{
    if !(0 <= j < g.edges.len()) {
    } else if g.edges[j].src != i {
        lemma_merge_self_edges(g, i, j + 1);
    } else {
        let dst = g.edges[j].dst;
        assert(0 <= dst < g.nodes.len());
        let dname = g.nodes[dst].name;
        lemma_find_node_self(g, dst);
        assert(spec_get_or_create(g, dname) == (g, dst));
        assert(g.edges[j].src == i && g.edges[j].dst == dst);
        assert(has_edge(g.edges, i, dst));
        assert(spec_add_edge(g, i, dst) == g);
        lemma_merge_self_edges(g, i, j + 1);
    }
}

proof fn lemma_merge_self_node(g: GraphModel, i: int)
    requires
        g.wf(),
        0 <= i < g.nodes.len(),
    ensures
        spec_merge_node(g, g, i) == g,
{
    lemma_find_node_self(g, i);
    assert(spec_get_or_create(g, g.nodes[i].name) == (g, i));
    assert(g.nodes.update(i, g.nodes[i]) =~= g.nodes);
    let g2 = GraphModel { nodes: g.nodes.update(i, g.nodes[i]), ..g };
    assert(g2 == g);
    lemma_merge_self_edges(g, i, 0);
}

proof fn lemma_merge_self_nodes(g: GraphModel, i: int)
    requires
        g.wf(),
        0 <= i,
    ensures
        spec_merge_nodes(g, g, i) == g,
    decreases g.nodes.len() - i,
{
    if 0 <= i < g.nodes.len() {
        lemma_merge_self_node(g, i);
        lemma_merge_self_nodes(g, i + 1);
    }
}

/// Merge idempotence: merging a well-formed graph with itself changes
/// nothing — every node and edge is already there, and the attributes
/// are replaced by their own values.
pub proof fn lemma_merge_self_identity(g: GraphModel)
    requires
        g.wf(),
    ensures
        spec_merge_graph(g, g) == g,
{
    let start = GraphModel {
        name: if g.name == g.name {
            g.name
        } else {
            None
        },
        ..g
    };
    assert(start == g);
    lemma_merge_self_nodes(g, 0);
}

} // verus!
