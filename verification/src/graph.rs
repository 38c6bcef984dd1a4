//! The execution graph: named nodes with attributes, directed edges
//! carrying an insertion-order counter, and the `digraph` parser that
//! builds a graph from a token stream.

use vstd::prelude::*;
use crate::tokenizer::{BrState, Key, Token, TokenModel, token_views};
use vstd::string::StringExecFns;

verus! {

/// One node of the graph: a job name and its attributes.
#[derive(Debug)]
pub struct ProcessNode {
    pub name: String,
    pub attributes: Vec<(Key, String)>,
}

/// The mathematical value of a [`ProcessNode`].
pub struct PNodeModel {
    pub name: Seq<char>,
    pub attributes: Seq<(Key, Seq<char>)>,
}

/// The value of an attribute list.
pub open spec fn attrs_view(s: Seq<(Key, String)>) -> Seq<(Key, Seq<char>)> {
    Seq::new(s.len(), |i: int| (s[i].0, s[i].1@))
}

impl View for ProcessNode {
    type V = PNodeModel;

    open spec fn view(&self) -> PNodeModel {
        PNodeModel { name: self.name@, attributes: attrs_view(self.attributes@) }
    }
}

/// One directed edge, by node indices, with its insertion order.
#[derive(Debug, PartialEq, Eq, Structural, Clone, Copy)]
pub struct EdgeRec {
    pub src: usize,
    pub dst: usize,
    pub order: usize,
}

/// The mathematical value of an [`EdgeRec`].
pub struct EdgeModel {
    pub src: int,
    pub dst: int,
    pub order: int,
}

/// The value of an edge list.
pub open spec fn edges_view(s: Seq<EdgeRec>) -> Seq<EdgeModel> {
    Seq::new(s.len(), |i: int| EdgeModel { src: s[i].src as int, dst: s[i].dst as int, order: s[i].order as int })
}

/// Where a graph stands in its life: parsed, being executed, or done.
#[derive(Debug, PartialEq, Eq, Structural, Clone, Copy)]
pub enum GraphState {
    Parsed,
    Executing,
    Done,
}

/// The execution graph.
#[derive(Debug)]
pub struct ExecutionGraph {
    pub name: Option<String>,
    pub nodes: Vec<ProcessNode>,
    pub edges: Vec<EdgeRec>,
    pub edge_counter: usize,
    pub state: GraphState,
}

/// The mathematical value of an [`ExecutionGraph`]. The life-cycle state
/// stays outside the model: no graph operation depends on it.
pub struct GraphModel {
    pub name: Option<Seq<char>>,
    pub nodes: Seq<PNodeModel>,
    pub edges: Seq<EdgeModel>,
    pub counter: int,
}

/// The value of a node list.
pub open spec fn nodes_view(s: Seq<ProcessNode>) -> Seq<PNodeModel> {
    Seq::new(s.len(), |i: int| s[i]@)
}

impl View for ExecutionGraph {
    type V = GraphModel;

    open spec fn view(&self) -> GraphModel {
        GraphModel {
            name: match &self.name {
                Some(s) => Some(s@),
                None => None,
            },
            nodes: nodes_view(self.nodes@),
            edges: edges_view(self.edges@),
            counter: self.edge_counter as int,
        }
    }
}

impl GraphModel {
    /// Well-formedness: edges join existing nodes; no two edges join the
    /// same pair; the order of an edge is its position; the counter counts
    /// the edges; node names are unique.
    pub open spec fn wf(self) -> bool {
        &&& forall|i: int|
            0 <= i < self.edges.len() ==> (#[trigger] self.edges[i]).src < self.nodes.len()
                && self.edges[i].dst < self.nodes.len() && 0 <= self.edges[i].src && 0
                <= self.edges[i].dst
        &&& forall|i: int, j: int|
            #![trigger self.edges[i], self.edges[j]]
            0 <= i < j < self.edges.len() ==> !(self.edges[i].src == self.edges[j].src
                && self.edges[i].dst == self.edges[j].dst)
        &&& forall|i: int| 0 <= i < self.edges.len() ==> (#[trigger] self.edges[i]).order == i
        &&& self.counter == self.edges.len()
        &&& forall|i: int, j: int|
            #![trigger self.nodes[i], self.nodes[j]]
            0 <= i < j < self.nodes.len() ==> self.nodes[i].name != self.nodes[j].name
    }
}

/// The index of the first node with the given name, or -1.
pub open spec fn find_node(nodes: Seq<PNodeModel>, name: Seq<char>) -> int
    decreases nodes.len(),
{
    if nodes.len() == 0 {
        -1
    } else if nodes[0].name == name {
        0
    } else {
        let r = find_node(nodes.drop_first(), name);
        if r == -1 {
            -1
        } else {
            r + 1
        }
    }
}

/// What [`find_node`] finds: -1 means no node has the name; otherwise it
/// is the first node with it.
pub proof fn lemma_find_node(nodes: Seq<PNodeModel>, name: Seq<char>)
    ensures
        find_node(nodes, name) == -1 ==> forall|i: int|
            0 <= i < nodes.len() ==> (#[trigger] nodes[i]).name != name,
        find_node(nodes, name) != -1 ==> {
            &&& 0 <= find_node(nodes, name) < nodes.len()
            &&& nodes[find_node(nodes, name)].name == name
            &&& forall|i: int|
                0 <= i < find_node(nodes, name) ==> (#[trigger] nodes[i]).name != name
        },
    decreases nodes.len(),
{
    if nodes.len() > 0 && nodes[0].name != name {
        lemma_find_node(nodes.drop_first(), name);
        let r = find_node(nodes.drop_first(), name);
        if r != -1 {
            assert forall|i: int| 0 <= i < r + 1 implies (#[trigger] nodes[i]).name != name by {
                if i > 0 {
                    assert(nodes[i] == nodes.drop_first()[i - 1]);
                }
            }
        } else {
            assert forall|i: int| 0 <= i < nodes.len() implies (#[trigger] nodes[i]).name
                != name by {
                if i > 0 {
                    assert(nodes[i] == nodes.drop_first()[i - 1]);
                }
            }
        }
    }
}

/// Whether some edge joins `src` to `dst`.
pub open spec fn has_edge(edges: Seq<EdgeModel>, src: int, dst: int) -> bool {
    exists|i: int|
        0 <= i < edges.len() && (#[trigger] edges[i]).src == src && edges[i].dst == dst
}

/// The graph with a node of this name: the one it had, or a fresh node
/// with no attributes appended; and that node's index.
pub open spec fn spec_get_or_create(g: GraphModel, name: Seq<char>) -> (GraphModel, int) {
    let i = find_node(g.nodes, name);
    if i == -1 {
        (
            GraphModel {
                nodes: g.nodes.push(PNodeModel { name, attributes: Seq::empty() }),
                ..g
            },
            g.nodes.len() as int,
        )
    } else {
        (g, i)
    }
}

/// The graph with an edge from `src` to `dst`: unchanged when one exists
/// (the first insertion keeps its order), else the edge appended with the
/// next order value.
pub open spec fn spec_add_edge(g: GraphModel, src: int, dst: int) -> GraphModel {
    if has_edge(g.edges, src, dst) {
        g
    } else {
        GraphModel {
            edges: g.edges.push(EdgeModel { src, dst, order: g.counter }),
            counter: g.counter + 1,
            ..g
        }
    }
}

/// The graph with a path: both endpoints brought into being, then the
/// edge.
pub open spec fn spec_add_path(g: GraphModel, src: Seq<char>, dst: Seq<char>) -> GraphModel {
    let (g1, si) = spec_get_or_create(g, src);
    let (g2, di) = spec_get_or_create(g1, dst);
    spec_add_edge(g2, si, di)
}

/// Bringing a node into being preserves well-formedness, and the index is
/// that of the node with the name.
pub proof fn lemma_get_or_create_wf(g: GraphModel, name: Seq<char>)
    requires
        g.wf(),
    ensures
        spec_get_or_create(g, name).0.wf(),
        0 <= spec_get_or_create(g, name).1 < spec_get_or_create(g, name).0.nodes.len(),
        spec_get_or_create(g, name).0.nodes[spec_get_or_create(g, name).1].name == name,
        spec_get_or_create(g, name).0.edges == g.edges,
        spec_get_or_create(g, name).0.counter == g.counter,
        spec_get_or_create(g, name).0.name == g.name,
        g.nodes.len() <= spec_get_or_create(g, name).0.nodes.len(),
        forall|i: int|
            0 <= i < g.nodes.len() ==> #[trigger] spec_get_or_create(g, name).0.nodes[i]
                == g.nodes[i],
{
    lemma_find_node(g.nodes, name);
    let (g2, idx) = spec_get_or_create(g, name);
    if find_node(g.nodes, name) == -1 {
        assert forall|i: int, j: int|
            #![trigger g2.nodes[i], g2.nodes[j]]
            0 <= i < j < g2.nodes.len() implies g2.nodes[i].name != g2.nodes[j].name by {
            if j < g.nodes.len() {
                assert(g.nodes[i].name != g.nodes[j].name);
            } else {
                assert(g2.nodes[j].name == name);
                assert(g.nodes[i].name != name);
            }
        }
    }
}

/// Adding an edge between existing nodes preserves well-formedness.
pub proof fn lemma_add_edge_wf(g: GraphModel, src: int, dst: int)
    requires
        g.wf(),
        0 <= src < g.nodes.len(),
        0 <= dst < g.nodes.len(),
    ensures
        spec_add_edge(g, src, dst).wf(),
        spec_add_edge(g, src, dst).nodes == g.nodes,
        spec_add_edge(g, src, dst).name == g.name,
        has_edge(spec_add_edge(g, src, dst).edges, src, dst),
{
    let g2 = spec_add_edge(g, src, dst);
    if !has_edge(g.edges, src, dst) {
        assert(g2.edges[g.edges.len() as int].src == src);
        assert forall|i: int, j: int|
            #![trigger g2.edges[i], g2.edges[j]]
            0 <= i < j < g2.edges.len() implies !(g2.edges[i].src == g2.edges[j].src
                && g2.edges[i].dst == g2.edges[j].dst) by {
            if j < g.edges.len() {
                assert(g.edges[i] == g2.edges[i]);
                assert(g.edges[j] == g2.edges[j]);
            } else {
                assert(g2.edges[j].src == src && g2.edges[j].dst == dst);
                assert(g2.edges[i] == g.edges[i]);
                assert(!has_edge(g.edges, src, dst));
                assert(!(g.edges[i].src == src && g.edges[i].dst == dst));
            }
        }
    }
}

/// Adding a path preserves well-formedness.
pub proof fn lemma_add_path_wf(g: GraphModel, src: Seq<char>, dst: Seq<char>)
    requires
        g.wf(),
    ensures
        spec_add_path(g, src, dst).wf(),
        spec_add_path(g, src, dst).name == g.name,
    {
    let (g1, si) = spec_get_or_create(g, src);
    lemma_get_or_create_wf(g, src);
    let (g2, di) = spec_get_or_create(g1, dst);
    lemma_get_or_create_wf(g1, dst);
    lemma_add_edge_wf(g2, si, di);
}

/// Why a parse was refused.
#[derive(Debug, PartialEq, Eq, Structural, Clone, Copy)]
pub enum ParseError {
    /// The input does not begin with the `digraph` keyword.
    MissingDigraph,
    /// Nothing follows the `digraph` keyword.
    MissingTokenAfterDigraph,
    /// What follows the `digraph` keyword is neither a name nor `{`.
    UnexpectedTokenAfterDigraph,
    /// A bracket list is not a run of `KEY = "VALUE"` triplets.
    BadAttribute,
    /// A statement is neither an attribute list, an edge, nor a lone `}`.
    UnexpectedStatement,
}

impl ParseError {
    /// A description of the failure, never empty.
    pub fn message(&self) -> (s: String)
        ensures
            s@.len() > 0,
    {
        match self {
            ParseError::MissingDigraph => {
                proof {
                    reveal_strlit("expected digraph at beginning of parse");
                }
                String::from_str("expected digraph at beginning of parse")
            },
            ParseError::MissingTokenAfterDigraph => {
                proof {
                    reveal_strlit("expected token after digraph");
                }
                String::from_str("expected token after digraph")
            },
            ParseError::UnexpectedTokenAfterDigraph => {
                proof {
                    reveal_strlit("unexpected token after digraph");
                }
                String::from_str("unexpected token after digraph")
            },
            ParseError::BadAttribute => {
                proof {
                    reveal_strlit("malformed attribute list");
                }
                String::from_str("malformed attribute list")
            },
            ParseError::UnexpectedStatement => {
                proof {
                    reveal_strlit("unexpected token sequence");
                }
                String::from_str("unexpected token sequence")
            },
        }
    }
}

/// The index of the first attribute with the key, or -1.
pub open spec fn attr_find(attrs: Seq<(Key, Seq<char>)>, k: Key) -> int
    decreases attrs.len(),
{
    if attrs.len() == 0 {
        -1
    } else if attrs[0].0 == k {
        0
    } else {
        let r = attr_find(attrs.drop_first(), k);
        if r == -1 {
            -1
        } else {
            r + 1
        }
    }
}

/// What [`attr_find`] finds.
pub proof fn lemma_attr_find(attrs: Seq<(Key, Seq<char>)>, k: Key)
    ensures
        attr_find(attrs, k) == -1 ==> forall|i: int|
            0 <= i < attrs.len() ==> (#[trigger] attrs[i]).0 != k,
        attr_find(attrs, k) != -1 ==> {
            &&& 0 <= attr_find(attrs, k) < attrs.len()
            &&& attrs[attr_find(attrs, k)].0 == k
            &&& forall|i: int| 0 <= i < attr_find(attrs, k) ==> (#[trigger] attrs[i]).0 != k
        },
    decreases attrs.len(),
{
    if attrs.len() > 0 && attrs[0].0 != k {
        lemma_attr_find(attrs.drop_first(), k);
        let r = attr_find(attrs.drop_first(), k);
        if r != -1 {
            assert forall|i: int| 0 <= i < r + 1 implies (#[trigger] attrs[i]).0 != k by {
                if i > 0 {
                    assert(attrs[i] == attrs.drop_first()[i - 1]);
                }
            }
        } else {
            assert forall|i: int| 0 <= i < attrs.len() implies (#[trigger] attrs[i]).0 != k by {
                if i > 0 {
                    assert(attrs[i] == attrs.drop_first()[i - 1]);
                }
            }
        }
    }
}

/// Attribute insertion: an existing key's value is replaced in place, a
/// new key appended.
pub open spec fn attr_insert(
    attrs: Seq<(Key, Seq<char>)>,
    k: Key,
    v: Seq<char>,
) -> Seq<(Key, Seq<char>)> {
    if attr_find(attrs, k) == -1 {
        attrs.push((k, v))
    } else {
        attrs.update(attr_find(attrs, k), (k, v))
    }
}

/// The attributes of a bracket list body: a run of `KEY = VALUE` triplets
/// inserted left to right into `acc`, or nothing when the run is
/// malformed.
pub open spec fn spec_parse_attrs(
    ts: Seq<TokenModel>,
    acc: Seq<(Key, Seq<char>)>,
) -> Option<Seq<(Key, Seq<char>)>>
    decreases ts.len(),
{
    if ts.len() == 0 {
        Some(acc)
    } else if ts.len() >= 3 && ts[0] is ReservedText && ts[1] is Equals && ts[2] is Text {
        spec_parse_attrs(ts.skip(3), attr_insert(acc, ts[0]->ReservedText_0, ts[2]->Text_0))
    } else {
        None
    }
}

/// The graph a statement leaves behind: `NAME [ KEY = VALUE ... ]`
/// declares a node and replaces its attributes; `SRC -> DST` adds an
/// edge; a lone `}` closes the statement list; anything else is refused.
pub open spec fn spec_apply_statement(g: GraphModel, stmt: Seq<TokenModel>) -> Result<
    GraphModel,
    ParseError,
> {
    if stmt.len() == 1 && stmt[0] == TokenModel::Brace(BrState::Closed) {
        Ok(g)
    } else if stmt.len() == 3 && stmt[0] is Text && stmt[1] is Arrow && stmt[2] is Text {
        Ok(spec_add_path(g, stmt[0]->Text_0, stmt[2]->Text_0))
    } else if stmt.len() >= 3 && stmt[0] is Text && stmt[1] == TokenModel::Bracket(BrState::Open)
        && stmt[stmt.len() - 1] == TokenModel::Bracket(BrState::Closed) {
        match spec_parse_attrs(stmt.subrange(2, stmt.len() - 1), Seq::empty()) {
            Some(attrs) => {
                let (g1, i) = spec_get_or_create(g, stmt[0]->Text_0);
                Ok(
                    GraphModel {
                        nodes: g1.nodes.update(
                            i,
                            PNodeModel { name: g1.nodes[i].name, attributes: attrs },
                        ),
                        ..g1
                    },
                )
            },
            None => Err(ParseError::BadAttribute),
        }
    } else {
        Err(ParseError::UnexpectedStatement)
    }
}

/// A statement preserves well-formedness and the graph's name.
pub proof fn lemma_apply_statement_wf(g: GraphModel, stmt: Seq<TokenModel>)
    requires
        g.wf(),
    ensures
        spec_apply_statement(g, stmt) matches Ok(g2) ==> g2.wf() && g2.name == g.name,
{
    if stmt.len() == 3 && stmt[0] is Text && stmt[1] is Arrow && stmt[2] is Text {
        lemma_add_path_wf(g, stmt[0]->Text_0, stmt[2]->Text_0);
    } else if stmt.len() >= 3 && stmt[0] is Text && stmt[1] == TokenModel::Bracket(BrState::Open)
        && stmt[stmt.len() - 1] == TokenModel::Bracket(BrState::Closed) {
        match spec_parse_attrs(stmt.subrange(2, stmt.len() - 1), Seq::empty()) {
            Some(attrs) => {
                lemma_get_or_create_wf(g, stmt[0]->Text_0);
                let (g1, i) = spec_get_or_create(g, stmt[0]->Text_0);
                let g2 = GraphModel {
                    nodes: g1.nodes.update(
                        i,
                        PNodeModel { name: g1.nodes[i].name, attributes: attrs },
                    ),
                    ..g1
                };
                assert forall|a: int, b: int|
                    #![trigger g2.nodes[a], g2.nodes[b]]
                    0 <= a < b < g2.nodes.len() implies g2.nodes[a].name != g2.nodes[b].name by {
                    assert(g1.nodes[a].name != g1.nodes[b].name);
                    assert(g2.nodes[a].name == g1.nodes[a].name);
                    assert(g2.nodes[b].name == g1.nodes[b].name);
                }
                assert(g2.wf());
            },
            None => {},
        }
    }
}

/// The tokens of a statement: everything before the first semicolon.
pub open spec fn take_until_semi(ts: Seq<TokenModel>) -> Seq<TokenModel>
    decreases ts.len(),
{
    if ts.len() == 0 || ts[0] == TokenModel::Semicolon {
        Seq::empty()
    } else {
        seq![ts[0]] + take_until_semi(ts.drop_first())
    }
}

/// The statement prefix is the run up to the first semicolon.
pub proof fn lemma_take_until_semi(ts: Seq<TokenModel>, n: int)
    requires
        0 <= n <= ts.len(),
        forall|j: int| 0 <= j < n ==> (#[trigger] ts[j]) != TokenModel::Semicolon,
        n == ts.len() || ts[n] == TokenModel::Semicolon,
    ensures
        take_until_semi(ts) == ts.take(n),
    decreases ts.len(),
{
    if ts.len() == 0 || ts[0] == TokenModel::Semicolon {
        assert(n == 0);
        assert(ts.take(0) =~= Seq::<TokenModel>::empty());
    } else {
        assert(ts[0] != TokenModel::Semicolon);
        assert(n >= 1);
        let tail = ts.drop_first();
        assert forall|j: int| 0 <= j < n - 1 implies (#[trigger] tail[j])
            != TokenModel::Semicolon by {
            assert(tail[j] == ts[j + 1]);
        }
        lemma_take_until_semi(tail, n - 1);
        assert(take_until_semi(ts) =~= ts.take(n));
    }
}

pub proof fn lemma_take_until_semi_len(ts: Seq<TokenModel>)
    ensures
        0 <= take_until_semi(ts).len() <= ts.len(),
    decreases ts.len(),
{
    if !(ts.len() == 0 || ts[0] == TokenModel::Semicolon) {
        lemma_take_until_semi_len(ts.drop_first());
    }
}

/// The statements of a token run, split at semicolons. An empty
/// statement ends the list; what follows it is ignored.
pub open spec fn spec_split(ts: Seq<TokenModel>) -> Seq<Seq<TokenModel>>
    decreases ts.len(),
    via spec_split_decreases
{
    let c = take_until_semi(ts);
    if c.len() == 0 {
        Seq::empty()
    } else {
        let consumed: int = if c.len() < ts.len() {
            c.len() + 1int
        } else {
            c.len() as int
        };
        seq![c] + spec_split(ts.skip(consumed))
    }
}

#[via_fn]
proof fn spec_split_decreases(ts: Seq<TokenModel>) {
    lemma_take_until_semi_len(ts);
}

/// The graph the statements leave behind, applied left to right; the
/// first failure wins.
pub open spec fn spec_run_statements(g: GraphModel, lines: Seq<Seq<TokenModel>>) -> Result<
    GraphModel,
    ParseError,
>
    decreases lines.len(),
{
    if lines.len() == 0 {
        Ok(g)
    } else {
        match spec_apply_statement(g, lines[0]) {
            Ok(g2) => spec_run_statements(g2, lines.drop_first()),
            Err(e) => Err(e),
        }
    }
}

/// Statements preserve well-formedness and the graph's name.
pub proof fn lemma_run_statements_wf(g: GraphModel, lines: Seq<Seq<TokenModel>>)
    requires
        g.wf(),
    ensures
        spec_run_statements(g, lines) matches Ok(g2) ==> g2.wf() && g2.name == g.name,
    decreases lines.len(),
{
    if lines.len() > 0 {
        lemma_apply_statement_wf(g, lines[0]);
        match spec_apply_statement(g, lines[0]) {
            Ok(g2) => {
                lemma_run_statements_wf(g2, lines.drop_first());
            },
            Err(_) => {},
        }
    }
}

/// The empty graph a parse starts from.
pub open spec fn spec_empty_graph(name: Option<Seq<char>>) -> GraphModel {
    GraphModel { name, nodes: Seq::empty(), edges: Seq::empty(), counter: 0 }
}

/// The graph of a token stream. The stream must open with the `digraph`
/// keyword, an optional name, and `{`; the rest is statements split at
/// semicolons.
pub open spec fn spec_from_tokens(ts: Seq<TokenModel>) -> Result<GraphModel, ParseError> {
    if ts.len() == 0 || ts[0] != TokenModel::ReservedText(Key::Digraph) {
        Err(ParseError::MissingDigraph)
    } else if ts.len() == 1 {
        Err(ParseError::MissingTokenAfterDigraph)
    } else if ts[1] == TokenModel::Brace(BrState::Open) {
        spec_run_statements(spec_empty_graph(None), spec_split(ts.skip(2)))
    } else if ts[1] is Text {
        if ts.len() >= 3 && ts[2] == TokenModel::Brace(BrState::Open) {
            spec_run_statements(
                spec_empty_graph(Some(ts[1]->Text_0)),
                spec_split(ts.skip(3)),
            )
        } else {
            Err(ParseError::UnexpectedTokenAfterDigraph)
        }
    } else {
        Err(ParseError::UnexpectedTokenAfterDigraph)
    }
}

/// The merge of `b`'s edges out of its node `i`, from position `j` on,
/// into `acc`; `si` is the index that node has in `acc`. Each target is
/// brought into being by name; a pair already joined is left alone.
pub open spec fn spec_merge_edges(
    acc: GraphModel,
    b: GraphModel,
    i: int,
    si: int,
    j: int,
) -> GraphModel
    decreases b.edges.len() - j,
{
    if !(0 <= j < b.edges.len()) {
        acc
    } else if b.edges[j].src != i {
        spec_merge_edges(acc, b, i, si, j + 1)
    } else {
        let dname = b.nodes[b.edges[j].dst].name;
        let (g1, di) = spec_get_or_create(acc, dname);
        spec_merge_edges(spec_add_edge(g1, si, di), b, i, si, j + 1)
    }
}

/// The merge of one node of `b` into `acc`: the node of that name comes
/// into being, takes `b`'s attributes, and `b`'s edges out of it follow.
pub open spec fn spec_merge_node(acc: GraphModel, b: GraphModel, i: int) -> GraphModel {
    let (g1, si) = spec_get_or_create(acc, b.nodes[i].name);
    let g2 = GraphModel { nodes: g1.nodes.update(si, b.nodes[i]), ..g1 };
    spec_merge_edges(g2, b, i, si, 0)
}

/// The merge of `b`'s nodes from position `i` on into `acc`.
pub open spec fn spec_merge_nodes(acc: GraphModel, b: GraphModel, i: int) -> GraphModel
    decreases b.nodes.len() - i,
{
    if !(0 <= i < b.nodes.len()) {
        acc
    } else {
        spec_merge_nodes(spec_merge_node(acc, b, i), b, i + 1)
    }
}

/// The merge of two graphs: nodes united by name with the later graph's
/// attributes winning, edges united keeping a stable global order, and
/// the name kept only where both graphs bear the same one.
pub open spec fn spec_merge_graph(a: GraphModel, b: GraphModel) -> GraphModel {
    let start = GraphModel {
        name: if a.name == b.name {
            a.name
        } else {
            None
        },
        ..a
    };
    spec_merge_nodes(start, b, 0)
}

pub proof fn lemma_merge_edges_wf(acc: GraphModel, b: GraphModel, i: int, si: int, j: int)
    requires
        acc.wf(),
        0 <= si < acc.nodes.len(),
    ensures
        spec_merge_edges(acc, b, i, si, j).wf(),
        spec_merge_edges(acc, b, i, si, j).name == acc.name,
        acc.nodes.len() <= spec_merge_edges(acc, b, i, si, j).nodes.len(),
    decreases b.edges.len() - j,
{
    if !(0 <= j < b.edges.len()) {
    } else if b.edges[j].src != i {
        lemma_merge_edges_wf(acc, b, i, si, j + 1);
    } else {
        let dname = b.nodes[b.edges[j].dst].name;
        lemma_get_or_create_wf(acc, dname);
        let (g1, di) = spec_get_or_create(acc, dname);
        lemma_add_edge_wf(g1, si, di);
        lemma_merge_edges_wf(spec_add_edge(g1, si, di), b, i, si, j + 1);
    }
}

pub proof fn lemma_merge_node_wf(acc: GraphModel, b: GraphModel, i: int)
    requires
        acc.wf(),
        0 <= i < b.nodes.len(),
    ensures
        spec_merge_node(acc, b, i).wf(),
        spec_merge_node(acc, b, i).name == acc.name,
{
    lemma_get_or_create_wf(acc, b.nodes[i].name);
    let (g1, si) = spec_get_or_create(acc, b.nodes[i].name);
    let g2 = GraphModel { nodes: g1.nodes.update(si, b.nodes[i]), ..g1 };
    assert(g1.nodes[si].name == b.nodes[i].name);
    assert forall|a1: int, a2: int|
        #![trigger g2.nodes[a1], g2.nodes[a2]]
        0 <= a1 < a2 < g2.nodes.len() implies g2.nodes[a1].name != g2.nodes[a2].name by {
        assert(g1.nodes[a1].name != g1.nodes[a2].name);
        assert(g2.nodes[a1].name == g1.nodes[a1].name);
        assert(g2.nodes[a2].name == g1.nodes[a2].name);
    }
    assert(g2.wf());
    lemma_merge_edges_wf(g2, b, i, si, 0);
}

pub proof fn lemma_merge_nodes_wf(acc: GraphModel, b: GraphModel, i: int)
    requires
        acc.wf(),
    ensures
        spec_merge_nodes(acc, b, i).wf(),
        spec_merge_nodes(acc, b, i).name == acc.name,
    decreases b.nodes.len() - i,
{
    if 0 <= i < b.nodes.len() {
        lemma_merge_node_wf(acc, b, i);
        lemma_merge_nodes_wf(spec_merge_node(acc, b, i), b, i + 1);
    }
}

/// Merging well-formed graphs yields a well-formed graph.
pub proof fn lemma_merge_graph_wf(a: GraphModel, b: GraphModel)
    requires
        a.wf(),
    ensures
        spec_merge_graph(a, b).wf(),
{
    let start = GraphModel {
        name: if a.name == b.name {
            a.name
        } else {
            None
        },
        ..a
    };
    assert(start.wf());
    lemma_merge_nodes_wf(start, b, 0);
}

impl ExecutionGraph {
    /// A fresh graph with no nodes and no edges.
    pub fn new(name: Option<String>) -> (g: ExecutionGraph)
        ensures
            g@.wf(),
            g@.nodes.len() == 0,
            g@.edges.len() == 0,
            g@.counter == 0,
            g@.name == match name {
                Some(s) => Some::<Seq<char>>(s@),
                None => None::<Seq<char>>,
            },
            g.state == GraphState::Parsed,
    {
        let g = ExecutionGraph {
            name,
            nodes: Vec::new(),
            edges: Vec::new(),
            edge_counter: 0,
            state: GraphState::Parsed,
        };
        proof {
            assert(nodes_view(g.nodes@) =~= Seq::<PNodeModel>::empty());
            assert(edges_view(g.edges@) =~= Seq::<EdgeModel>::empty());
        }
        g
    }

    /// The index of the node with this name, creating it if absent.
    fn get_or_create_node(&mut self, name: &str) -> (idx: usize)
        requires
            old(self)@.wf(),
        ensures
            final(self)@ == spec_get_or_create(old(self)@, name@).0,
            idx as int == spec_get_or_create(old(self)@, name@).1,
            final(self)@.wf(),
            final(self).state == old(self).state,
    {
        proof {
            lemma_find_node(self@.nodes, name@);
            lemma_get_or_create_wf(self@, name@);
        }
        let name_string = String::from_str(name);
        let ghost gnodes = self@.nodes;
        let mut i: usize = 0;
        while i < self.nodes.len()
            invariant
                0 <= i <= self.nodes@.len(),
                *self == *old(self),
                gnodes == self@.nodes,
                gnodes.len() == self.nodes@.len(),
                forall|j: int|
                    0 <= j < self.nodes@.len() ==> (#[trigger] gnodes[j]).name
                        == self.nodes@[j].name@,
                forall|j: int| 0 <= j < i ==> (#[trigger] gnodes[j]).name != name@,
                name_string@ == name@,
                self@.wf(),
            decreases self.nodes@.len() - i,
        {
            if self.nodes[i].name == name_string {
                proof {
                    assert(gnodes[i as int].name == name@);
                    lemma_find_node(gnodes, name@);
                    assert(find_node(gnodes, name@) == i);
                }
                return i;
            }
            i = i + 1;
        }
        proof {
            lemma_find_node(gnodes, name@);
            assert(find_node(gnodes, name@) == -1);
        }
        let idx = self.nodes.len();
        self.nodes.push(
            ProcessNode { name: String::from_str(name), attributes: Vec::new() },
        );
        proof {
            assert(attrs_view(Seq::<(Key, String)>::empty()) =~= Seq::<(Key, Seq<char>)>::empty());
            assert(nodes_view(self.nodes@) =~= gnodes.push(
                PNodeModel { name: name@, attributes: Seq::empty() },
            ));
            assert(edges_view(self.edges@) == edges_view(old(self).edges@));
        }
        idx
    }

    /// Adds a directed edge from `src_name` to `dst_name`, creating the
    /// endpoints on first use; a pair already joined is left alone, the
    /// first insertion keeping its order.
    pub fn add_path(&mut self, src_name: &str, dst_name: &str)
        requires
            old(self)@.wf(),
        ensures
            final(self)@ == spec_add_path(old(self)@, src_name@, dst_name@),
            final(self)@.wf(),
            final(self).state == old(self).state,
    {
        proof {
            lemma_get_or_create_wf(self@, src_name@);
        }
        let si = self.get_or_create_node(src_name);
        proof {
            lemma_get_or_create_wf(self@, dst_name@);
        }
        let di = self.get_or_create_node(dst_name);
        proof {
            assert(si < self@.nodes.len() && di < self@.nodes.len());
        }
        self.add_edge_index(si, di);
    }

    /// Adds the edge joining two node indices, unless one exists; the
    /// first insertion keeps its order.
    fn add_edge_index(&mut self, si: usize, di: usize)
        requires
            old(self)@.wf(),
            si < old(self)@.nodes.len(),
            di < old(self)@.nodes.len(),
        ensures
            final(self)@ == spec_add_edge(old(self)@, si as int, di as int),
            final(self)@.wf(),
            final(self).state == old(self).state,
    {
        let ghost g2 = self@;
        proof {
            lemma_add_edge_wf(g2, si as int, di as int);
        }
        let ghost snap = *self;
        let mut found = false;
        let mut i: usize = 0;
        while i < self.edges.len()
            invariant
                0 <= i <= self.edges@.len(),
                *self == snap,
                g2 == self@,
                g2.edges.len() == self.edges@.len(),
                found ==> has_edge(g2.edges, si as int, di as int),
                !found ==> forall|j: int|
                    0 <= j < i ==> !((#[trigger] g2.edges[j]).src == si as int
                        && g2.edges[j].dst == di as int),
            decreases self.edges@.len() - i,
        {
            if self.edges[i].src == si && self.edges[i].dst == di {
                proof {
                    assert(g2.edges[i as int].src == si as int && g2.edges[i as int].dst
                        == di as int);
                }
                found = true;
            }
            i = i + 1;
        }
        if found {
            proof {
                assert(self@ == spec_add_edge(g2, si as int, di as int));
            }
        } else {
            proof {
                assert(!has_edge(g2.edges, si as int, di as int));
            }
            let ord = self.edge_counter;
            self.edges.push(EdgeRec { src: si, dst: di, order: ord });
            self.edge_counter = self.edges.len();
            proof {
                assert(edges_view(self.edges@) =~= g2.edges.push(
                    EdgeModel { src: si as int, dst: di as int, order: g2.counter },
                ));
                assert(nodes_view(self.nodes@) == g2.nodes);
                assert(self@.counter == g2.counter + 1);
                assert(self@ == spec_add_edge(g2, si as int, di as int));
            }
        }
    }
}

/// Inserts one attribute: an existing key's value is replaced in place, a
/// new key appended.
fn attr_insert_pair(out: &mut Vec<(Key, String)>, k: Key, v: String)
    ensures
        attrs_view(final(out)@) == attr_insert(attrs_view(old(out)@), k, v@),
{
    let ghost es = attrs_view(old(out)@);
    let mut i: usize = 0;
    while i < out.len()
        invariant
            0 <= i <= out@.len(),
            out@ == old(out)@,
            es == attrs_view(out@),
            es.len() == out@.len(),
            forall|j: int| 0 <= j < i ==> (#[trigger] es[j]).0 != k,
        decreases out@.len() - i,
    {
        if out[i].0 == k {
            proof {
                assert(es[i as int].0 == k);
                lemma_attr_find(es, k);
                assert(attr_find(es, k) == i);
            }
            out.set(i, (k, v));
            proof {
                assert(attrs_view(out@) =~= es.update(i as int, (k, v@)));
            }
            return ;
        }
        i = i + 1;
    }
    proof {
        lemma_attr_find(es, k);
    }
    out.push((k, v));
    proof {
        assert(attrs_view(out@) =~= es.push((k, v@)));
    }
}

/// The attributes written between the brackets of a statement: the run of
/// `KEY = VALUE` triplets at indices `lo..hi` of the tokens.
fn parse_attrs(tokens: &Vec<Token>, lo: usize, hi: usize) -> (r: Result<
    Vec<(Key, String)>,
    ParseError,
>)
    requires
        lo <= hi <= tokens@.len(),
    ensures
        match r {
            Ok(v) => spec_parse_attrs(
                token_views(tokens@).subrange(lo as int, hi as int),
                Seq::empty(),
            ) == Some(attrs_view(v@)),
            Err(e) => spec_parse_attrs(
                token_views(tokens@).subrange(lo as int, hi as int),
                Seq::empty(),
            ) is None && e == ParseError::BadAttribute,
        },
{
    let ghost full = token_views(tokens@).subrange(lo as int, hi as int);
    let mut out: Vec<(Key, String)> = Vec::new();
    let mut j = lo;
    proof {
        assert(attrs_view(out@) =~= Seq::<(Key, Seq<char>)>::empty());
        assert(token_views(tokens@).subrange(j as int, hi as int) =~= full);
    }
    while j < hi
        invariant
            lo <= j <= hi <= tokens@.len(),
            full == token_views(tokens@).subrange(lo as int, hi as int),
            spec_parse_attrs(full, Seq::empty()) == spec_parse_attrs(
                token_views(tokens@).subrange(j as int, hi as int),
                attrs_view(out@),
            ),
        decreases hi - j,
    {
        let ghost rest = token_views(tokens@).subrange(j as int, hi as int);
        if hi - j < 3 {
            proof {
                assert(rest.len() < 3 && rest.len() > 0);
            }
            return Err(ParseError::BadAttribute);
        }
        let key: Key = match &tokens[j] {
            Token::ReservedText(k) => *k,
            _ => {
                proof {
                    assert(rest[0] == tokens@[j as int]@);
                    assert(!(rest[0] is ReservedText));
                }
                return Err(ParseError::BadAttribute);
            },
        };
        match &tokens[j + 1] {
            Token::Equals => {},
            _ => {
                proof {
                    assert(rest[1] == tokens@[j + 1]@);
                    assert(!(rest[1] is Equals));
                }
                return Err(ParseError::BadAttribute);
            },
        }
        let value: String = match &tokens[j + 2] {
            Token::Text(s) => s.clone(),
            _ => {
                proof {
                    assert(rest[2] == tokens@[j + 2]@);
                    assert(!(rest[2] is Text));
                }
                return Err(ParseError::BadAttribute);
            },
        };
        let ghost prev_acc = attrs_view(out@);
        attr_insert_pair(&mut out, key, value);
        proof {
            assert(rest[0] == tokens@[j as int]@);
            assert(rest[1] == tokens@[j + 1]@);
            assert(rest[2] == tokens@[j + 2]@);
            assert(rest[0]->ReservedText_0 == key);
            assert(rest[2]->Text_0 == value@);
            assert(rest.skip(3) =~= token_views(tokens@).subrange(j + 3, hi as int));
            assert(spec_parse_attrs(rest, prev_acc) == spec_parse_attrs(
                rest.skip(3),
                attr_insert(prev_acc, key, value@),
            ));
        }
        j = j + 3;
    }
    proof {
        assert(token_views(tokens@).subrange(j as int, hi as int).len() == 0);
    }
    Ok(out)
}

impl ExecutionGraph {
    /// Applies one statement, the tokens at indices `lo..hi`.
    fn parse_line(&mut self, tokens: &Vec<Token>, lo: usize, hi: usize) -> (r: Result<
        (),
        ParseError,
    >)
        requires
            old(self)@.wf(),
            lo <= hi <= tokens@.len(),
        ensures
            match r {
                Ok(_) => spec_apply_statement(
                    old(self)@,
                    token_views(tokens@).subrange(lo as int, hi as int),
                ) == Ok::<GraphModel, ParseError>(final(self)@) && final(self)@.wf(),
                Err(e) => spec_apply_statement(
                    old(self)@,
                    token_views(tokens@).subrange(lo as int, hi as int),
                ) == Err::<GraphModel, ParseError>(e) && *final(self) == *old(self),
            },
            final(self).state == old(self).state,
    {
        let ghost stmt = token_views(tokens@).subrange(lo as int, hi as int);
        let n = hi - lo;
        if n == 1 {
            if let Token::Brace(BrState::Closed) = &tokens[lo] {
                proof {
                    assert(stmt[0] == tokens@[lo as int]@);
                    assert(stmt[0] == TokenModel::Brace(BrState::Closed));
                }
                return Ok(());
            }
        }
        if n == 3 {
            match (&tokens[lo], &tokens[lo + 1], &tokens[lo + 2]) {
                (Token::Text(src), Token::Arrow, Token::Text(dst)) => {
                    proof {
                        assert(stmt[0] == tokens@[lo as int]@);
                        assert(stmt[1] == tokens@[lo + 1]@);
                        assert(stmt[2] == tokens@[lo + 2]@);
                    }
                    let src_name = src.clone();
                    let dst_name = dst.clone();
                    self.add_path(src_name.as_str(), dst_name.as_str());
                    proof {
                        assert(stmt[0]->Text_0 == src_name@ && stmt[2]->Text_0 == dst_name@);
                        assert(!(stmt.len() == 1));
                    }
                    return Ok(());
                },
                _ => {},
            }
        }
        if n >= 3 {
            let shape_name: Option<String> = match (&tokens[lo], &tokens[lo + 1], &tokens[hi
                - 1]) {
                (Token::Text(s), Token::Bracket(BrState::Open), Token::Bracket(
                    BrState::Closed,
                )) => Some(s.clone()),
                _ => None,
            };
            if let Some(name) = shape_name {
                proof {
                    assert(stmt[0] == tokens@[lo as int]@);
                    assert(stmt[1] == tokens@[lo + 1]@);
                    assert(stmt[stmt.len() - 1] == tokens@[hi - 1]@);
                    assert(!(stmt.len() == 3 && stmt[1] is Arrow));
                }
                match parse_attrs(tokens, lo + 2, hi - 1) {
                    Ok(attrs) => {
                        proof {
                            assert(token_views(tokens@).subrange(lo + 2, hi - 1) =~= stmt.subrange(
                                2,
                                stmt.len() - 1,
                            ));
                            lemma_get_or_create_wf(self@, name@);
                        }
                        let ghost g0 = self@;
                        let idx = self.get_or_create_node(name.as_str());
                        let name_copy = self.nodes[idx].name.clone();
                        self.nodes.set(idx, ProcessNode { name: name_copy, attributes: attrs });
                        proof {
                            let (g1, i) = spec_get_or_create(g0, name@);
                            assert(nodes_view(self.nodes@) =~= g1.nodes.update(
                                i,
                                PNodeModel { name: g1.nodes[i].name, attributes: attrs_view(attrs@) },
                            ));
                            lemma_apply_statement_wf(g0, stmt);
                        }
                        return Ok(());
                    },
                    Err(e) => {
                        proof {
                            assert(token_views(tokens@).subrange(lo + 2, hi - 1) =~= stmt.subrange(
                                2,
                                stmt.len() - 1,
                            ));
                        }
                        return Err(e);
                    },
                }
            }
        }
        proof {
            if stmt.len() >= 1 {
                assert(stmt[0] == tokens@[lo as int]@);
            }
            if stmt.len() >= 2 {
                assert(stmt[1] == tokens@[lo + 1]@);
                assert(stmt[stmt.len() - 1] == tokens@[hi - 1]@);
            }
            if stmt.len() >= 3 {
                assert(stmt[2] == tokens@[lo + 2]@);
            }
        }
        Err(ParseError::UnexpectedStatement)
    }

    /// Builds a graph from a token stream: the `digraph` keyword, an
    /// optional name, `{`, and statements split at semicolons.
    pub fn from_tokens(tokens: Vec<Token>) -> (r: Result<ExecutionGraph, ParseError>)
        ensures
            match r {
                Ok(g) => spec_from_tokens(token_views(tokens@)) == Ok::<GraphModel, ParseError>(g@)
                    && g@.wf() && g.state == GraphState::Parsed,
                Err(e) => spec_from_tokens(token_views(tokens@)) == Err::<GraphModel, ParseError>(
                    e,
                ),
            },
    {
        let ghost ts = token_views(tokens@);
        if tokens.len() == 0 {
            return Err(ParseError::MissingDigraph);
        }
        match &tokens[0] {
            Token::ReservedText(Key::Digraph) => {},
            _ => {
                proof {
                    assert(ts[0] == tokens@[0]@);
                }
                return Err(ParseError::MissingDigraph);
            },
        }
        proof {
            assert(ts[0] == tokens@[0]@);
            assert(ts[0] == TokenModel::ReservedText(Key::Digraph));
        }
        if tokens.len() == 1 {
            return Err(ParseError::MissingTokenAfterDigraph);
        }
        proof {
            assert(ts[1] == tokens@[1]@);
        }
        let name: Option<String>;
        let body_start: usize;
        match &tokens[1] {
            Token::Brace(BrState::Open) => {
                name = None;
                body_start = 2;
            },
            Token::Text(s) => {
                if tokens.len() >= 3 {
                    proof {
                        assert(ts[2] == tokens@[2]@);
                    }
                    match &tokens[2] {
                        Token::Brace(BrState::Open) => {},
                        _ => {
                            return Err(ParseError::UnexpectedTokenAfterDigraph);
                        },
                    }
                    name = Some(s.clone());
                    body_start = 3;
                } else {
                    return Err(ParseError::UnexpectedTokenAfterDigraph);
                }
            },
            _ => {
                return Err(ParseError::UnexpectedTokenAfterDigraph);
            },
        }
        let mut g = ExecutionGraph::new(name);
        let ghost header_graph = g@;
        let ghost body = ts.skip(body_start as int);
        proof {
            assert(header_graph.nodes =~= Seq::<PNodeModel>::empty());
            assert(header_graph.edges =~= Seq::<EdgeModel>::empty());
            assert(header_graph == spec_empty_graph(header_graph.name));
            assert(spec_from_tokens(ts) == spec_run_statements(header_graph, spec_split(body)));
        }
        let mut p = body_start;
        while p < tokens.len()
            invariant
                body_start <= p <= tokens@.len(),
                ts == token_views(tokens@),
                ts.len() == tokens@.len(),
                body == ts.skip(body_start as int),
                g@.wf(),
                g.state == GraphState::Parsed,
                spec_from_tokens(ts) == spec_run_statements(header_graph, spec_split(body)),
                spec_run_statements(header_graph, spec_split(body)) == spec_run_statements(
                    g@,
                    spec_split(ts.skip(p as int)),
                ),
            decreases tokens@.len() - p,
        {
            let ghost rest = ts.skip(p as int);
            // scan the chunk: tokens up to the next semicolon
            let mut q: usize = p;
            while q < tokens.len() && !matches!(&tokens[q], Token::Semicolon)
                invariant
                    p <= q <= tokens@.len(),
                    ts == token_views(tokens@),
                    ts.len() == tokens@.len(),
                    forall|j: int| p <= j < q ==> (#[trigger] ts[j]) != TokenModel::Semicolon,
                decreases tokens@.len() - q,
            {
                proof {
                    assert(ts[q as int] == tokens@[q as int]@);
                }
                q = q + 1;
            }
            proof {
                if q < tokens@.len() {
                    assert(ts[q as int] == tokens@[q as int]@);
                    assert(ts[q as int] == TokenModel::Semicolon);
                }
                assert forall|j: int| 0 <= j < q - p implies (#[trigger] rest[j])
                    != TokenModel::Semicolon by {
                    assert(rest[j] == ts[p + j]);
                }
                if q - p < rest.len() {
                    assert(rest[q - p] == ts[q as int]);
                }
                lemma_take_until_semi(rest, q - p);
            }
            if q == p {
                // an empty statement ends the list; the rest is ignored
                proof {
                    assert(take_until_semi(rest).len() == 0);
                    assert(spec_split(rest) =~= Seq::<Seq<TokenModel>>::empty());
                    assert(spec_split(ts.skip(tokens@.len() as int)) =~= Seq::<
                        Seq<TokenModel>,
                    >::empty());
                }
                p = tokens.len();
                continue ;
            }
            let ghost chunk = take_until_semi(rest);
            proof {
                assert(chunk == rest.take(q - p));
                assert(chunk.len() == q - p);
                assert(chunk =~= ts.subrange(p as int, q as int));
                let consumed: int = if chunk.len() < rest.len() {
                    chunk.len() + 1int
                } else {
                    chunk.len() as int
                };
                assert(spec_split(rest) == seq![chunk] + spec_split(rest.skip(consumed)));
            }
            let ghost g_before = g@;
            match g.parse_line(&tokens, p, q) {
                Ok(_) => {},
                Err(e) => {
                    proof {
                        assert(ts.subrange(p as int, q as int) =~= chunk);
                        assert(spec_run_statements(g_before, spec_split(rest)) == Err::<
                            GraphModel,
                            ParseError,
                        >(e));
                    }
                    return Err(e);
                },
            }
            proof {
                assert(ts.subrange(p as int, q as int) =~= chunk);
                assert(spec_apply_statement(g_before, chunk) == Ok::<GraphModel, ParseError>(g@));
            }
            if q < tokens.len() {
                proof {
                    assert(rest.skip(chunk.len() + 1int) =~= ts.skip(q + 1));
                    assert(spec_split(rest).drop_first() =~= spec_split(ts.skip(q + 1)));
                }
                p = q + 1;
            } else {
                proof {
                    assert(chunk.len() == rest.len());
                    assert(rest.skip(chunk.len() as int) =~= ts.skip(q as int));
                    assert(spec_split(rest).drop_first() =~= spec_split(ts.skip(q as int)));
                }
                p = q;
            }
        }
        proof {
            if p >= tokens@.len() {
                assert(ts.skip(p as int).len() == 0);
                assert(take_until_semi(ts.skip(p as int)).len() == 0);
                assert(spec_split(ts.skip(p as int)) =~= Seq::<Seq<TokenModel>>::empty());
            }
            assert(spec_run_statements(g@, Seq::<Seq<TokenModel>>::empty()) == Ok::<
                GraphModel,
                ParseError,
            >(g@));
        }
        Ok(g)
    }
}

impl ProcessNode {
    /// A copy of this node with the same name and attributes.
    pub fn duplicate(&self) -> (r: ProcessNode)
        ensures
            r@ == self@,
    {
        let mut attrs: Vec<(Key, String)> = Vec::new();
        let mut i: usize = 0;
        while i < self.attributes.len()
            invariant
                0 <= i <= self.attributes@.len(),
                attrs@.len() == i,
                forall|j: int| 0 <= j < i ==> #[trigger] attrs@[j].0 == self.attributes@[j].0
                    && attrs@[j].1@ == self.attributes@[j].1@,
            decreases self.attributes@.len() - i,
        {
            let k = self.attributes[i].0;
            let v = self.attributes[i].1.clone();
            attrs.push((k, v));
            i = i + 1;
        }
        let r = ProcessNode { name: self.name.clone(), attributes: attrs };
        proof {
            assert(attrs_view(r.attributes@) =~= attrs_view(self.attributes@));
        }
        r
    }
}

impl ExecutionGraph {
    /// The merge of this graph with another: nodes united by name with the
    /// later graph's attributes winning, edges united keeping a stable
    /// global order, and the name kept only where both graphs bear the
    /// same one.
    pub fn merge(self, other: ExecutionGraph) -> (r: ExecutionGraph)
        requires
            self@.wf(),
            other@.wf(),
        ensures
            r@ == spec_merge_graph(self@, other@),
            r@.wf(),
            r.state == self.state,
    {
        let ghost a = self@;
        let ghost b = other@;
        let mut g = self;
        let names_equal = match (&g.name, &other.name) {
            (None, None) => true,
            (Some(x), Some(y)) => *x == *y,
            _ => false,
        };
        if !names_equal {
            g.name = None;
        }
        let ghost start = g@;
        proof {
            assert(names_equal == (a.name == b.name));
            assert(start == GraphModel {
                name: if a.name == b.name {
                    a.name
                } else {
                    None
                },
                ..a
            });
            assert(start.wf());
            lemma_merge_nodes_wf(start, b, 0);
        }
        let ghost st = g.state;
        let mut i: usize = 0;
        while i < other.nodes.len()
            invariant
                0 <= i <= other.nodes@.len(),
                b == other@,
                b.wf(),
                b.nodes.len() == other.nodes@.len(),
                b.edges.len() == other.edges@.len(),
                g@.wf(),
                g.state == st,
                spec_merge_nodes(start, b, 0) == spec_merge_nodes(g@, b, i as int),
            decreases other.nodes@.len() - i,
        {
            let ghost acc0 = g@;
            let node_copy = other.nodes[i].duplicate();
            proof {
                assert(node_copy@ == b.nodes[i as int]);
                lemma_get_or_create_wf(acc0, b.nodes[i as int].name);
            }
            let si = g.get_or_create_node(other.nodes[i].name.as_str());
            let ghost g1 = g@;
            g.nodes.set(si, node_copy);
            let ghost g2 = g@;
            proof {
                assert(nodes_view(g.nodes@) =~= g1.nodes.update(si as int, b.nodes[i as int]));
                assert(g2 == GraphModel { nodes: g1.nodes.update(si as int, b.nodes[i as int]), ..g1 });
                assert(g1.nodes[si as int].name == b.nodes[i as int].name);
                assert forall|a1: int, a2: int|
                    #![trigger g2.nodes[a1], g2.nodes[a2]]
                    0 <= a1 < a2 < g2.nodes.len() implies g2.nodes[a1].name
                    != g2.nodes[a2].name by {
                    assert(g1.nodes[a1].name != g1.nodes[a2].name);
                    assert(g2.nodes[a1].name == g1.nodes[a1].name);
                    assert(g2.nodes[a2].name == g1.nodes[a2].name);
                }
                assert(g2.wf());
                lemma_merge_edges_wf(g2, b, i as int, si as int, 0);
            }
            let mut j: usize = 0;
            while j < other.edges.len()
                invariant
                    0 <= j <= other.edges@.len(),
                    b == other@,
                    b.wf(),
                    b.edges.len() == other.edges@.len(),
                    b.nodes.len() == other.nodes@.len(),
                    g@.wf(),
                    g.state == st,
                    si < g@.nodes.len(),
                    i < b.nodes.len(),
                    spec_merge_edges(g2, b, i as int, si as int, 0) == spec_merge_edges(
                        g@,
                        b,
                        i as int,
                        si as int,
                        j as int,
                    ),
                decreases other.edges@.len() - j,
            {
                proof {
                    assert(edges_view(other.edges@)[j as int].src == other.edges@[j as int].src
                        as int);
                }
                if other.edges[j].src == i {
                    let dst = other.edges[j].dst;
                    proof {
                        assert(b.edges[j as int].dst == dst as int);
                        assert(0 <= dst < b.nodes.len());
                        assert(nodes_view(other.nodes@)[dst as int].name
                            == other.nodes@[dst as int].name@);
                        lemma_get_or_create_wf(g@, b.nodes[dst as int].name);
                    }
                    let dname = other.nodes[dst].name.clone();
                    let ghost gc = g@;
                    let di = g.get_or_create_node(dname.as_str());
                    proof {
                        assert(si < g@.nodes.len());
                    }
                    g.add_edge_index(si, di);
                    proof {
                        assert(spec_merge_edges(gc, b, i as int, si as int, j as int)
                            == spec_merge_edges(g@, b, i as int, si as int, j + 1));
                    }
                } else {
                    proof {
                        assert(b.edges[j as int].src != i as int);
                    }
                }
                j = j + 1;
            }
            proof {
                assert(spec_merge_edges(g@, b, i as int, si as int, other.edges@.len() as int)
                    == g@);
                assert(spec_merge_node(acc0, b, i as int) == g@);
            }
            i = i + 1;
        }
        proof {
            assert(spec_merge_nodes(g@, b, other.nodes@.len() as int) == g@);
            assert(spec_merge_graph(a, b) == g@);
        }
        g
    }
}

impl Default for ExecutionGraph {
    /// The empty, unnamed graph.
    fn default() -> (g: ExecutionGraph)
        ensures
            g@ == spec_empty_graph(None),
            g@.wf(),
            g.state == GraphState::Parsed,
    {
        let g = ExecutionGraph::new(None);
        proof {
            assert(g@.nodes =~= Seq::<PNodeModel>::empty());
            assert(g@.edges =~= Seq::<EdgeModel>::empty());
        }
        g
    }
}

/// The values of a sequence of graphs.
pub open spec fn graphs_view(s: Seq<ExecutionGraph>) -> Seq<GraphModel> {
    Seq::new(s.len(), |i: int| s[i]@)
}

/// The merge of the graphs from position `i` on into `acc`, left to
/// right.
pub open spec fn spec_merge_fold(acc: GraphModel, gs: Seq<GraphModel>, i: int) -> GraphModel
    decreases gs.len() - i,
{
    if !(0 <= i < gs.len()) {
        acc
    } else {
        spec_merge_fold(spec_merge_graph(acc, gs[i]), gs, i + 1)
    }
}

pub proof fn lemma_merge_fold_wf(acc: GraphModel, gs: Seq<GraphModel>, i: int)
    requires
        acc.wf(),
    ensures
        spec_merge_fold(acc, gs, i).wf(),
    decreases gs.len() - i,
{
    if 0 <= i < gs.len() {
        lemma_merge_graph_wf(acc, gs[i]);
        lemma_merge_fold_wf(spec_merge_graph(acc, gs[i]), gs, i + 1);
    }
}

/// The merge of any number of graphs, left to right, starting from the
/// empty graph.
pub fn merge_all(graphs: Vec<ExecutionGraph>) -> (r: ExecutionGraph)
    requires
        forall|i: int| 0 <= i < graphs@.len() ==> (#[trigger] graphs@[i])@.wf(),
    ensures
        r@ == spec_merge_fold(spec_empty_graph(None), graphs_view(graphs@), 0),
        r@.wf(),
{
    let ghost gs = graphs_view(graphs@);
    let mut acc = ExecutionGraph::default();
    let mut rest = graphs;
    let ghost mut i: int = 0;
    proof {
        lemma_merge_fold_wf(spec_empty_graph(None), gs, 0);
    }
    while rest.len() > 0
        invariant
            gs.len() - i == rest@.len(),
            0 <= i <= gs.len(),
            forall|j: int| 0 <= j < rest@.len() ==> (#[trigger] rest@[j])@ == gs[i + j],
            forall|j: int| 0 <= j < rest@.len() ==> (#[trigger] rest@[j])@.wf(),
            acc@.wf(),
            spec_merge_fold(spec_empty_graph(None), gs, 0) == spec_merge_fold(acc@, gs, i as int),
        decreases rest@.len(),
    {
        let g = rest.remove(0);
        proof {
            assert(g@ == gs[i as int]);
        }
        acc = acc.merge(g);
        proof {
            i = i + 1;
        }
    }
    acc
}

} // verus!
