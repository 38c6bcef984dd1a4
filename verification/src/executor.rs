//! Execution of a graph: source nodes are found, and each branch walks
//! from its source following the status code each job returns, along the
//! outgoing edges in their stable order.
//!
//! Running a job is outside the engine: a [`JobRunner`] maps a job name
//! and an input document to the job's returned document, or to nothing
//! when no job of that name is registered. The walk itself — which field
//! of the returned document is read, which edge is taken, when a branch
//! ends — is decided here, and holds for every document a runner returns.
//!
//! The payload a successor sees is the `result` object of its
//! predecessor's returned document, carried forward as it stands.

use vstd::prelude::*;
use crate::document::{Document, DocModel, lookup_obj, spec_merge, parsed_doc, parse_json_text, merge_json};
use crate::graph::{ExecutionGraph, GraphModel, GraphState, EdgeModel, EdgeRec, edges_view, PNodeModel, ProcessNode, attr_find, lemma_attr_find};
use crate::tokenizer::Key;

verus! {

/// Why a branch of execution failed.
#[derive(Debug, PartialEq)]
pub enum ExecError {
    /// No job of this name is registered.
    NotRegistered(String),
    /// The returned document has no `result` object.
    MissingResult,
    /// The returned document has no non-negative integer `status`.
    MissingStatus,
    /// The walk outgrew the node count, which only a cycle can cause;
    /// the engine would otherwise never return.
    CyclicWalk,
}

/// The mathematical value of an [`ExecError`].
pub enum ExecErrorModel {
    NotRegistered(Seq<char>),
    MissingResult,
    MissingStatus,
    CyclicWalk,
}

impl View for ExecError {
    type V = ExecErrorModel;

    open spec fn view(&self) -> ExecErrorModel {
        match self {
            ExecError::NotRegistered(s) => ExecErrorModel::NotRegistered(s@),
            ExecError::MissingResult => ExecErrorModel::MissingResult,
            ExecError::MissingStatus => ExecErrorModel::MissingStatus,
            ExecError::CyclicWalk => ExecErrorModel::CyclicWalk,
        }
    }
}

/// What one dispatch decides: walk on to a node with a payload, finish
/// the branch with the returned document, or fail.
#[derive(Debug)]
pub enum Step {
    Next { node: usize, payload: Document },
    Finish(Document),
    Fail(ExecError),
}

/// The mathematical value of a [`Step`].
pub enum StepModel {
    Next { node: int, payload: DocModel },
    Finish(DocModel),
    Fail(ExecErrorModel),
}

impl View for Step {
    type V = StepModel;

    open spec fn view(&self) -> StepModel {
        match self {
            Step::Next { node, payload } => StepModel::Next {
                node: *node as int,
                payload: payload@,
            },
            Step::Finish(d) => StepModel::Finish(d@),
            Step::Fail(e) => StepModel::Fail(e@),
        }
    }
}

pub open spec fn result_chars() -> Seq<char> {
    seq!['r', 'e', 's', 'u', 'l', 't']
}

pub open spec fn status_chars() -> Seq<char> {
    seq!['s', 't', 'a', 't', 'u', 's']
}

/// A node with no edge pointing at it: the entry of a branch.
pub open spec fn is_root(g: GraphModel, i: int) -> bool {
    forall|j: int| 0 <= j < g.edges.len() ==> (#[trigger] g.edges[j]).dst != i
}

/// The in-degree-zero nodes from position `i` on, in index order.
pub open spec fn spec_roots(g: GraphModel, i: int) -> Seq<int>
    decreases g.nodes.len() - i,
{
    if !(0 <= i < g.nodes.len()) {
        Seq::empty()
    } else if is_root(g, i) {
        seq![i] + spec_roots(g, i + 1)
    } else {
        spec_roots(g, i + 1)
    }
}

/// Every root is a node index.
pub proof fn lemma_spec_roots_bounds(g: GraphModel, i: int)
    requires
        0 <= i,
    ensures
        forall|k: int| 0 <= k < spec_roots(g, i).len() ==> i <= #[trigger] spec_roots(g, i)[k]
            < g.nodes.len(),
    decreases g.nodes.len() - i,
{
    if 0 <= i < g.nodes.len() {
        lemma_spec_roots_bounds(g, i + 1);
        if is_root(g, i) {
            assert forall|k: int|
                0 <= k < spec_roots(g, i).len() implies i <= #[trigger] spec_roots(g, i)[k]
                < g.nodes.len() by {
                if k > 0 {
                    assert(spec_roots(g, i)[k] == spec_roots(g, i + 1)[k - 1]);
                }
            }
        }
    }
}

/// The values of a sequence of indices.
pub open spec fn usizes_view(s: Seq<usize>) -> Seq<int> {
    Seq::new(s.len(), |i: int| s[i] as int)
}

/// The in-degree-zero nodes, in index order.
pub fn roots(g: &ExecutionGraph) -> (r: Vec<usize>)
    ensures
        usizes_view(r@) == spec_roots(g@, 0),
{
    let mut out: Vec<usize> = Vec::new();
    let mut i: usize = 0;
    proof {
        assert(usizes_view(out@) =~= Seq::<int>::empty());
    }
    while i < g.nodes.len()
        invariant
            0 <= i <= g.nodes@.len(),
            g@.nodes.len() == g.nodes@.len(),
            g@.edges.len() == g.edges@.len(),
            spec_roots(g@, 0) == usizes_view(out@) + spec_roots(g@, i as int),
        decreases g.nodes@.len() - i,
    {
        let mut incoming = false;
        let mut j: usize = 0;
        while j < g.edges.len()
            invariant
                0 <= j <= g.edges@.len(),
                g@.edges.len() == g.edges@.len(),
                incoming ==> exists|m: int|
                    0 <= m < g@.edges.len() && (#[trigger] g@.edges[m]).dst == i as int,
                !incoming ==> forall|m: int| 0 <= m < j ==> (#[trigger] g@.edges[m]).dst
                    != i as int,
            decreases g.edges@.len() - j,
        {
            if g.edges[j].dst == i {
                proof {
                    assert(g@.edges[j as int].dst == i as int);
                }
                incoming = true;
            }
            j = j + 1;
        }
        let ghost prev = out@;
        if !incoming {
            proof {
                assert(is_root(g@, i as int));
            }
            out.push(i);
            proof {
                assert(usizes_view(out@) =~= usizes_view(prev) + seq![i as int]);
                assert(spec_roots(g@, i as int) == seq![i as int] + spec_roots(g@, i + 1));
                assert(usizes_view(prev) + spec_roots(g@, i as int) =~= usizes_view(out@)
                    + spec_roots(g@, i + 1));
            }
        } else {
            proof {
                assert(!is_root(g@, i as int));
            }
        }
        i = i + 1;
    }
    proof {
        assert(spec_roots(g@, i as int) =~= Seq::<int>::empty());
        assert(usizes_view(out@) + spec_roots(g@, i as int) =~= usizes_view(out@));
    }
    out
}

/// The edges out of node `i`, from edge position `j` on, in their stable
/// order.
pub open spec fn out_edges_from(g: GraphModel, i: int, j: int) -> Seq<EdgeModel>
    decreases g.edges.len() - j,
{
    if !(0 <= j < g.edges.len()) {
        Seq::empty()
    } else if g.edges[j].src == i {
        seq![g.edges[j]] + out_edges_from(g, i, j + 1)
    } else {
        out_edges_from(g, i, j + 1)
    }
}

/// The edges out of node `i`, in their stable order: ascending `order`,
/// which is their appearance order in the source.
pub open spec fn out_edges(g: GraphModel, i: int) -> Seq<EdgeModel> {
    out_edges_from(g, i, 0)
}

/// Each outgoing edge is an edge of the graph, out of `i`, with `order`
/// at least `j`; and the list ascends in `order`.
pub proof fn lemma_out_edges_from(g: GraphModel, i: int, j: int)
    requires
        g.wf(),
        0 <= j,
    ensures
        forall|k: int| 0 <= k < out_edges_from(g, i, j).len() ==> {
            let e = #[trigger] out_edges_from(g, i, j)[k];
            &&& e.src == i
            &&& 0 <= e.dst < g.nodes.len()
            &&& j <= e.order < g.edges.len()
        },
        forall|a: int, b: int|
            #![trigger out_edges_from(g, i, j)[a], out_edges_from(g, i, j)[b]]
            0 <= a < b < out_edges_from(g, i, j).len() ==> out_edges_from(g, i, j)[a].order
                < out_edges_from(g, i, j)[b].order,
    decreases g.edges.len() - j,
{
    if !(0 <= j < g.edges.len()) {
    } else {
        lemma_out_edges_from(g, i, j + 1);
        if g.edges[j].src != i {
            let out = out_edges_from(g, i, j);
            let tail = out_edges_from(g, i, j + 1);
            assert(out == tail);
            assert forall|k: int| 0 <= k < out.len() implies {
                let e = #[trigger] out[k];
                &&& e.src == i
                &&& 0 <= e.dst < g.nodes.len()
                &&& j <= e.order < g.edges.len()
            } by {
                assert(out[k] == tail[k]);
            }
            assert forall|a: int, b: int|
                #![trigger out[a], out[b]]
                0 <= a < b < out.len() implies out[a].order < out[b].order by {
                assert(out[a] == tail[a]);
                assert(out[b] == tail[b]);
            }
        }
        if g.edges[j].src == i {
            let out = out_edges_from(g, i, j);
            let tail = out_edges_from(g, i, j + 1);
            assert(g.edges[j].order == j);
            assert forall|k: int| 0 <= k < out.len() implies {
                let e = #[trigger] out[k];
                &&& e.src == i
                &&& 0 <= e.dst < g.nodes.len()
                &&& j <= e.order < g.edges.len()
            } by {
                if k > 0 {
                    assert(out[k] == tail[k - 1]);
                }
            }
            assert forall|a: int, b: int|
                #![trigger out[a], out[b]]
                0 <= a < b < out.len() implies out[a].order < out[b].order by {
                assert(out[b] == tail[b - 1]);
                if a > 0 {
                    assert(out[a] == tail[a - 1]);
                }
            }
        }
    }
}

/// No outgoing edge is missed: every edge of the graph out of `i`, from
/// position `m >= j` on, appears in the list.
pub proof fn lemma_out_edges_complete(g: GraphModel, i: int, j: int)
    requires
        0 <= j,
    ensures
        forall|m: int|
            j <= m < g.edges.len() && (#[trigger] g.edges[m]).src == i ==> out_edges_from(
                g,
                i,
                j,
            ).contains(g.edges[m]),
    decreases g.edges.len() - j,
{
    if 0 <= j < g.edges.len() {
        lemma_out_edges_complete(g, i, j + 1);
        let out = out_edges_from(g, i, j);
        let tail = out_edges_from(g, i, j + 1);
        assert forall|m: int|
            j <= m < g.edges.len() && (#[trigger] g.edges[m]).src == i implies out.contains(
            g.edges[m],
        ) by {
            if g.edges[j].src == i {
                if m == j {
                    assert(out[0] == g.edges[j]);
                } else {
                    assert(tail.contains(g.edges[m]));
                    let k = choose|k: int| 0 <= k < tail.len() && tail[k] == g.edges[m];
                    assert(out[k + 1] == tail[k]);
                }
            } else {
                assert(m != j);
                assert(tail.contains(g.edges[m]));
                assert(out == tail);
            }
        }
    }
}

/// What one dispatch decides, given the document `y` a job returned for
/// node `i`: without a `result` object the branch fails; without a
/// non-negative integer `status` the branch fails; a status below the
/// out-degree walks to the edge of that position in the stable order,
/// carrying the `result` object as the next payload; any other status
/// finishes the branch with `y` itself.
pub open spec fn spec_advance(g: GraphModel, i: int, y: DocModel) -> StepModel {
    match lookup_obj(y, result_chars()) {
        Some(res) => if res is Obj {
            match lookup_obj(y, status_chars()) {
                Some(st) => if st is Int && st->Int_0 >= 0 {
                    let s = st->Int_0;
                    let outs = out_edges(g, i);
                    if s < outs.len() {
                        StepModel::Next { node: outs[s].dst, payload: res }
                    } else {
                        StepModel::Finish(y)
                    }
                } else {
                    StepModel::Fail(ExecErrorModel::MissingStatus)
                },
                None => StepModel::Fail(ExecErrorModel::MissingStatus),
            }
        } else {
            StepModel::Fail(ExecErrorModel::MissingResult)
        },
        None => StepModel::Fail(ExecErrorModel::MissingResult),
    }
}

/// Status dispatch, stated as a law: with `k` outgoing edges in their
/// stable order, a status `s < k` walks to precisely the `s`-th of them,
/// and a status `s >= k` finishes the branch with the returned document.
pub proof fn lemma_status_dispatch(g: GraphModel, i: int, y: DocModel, s: int)
    requires
        g.wf(),
        lookup_obj(y, result_chars()) matches Some(res) && res is Obj,
        lookup_obj(y, status_chars()) == Some(DocModel::Int(s)),
        s >= 0,
    ensures
        s < out_edges(g, i).len() ==> spec_advance(g, i, y) == (StepModel::Next {
            node: out_edges(g, i)[s].dst,
            payload: lookup_obj(y, result_chars())->0,
        }),
        s >= out_edges(g, i).len() ==> spec_advance(g, i, y) == StepModel::Finish(y),
{
}

/// Performs one dispatch. The decision is exactly [`spec_advance`]; a
/// walk always leads to a node of the graph.
pub fn advance(g: &ExecutionGraph, idx: usize, y: Document) -> (s: Step)
    requires
        g@.wf(),
    ensures
        s@ == spec_advance(g@, idx as int, y@),
        s is Next ==> (s->Next_node as int) < g@.nodes.len(),
{
    proof {
        reveal_strlit("result");
        reveal_strlit("status");
        assert("result"@ =~= result_chars());
        assert("status"@ =~= status_chars());
        lemma_out_edges_from(g@, idx as int, 0);
    }
    let res_is_obj = match y.get_field("result") {
        Some(d) => match d {
            Document::Obj(_) => true,
            _ => false,
        },
        None => false,
    };
    if !res_is_obj {
        return Step::Fail(ExecError::MissingResult);
    }
    let status: i64 = match y.get_field("status") {
        Some(d) => match d {
            Document::Int(s) => {
                if *s >= 0 {
                    *s
                } else {
                    return Step::Fail(ExecError::MissingStatus);
                }
            },
            _ => {
                return Step::Fail(ExecError::MissingStatus);
            },
        },
        None => {
            return Step::Fail(ExecError::MissingStatus);
        },
    };
    // the edges out of this node, in their stable order
    let mut outs: Vec<EdgeRec> = Vec::new();
    let mut j: usize = 0;
    proof {
        assert(edges_view(outs@) =~= Seq::<EdgeModel>::empty());
    }
    while j < g.edges.len()
        invariant
            0 <= j <= g.edges@.len(),
            g@.edges.len() == g.edges@.len(),
            out_edges(g@, idx as int) == edges_view(outs@) + out_edges_from(
                g@,
                idx as int,
                j as int,
            ),
        decreases g.edges@.len() - j,
    {
        let ghost prev = outs@;
        if g.edges[j].src == idx {
            proof {
                assert(g@.edges[j as int].src == idx as int);
            }
            outs.push(g.edges[j]);
            proof {
                assert(edges_view(outs@) =~= edges_view(prev) + seq![g@.edges[j as int]]);
                assert(out_edges_from(g@, idx as int, j as int) == seq![g@.edges[j as int]]
                    + out_edges_from(g@, idx as int, j + 1));
                assert(edges_view(prev) + out_edges_from(g@, idx as int, j as int)
                    =~= edges_view(outs@) + out_edges_from(g@, idx as int, j + 1));
            }
        } else {
            proof {
                assert(g@.edges[j as int].src != idx as int);
            }
        }
        j = j + 1;
    }
    proof {
        assert(out_edges_from(g@, idx as int, j as int) =~= Seq::<EdgeModel>::empty());
        assert(edges_view(outs@) + out_edges_from(g@, idx as int, j as int) =~= edges_view(
            outs@,
        ));
        assert(out_edges(g@, idx as int) == edges_view(outs@));
    }
    let k = outs.len();
    if (status as u64) < (k as u64) {
        let e = outs[status as usize];
        proof {
            assert(out_edges(g@, idx as int)[status as int] == edges_view(outs@)[status as int]);
        }
        match y.take_field("result") {
            Some(p) => Step::Next { node: e.dst, payload: p },
            None => {
                proof {
                    assert(false);
                }
                Step::Fail(ExecError::MissingResult)
            },
        }
    } else {
        Step::Finish(y)
    }
}

/// The input a node's job sees: the incoming payload merged with the
/// node's parsed `data` attribute (the attribute's entries win).
pub open spec fn spec_node_input(p: DocModel, n: PNodeModel) -> DocModel {
    spec_merge(
        p,
        if attr_find(n.attributes, Key::Data) != -1 {
            parsed_doc(n.attributes[attr_find(n.attributes, Key::Data)].1)
        } else {
            DocModel::Null
        },
    )
}

/// Builds the input a node's job sees from the incoming payload.
pub fn node_input(payload: Document, node: &ProcessNode) -> (r: Document)
    ensures
        r@ == spec_node_input(payload@, node@),
{
    let ghost attrs = node@.attributes;
    let mut i: usize = 0;
    let mut found: Option<&String> = None;
    while i < node.attributes.len()
        invariant
            0 <= i <= node.attributes@.len(),
            attrs == node@.attributes,
            attrs.len() == node.attributes@.len(),
            forall|m: int| 0 <= m < node.attributes@.len() ==> #[trigger] attrs[m] == (
                node.attributes@[m].0,
                node.attributes@[m].1@,
            ),
            match found {
                Some(v) => attr_find(attrs, Key::Data) != -1 && attrs[attr_find(
                    attrs,
                    Key::Data,
                )].1 == v@,
                None => forall|m: int| 0 <= m < i ==> (#[trigger] attrs[m]).0 != Key::Data,
            },
        decreases node.attributes@.len() - i,
    {
        if found.is_none() {
            if let (Key::Data, v) = &node.attributes[i] {
                proof {
                    assert(attrs[i as int].0 == Key::Data);
                    lemma_attr_find(attrs, Key::Data);
                    assert(attr_find(attrs, Key::Data) == i);
                }
                found = Some(v);
            }
        }
        i = i + 1;
    }
    let attr_doc = match found {
        Some(v) => parse_json_text(v.as_str()),
        None => {
            proof {
                lemma_attr_find(attrs, Key::Data);
            }
            Document::Null
        },
    };
    merge_json(payload, attr_doc)
}

/// What runs a job: a registry from job names to job functions. `run`
/// yields the job's returned document, or nothing when no job of that
/// name is registered. What the engine decides from the returned
/// document is verified for every document a runner may return.
pub trait JobRunner {
    fn run(&mut self, name: &str, input: Document) -> Option<Document>;
}

/// Walks one branch from its source node: each job's `result` feeds the
/// successor its status selects, until a status beyond the out-degree
/// finishes the branch, or a failure ends it. The walk begins with an
/// empty object as payload. On an acyclic graph a walk visits at most as
/// many nodes as the graph has, so a longer walk proves a cycle and
/// fails the branch: the engine would otherwise never return.
pub fn execute_root<R: JobRunner>(g: &ExecutionGraph, runner: &mut R, root: usize) -> (r: Result<
    Document,
    ExecError,
>)
    requires
        g@.wf(),
        (root as int) < g@.nodes.len(),
    ensures
        r matches Err(e) ==> (e@ matches ExecErrorModel::NotRegistered(n) ==> exists|i: int|
            0 <= i < g@.nodes.len() && (#[trigger] g@.nodes[i]).name == n),
{
    let mut current = root;
    let mut payload = Document::empty_object();
    let mut fuel = g.nodes.len();
    loop
        invariant
            g@.wf(),
            (current as int) < g@.nodes.len(),
            g@.nodes.len() == g.nodes@.len(),
        decreases fuel,
    {
        if fuel == 0 {
            return Err(ExecError::CyclicWalk);
        }
        fuel = fuel - 1;
        let input = node_input(payload, &g.nodes[current]);
        match runner.run(g.nodes[current].name.as_str(), input) {
            None => {
                let name = g.nodes[current].name.clone();
                proof {
                    assert(g@.nodes[current as int].name == name@);
                }
                return Err(ExecError::NotRegistered(name));
            },
            Some(y) => {
                match advance(g, current, y) {
                    Step::Next { node, payload: p } => {
                        current = node;
                        payload = p;
                    },
                    Step::Finish(doc) => {
                        return Ok(doc);
                    },
                    Step::Fail(e) => {
                        return Err(e);
                    },
                }
            },
        }
    }
}

impl ExecutionGraph {
    /// Executes every branch: one walk per in-degree-zero node, in index
    /// order, and exactly one result per such node. The graph itself is
    /// read-only during execution and ends in the `Done` state; a graph
    /// is executed once.
    pub fn execute_all<R: JobRunner>(&mut self, runner: &mut R) -> (r: Vec<
        Result<Document, ExecError>,
    >)
        requires
            old(self)@.wf(),
            old(self).state == GraphState::Parsed,
        ensures
            final(self)@ == old(self)@,
            final(self).state == GraphState::Done,
            r@.len() == spec_roots(old(self)@, 0).len(),
    {
        self.state = GraphState::Executing;
        let rts = roots(self);
        proof {
            lemma_spec_roots_bounds(self@, 0);
            assert(usizes_view(rts@).len() == rts@.len());
            assert forall|k: int| 0 <= k < rts@.len() implies (#[trigger] rts@[k] as int)
                < self@.nodes.len() by {
                assert(usizes_view(rts@)[k] == rts@[k] as int);
            }
        }
        let mut out: Vec<Result<Document, ExecError>> = Vec::new();
        let mut i: usize = 0;
        while i < rts.len()
            invariant
                0 <= i <= rts@.len(),
                self@ == old(self)@,
                self@.wf(),
                self@.nodes.len() == self.nodes@.len(),
                usizes_view(rts@) == spec_roots(self@, 0),
                forall|k: int| 0 <= k < rts@.len() ==> (#[trigger] rts@[k] as int)
                    < self@.nodes.len(),
                out@.len() == i,
            decreases rts@.len() - i,
        {
            let root = rts[i];
            let res = execute_root(self, runner, root);
            out.push(res);
            i = i + 1;
        }
        self.state = GraphState::Done;
        proof {
            assert(out@.len() == rts@.len());
            assert(rts@.len() == usizes_view(rts@).len());
        }
        out
    }
}

} // verus!
