use flowscript::document::{merge_json, parse_json_text, Document};
use flowscript::executor::{advance, node_input, roots, ExecError, JobRunner, Step};
use flowscript::graph::ExecutionGraph;
use flowscript::tokenizer::Tokenizer;

fn parse(input: &str) -> ExecutionGraph {
    let chars: Vec<char> = input.chars().collect();
    let mut t = Tokenizer::new(chars);
    ExecutionGraph::from_tokens(t.tokenize()).unwrap()
}

fn obj(entries: Vec<(&str, Document)>) -> Document {
    Document::Obj(entries.into_iter().map(|(k, v)| (k.to_string(), v)).collect())
}

fn returned(status: i64) -> Document {
    obj(vec![("result", obj(vec![])), ("status", Document::Int(status))])
}

/// Always returns the same status, whatever the job's name.
struct ConstRunner {
    status: i64,
    calls: Vec<String>,
}

impl JobRunner for ConstRunner {
    fn run(&mut self, name: &str, _input: Document) -> Option<Document> {
        self.calls.push(name.to_string());
        Some(returned(self.status))
    }
}

/// Knows no job at all.
struct EmptyRegistry;

impl JobRunner for EmptyRegistry {
    fn run(&mut self, _name: &str, _input: Document) -> Option<Document> {
        None
    }
}

/// Returns a fixed document, whatever the job.
struct FixedRunner {
    doc_json: String,
}

impl JobRunner for FixedRunner {
    fn run(&mut self, _name: &str, _input: Document) -> Option<Document> {
        Some(parse_json_text(&self.doc_json))
    }
}

/// Hands the input back as the branch result, with a terminal status.
struct EchoRunner;

impl JobRunner for EchoRunner {
    fn run(&mut self, _name: &str, input: Document) -> Option<Document> {
        Some(Document::Obj(vec![
            ("result".to_string(), input),
            ("status".to_string(), Document::Int(1000)),
        ]))
    }
}

#[test]
fn roots_are_in_degree_zero_nodes() {
    let g = parse("digraph { a -> b ; c -> b ; }");
    assert_eq!(roots(&g), vec![0, 2]);
    let linear = parse("digraph { a -> b ; b -> c ; }");
    assert_eq!(roots(&linear), vec![0]);
}

#[test]
fn status_dispatch_second_edge() {
    // a two-edge node whose job returns status 1 advances along the
    // second edge in order
    let g = parse("digraph { a -> b ; a -> c ; }");
    match advance(&g, 0, returned(1)) {
        Step::Next { node, payload } => {
            assert_eq!(g.nodes[node].name, "c");
            assert!(payload.doc_eq(&obj(vec![])));
        }
        _ => panic!("expected a walk to the second edge"),
    }
}

#[test]
fn status_dispatch_first_edge() {
    let g = parse("digraph { a -> b ; a -> c ; }");
    match advance(&g, 0, returned(0)) {
        Step::Next { node, .. } => assert_eq!(g.nodes[node].name, "b"),
        _ => panic!("expected a walk to the first edge"),
    }
}

#[test]
fn status_beyond_degree_is_terminal() {
    // status 5 on a two-edge node yields the returned document itself
    let g = parse("digraph { a -> b ; a -> c ; }");
    match advance(&g, 0, returned(5)) {
        Step::Finish(doc) => assert!(doc.doc_eq(&returned(5))),
        _ => panic!("expected the branch to finish"),
    }
}

#[test]
fn missing_result_fails_branch() {
    let g = parse("digraph { a -> b ; }");
    let doc = obj(vec![("status", Document::Int(0))]);
    match advance(&g, 0, doc) {
        Step::Fail(ExecError::MissingResult) => {}
        _ => panic!("expected a missing result"),
    }
}

#[test]
fn non_object_result_fails_branch() {
    let g = parse("digraph { a -> b ; }");
    let doc = obj(vec![("result", Document::Int(3)), ("status", Document::Int(0))]);
    match advance(&g, 0, doc) {
        Step::Fail(ExecError::MissingResult) => {}
        _ => panic!("expected a missing result"),
    }
}

#[test]
fn missing_status_fails_branch() {
    let g = parse("digraph { a -> b ; }");
    let doc = obj(vec![("result", obj(vec![]))]);
    match advance(&g, 0, doc) {
        Step::Fail(ExecError::MissingStatus) => {}
        _ => panic!("expected a missing status"),
    }
}

#[test]
fn negative_status_fails_branch() {
    let g = parse("digraph { a -> b ; }");
    let doc = obj(vec![("result", obj(vec![])), ("status", Document::Int(-1))]);
    match advance(&g, 0, doc) {
        Step::Fail(ExecError::MissingStatus) => {}
        _ => panic!("expected a missing status"),
    }
}

#[test]
fn execute_all_one_result_per_root() {
    // two sources, so exactly two results
    let mut g = parse("digraph { a -> b ; c -> b ; }");
    let mut runner = ConstRunner { status: 99, calls: Vec::new() };
    let results = g.execute_all(&mut runner);
    assert_eq!(results.len(), 2);
    assert!(results.iter().all(|r| r.is_ok()));
    assert_eq!(runner.calls, vec!["a", "c"]);
    assert_eq!(g.state, flowscript::graph::GraphState::Done);
}

#[test]
fn execute_all_walks_the_chain() {
    let mut g = parse("digraph { a -> b ; b -> c ; }");
    let mut runner = ConstRunner { status: 0, calls: Vec::new() };
    let results = g.execute_all(&mut runner);
    assert_eq!(results.len(), 1);
    assert_eq!(runner.calls, vec!["a", "b", "c"]);
}

#[test]
fn execute_all_unknown_name_surfaces_in_result() {
    let mut g = parse("digraph { a -> b ; }");
    let mut runner = EmptyRegistry;
    let results = g.execute_all(&mut runner);
    assert_eq!(results.len(), 1);
    match &results[0] {
        Err(ExecError::NotRegistered(name)) => assert_eq!(name, "a"),
        _ => panic!("expected an unregistered name"),
    }
}

#[test]
fn execute_all_cycle_fails_branch() {
    let mut g = parse("digraph { r -> a ; a -> b ; b -> a ; }");
    let mut runner = ConstRunner { status: 0, calls: Vec::new() };
    let results = g.execute_all(&mut runner);
    assert_eq!(results.len(), 1);
    match &results[0] {
        Err(ExecError::CyclicWalk) => {}
        _ => panic!("expected the cycle to fail the branch"),
    }
}

#[test]
fn execute_all_malformed_return_surfaces() {
    let mut g = parse("digraph { a -> b ; }");
    let mut runner = FixedRunner { doc_json: "{\"status\": 0}".to_string() };
    let results = g.execute_all(&mut runner);
    match &results[0] {
        Err(ExecError::MissingResult) => {}
        _ => panic!("expected a missing result"),
    }
}

#[test]
fn node_input_merges_data_attribute() {
    // the wrapper around JSON parsing feeds real values to the job
    let g = parse("digraph { a [ data = \"{\\\"k\\\": 7}\" ] ; }");
    let input = node_input(Document::empty_object(), &g.nodes[0]);
    match input.get_field("k") {
        Some(v) => assert!(v.doc_eq(&Document::Int(7))),
        None => panic!("expected the data attribute inside the input"),
    }
}

#[test]
fn node_input_attribute_wins_over_payload() {
    let g = parse("digraph { a [ data = \"{\\\"k\\\": 2}\" ] ; }");
    let payload = obj(vec![("k", Document::Int(1)), ("other", Document::Bool(true))]);
    let input = node_input(payload, &g.nodes[0]);
    assert!(input.get_field("k").unwrap().doc_eq(&Document::Int(2)));
    assert!(input.get_field("other").unwrap().doc_eq(&Document::Bool(true)));
}

#[test]
fn node_input_without_data_keeps_payload() {
    let g = parse("digraph { a -> b ; }");
    let payload = obj(vec![("k", Document::Int(1))]);
    let input = node_input(payload, &g.nodes[0]);
    assert!(input.doc_eq(&obj(vec![("k", Document::Int(1))])));
}

#[test]
fn successor_sees_predecessor_result() {
    // the payload carried forward is the result object as it stands
    let g = parse("digraph { a [ data = \"{\\\"from_attr\\\": true}\" ] ; a -> b ; }");
    let mut g = g;
    let mut runner = EchoRunner;
    let results = g.execute_all(&mut runner);
    assert_eq!(results.len(), 1);
    let doc = results[0].as_ref().unwrap();
    // the echoed input of node a holds the parsed data attribute
    let echoed = doc.get_field("result").unwrap();
    assert!(echoed.get_field("from_attr").unwrap().doc_eq(&Document::Bool(true)));
}

#[test]
fn parse_json_text_reads_json() {
    let d = parse_json_text("{\"x\": [1, true, \"s\"], \"y\": null}");
    let x = d.get_field("x").unwrap();
    assert!(x.doc_eq(&Document::Arr(vec![
        Document::Int(1),
        Document::Bool(true),
        Document::Str("s".to_string()),
    ])));
    assert!(d.get_field("y").unwrap().doc_eq(&Document::Null));
}

#[test]
fn parse_json_text_invalid_is_null() {
    assert!(parse_json_text("not json").doc_eq(&Document::Null));
    assert!(parse_json_text("").doc_eq(&Document::Null));
}

#[test]
fn merge_json_later_entries_win() {
    let a = obj(vec![("x", Document::Int(1)), ("y", Document::Int(2))]);
    let b = obj(vec![("y", Document::Int(9)), ("z", Document::Int(3))]);
    let m = merge_json(a, b);
    let expect = obj(vec![
        ("x", Document::Int(1)),
        ("y", Document::Int(9)),
        ("z", Document::Int(3)),
    ]);
    assert!(m.doc_eq(&expect));
}

#[test]
fn merge_json_non_object_contributes_nothing() {
    let a = obj(vec![("x", Document::Int(1))]);
    let m = merge_json(a, Document::Null);
    assert!(m.doc_eq(&obj(vec![("x", Document::Int(1))])));
    let m2 = merge_json(Document::Int(5), obj(vec![("y", Document::Int(2))]));
    assert!(m2.doc_eq(&obj(vec![("y", Document::Int(2))])));
}

#[test]
fn take_field_removes_and_returns() {
    let d = obj(vec![("a", Document::Int(1)), ("b", Document::Int(2))]);
    let v = d.take_field("b").unwrap();
    assert!(v.doc_eq(&Document::Int(2)));
    let d2 = obj(vec![("a", Document::Int(1))]);
    assert!(d2.take_field("missing").is_none());
}
