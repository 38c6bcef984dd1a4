use flowscript::graph::{merge_all, EdgeRec, ExecutionGraph, GraphState, ParseError};
use flowscript::tokenizer::{Key, Tokenizer};

fn parse(input: &str) -> Result<ExecutionGraph, ParseError> {
    let chars: Vec<char> = input.chars().collect();
    let mut t = Tokenizer::new(chars);
    ExecutionGraph::from_tokens(t.tokenize())
}

fn node_names(g: &ExecutionGraph) -> Vec<String> {
    g.nodes.iter().map(|n| n.name.clone()).collect()
}

#[test]
fn parse_linear() {
    let g = parse("digraph { a -> b ; b -> c ; }").unwrap();
    assert_eq!(node_names(&g), vec!["a", "b", "c"]);
    assert_eq!(
        g.edges,
        vec![
            EdgeRec { src: 0, dst: 1, order: 0 },
            EdgeRec { src: 1, dst: 2, order: 1 },
        ]
    );
    assert_eq!(g.state, GraphState::Parsed);
}

#[test]
fn parse_attributes() {
    let g = parse("digraph { a [ data = \"X\" ] ; }").unwrap();
    assert_eq!(node_names(&g), vec!["a"]);
    assert!(g.edges.is_empty());
    assert_eq!(g.nodes[0].attributes, vec![(Key::Data, "X".to_string())]);
}

#[test]
fn parse_attributes_two_keys() {
    let g = parse("digraph { a [ shape = \"box\" data = \"{}\" ] ; }").unwrap();
    assert_eq!(
        g.nodes[0].attributes,
        vec![(Key::Shape, "box".to_string()), (Key::Data, "{}".to_string())]
    );
}

#[test]
fn parse_named_graph() {
    let g = parse("digraph G { a -> b ; }").unwrap();
    assert_eq!(g.name, Some("G".to_string()));
}

#[test]
fn parse_unnamed_graph() {
    let g = parse("digraph { a -> b ; }").unwrap();
    assert_eq!(g.name, None);
}

#[test]
fn parse_example_from_dsl_surface() {
    let g = parse(
        "digraph G {\n  make   [data = \"{\\\"target\\\": \\\"demo\\\"}\"];\n  parse  [data = \"{}\"];\n  make -> parse;\n  parse -> done;\n  parse -> err;\n}",
    )
    .unwrap();
    assert_eq!(node_names(&g), vec!["make", "parse", "done", "err"]);
    assert_eq!(g.edges.len(), 3);
    assert_eq!(
        g.nodes[0].attributes,
        vec![(Key::Data, "{\"target\": \"demo\"}".to_string())]
    );
}

#[test]
fn duplicate_edges_suppressed() {
    // edge uniqueness: the first insertion wins the order slot
    let g = parse("digraph { a -> b ; a -> b ; b -> c ; }").unwrap();
    assert_eq!(
        g.edges,
        vec![
            EdgeRec { src: 0, dst: 1, order: 0 },
            EdgeRec { src: 1, dst: 2, order: 1 },
        ]
    );
}

#[test]
fn parser_is_deterministic() {
    let g1 = parse("digraph { a -> b ; a [ data = \"v\" ] ; }").unwrap();
    let g2 = parse("digraph { a -> b ; a [ data = \"v\" ] ; }").unwrap();
    assert_eq!(node_names(&g1), node_names(&g2));
    assert_eq!(g1.edges, g2.edges);
    assert_eq!(g1.name, g2.name);
}

#[test]
fn parse_error_missing_digraph() {
    assert_eq!(parse("graph { }").unwrap_err(), ParseError::MissingDigraph);
    assert_eq!(parse("").unwrap_err(), ParseError::MissingDigraph);
}

#[test]
fn parse_error_missing_token_after_digraph() {
    assert_eq!(parse("digraph").unwrap_err(), ParseError::MissingTokenAfterDigraph);
}

#[test]
fn parse_error_unexpected_after_digraph() {
    assert_eq!(parse("digraph ; { }").unwrap_err(), ParseError::UnexpectedTokenAfterDigraph);
    assert_eq!(parse("digraph G ;").unwrap_err(), ParseError::UnexpectedTokenAfterDigraph);
}

#[test]
fn parse_error_bad_attribute() {
    assert_eq!(
        parse("digraph { a [ data = ] ; }").unwrap_err(),
        ParseError::BadAttribute
    );
    assert_eq!(
        parse("digraph { a [ data \"X\" ] ; }").unwrap_err(),
        ParseError::BadAttribute
    );
}

#[test]
fn parse_error_unexpected_statement() {
    assert_eq!(
        parse("digraph { a -> ; }").unwrap_err(),
        ParseError::UnexpectedStatement
    );
}

#[test]
fn parse_error_messages_exist() {
    assert!(!ParseError::MissingDigraph.message().is_empty());
    assert!(!ParseError::UnexpectedStatement.message().is_empty());
}

#[test]
fn merge_two_graphs() {
    // {a,b; a->b} + {b,c; b->c} = {a,b,c; a->b order 0, b->c order 1}
    let g1 = parse("digraph { a -> b ; }").unwrap();
    let g2 = parse("digraph { b -> c ; }").unwrap();
    let m = g1.merge(g2);
    assert_eq!(node_names(&m), vec!["a", "b", "c"]);
    assert_eq!(
        m.edges,
        vec![
            EdgeRec { src: 0, dst: 1, order: 0 },
            EdgeRec { src: 1, dst: 2, order: 1 },
        ]
    );
}

#[test]
fn merge_with_empty_is_identity() {
    let g = parse("digraph { a -> b ; }").unwrap();
    let e = ExecutionGraph::default();
    let m = g.merge(e);
    assert_eq!(node_names(&m), vec!["a", "b"]);
    assert_eq!(m.edges, vec![EdgeRec { src: 0, dst: 1, order: 0 }]);
    assert_eq!(m.name, None);
}

#[test]
fn merge_with_self_is_identity() {
    let g1 = parse("digraph { a -> b ; a [ data = \"v\" ] ; }").unwrap();
    let g2 = parse("digraph { a -> b ; a [ data = \"v\" ] ; }").unwrap();
    let m = g1.merge(g2);
    assert_eq!(node_names(&m), vec!["a", "b"]);
    assert_eq!(m.edges, vec![EdgeRec { src: 0, dst: 1, order: 0 }]);
    assert_eq!(m.nodes[0].attributes, vec![(Key::Data, "v".to_string())]);
}

#[test]
fn merge_later_attributes_win() {
    let g1 = parse("digraph { a [ data = \"old\" ] ; }").unwrap();
    let g2 = parse("digraph { a [ data = \"new\" ] ; }").unwrap();
    let m = g1.merge(g2);
    assert_eq!(m.nodes[0].attributes, vec![(Key::Data, "new".to_string())]);
}

#[test]
fn merge_differing_names_cleared() {
    let g1 = parse("digraph G { a -> b ; }").unwrap();
    let g2 = parse("digraph H { b -> c ; }").unwrap();
    let m = g1.merge(g2);
    assert_eq!(m.name, None);
}

#[test]
fn merge_equal_names_kept() {
    let g1 = parse("digraph G { a -> b ; }").unwrap();
    let g2 = parse("digraph G { b -> c ; }").unwrap();
    let m = g1.merge(g2);
    assert_eq!(m.name, Some("G".to_string()));
}

#[test]
fn merge_all_folds_left() {
    let g1 = parse("digraph { a -> b ; }").unwrap();
    let g2 = parse("digraph { b -> c ; }").unwrap();
    let g3 = parse("digraph { c -> a ; }").unwrap();
    let m = merge_all(vec![g1, g2, g3]);
    assert_eq!(node_names(&m), vec!["a", "b", "c"]);
    assert_eq!(m.edges.len(), 3);
    assert_eq!(m.edges[2], EdgeRec { src: 2, dst: 0, order: 2 });
}

#[test]
fn add_path_builds_nodes_on_first_use() {
    let mut g = ExecutionGraph::new(None);
    g.add_path("x", "y");
    g.add_path("y", "x");
    g.add_path("x", "y");
    assert_eq!(node_names(&g), vec!["x", "y"]);
    assert_eq!(
        g.edges,
        vec![
            EdgeRec { src: 0, dst: 1, order: 0 },
            EdgeRec { src: 1, dst: 0, order: 1 },
        ]
    );
    assert_eq!(g.edge_counter, 2);
}

#[test]
fn empty_statement_ends_parse() {
    // a doubled semicolon ends the statement list; the rest is ignored
    let g = parse("digraph { a -> b ; ; c -> d ; }").unwrap();
    assert_eq!(node_names(&g), vec!["a", "b"]);
}

#[test]
fn attribute_repeated_key_later_wins() {
    let g = parse("digraph { a [ data = \"x\" data = \"y\" ] ; }").unwrap();
    assert_eq!(g.nodes[0].attributes, vec![(Key::Data, "y".to_string())]);
}

#[test]
fn empty_bracket_list_clears_attributes() {
    let g = parse("digraph { a [ data = \"x\" ] ; a [ ] ; }").unwrap();
    assert_eq!(g.nodes[0].attributes, Vec::<(Key, String)>::new());
}
