use graphslice::graph::{EdgeType, NodeId, DependencyGraph, CodeNode, Edge};
use graphslice::slicer::{
    assemble_strict_graph, choose_strategy, count_errors, extract_context, read_implementation,
    read_location, site_constraints, site_is_reachable, strict_target_code, Definition, OutgoingCall, Reference,
    Severity, Strategy,
};
use graphslice::syntax::Extractor;

const DCE_MAIN: &str = r#"
fn reachable_fn() {
    println!("I am reachable");
}

fn unreachable_fn() {
    println!("I am NOT reachable");
}

fn main() {
    let x = 10;

    if x > 5 {
        reachable_fn();
    }

    if x < 5 {
        unreachable_fn();
    }
}
        "#;

fn at(file: &str, line: u32, column: u32) -> NodeId {
    NodeId::new(file.to_string(), line, column)
}

#[test]
fn strategy_switches_on_errors_only() {
    assert_eq!(choose_strategy(&vec![]), Strategy::Strict);
    assert_eq!(choose_strategy(&vec![Severity::Warning, Severity::Hint]), Strategy::Strict);
    assert_eq!(choose_strategy(&vec![Severity::Warning, Severity::Error]), Strategy::Fuzzy);
    assert_eq!(count_errors(&vec![Severity::Error, Severity::Information, Severity::Error]), 2);
}

#[test]
fn read_location_gives_one_line_or_nothing() {
    let content = "fn helper(x:i32)->i32 { x+1 }\r\nfn main(){ let v=helper(5); }\n";
    assert_eq!(read_location(content, 0), "fn helper(x:i32)->i32 { x+1 }");
    assert_eq!(read_location(content, 1), "fn main(){ let v=helper(5); }");
    assert_eq!(read_location(content, 2), "");
}

#[test]
fn read_implementation_prefers_the_block() {
    let ex = Extractor::new();
    assert_eq!(
        read_implementation(&ex, DCE_MAIN, 1),
        "fn reachable_fn() {\n    println!(\"I am reachable\");\n}"
    );
    assert_eq!(read_implementation(&ex, DCE_MAIN, 400), "");
}

#[test]
fn dead_branch_sites_have_inconsistent_constraints() {
    let ex = Extractor::new();
    let live = site_constraints(&ex, DCE_MAIN, 13, 8);
    let dead = site_constraints(&ex, DCE_MAIN, 17, 8);
    let show = |cs: &Vec<graphslice::syntax::Constraint>| {
        cs.iter().map(|c| format!("{}{}{}", c.var, c.op, c.val)).collect::<Vec<_>>()
    };
    assert_eq!(show(&live), vec!["x==10", "x>5"]);
    assert_eq!(show(&dead), vec!["x==10", "x<5"]);
    assert!(site_is_reachable(&vec![], false));
    assert!(!site_is_reachable(&dead, false));
}

#[test]
fn dead_branch_prune_scenario() {
    let file = "/w/src/main.rs";
    let main_id = at(file, 9, 3);
    let def = Definition {
        id: at(file, 9, 3),
        code: "fn main() { .. }".to_string(),
        calls: vec![
            OutgoingCall {
                callee: at(file, 1, 3),
                code: "fn reachable_fn() {}".to_string(),
                site_reachable: vec![true],
            },
            OutgoingCall {
                callee: at(file, 5, 3),
                code: "fn unreachable_fn() {}".to_string(),
                site_reachable: vec![false],
            },
        ],
    };
    let g = assemble_strict_graph(main_id.clone(), "fn main() {".to_string(), vec![], vec![def]);
    let calls: Vec<&NodeId> =
        g.edges.iter().filter(|e| e.edge_type == EdgeType::Calls).map(|e| &e.to).collect();
    assert_eq!(calls, vec![&at(file, 1, 3)]);
    assert!(g.get_node(&at(file, 5, 3)).is_none());
    assert_eq!(g.nodes[0].id, main_id);
    assert_eq!(g.nodes[0].node_type, "target");
}

#[test]
fn strict_graph_links_references_and_definitions() {
    let file = "/w/src/main.rs";
    let target = at(file, 1, 3);
    let refs = vec![
        Reference { id: at(file, 1, 3), code: "fn helper(x:i32)->i32 { x+1 }".to_string() },
        Reference { id: at(file, 6, 16), code: "    let value = helper(5);".to_string() },
    ];
    let defs = vec![Definition { id: at(file, 1, 3), code: "fn helper".to_string(), calls: vec![] }];
    let g = assemble_strict_graph(target.clone(), "fn helper(x:i32)->i32 {".to_string(), refs, defs);
    assert_eq!(g.nodes.len(), 2);
    assert_eq!(g.nodes[0].node_type, "target");
    assert!(g.nodes.iter().any(|n| n.node_type == "reference" && n.code.contains("helper(5)")));
    let kinds: Vec<EdgeType> = g.edges.iter().map(|e| e.edge_type).collect();
    assert_eq!(kinds, vec![EdgeType::References, EdgeType::References, EdgeType::Defines]);
}

#[test]
fn call_kept_when_one_site_is_reachable() {
    let file = "/w/a.rs";
    let def = Definition {
        id: at(file, 2, 0),
        code: "fn d() {}".to_string(),
        calls: vec![OutgoingCall {
            callee: at(file, 8, 0),
            code: "fn c() {}".to_string(),
            site_reachable: vec![false, true, false],
        }],
    };
    let g = assemble_strict_graph(at(file, 0, 0), "t".to_string(), vec![], vec![def]);
    assert_eq!(g.edges.len(), 2);
    assert_eq!(g.edges[1].edge_type, EdgeType::Calls);
    assert_eq!(g.get_node(&at(file, 8, 0)).unwrap().node_type, "call");
}

#[test]
fn simple_context_renders_up_to_depth() {
    let mut g = DependencyGraph::new();
    for (l, c) in [(0u32, "a"), (1, "b"), (2, "c")] {
        g.add_node(CodeNode { id: at("/f.rs", l, 1), code: c.to_string(), node_type: "call".to_string() });
    }
    g.add_edge(Edge { from: at("/f.rs", 0, 1), to: at("/f.rs", 1, 1), edge_type: EdgeType::Calls });
    g.add_edge(Edge { from: at("/f.rs", 1, 1), to: at("/f.rs", 2, 1), edge_type: EdgeType::Calls });
    assert_eq!(
        extract_context(&g, 1),
        "// /f.rs:0:1 (depth 0)\na\n\n// /f.rs:1:1 (depth 1)\nb\n\n"
    );
    assert_eq!(extract_context(&DependencyGraph::new(), 3), "// No context found (graph is empty)");
}

#[test]
fn strict_target_past_the_end_is_an_error() {
    assert_eq!(strict_target_code("fn a() {}\nfn b() {}\n", 1).unwrap(), "fn b() {}");
    assert_eq!(
        strict_target_code("fn a() {}\n", 4),
        Err(graphslice::fuzzy::SliceError::TargetNotFound { line: 4 })
    );
}
