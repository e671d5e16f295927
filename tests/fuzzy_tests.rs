use graphslice::completion::{LlmConfig, CompletionPlan};
use graphslice::fuzzy::{analysis_prompt, strip_fences, target_code, target_graph, FuzzySlicer, SliceError};
use graphslice::graph::{EdgeType, NodeId};
use graphslice::syntax::Extractor;

const BROKEN_MAIN: &str = r#"
fn helper(x: i32) {
    println!("{}", x);
}

fn main() {
    helper(10);
    let x = ; // Syntax error here
}
        "#;

fn names_in(json: &str, key: &str) -> Vec<String> {
    let v: serde_json::Value = serde_json::from_str(json).unwrap();
    v[key].as_array().map(|a| a.iter().filter_map(|x| x.as_str().map(String::from)).collect()).unwrap_or_default()
}

#[test]
fn strip_fences_accepts_both_fences() {
    assert_eq!(strip_fences("```json\n{\"calls\":[]}\n```"), "{\"calls\":[]}");
    assert_eq!(strip_fences("  ```\n{\"a\":1}\n```  "), "{\"a\":1}");
    assert_eq!(strip_fences("```json\n{\"a\":1}"), "{\"a\":1}");
    assert_eq!(strip_fences(" {\"a\":1} \n"), "{\"a\":1}");
    assert_eq!(strip_fences("a```"), "a");
    assert_eq!(strip_fences("{\"a\":1}\n```\n"), "{\"a\":1}");
}

#[test]
fn prompt_wraps_the_code() {
    let p = analysis_prompt("fn f() {}");
    assert!(p.starts_with("Analyze the following Rust code"));
    assert!(p.ends_with("Code:\n```rust\nfn f() {}\n```\n\nJSON:"));
}

#[test]
fn target_code_prefers_block_then_line() {
    let ex = Extractor::new();
    assert_eq!(target_code(&ex, BROKEN_MAIN, 1).unwrap(), "fn helper(x: i32) {\n    println!(\"{}\", x);\n}");
    assert_eq!(target_code(&ex, "", 3), Err(SliceError::TargetNotFound { line: 3 }));
}

#[test]
fn first_indexed_definition_wins() {
    let ex = Extractor::new();
    let mut fs = FuzzySlicer::new();
    fs.index_source(&ex, "/w/a.rs", "fn dup() {}\n");
    fs.index_source(&ex, "/w/b.rs", "fn dup() {}\nfn other() {}\n");
    assert_eq!(fs.symbol_cache.len(), 3);
    let i = fs.lookup("dup").unwrap();
    assert_eq!(fs.symbol_cache[i].file, "/w/a.rs");
    assert_eq!(fs.lookup("missing"), None);
    assert!(!fs.workspace_scanned);
    fs.mark_scanned();
    assert!(fs.workspace_scanned);
}

#[test]
fn broken_target_scenario() {
    let file = "/w/src/main.rs";
    let ex = Extractor::new();
    let mut fs = FuzzySlicer::new();
    fs.index_source(&ex, file, BROKEN_MAIN);
    let target = NodeId::new(file.to_string(), 0, 3);
    let code = target_code(&ex, BROKEN_MAIN, 0).unwrap();
    let mut graph = target_graph(&target, code);
    let reply = match LlmConfig::from_settings(None, None, None).plan(true) {
        CompletionPlan::Canned(s) => s,
        other => panic!("unexpected plan {:?}", other),
    };
    let json = strip_fences(&reply);
    let calls = names_in(&json, "calls");
    let types = names_in(&json, "types");
    fs.resolve(&mut graph, &target, &calls, &types);
    let found = graph.edges.iter().any(|e| {
        e.edge_type == EdgeType::Calls
            && graph.get_node(&e.to).map(|n| n.code.contains("fn helper")).unwrap_or(false)
    });
    assert!(found);
    assert_eq!(graph.nodes[0].id, target);
}

#[test]
fn type_names_become_defines_edges_and_unknown_names_are_skipped() {
    let ex = Extractor::new();
    let mut fs = FuzzySlicer::new();
    fs.index_source(&ex, "/w/t.rs", "struct Thing;\n");
    let target = NodeId::new("/w/m.rs".to_string(), 4, 1);
    let mut graph = target_graph(&target, "x".to_string());
    fs.resolve(&mut graph, &target, &vec!["nowhere".to_string()], &vec!["Thing".to_string()]);
    assert_eq!(graph.edges.len(), 1);
    assert_eq!(graph.edges[0].edge_type, EdgeType::Defines);
    assert_eq!(graph.edges[0].to, NodeId::new("/w/t.rs".to_string(), 0, 0));
    assert_eq!(graph.nodes[1].node_type, "struct_item");
}
