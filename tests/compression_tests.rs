use graphslice::compression::{estimate_tokens, extract_interface, HierarchicalContext, InclusionLevel};
use graphslice::graph::{CodeNode, DependencyGraph, Edge, EdgeType, NodeId};

fn id(line: u32) -> NodeId {
    NodeId::new("/w/src/main.rs".to_string(), line, 2)
}

fn graph_of(codes: &[&str], edges: &[(u32, u32)]) -> DependencyGraph {
    let mut g = DependencyGraph::new();
    for (i, c) in codes.iter().enumerate() {
        g.add_node(CodeNode { id: id(i as u32), code: c.to_string(), node_type: "call".to_string() });
    }
    for (a, b) in edges {
        g.add_edge(Edge { from: id(*a), to: id(*b), edge_type: EdgeType::Calls });
    }
    g
}

fn block_of_len(head: &str, len: usize) -> String {
    let mut s = format!("{}\n", head);
    while s.len() + 13 <= len {
        s.push_str("    x += 1;\n");
    }
    while s.len() + 1 < len {
        s.push(' ');
    }
    s.push('}');
    s
}

#[test]
fn estimate_tokens_rounds_up() {
    assert_eq!(estimate_tokens(""), 0);
    assert_eq!(estimate_tokens("abcd"), 1);
    assert_eq!(estimate_tokens("abcde"), 2);
    assert_eq!(estimate_tokens("é"), 1);
}

#[test]
fn interface_keeps_declaration_lines() {
    let code = "/// Adds one.\npub fn inc(x: i32) -> i32 {\n    x + 1\n}\nimpl Foo {\n    fn bar() {}\n}";
    assert_eq!(
        extract_interface(code),
        "/// Adds one.\npub fn inc(x: i32) -> i32 {\nimpl Foo {\n    fn bar() {}"
    );
}

#[test]
fn interface_falls_back_to_first_line() {
    assert_eq!(extract_interface("let a = 1;\nlet b = 2;"), "let a = 1;");
    assert_eq!(extract_interface(""), "");
}

#[test]
fn renderer_compression_scenario() {
    let target = block_of_len("fn target() {", 4000);
    let dep = block_of_len("fn dependency() {", 4000);
    assert_eq!(target.len(), 4000);
    assert_eq!(dep.len(), 4000);
    let g = graph_of(&[&target, &dep], &[(0, 1)]);
    let ctx = HierarchicalContext::build(&g, &id(0), 1500);
    assert_eq!(ctx.sections.len(), 2);
    assert_eq!(ctx.sections[0].level, InclusionLevel::FullSource);
    assert_eq!(ctx.sections[0].content, target);
    assert_eq!(ctx.sections[1].level, InclusionLevel::InterfaceSummary);
    assert_eq!(ctx.sections[1].content, "fn dependency() {");
}

#[test]
fn direct_dependency_in_full_when_it_fits() {
    let g = graph_of(&["fn a() { b() }", "fn b() {\n    1\n}", "fn c() {\n    2\n}"], &[(0, 1), (1, 2)]);
    let ctx = HierarchicalContext::build(&g, &id(0), 1000);
    let levels: Vec<InclusionLevel> = ctx.sections.iter().map(|s| s.level).collect();
    assert_eq!(
        levels,
        vec![InclusionLevel::FullSource, InclusionLevel::FullSource, InclusionLevel::InterfaceSummary]
    );
    assert_eq!(ctx.sections[2].content, "fn c() {");
}

#[test]
fn transitive_node_becomes_reference_when_summary_does_not_fit() {
    let big_summary = format!("fn {}() {{\n}}", "n".repeat(200));
    let g = graph_of(&["fn a() {}", "fn b() {}", &big_summary], &[(0, 1), (1, 2)]);
    let ctx = HierarchicalContext::build(&g, &id(0), 20);
    assert_eq!(ctx.sections.len(), 3);
    assert_eq!(ctx.sections[2].level, InclusionLevel::Reference);
    assert_eq!(ctx.sections[2].content, "// See: /w/src/main.rs:2");
}

#[test]
fn budget_is_kept_past_the_target() {
    let g = graph_of(&["fn a() {}", "fn b() {}", "fn c() {}", "fn d() {}"], &[(0, 1), (0, 2), (2, 3)]);
    for budget in 0..40 {
        let ctx = HierarchicalContext::build(&g, &id(0), budget);
        let total: usize = ctx.sections.iter().map(|s| estimate_tokens(&s.content)).sum();
        assert!(ctx.sections.len() <= 1 || total <= budget);
        assert_eq!(ctx.sections[0].level, InclusionLevel::FullSource);
    }
}

#[test]
fn render_writes_header_content_and_blank() {
    let g = graph_of(&["fn a() {}"], &[]);
    let ctx = HierarchicalContext::build(&g, &id(0), 100);
    assert_eq!(ctx.render(), "\n// [FULL] /w/src/main.rs:0:2\nfn a() {}\n");
    assert_eq!(HierarchicalContext::new().render(), "");
    assert!(HierarchicalContext::default().sections.is_empty());
}
