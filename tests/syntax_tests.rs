use graphslice::syntax::Extractor;

#[test]
fn test_constraint_extraction() {
    let code = r#"
            fn test() {
                let x = 10;
                let y = 20;
                if x > 5 {
                    // Target location inside here
                    let z = 30;
                }
            }
        "#;

    let extractor = Extractor::new();

    // Line 6 is inside the if block: "let z = 30;"
    let (assignments, conditions) = extractor.extract_constraints(code, 6, 20);

    println!("Assignments: {:?}", assignments);
    println!("Conditions: {:?}", conditions);

    assert!(assignments.iter().any(|c| c.var == "x" && c.val == 10));
    assert!(assignments.iter().any(|c| c.var == "y" && c.val == 20));

    assert!(conditions.iter().any(|c| c.var == "x" && c.op == ">" && c.val == 5));
}

#[test]
fn flipped_condition_puts_identifier_left() {
    let code = "fn f() {\n    let x = 3;\n    if 10 > x {\n        g();\n    }\n}\n";
    let extractor = Extractor::new();
    let (assignments, conditions) = extractor.extract_constraints(code, 3, 8);
    assert_eq!(assignments.len(), 1);
    assert_eq!(assignments[0].var, "x");
    assert_eq!(assignments[0].op, "==");
    assert_eq!(assignments[0].val, 3);
    assert_eq!(conditions.len(), 1);
    assert_eq!(conditions[0].var, "x");
    assert_eq!(conditions[0].op, "<");
    assert_eq!(conditions[0].val, 10);
}

#[test]
fn else_branch_and_compound_conditions_are_not_emitted() {
    let code = "fn f(a: i64) {\n    if a > 1 && a < 9 {\n        g();\n    } else {\n        h();\n    }\n}\n";
    let extractor = Extractor::new();
    let (_, inside_then) = extractor.extract_constraints(code, 2, 8);
    assert!(inside_then.is_empty());
    let (_, inside_else) = extractor.extract_constraints(code, 4, 8);
    assert!(inside_else.is_empty());
}

#[test]
fn later_lets_are_not_assignments() {
    let code = "fn f() {\n    let a = 1;\n    g();\n    let b = 2;\n}\n";
    let extractor = Extractor::new();
    let (assignments, _) = extractor.extract_constraints(code, 2, 4);
    assert_eq!(assignments.len(), 1);
    assert_eq!(assignments[0].var, "a");
}

#[test]
fn extract_block_returns_enclosing_function() {
    let code = "use std::fmt;\n\nfn helper(x: i32) -> i32 {\n    x + 1\n}\n";
    let extractor = Extractor::new();
    let block = extractor.extract_block(code, 3, 4).unwrap();
    assert_eq!(block, "fn helper(x: i32) -> i32 {\n    x + 1\n}");
}

#[test]
fn extract_block_falls_back_to_top_level_item() {
    let code = "use std::fmt;\nfn main() {}\n";
    let extractor = Extractor::new();
    let block = extractor.extract_block(code, 0, 5).unwrap();
    assert_eq!(block, "use std::fmt;");
}

#[test]
fn defined_symbols_lists_top_level_items() {
    let code = "struct Point { x: i32 }\n\nimpl Point {}\n\nfn origin() -> Point { Point { x: 0 } }\nenum E { A }\n";
    let extractor = Extractor::new();
    let symbols = extractor.get_defined_symbols(code);
    let names: Vec<&str> = symbols.iter().map(|s| s.name.as_str()).collect();
    assert_eq!(names, vec!["Point", "origin", "E"]);
    assert_eq!(symbols[0].kind, "struct_item");
    assert_eq!(symbols[1].kind, "function_item");
    assert_eq!(symbols[1].line, 4);
    assert_eq!(symbols[1].code, "fn origin() -> Point { Point { x: 0 } }");
}

#[test]
fn symbols_survive_a_syntax_error() {
    let code = "\nfn helper(x: i32) {\n    println!(\"{}\", x);\n}\n\nfn main() {\n    helper(10);\n    let x = ; // Syntax error here\n}\n";
    let extractor = Extractor::new();
    let symbols = extractor.get_defined_symbols(code);
    assert!(symbols.iter().any(|s| s.name == "helper" && s.line == 1));
}

fn syn(kind: &'static str, field: Option<&'static str>, depth: usize, span: (usize, usize), text: &str) -> graphslice::syntax::SyntaxNode {
    graphslice::syntax::SyntaxNode {
        kind,
        field,
        depth,
        start_byte: span.0,
        end_byte: span.1,
        start_row: 0,
        text: text.to_string(),
    }
}

fn small_tree() -> Vec<graphslice::syntax::SyntaxNode> {
    let src = "fn f() { let a = 4; if a > 2 { g(); } }";
    vec![
        syn("source_file", None, 0, (0, 39), src),
        syn("function_item", None, 1, (0, 39), src),
        syn("fn", None, 2, (0, 2), "fn"),
        syn("identifier", Some("name"), 2, (3, 4), "f"),
        syn("parameters", Some("parameters"), 2, (4, 6), "()"),
        syn("block", Some("body"), 2, (7, 39), "{ let a = 4; if a > 2 { g(); } }"),
        syn("let_declaration", None, 3, (9, 19), "let a = 4;"),
        syn("identifier", Some("pattern"), 4, (13, 14), "a"),
        syn("integer_literal", Some("value"), 4, (17, 18), "4"),
        syn("expression_statement", None, 3, (20, 37), "if a > 2 { g(); }"),
        syn("if_expression", None, 4, (20, 37), "if a > 2 { g(); }"),
        syn("binary_expression", Some("condition"), 5, (23, 28), "a > 2"),
        syn("identifier", Some("left"), 6, (23, 24), "a"),
        syn(">", Some("operator"), 6, (25, 26), ">"),
        syn("integer_literal", Some("right"), 6, (27, 28), "2"),
        syn("block", Some("consequence"), 5, (29, 37), "{ g(); }"),
        syn("expression_statement", None, 6, (31, 35), "g();"),
        syn("call_expression", None, 7, (31, 34), "g()"),
        syn("identifier", Some("function"), 8, (31, 32), "g"),
    ]
}

#[test]
fn walks_over_a_given_tree() {
    let t = small_tree();
    let src = "fn f() { let a = 4; if a > 2 { g(); } }";
    assert_eq!(graphslice::syntax::block_in_tree(&t, (31, 32)), Some(src.to_string()));
    assert_eq!(graphslice::syntax::block_in_tree(&t, (1, 1)), None);
    let symbols = graphslice::syntax::symbols_in_tree(&t);
    assert_eq!(symbols.len(), 1);
    assert_eq!(symbols[0].name, "f");
    let (a, c) = graphslice::syntax::constraints_in_tree(&t, (31, 32));
    assert_eq!((a[0].var.as_str(), a[0].op.as_str(), a[0].val), ("a", "==", 4));
    assert_eq!((c[0].var.as_str(), c[0].op.as_str(), c[0].val), ("a", ">", 2));
    assert_eq!((a.len(), c.len()), (1, 1));
}

#[test]
fn impl_is_not_a_block_kind() {
    let code = "mod m {\n    impl S {\n        fn f() {}\n    }\n}\n";
    let extractor = Extractor::new();
    assert_eq!(extractor.extract_block(code, 1, 6).unwrap(), code.trim_end());
}

#[test]
fn non_comparison_operators_are_not_conditions() {
    let code = "fn f(x: i64) {\n    if x % 5 {\n        g();\n    }\n    if x <= 7 {\n        h();\n    }\n}\n";
    let extractor = Extractor::new();
    let (_, mod_cond) = extractor.extract_constraints(code, 2, 8);
    assert!(mod_cond.is_empty());
    let (_, le_cond) = extractor.extract_constraints(code, 5, 8);
    assert_eq!(le_cond.len(), 1);
    assert_eq!(le_cond[0].op, "<=");
}
