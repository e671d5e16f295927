use graphslice::completion::{chat_url, system_instruction, CompletionPlan, LlmConfig};
use graphslice::consistency::{parse_comparison, Comparison, UnsupportedOperator, Verifier};
use graphslice::protocol::{classify_message, content_length, frame_message, retry_delay, Incoming, ReplyOutcome};
use graphslice::syntax::Constraint;

fn c(var: &str, op: &str, val: i64) -> Constraint {
    Constraint { var: var.to_string(), op: op.to_string(), val }
}

#[test]
fn frames_with_byte_length() {
    assert_eq!(frame_message("{}"), "Content-Length: 2\r\n\r\n{}");
    assert_eq!(frame_message("é"), "Content-Length: 2\r\n\r\né");
}

#[test]
fn reads_content_length_headers() {
    assert_eq!(content_length("Content-Length: 42\r\n"), Some(42));
    assert_eq!(content_length("Content-Type: x\r\n"), None);
    assert_eq!(content_length("Content-Length: abc\r\n"), None);
}

#[test]
fn content_modified_retry_scenario() {
    let err = "LSP Error: {\"code\":-32801,\"message\":\"content modified\"}";
    let first = retry_delay(1, err).unwrap();
    let second = retry_delay(2, err).unwrap();
    assert_eq!(first + second, 1500);
    assert_eq!(retry_delay(5, "content modified"), Some(2500));
    assert_eq!(retry_delay(6, err), None);
    assert_eq!(retry_delay(1, "LSP Error: {\"code\":-32600}"), None);
}

#[test]
fn chat_url_joins_once() {
    assert_eq!(chat_url("https://api.openai.com/v1"), "https://api.openai.com/v1/chat/completions");
    assert_eq!(chat_url("http://h/v1/"), "http://h/v1/chat/completions");
}

#[test]
fn completion_plan_follows_configuration() {
    let unset = LlmConfig::from_settings(None, None, None);
    assert_eq!(unset.api_key, "dummy");
    assert_eq!(unset.model, "gpt-4o");
    assert_eq!(unset.plan(false), CompletionPlan::NotConfigured);
    let set = LlmConfig::from_settings(Some("k".to_string()), Some("http://h/".to_string()), None);
    assert_eq!(set.plan(false), CompletionPlan::Remote("http://h/chat/completions".to_string()));
    assert!(matches!(set.plan(true), CompletionPlan::Canned(s) if s.contains("\"helper\"")));
    assert!(system_instruction().starts_with("You are a Rust expert"));
}

#[test]
fn consistency_query_drops_unsupported_operators() {
    let v = Verifier::new();
    let atoms = v.consistency_query(&vec![c("x", ">", 10), c("x", "=~", 3), c("y", "!=", 0)]);
    let got: Vec<(String, Comparison, i64)> = atoms.iter().map(|a| (a.var.clone(), a.cmp, a.value)).collect();
    assert_eq!(got, vec![("x".to_string(), Comparison::Gt, 10), ("y".to_string(), Comparison::Ne, 0)]);
    assert!(v.consistency_query(&vec![]).is_empty());
}

#[test]
fn reachability_query_appends_target_or_rejects_operator() {
    let v = Verifier::new();
    let atoms = v.reachability_query(&vec![c("x", "==", 10)], &c("x", "!=", 10)).unwrap();
    assert_eq!(atoms.len(), 2);
    assert_eq!(atoms[1].cmp, Comparison::Ne);
    assert_eq!(
        v.reachability_query(&vec![c("x", "<>", 1)], &c("x", "<", 5)).unwrap_err(),
        UnsupportedOperator { op: "<>".to_string() }
    );
    assert_eq!(parse_comparison("<="), Some(Comparison::Le));
    assert_eq!(parse_comparison("=>"), None);
}

#[test]
fn classifies_replies_and_notifications() {
    assert_eq!(classify_message(Some(3), true, false, None), Incoming::Reply { id: 3, outcome: ReplyOutcome::Failed });
    assert_eq!(classify_message(Some(4), false, true, None), Incoming::Reply { id: 4, outcome: ReplyOutcome::Succeeded });
    assert_eq!(classify_message(Some(5), false, false, None), Incoming::Reply { id: 5, outcome: ReplyOutcome::Empty });
    assert_eq!(classify_message(None, false, false, Some("textDocument/publishDiagnostics")), Incoming::Diagnostics);
    assert_eq!(classify_message(None, false, false, Some("window/logMessage")), Incoming::Ignored);
}
