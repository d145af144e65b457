use antigravity_sdk_rust::tools::{tool_result, tool_results, ToolOutcome, ToolRegistry};
use antigravity_sdk_rust::types::ToolCall;

fn call(name: &str) -> ToolCall {
    ToolCall { id: "id-1".to_string(), name: name.to_string(), args: serde_json::Value::Null, canonical_path: None }
}

#[test]
fn registered_tool_is_found() {
    let mut r: ToolRegistry<u32> = ToolRegistry::new();
    assert_eq!(r.len(), 0);
    r.register("a".to_string(), 1);
    r.register("b".to_string(), 2);
    assert_eq!(r.get(&"a".to_string()), Some(&1));
    assert_eq!(r.get(&"b".to_string()), Some(&2));
    assert_eq!(r.get(&"c".to_string()), None);
    assert_eq!(r.len(), 2);
}

#[test]
fn registering_again_replaces() {
    let mut r: ToolRegistry<&str> = ToolRegistry::new();
    r.register("a".to_string(), "old");
    r.register("a".to_string(), "new");
    assert_eq!(r.get(&"a".to_string()), Some(&"new"));
    assert_eq!(r.len(), 1);
}

#[test]
fn result_of_each_outcome() {
    let ok = tool_result(call("t"), ToolOutcome::Returned(serde_json::Value::Bool(true)));
    assert_eq!(ok.id.as_deref(), Some("id-1"));
    assert_eq!(ok.name, "t");
    assert_eq!(ok.result, Some(serde_json::Value::Bool(true)));
    assert!(ok.error.is_none());
    let failed = tool_result(call("t"), ToolOutcome::Failed("bad".to_string()));
    assert!(failed.result.is_none());
    assert_eq!(failed.error.as_deref(), Some("bad"));
    let missing = tool_result(call("nope"), ToolOutcome::NotFound);
    assert_eq!(missing.error.as_deref(), Some("Tool nope not found"));
}

#[test]
fn one_result_per_call_in_order() {
    let calls = vec![
        ToolCall { id: "a".to_string(), name: "t".to_string(), args: serde_json::Value::Null, canonical_path: None },
        ToolCall { id: "b".to_string(), name: "missing".to_string(), args: serde_json::Value::Null, canonical_path: None },
        ToolCall { id: "a".to_string(), name: "t".to_string(), args: serde_json::Value::Null, canonical_path: None },
    ];
    let outcomes = vec![
        ToolOutcome::Returned(serde_json::Value::from(1)),
        ToolOutcome::NotFound,
        ToolOutcome::Failed("boom".to_string()),
    ];
    let results = tool_results(calls, outcomes);
    assert_eq!(results.len(), 3);
    let ids: Vec<Option<String>> = results.iter().map(|r| r.id.clone()).collect();
    assert_eq!(ids, vec![Some("a".to_string()), Some("b".to_string()), Some("a".to_string())]);
    assert_eq!(results[0].result, Some(serde_json::Value::from(1)));
    assert_eq!(results[1].error.as_deref(), Some("Tool missing not found"));
    assert_eq!(results[1].name, "missing");
    assert!(results[2].result.is_none());
    assert_eq!(results[2].error.as_deref(), Some("boom"));
    for r in &results {
        assert!(r.result.is_some() != r.error.is_some());
    }
}

