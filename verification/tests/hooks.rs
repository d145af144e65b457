use antigravity_sdk_rust::hooks::{unrecovered, GateDispatch, InteractionDispatch, RecoveryDispatch};
use antigravity_sdk_rust::types::{HookResult, QuestionHookResult};
use std::cell::RefCell;

// A hook of these tests: a name whose answers follow the names used below,
// recording each consultation as "<name>:<event>".
struct TrackerHook<'a> {
    name: &'static str,
    calls: &'a RefCell<Vec<String>>,
}

impl<'a> TrackerHook<'a> {
    fn record(&self, event: &str) {
        self.calls.borrow_mut().push(format!("{}:{}", self.name, event));
    }

    fn gate(&self, event: &str) -> HookResult {
        self.record(event);
        if self.name == "deny" {
            HookResult { allow: false, message: "denied".to_string() }
        } else {
            HookResult { allow: true, message: String::new() }
        }
    }

    fn on_tool_error(&self) -> (HookResult, Option<serde_json::Value>) {
        self.record("on_tool_error");
        if self.name == "recover" {
            let mut m = serde_json::Map::new();
            m.insert("recovered".to_string(), serde_json::Value::Bool(true));
            (HookResult { allow: true, message: "recovered".to_string() }, Some(serde_json::Value::Object(m)))
        } else {
            (HookResult { allow: false, message: "not recovered".to_string() }, None)
        }
    }

    fn on_interaction(&self) -> Option<QuestionHookResult> {
        self.record("on_interaction");
        if self.name == "answer" {
            Some(QuestionHookResult { responses: vec![], cancelled: false })
        } else {
            None
        }
    }
}

// Consults hooks in order as a hook runner does, stopping when decided.
fn dispatch_gate(hooks: &[TrackerHook], event: &str) -> HookResult {
    let mut d = GateDispatch::new();
    for h in hooks {
        if d.is_decided() {
            break;
        }
        d.offer(h.gate(event));
    }
    d.outcome()
}

fn dispatch_on_tool_error(hooks: &[TrackerHook], error_text: &str) -> (HookResult, Option<serde_json::Value>) {
    let mut d = RecoveryDispatch::new();
    for h in hooks {
        if d.is_decided() {
            break;
        }
        let (r, v) = h.on_tool_error();
        d.offer(r, v);
    }
    d.outcome(error_text.to_string())
}

fn dispatch_interaction(hooks: &[TrackerHook]) -> Option<QuestionHookResult> {
    let mut d = InteractionDispatch::new();
    for h in hooks {
        if d.is_decided() {
            break;
        }
        d.offer(h.on_interaction());
    }
    d.outcome()
}

#[test]
fn test_dispatch_pre_turn_allow() {
    let calls = RefCell::new(Vec::new());
    let hooks = [TrackerHook { name: "h1", calls: &calls }, TrackerHook { name: "h2", calls: &calls }];
    let res = dispatch_gate(&hooks, "pre_turn");
    assert!(res.allow);
    assert_eq!(*calls.borrow(), vec!["h1:pre_turn", "h2:pre_turn"]);
}

#[test]
fn test_dispatch_pre_turn_deny_short_circuits() {
    let calls = RefCell::new(Vec::new());
    let hooks = [
        TrackerHook { name: "h1", calls: &calls },
        TrackerHook { name: "deny", calls: &calls },
        TrackerHook { name: "h2", calls: &calls },
    ];
    let res = dispatch_gate(&hooks, "pre_turn");
    assert!(!res.allow);
    assert_eq!(res.message, "denied");
    assert_eq!(*calls.borrow(), vec!["h1:pre_turn", "deny:pre_turn"]);
}

#[test]
fn test_dispatch_pre_tool_call_deny_short_circuits() {
    let calls = RefCell::new(Vec::new());
    let hooks = [
        TrackerHook { name: "h1", calls: &calls },
        TrackerHook { name: "deny", calls: &calls },
        TrackerHook { name: "h2", calls: &calls },
    ];
    let res = dispatch_gate(&hooks, "pre_tool_call");
    assert!(!res.allow);
    assert_eq!(res.message, "denied");
    assert_eq!(*calls.borrow(), vec!["h1:pre_tool_call", "deny:pre_tool_call"]);
}

#[test]
fn test_dispatch_on_tool_error_recovery_short_circuits() {
    let calls = RefCell::new(Vec::new());
    let hooks = [
        TrackerHook { name: "h1", calls: &calls },
        TrackerHook { name: "recover", calls: &calls },
        TrackerHook { name: "h2", calls: &calls },
    ];
    let (res, val) = dispatch_on_tool_error(&hooks, "error occurred");
    assert!(res.allow);
    assert_eq!(res.message, "recovered");
    let mut expected = serde_json::Map::new();
    expected.insert("recovered".to_string(), serde_json::Value::Bool(true));
    assert_eq!(val.unwrap(), serde_json::Value::Object(expected));
    assert_eq!(*calls.borrow(), vec!["h1:on_tool_error", "recover:on_tool_error"]);
}

#[test]
fn test_dispatch_interaction_short_circuits() {
    let calls = RefCell::new(Vec::new());
    let hooks = [
        TrackerHook { name: "h1", calls: &calls },
        TrackerHook { name: "answer", calls: &calls },
        TrackerHook { name: "h2", calls: &calls },
    ];
    let res = dispatch_interaction(&hooks);
    assert!(res.is_some());
    assert_eq!(*calls.borrow(), vec!["h1:on_interaction", "answer:on_interaction"]);
}

// Further scenarios.

#[test]
fn gate_without_hooks_allows() {
    let res = dispatch_gate(&[], "pre_turn");
    assert!(res.allow);
    assert_eq!(res.message, "");
}

#[test]
fn unrecovered_error_keeps_its_text() {
    let calls = RefCell::new(Vec::new());
    let hooks = [TrackerHook { name: "h1", calls: &calls }];
    let (res, val) = dispatch_on_tool_error(&hooks, "disk full");
    assert!(!res.allow);
    assert_eq!(res.message, "disk full");
    assert!(val.is_none());
    let (res, val) = unrecovered("boom".to_string());
    assert!(!res.allow);
    assert_eq!(res.message, "boom");
    assert!(val.is_none());
}

#[test]
fn interaction_without_answer() {
    let calls = RefCell::new(Vec::new());
    let hooks = [TrackerHook { name: "h1", calls: &calls }];
    assert!(dispatch_interaction(&hooks).is_none());
}

#[test]
fn hook_result_constructors() {
    let a = HookResult::allowed();
    assert!(a.allow && a.message.is_empty());
    let d = HookResult::denied("no".to_string());
    assert!(!d.allow);
    assert_eq!(d.message, "no");
    let z = HookResult::default();
    assert!(!z.allow && z.message.is_empty());
}
