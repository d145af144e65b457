use antigravity_sdk_rust::policy;
use antigravity_sdk_rust::policy::{
    allow_all, ask_user, confirm_run_command, deny, deny_all, enforce, workspace_only, CallbackOutcome,
    Condition, Decision, EvaluationStep, Policy, PolicyEnforcer, PolicyError,
};
use antigravity_sdk_rust::types::{HookResult, ToolCall};
use std::sync::atomic::{AtomicUsize, Ordering};
use std::sync::Arc;

// A callback of these tests reports its outcome itself: an answer, or that it
// broke down (where a callback in an application would panic).
type Check = Arc<dyn Fn(&ToolCall) -> CallbackOutcome + Send + Sync>;

fn check(f: impl Fn(&ToolCall) -> bool + Send + Sync + 'static) -> Check {
    Arc::new(move |c| CallbackOutcome::Returned(f(c)))
}

fn panicking() -> Check {
    Arc::new(|_| CallbackOutcome::Panicked)
}

fn run(cb: &Check, call: &ToolCall) -> CallbackOutcome {
    cb(call)
}

fn pre_tool_call(e: &PolicyEnforcer<Check>, call: &ToolCall) -> Result<HookResult, PolicyError> {
    let mut step = e.begin(call);
    loop {
        match step {
            EvaluationStep::CheckCondition(i) => {
                let out = match &e.policy_at(i).when {
                    Some(Condition::Custom(f)) => run(f, call),
                    _ => panic!("only user conditions are handed out"),
                };
                step = e.after_condition(call, i, out);
            }
            EvaluationStep::AskUser(i) => {
                let h = e.policy_at(i).ask_user.as_ref().expect("handler");
                return Ok(e.after_handler(call, i, run(h, call)));
            }
            EvaluationStep::Finished(r) => return r,
        }
    }
}

fn make_tool_call(name: &str, args: serde_json::Value) -> ToolCall {
    let mut canonical_path = None;
    if let serde_json::Value::Object(ref map) = args {
        for path_key in &["path", "file_path", "TargetFile", "directory_path"] {
            if let Some(serde_json::Value::String(val)) = map.get(*path_key) {
                canonical_path = Some(val.clone());
                break;
            }
        }
    }
    ToolCall { id: "call_123".to_string(), name: name.to_string(), args, canonical_path }
}

fn empty_args() -> serde_json::Value {
    serde_json::Value::Object(serde_json::Map::new())
}

fn path_args(path: &str) -> serde_json::Value {
    let mut m = serde_json::Map::new();
    m.insert("path".to_string(), serde_json::Value::String(path.to_string()));
    serde_json::Value::Object(m)
}

#[test]
fn test_allow_creates_approve_policy() {
    let p: Policy<Check> = policy::allow("read_file").with_name("allow-read");
    assert_eq!(p.tool, "read_file");
    assert_eq!(p.decision, Decision::Approve);
    assert!(p.when.is_none());
    assert!(p.ask_user.is_none());
    assert_eq!(p.name, "allow-read");
}

#[test]
fn test_deny_creates_deny_policy() {
    let p: Policy<Check> = deny("run_command").with_name("block-cmd");
    assert_eq!(p.tool, "run_command");
    assert_eq!(p.decision, Decision::Deny);
    assert_eq!(p.name, "block-cmd");
}

#[test]
fn test_ask_user_creates_ask_user_policy() {
    let p = ask_user("run_command", check(|_| true)).with_name("confirm-cmd");
    assert_eq!(p.decision, Decision::AskUser);
    assert!(p.ask_user.is_some());
    assert_eq!(p.name, "confirm-cmd");
}

#[test]
fn test_deny_with_predicate() {
    let p = deny("run_command").when(check(|args| {
        args.args.get("CommandLine").and_then(|v| v.as_str()).map_or(false, |s| s.contains("rm"))
    }));
    assert!(p.when.is_some());
}

#[test]
fn test_allow_all_creates_wildcard_approve() {
    let p: Policy<Check> = allow_all();
    assert_eq!(p.tool, "*");
    assert_eq!(p.decision, Decision::Approve);
    assert_eq!(p.name, "allow_all");
}

#[test]
fn test_deny_all_creates_wildcard_deny() {
    let p: Policy<Check> = deny_all();
    assert_eq!(p.tool, "*");
    assert_eq!(p.decision, Decision::Deny);
    assert_eq!(p.name, "deny_all");
}

#[test]
fn test_enforce_rejects_ask_user_without_handler() {
    let bad_policy: Policy<Check> = Policy::new("run_command".to_string(), Decision::AskUser, None, None, "oops".to_string());
    let res = enforce(vec![bad_policy]);
    assert!(res.is_err());
    let err_msg = res.err().unwrap().message();
    assert!(err_msg.contains("oops"));
    assert!(err_msg.contains("missing an ask_user handler"));
}

#[test]
fn test_specific_deny_overrides_wildcard_allow() {
    let enforcer = enforce(vec![allow_all(), deny("dangerous_tool")]).unwrap();
    let res = pre_tool_call(&enforcer, &make_tool_call("dangerous_tool", empty_args())).unwrap();
    assert!(!res.allow);
}

#[test]
fn test_specific_deny_overrides_specific_allow() {
    let enforcer: PolicyEnforcer<Check> = enforce(vec![policy::allow("run_command"), deny("run_command")]).unwrap();
    let res = pre_tool_call(&enforcer, &make_tool_call("run_command", empty_args())).unwrap();
    assert!(!res.allow);
}

#[test]
fn test_specific_ask_overrides_wildcard_deny() {
    let enforcer = enforce(vec![deny_all(), ask_user("run_command", check(|_| true))]).unwrap();
    let res = pre_tool_call(&enforcer, &make_tool_call("run_command", empty_args())).unwrap();
    assert!(res.allow);
}

#[test]
fn test_specific_allow_overrides_wildcard_deny() {
    let enforcer: PolicyEnforcer<Check> = enforce(vec![deny_all(), policy::allow("read_file")]).unwrap();

    let res = pre_tool_call(&enforcer, &make_tool_call("read_file", empty_args())).unwrap();
    assert!(res.allow);

    let res = pre_tool_call(&enforcer, &make_tool_call("run_command", empty_args())).unwrap();
    assert!(!res.allow);
}

#[test]
fn test_wildcard_deny_blocks_unmatched_tools() {
    let enforcer: PolicyEnforcer<Check> = enforce(vec![deny_all()]).unwrap();
    let res = pre_tool_call(&enforcer, &make_tool_call("anything", empty_args())).unwrap();
    assert!(!res.allow);
}

#[test]
fn test_wildcard_ask_user() {
    let enforcer = enforce(vec![ask_user("*", check(|_| false))]).unwrap();
    let res = pre_tool_call(&enforcer, &make_tool_call("any_tool", empty_args())).unwrap();
    assert!(!res.allow);
}

#[test]
fn test_wildcard_allow() {
    let enforcer: PolicyEnforcer<Check> = enforce(vec![allow_all()]).unwrap();
    let res = pre_tool_call(&enforcer, &make_tool_call("any_tool", empty_args())).unwrap();
    assert!(res.allow);
}

#[test]
fn test_first_match_wins_within_deny_group() {
    let count = Arc::new(AtomicUsize::new(0));
    let c1 = count.clone();
    let c2 = count.clone();
    let enforcer = enforce(vec![
        deny("run_command")
            .when(check(move |_| {
                c1.fetch_add(1, Ordering::SeqCst);
                true
            }))
            .with_name("first"),
        deny("run_command")
            .when(check(move |_| {
                c2.fetch_add(1, Ordering::SeqCst);
                true
            }))
            .with_name("second"),
    ])
    .unwrap();

    let res = pre_tool_call(&enforcer, &make_tool_call("run_command", empty_args())).unwrap();
    assert!(!res.allow);
    assert_eq!(count.load(Ordering::SeqCst), 1);
}

#[test]
fn test_first_match_wins_within_allow_group() {
    let count = Arc::new(AtomicUsize::new(0));
    let c1 = count.clone();
    let c2 = count.clone();
    let enforcer = enforce(vec![
        policy::allow("read_file").when(check(move |_| {
            c1.fetch_add(1, Ordering::SeqCst);
            true
        })),
        policy::allow("read_file").when(check(move |_| {
            c2.fetch_add(1, Ordering::SeqCst);
            true
        })),
    ])
    .unwrap();

    let res = pre_tool_call(&enforcer, &make_tool_call("read_file", empty_args())).unwrap();
    assert!(res.allow);
    assert_eq!(count.load(Ordering::SeqCst), 1);
}

#[test]
fn test_skips_non_matching_predicate() {
    let enforcer = enforce(vec![
        deny("run_command").when(check(|_| false)).with_name("skip-me"),
        deny("run_command").when(check(|_| true)).with_name("catch-me"),
    ])
    .unwrap();

    let res = pre_tool_call(&enforcer, &make_tool_call("run_command", empty_args())).unwrap();
    assert!(!res.allow);
    assert!(res.message.contains("catch-me"));
}

#[test]
fn test_predicate_exception_matches_fail_closed() {
    let enforcer = enforce(vec![deny("run_command")
        .when(panicking())
        .with_name("broken")])
    .unwrap();

    let res = pre_tool_call(&enforcer, &make_tool_call("run_command", empty_args())).unwrap();
    assert!(!res.allow);
    assert!(res.message.contains("broken"));
    assert!(res.message.contains("panicked"));
}

#[test]
fn test_handler_exception_denies() {
    let enforcer = enforce(vec![ask_user(
        "run_command",
        panicking(),
    )
    .with_name("broken-ask")])
    .unwrap();

    let res = pre_tool_call(&enforcer, &make_tool_call("run_command", empty_args())).unwrap();
    assert!(!res.allow);
    assert!(res.message.contains("broken-ask"));
    assert!(res.message.contains("handler panicked"));
}

#[test]
fn test_no_matching_policy_allows() {
    let enforcer: PolicyEnforcer<Check> = enforce(vec![deny("other_tool")]).unwrap();
    let res = pre_tool_call(&enforcer, &make_tool_call("unrelated_tool", empty_args())).unwrap();
    assert!(res.allow);
}

#[test]
fn test_empty_policies_allows_all() {
    let enforcer: PolicyEnforcer<Check> = enforce(vec![]).unwrap();
    let res = pre_tool_call(&enforcer, &make_tool_call("any_tool", empty_args())).unwrap();
    assert!(res.allow);
}

#[test]
fn test_workspace_only() {
    let policies: Vec<Policy<Check>> = workspace_only(vec!["/allowed/workspace".to_string()]);
    let enforcer = enforce(policies).unwrap();

    let tc1 = make_tool_call("VIEW_FILE", path_args("/allowed/workspace/subdir/file.rs"));
    let res1 = pre_tool_call(&enforcer, &tc1).unwrap();
    assert!(res1.allow);

    let tc2 = make_tool_call("VIEW_FILE", path_args("/forbidden/path/file.rs"));
    let res2 = pre_tool_call(&enforcer, &tc2).unwrap();
    assert!(!res2.allow);
}

#[test]
fn workspace_only_scopes_find_file() {
    let enforcer: PolicyEnforcer<Check> = enforce(workspace_only(vec!["/ws".to_string()])).unwrap();
    let res = pre_tool_call(&enforcer, &make_tool_call("FIND_FILE", path_args("/etc"))).unwrap();
    assert!(!res.allow);
    assert_eq!(res.message, "Denied by policy 'workspace_only'.");
    let res = pre_tool_call(&enforcer, &make_tool_call("FIND_FILE", path_args("/ws/src"))).unwrap();
    assert!(res.allow);
}

// Further scenarios.

#[test]
fn deny_message_names_policy_or_tool() {
    let enforcer: PolicyEnforcer<Check> = enforce(vec![deny("run_command")]).unwrap();
    let res = pre_tool_call(&enforcer, &make_tool_call("run_command", empty_args())).unwrap();
    assert_eq!(res.message, "Denied by policy 'run_command'.");

    let enforcer: PolicyEnforcer<Check> = enforce(vec![deny("run_command").with_name("no-shell")]).unwrap();
    let res = pre_tool_call(&enforcer, &make_tool_call("run_command", empty_args())).unwrap();
    assert_eq!(res.message, "Denied by policy 'no-shell'.");
}

#[test]
fn approval_has_empty_message() {
    let enforcer: PolicyEnforcer<Check> = enforce(vec![policy::allow("read_file")]).unwrap();
    let res = pre_tool_call(&enforcer, &make_tool_call("read_file", empty_args())).unwrap();
    assert!(res.allow);
    assert_eq!(res.message, "");
}

#[test]
fn user_refusal_message() {
    let enforcer = enforce(vec![ask_user("run_command", check(|_| false)).with_name("confirm")]).unwrap();
    let res = pre_tool_call(&enforcer, &make_tool_call("run_command", empty_args())).unwrap();
    assert!(!res.allow);
    assert_eq!(res.message, "User denied tool 'run_command' (policy 'confirm').");
}

#[test]
fn panic_messages_are_exact() {
    let enforcer = enforce(vec![deny("x").when(panicking()).with_name("p")]).unwrap();
    let res = pre_tool_call(&enforcer, &make_tool_call("x", empty_args())).unwrap();
    assert_eq!(res.message, "Policy evaluation failed for policy 'p': predicate panicked.");

    let enforcer = enforce(vec![ask_user("x", panicking())]).unwrap();
    let res = pre_tool_call(&enforcer, &make_tool_call("x", empty_args())).unwrap();
    assert_eq!(res.message, "Policy evaluation failed for policy 'x': handler panicked.");
}

#[test]
fn enforce_error_message_is_exact() {
    let p: Policy<Check> = Policy::new("run_command".to_string(), Decision::AskUser, None, None, String::new());
    let err = enforce(vec![allow_all(), p]).err().unwrap();
    assert_eq!(
        err.message(),
        "ASK_USER policy 'run_command' is missing an ask_user handler. Provide one via policy.ask_user(tool, handler)."
    );
    match err {
        PolicyError::AskUserWithoutHandler { label } => assert_eq!(label, "run_command"),
        PolicyError::MissingHandler { .. } => panic!("wrong error"),
    }
}

#[test]
fn unchecked_enforcer_reports_missing_handler() {
    let p: Policy<Check> = Policy::new("run_command".to_string(), Decision::AskUser, None, None, "ask".to_string());
    let enforcer = PolicyEnforcer::new(vec![p]);
    let err = pre_tool_call(&enforcer, &make_tool_call("run_command", empty_args())).err().unwrap();
    assert_eq!(err.message(), "ASK_USER policy 'ask' is missing an ask_user handler.");
}

#[test]
fn enforcer_orders_by_precedence() {
    let enforcer: PolicyEnforcer<Check> = PolicyEnforcer::new(vec![
        allow_all(),
        deny_all(),
        policy::allow("a"),
        ask_user("b", check(|_| true)),
        deny("c"),
        ask_user("*", check(|_| true)),
    ]);
    let tools: Vec<String> = (0..enforcer.len()).map(|i| enforcer.policy_at(i).tool.clone()).collect();
    let decisions: Vec<Decision> = (0..enforcer.len()).map(|i| enforcer.policy_at(i).decision).collect();
    assert_eq!(tools, vec!["c", "b", "a", "*", "*", "*"]);
    assert_eq!(
        decisions,
        vec![Decision::Deny, Decision::AskUser, Decision::Approve, Decision::Deny, Decision::AskUser, Decision::Approve]
    );
}

#[test]
fn workspace_scope_edge_cases() {
    let enforcer: PolicyEnforcer<Check> = enforce(workspace_only(vec!["/ws".to_string(), "relative".to_string()])).unwrap();
    // No path: the condition does not hold.
    let res = pre_tool_call(&enforcer, &make_tool_call("VIEW_FILE", empty_args())).unwrap();
    assert!(res.allow);
    // A relative path is outside.
    let res = pre_tool_call(&enforcer, &make_tool_call("EDIT_FILE", path_args("ws/file"))).unwrap();
    assert!(!res.allow);
    assert_eq!(res.message, "Denied by policy 'workspace_only'.");
    // A sibling whose name extends the workspace's is outside.
    let res = pre_tool_call(&enforcer, &make_tool_call("LIST_DIR", path_args("/wsx/file"))).unwrap();
    assert!(!res.allow);
    // The workspace itself, with redundant separators, is inside.
    let res = pre_tool_call(&enforcer, &make_tool_call("LIST_DIR", path_args("//ws/./")).clone()).unwrap();
    assert!(res.allow);
    // A tool that is not a file tool is not scoped.
    let res = pre_tool_call(&enforcer, &make_tool_call("RUN_COMMAND", path_args("/elsewhere"))).unwrap();
    assert!(res.allow);
}

#[test]
fn confirm_run_command_without_handler_denies_commands() {
    let enforcer: PolicyEnforcer<Check> = enforce(confirm_run_command(None)).unwrap();
    let res = pre_tool_call(&enforcer, &make_tool_call("RUN_COMMAND", empty_args())).unwrap();
    assert!(!res.allow);
    assert_eq!(res.message, "Denied by policy 'confirm_run_command'.");
    let res = pre_tool_call(&enforcer, &make_tool_call("VIEW_FILE", empty_args())).unwrap();
    assert!(res.allow);
}

#[test]
fn confirm_run_command_with_handler_asks() {
    let enforcer = enforce(confirm_run_command(Some(check(|_| false)))).unwrap();
    let res = pre_tool_call(&enforcer, &make_tool_call("RUN_COMMAND", empty_args())).unwrap();
    assert!(!res.allow);
    assert_eq!(res.message, "User denied tool 'RUN_COMMAND' (policy 'confirm_run_command').");
}

#[test]
fn steps_hand_out_positions() {
    let enforcer = enforce(vec![deny("t").when(check(|_| false)), policy::allow("t")]).unwrap();
    let call = make_tool_call("t", empty_args());
    match enforcer.begin(&call) {
        EvaluationStep::CheckCondition(0) => {}
        other => panic!("unexpected {:?}", other),
    }
    match enforcer.after_condition(&call, 0, CallbackOutcome::Returned(false)) {
        EvaluationStep::Finished(Ok(r)) => assert!(r.allow),
        other => panic!("unexpected {:?}", other),
    }
    match enforcer.after_condition(&call, 0, CallbackOutcome::Panicked) {
        EvaluationStep::Finished(Ok(r)) => assert!(!r.allow),
        other => panic!("unexpected {:?}", other),
    }
}

#[test]
fn order_within_group_is_given_order() {
    let enforcer: PolicyEnforcer<Check> = PolicyEnforcer::new(vec![
        policy::allow("x").with_name("one"),
        deny("y").with_name("block"),
        policy::allow("x").with_name("two"),
        policy::allow("z").with_name("three"),
    ]);
    let names: Vec<String> = (0..enforcer.len()).map(|i| enforcer.policy_at(i).name.clone()).collect();
    assert_eq!(names, vec!["block", "one", "two", "three"]);
}

#[test]
fn reordering_within_groups_keeps_the_order() {
    // The same policies, interleaved differently across groups but in the same
    // order within each group.
    let a: Vec<Policy<Check>> = vec![
        policy::allow("x").with_name("one"),
        deny("y").with_name("block"),
        deny_all(),
        policy::allow("x").with_name("two"),
    ];
    let b: Vec<Policy<Check>> = vec![
        deny_all(),
        policy::allow("x").with_name("one"),
        policy::allow("x").with_name("two"),
        deny("y").with_name("block"),
    ];
    let ea = PolicyEnforcer::new(a);
    let eb = PolicyEnforcer::new(b);
    let names = |e: &PolicyEnforcer<Check>| -> Vec<String> {
        (0..e.len()).map(|i| e.policy_at(i).name.clone()).collect()
    };
    assert_eq!(names(&ea), names(&eb));
    for tool in ["x", "y", "z"] {
        let call = make_tool_call(tool, empty_args());
        let ra = pre_tool_call(&ea, &call).unwrap();
        let rb = pre_tool_call(&eb, &call).unwrap();
        assert_eq!(ra.allow, rb.allow);
        assert_eq!(ra.message, rb.message);
    }
}

#[test]
fn conditions_are_handed_out_in_order_and_stop_at_the_decision() {
    let asked = Arc::new(AtomicUsize::new(0));
    let counter = asked.clone();
    let enforcer = enforce(vec![
        deny("t").when(check(|_| false)).with_name("first"),
        deny("t").when(check(|_| true)).with_name("second"),
        deny("t").when(check(move |_| {
            counter.fetch_add(1, Ordering::SeqCst);
            true
        })),
    ])
    .unwrap();
    let call = make_tool_call("t", empty_args());
    let mut positions = Vec::new();
    let mut step = enforcer.begin(&call);
    let result = loop {
        match step {
            EvaluationStep::CheckCondition(i) => {
                positions.push(i);
                let out = match &enforcer.policy_at(i).when {
                    Some(Condition::Custom(f)) => run(f, &call),
                    _ => panic!("only user conditions are handed out"),
                };
                step = enforcer.after_condition(&call, i, out);
            }
            EvaluationStep::AskUser(_) => panic!("no handler here"),
            EvaluationStep::Finished(r) => break r,
        }
    };
    assert_eq!(positions, vec![0, 1]);
    assert_eq!(asked.load(Ordering::SeqCst), 0);
    assert_eq!(result.unwrap().message, "Denied by policy 'second'.");
}


#[test]
fn workspace_only_scopes_protocol_names() {
    let enforcer: PolicyEnforcer<Check> = enforce(workspace_only(vec!["/ws".to_string()])).unwrap();
    for tool in ["WRITE_TO_FILE", "GREP_SEARCH", "EDIT_FILE", "VIEW_FILE", "LIST_DIR", "FIND_FILE"] {
        let res = pre_tool_call(&enforcer, &make_tool_call(tool, path_args("/etc/x"))).unwrap();
        assert!(!res.allow, "{} should be scoped", tool);
    }
    let res = pre_tool_call(&enforcer, &make_tool_call("RUN_COMMAND", path_args("/etc/x"))).unwrap();
    assert!(res.allow);
}
