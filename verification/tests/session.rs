use antigravity_sdk_rust::policy::{self, Condition, Decision, EvaluationStep, Policy, PolicyEnforcer};
use antigravity_sdk_rust::session::{
    active_tools, all_builtin_tools, default_app_data_dir, has_write_tools, plan_session, resolve_binary_path,
    session_capabilities, session_policies, AgentError,
};
use antigravity_sdk_rust::types::{BuiltinTools, CapabilitiesConfig};

type Check = fn(&antigravity_sdk_rust::types::ToolCall) -> bool;

#[test]
fn test_agent_start_mutually_exclusive_capabilities() {
    let capabilities = CapabilitiesConfig {
        enabled_tools: Some(vec![BuiltinTools::ViewFile]),
        disabled_tools: Some(vec![BuiltinTools::RunCommand]),
        compaction_threshold: None,
        image_model: None,
        finish_tool_schema_json: None,
    };
    let binary = resolve_binary_path(Some("some_path".to_string()), None);
    assert_eq!(binary, Ok("some_path".to_string()));
    let result = plan_session::<Check>(&capabilities, None, vec![], "/tmp/data".to_string(), &None);
    assert!(result.is_err());
    let err_msg = result.err().unwrap().message();
    assert!(err_msg.contains("mutually exclusive"));
}

// Further scenarios.

#[test]
fn binary_resolution() {
    assert_eq!(resolve_binary_path(None, Some("/bin/lh".to_string())), Ok("/bin/lh".to_string()));
    assert_eq!(resolve_binary_path(None, None), Err(AgentError::BinaryNotFound));
    assert_eq!(
        AgentError::BinaryNotFound.message(),
        "Could not find default localharness binary. Please specify binary_path explicitly."
    );
}

#[test]
fn active_tool_selection() {
    let all = all_builtin_tools();
    assert_eq!(all.len(), 10);
    assert_eq!(active_tools(&CapabilitiesConfig::default()), Ok(all.clone()));
    let caps = CapabilitiesConfig { disabled_tools: Some(vec![BuiltinTools::RunCommand, BuiltinTools::Finish]), ..Default::default() };
    let active = active_tools(&caps).unwrap();
    assert_eq!(active.len(), 8);
    assert!(!active.contains(&BuiltinTools::RunCommand));
    assert_eq!(active[0], BuiltinTools::CreateFile);
    let caps = CapabilitiesConfig { enabled_tools: Some(vec![BuiltinTools::ViewFile]), ..Default::default() };
    assert_eq!(active_tools(&caps), Ok(vec![BuiltinTools::ViewFile]));
}

#[test]
fn write_tool_detection() {
    assert!(!has_write_tools(&vec![BuiltinTools::ViewFile, BuiltinTools::ListDir]));
    assert!(has_write_tools(&vec![BuiltinTools::ViewFile, BuiltinTools::EditFile]));
    // Finishing the trajectory writes nothing.
    assert!(!has_write_tools(&vec![BuiltinTools::FindFile, BuiltinTools::Finish]));
    assert!(has_write_tools(&vec![BuiltinTools::Finish, BuiltinTools::RunCommand]));
    assert!(!has_write_tools(&vec![]));
}

#[test]
fn app_data_dir_default() {
    assert_eq!(default_app_data_dir("/home/me"), "/home/me/.gemini/antigravity");
}

#[test]
fn default_policies_deny_commands() {
    let ps: Vec<Policy<Check>> = session_policies(None, vec![], String::new());
    assert_eq!(ps.len(), 2);
    assert_eq!(ps[0].tool, "RUN_COMMAND");
    assert_eq!(ps[0].decision, Decision::Deny);
    assert_eq!(ps[1].tool, "*");
    assert_eq!(ps[1].decision, Decision::Approve);
}

#[test]
fn workspace_policies_come_first() {
    let ps: Vec<Policy<Check>> =
        session_policies(Some(vec![policy::allow_all()]), vec!["/ws".to_string()], "/data".to_string());
    assert_eq!(ps.len(), 7);
    let tools: Vec<&str> = ps.iter().map(|p| p.tool.as_str()).collect();
    assert_eq!(tools, vec!["WRITE_TO_FILE", "EDIT_FILE", "VIEW_FILE", "LIST_DIR", "GREP_SEARCH", "FIND_FILE", "*"]);
    match &ps[0].when {
        Some(Condition::OutsideWorkspaces(ws)) => assert_eq!(ws, &vec!["/ws".to_string(), "/data".to_string()]),
        _ => panic!("workspace condition expected"),
    }
}

#[test]
fn write_tools_need_policies() {
    let err = plan_session::<Check>(&CapabilitiesConfig::default(), Some(vec![]), vec![], String::new(), &None);
    assert_eq!(err.err().map(|e| e.message()), Some(AgentError::UnguardedWriteTools.message()));
    // Read-only tools need none.
    let caps = CapabilitiesConfig { enabled_tools: Some(vec![BuiltinTools::ViewFile]), ..Default::default() };
    let plan = plan_session::<Check>(&caps, Some(vec![]), vec![], String::new(), &None).unwrap();
    assert!(plan.policies.is_empty());
    // The read-only agent of the documentation needs none either.
    let caps = CapabilitiesConfig {
        enabled_tools: Some(vec![
            BuiltinTools::ListDir,
            BuiltinTools::ViewFile,
            BuiltinTools::SearchDir,
            BuiltinTools::FindFile,
            BuiltinTools::Finish,
        ]),
        ..Default::default()
    };
    let plan = plan_session::<Check>(&caps, Some(vec![]), vec![], String::new(), &None).unwrap();
    assert!(plan.policies.is_empty());
}

#[test]
fn response_schema_sets_finish_tool_schema() {
    let caps = CapabilitiesConfig { compaction_threshold: Some(7), ..Default::default() };
    let out = session_capabilities(&caps, &Some("{\"type\":\"object\"}".to_string()));
    assert_eq!(out.finish_tool_schema_json.as_deref(), Some("{\"type\":\"object\"}"));
    assert_eq!(out.compaction_threshold, Some(7));
    let plan = plan_session::<Check>(&caps, None, vec!["/ws".to_string()], "/d".to_string(), &None).unwrap();
    assert_eq!(plan.policies.len(), 8);
    assert_eq!(plan.capabilities.finish_tool_schema_json, None);
}

#[test]
fn agent_error_messages() {
    assert_eq!(AgentError::TriggersAfterStart.message(), "Cannot register triggers after the agent has started.");
    assert_eq!(AgentError::NotStarted.message(), "Agent session not started. Use start() first.");
    assert_eq!(AgentError::ConflictingToolSelection.message(), "enabled_tools and disabled_tools are mutually exclusive");
    assert!(AgentError::UnguardedWriteTools.message().starts_with("Write tools are enabled without a safety policy."));
}

fn file_call(name: &str, path: &str) -> antigravity_sdk_rust::types::ToolCall {
    antigravity_sdk_rust::types::ToolCall {
        id: "c".to_string(),
        name: name.to_string(),
        args: serde_json::Value::Null,
        canonical_path: Some(path.to_string()),
    }
}

#[test]
fn workspace_scope_is_consulted_first() {
    let configured: Vec<Policy<Check>> = vec![policy::allow("VIEW_FILE"), policy::allow_all()];
    let plan = plan_session(
        &CapabilitiesConfig::default(),
        Some(configured),
        vec!["/ws".to_string()],
        "/data".to_string(),
        &None,
    )
    .unwrap();
    let enforcer = PolicyEnforcer::new(plan.policies);
    match enforcer.begin(&file_call("VIEW_FILE", "/etc/passwd")) {
        EvaluationStep::Finished(Ok(r)) => {
            assert!(!r.allow);
            assert_eq!(r.message, "Denied by policy 'workspace_only'.");
        }
        other => panic!("unexpected {:?}", other),
    }
    match enforcer.begin(&file_call("VIEW_FILE", "/data/cache/x")) {
        EvaluationStep::Finished(Ok(r)) => assert!(r.allow),
        other => panic!("unexpected {:?}", other),
    }
}
