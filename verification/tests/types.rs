use antigravity_sdk_rust::triggers::TriggerRunner;
use antigravity_sdk_rust::types::{
    default_image_generation_entry, default_model_entry, BuiltinTools, GeminiConfig, ModelConfig, ModelEntry, Step,
    StepStatus, StepType, ToolCall, DEFAULT_IMAGE_GENERATION_MODEL, DEFAULT_MODEL,
};

#[test]
fn builtin_tool_names() {
    let names: Vec<&str> = [
        BuiltinTools::CreateFile,
        BuiltinTools::EditFile,
        BuiltinTools::FindFile,
        BuiltinTools::ListDir,
        BuiltinTools::RunCommand,
        BuiltinTools::SearchDir,
        BuiltinTools::ViewFile,
        BuiltinTools::StartSubagent,
        BuiltinTools::GenerateImage,
        BuiltinTools::Finish,
    ]
    .iter()
    .map(|t| t.as_str())
    .collect();
    assert_eq!(
        names,
        vec![
            "WRITE_TO_FILE", "EDIT_FILE", "FIND_FILE", "LIST_DIR", "RUN_COMMAND", "GREP_SEARCH", "VIEW_FILE",
            "START_SUBAGENT", "GENERATE_IMAGE", "FINISH"
        ]
    );
}

#[test]
fn read_only_tools() {
    assert_eq!(
        BuiltinTools::read_only(),
        vec![
            BuiltinTools::FindFile,
            BuiltinTools::ListDir,
            BuiltinTools::ViewFile,
            BuiltinTools::SearchDir,
            BuiltinTools::Finish,
        ]
    );
}

#[test]
fn model_defaults() {
    assert_eq!(DEFAULT_MODEL, "gemini-3.5-flash");
    assert_eq!(DEFAULT_IMAGE_GENERATION_MODEL, "gemini-3.1-flash-image-preview");
    assert_eq!(ModelEntry::default().name, "gemini-3.5-flash");
    assert_eq!(default_model_entry().name, "gemini-3.5-flash");
    assert_eq!(default_image_generation_entry().name, "gemini-3.1-flash-image-preview");
    let m = ModelConfig::default();
    assert_eq!(m.default.name, DEFAULT_MODEL);
    assert_eq!(m.image_generation.name, DEFAULT_IMAGE_GENERATION_MODEL);
    let g = GeminiConfig::default();
    assert!(g.api_key.is_none());
    assert!(g.models.default.api_key.is_none());
    assert!(g.models.default.generation.thinking_level.is_none());
}

#[test]
fn step_default_and_clone() {
    let s = Step::default();
    assert_eq!(s.step_type, StepType::Unknown);
    assert_eq!(s.status, StepStatus::Unknown);
    assert!(s.tool_calls.is_empty());
    let t = Step {
        content: "c".to_string(),
        tool_calls: vec![ToolCall { id: "1".to_string(), name: "n".to_string(), args: serde_json::Value::Bool(true), canonical_path: None }],
        ..Default::default()
    };
    let u = t.clone();
    assert_eq!(u.content, "c");
    assert_eq!(u.tool_calls[0].args, serde_json::Value::Bool(true));
}

#[test]
fn trigger_runner_keeps_triggers() {
    let r = TriggerRunner::new(vec!["a", "b"]);
    assert_eq!(r.triggers, vec!["a", "b"]);
}

#[test]
fn builtin_tool_names_are_distinct_upper_case() {
    let all = [
        BuiltinTools::CreateFile,
        BuiltinTools::EditFile,
        BuiltinTools::FindFile,
        BuiltinTools::ListDir,
        BuiltinTools::RunCommand,
        BuiltinTools::SearchDir,
        BuiltinTools::ViewFile,
        BuiltinTools::StartSubagent,
        BuiltinTools::GenerateImage,
        BuiltinTools::Finish,
    ];
    for (i, a) in all.iter().enumerate() {
        assert!(!a.as_str().is_empty());
        assert!(a.as_str().chars().all(|c| c.is_ascii_uppercase() || c == '_'));
        for b in &all[i + 1..] {
            assert_ne!(a.as_str(), b.as_str());
        }
    }
}

