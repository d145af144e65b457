use antigravity_sdk_rust::conversation::{history_limit, ChunkRouter, ConversationState, TurnText, DEFAULT_MAX_HISTORY_SIZE};
use antigravity_sdk_rust::types::{Step, StepSource, StepTarget, StepType, StreamChunk, ToolCall, UsageMetadata};

// Feeds steps through the conversation bookkeeping as the conversation's
// step stream does: each step is recorded, then routed into chunks.
fn record_all(state: &mut ConversationState, steps: Vec<Step>, max_history: usize) {
    for step in steps {
        assert!(state.fits(&step));
        state.record_step(step, max_history);
    }
}

fn route_all(router: &mut ChunkRouter, steps: Vec<Step>) -> Vec<StreamChunk> {
    let mut out = Vec::new();
    for step in steps {
        out.extend(router.route(step));
    }
    out
}

fn numbered_steps(n: u32) -> Vec<Step> {
    (0..n)
        .map(|i| Step { id: i.to_string(), step_index: i, content: format!("step-{}", i), ..Default::default() })
        .collect()
}

#[test]
fn test_conversation_initialization() {
    let state = ConversationState::new();
    assert_eq!(state.history().len(), 0);
    assert_eq!(state.turn_count(), 0);
    assert_eq!(history_limit(Some(10)), 10);
}

#[test]
fn test_send_records_turn_boundary() {
    let mut state = ConversationState::new();
    state.begin_turn();
    assert_eq!(state.turn_count(), 1);
    state.begin_turn();
    assert_eq!(state.turn_count(), 2);
}

#[test]
fn test_receive_steps_accumulates_history() {
    let step1 = Step {
        id: "1".to_string(),
        step_index: 1,
        step_type: StepType::TextResponse,
        source: StepSource::Model,
        target: StepTarget::User,
        content: "hello".to_string(),
        is_complete_response: Some(true),
        ..Default::default()
    };
    let mut state = ConversationState::new();
    record_all(&mut state, vec![step1], history_limit(Some(10)));

    let hist = state.history();
    assert_eq!(hist.len(), 1);
    assert_eq!(hist[0].content, "hello");
    assert_eq!(state.last_response(), "hello");
}

#[test]
fn test_compaction_indices_tracked() {
    let step1 = Step {
        id: "1".to_string(),
        step_index: 1,
        step_type: StepType::Compaction,
        source: StepSource::Model,
        target: StepTarget::User,
        ..Default::default()
    };
    let mut state = ConversationState::new();
    record_all(&mut state, vec![step1], history_limit(Some(10)));
    assert_eq!(state.compaction_indices, vec![0]);
}

#[test]
fn test_max_history_size_trimming() {
    let mut state = ConversationState::new();
    record_all(&mut state, numbered_steps(5), history_limit(Some(3)));

    let hist = state.history();
    assert_eq!(hist.len(), 3);
    assert_eq!(hist[0].content, "step-2");
    assert_eq!(hist[2].content, "step-4");
}

#[test]
fn test_max_history_size_zero_disables_trimming() {
    let mut state = ConversationState::new();
    record_all(&mut state, numbered_steps(5), history_limit(Some(0)));

    let hist = state.history();
    assert_eq!(hist.len(), 5);
}

#[test]
fn test_receive_chunks_routing() {
    let step = Step {
        id: "1".to_string(),
        step_index: 1,
        step_type: StepType::TextResponse,
        source: StepSource::Model,
        target: StepTarget::User,
        content_delta: "hello".to_string(),
        thinking_delta: "reasoning".to_string(),
        ..Default::default()
    };
    let mut router = ChunkRouter::new();
    let mut text = String::new();
    let mut thought = String::new();
    for chunk in route_all(&mut router, vec![step]) {
        match chunk {
            StreamChunk::Text { text: delta, .. } => text.push_str(&delta),
            StreamChunk::Thought { text: delta, .. } => thought.push_str(&delta),
            _ => {}
        }
    }

    assert_eq!(text, "hello");
    assert_eq!(thought, "reasoning");
}

#[test]
fn test_receive_chunks_environmental_filtering() {
    let step = Step {
        id: "1".to_string(),
        step_index: 1,
        step_type: StepType::TextResponse,
        source: StepSource::Model,
        target: StepTarget::Environment,
        content_delta: "env content".to_string(),
        ..Default::default()
    };
    let mut router = ChunkRouter::new();
    let mut text = String::new();
    for chunk in route_all(&mut router, vec![step]) {
        if let StreamChunk::Text { text: delta, .. } = chunk {
            text.push_str(&delta);
        }
    }

    assert_eq!(text, "");
}

fn tool_call(id: &str) -> ToolCall {
    ToolCall { id: id.to_string(), name: "tool_1".to_string(), args: serde_json::Value::Null, canonical_path: None }
}

#[test]
fn test_receive_chunks_tool_calls_deduplication() {
    let tc = tool_call("call_a");
    let step = Step {
        id: "1".to_string(),
        step_index: 1,
        step_type: StepType::ToolCall,
        source: StepSource::Model,
        target: StepTarget::User,
        tool_calls: vec![tc.clone(), tc.clone()],
        ..Default::default()
    };
    let mut router = ChunkRouter::new();
    let mut tool_calls = Vec::new();
    for chunk in route_all(&mut router, vec![step]) {
        if let StreamChunk::ToolCall(c) = chunk {
            tool_calls.push(c);
        }
    }

    assert_eq!(tool_calls.len(), 1);
    assert_eq!(tool_calls[0].id, "call_a");
}

#[test]
fn test_receive_chunks_empty_tool_id_no_dedup() {
    let tc = tool_call("");
    let step = Step {
        id: "1".to_string(),
        step_index: 1,
        step_type: StepType::ToolCall,
        source: StepSource::Model,
        target: StepTarget::User,
        tool_calls: vec![tc.clone(), tc.clone()],
        ..Default::default()
    };
    let mut router = ChunkRouter::new();
    let mut tool_calls = Vec::new();
    for chunk in route_all(&mut router, vec![step]) {
        if let StreamChunk::ToolCall(c) = chunk {
            tool_calls.push(c);
        }
    }

    assert_eq!(tool_calls.len(), 2);
}

// Further scenarios.

#[test]
fn default_history_limit() {
    assert_eq!(history_limit(None), DEFAULT_MAX_HISTORY_SIZE);
    assert_eq!(DEFAULT_MAX_HISTORY_SIZE, 10000);
}

#[test]
fn trimming_moves_and_forgets_marks() {
    let mut state = ConversationState::new();
    state.begin_turn(); // at 0
    let mut steps = numbered_steps(2);
    steps[1].step_type = StepType::Compaction; // at 1
    record_all(&mut state, steps, 3);
    state.begin_turn(); // at 2
    let mut more = numbered_steps(3);
    more[0].step_type = StepType::Compaction; // at 2
    record_all(&mut state, more, 3);
    // Five steps recorded, the first two dropped.
    assert_eq!(state.steps.len(), 3);
    assert_eq!(state.turn_start_indices, vec![0]);
    assert_eq!(state.compaction_indices, vec![0]);
    assert_eq!(state.steps[0].step_type, StepType::Compaction);
}

#[test]
fn usage_accumulates_per_conversation_and_turn() {
    let usage = |p: i32, t: i32| UsageMetadata {
        prompt_token_count: p,
        candidates_token_count: 1,
        total_token_count: t,
        cached_content_token_count: 0,
        thoughts_token_count: 2,
    };
    let mut state = ConversationState::new();
    state.begin_turn();
    record_all(&mut state, vec![Step { usage_metadata: Some(usage(3, 10)), ..Default::default() }], 0);
    record_all(&mut state, vec![Step::default()], 0);
    assert_eq!(state.turn_usage, Some(usage(3, 10)));
    state.begin_turn();
    assert_eq!(state.turn_usage, None);
    record_all(&mut state, vec![Step { usage_metadata: Some(usage(4, 5)), ..Default::default() }], 0);
    assert_eq!(state.turn_usage, Some(usage(4, 5)));
    assert_eq!(
        state.cumulative_usage,
        UsageMetadata {
            prompt_token_count: 7,
            candidates_token_count: 2,
            total_token_count: 15,
            cached_content_token_count: 0,
            thoughts_token_count: 4,
        }
    );
}

#[test]
fn overflowing_usage_is_detected() {
    let mut state = ConversationState::new();
    let big = UsageMetadata { prompt_token_count: i32::MAX, ..Default::default() };
    record_all(&mut state, vec![Step { usage_metadata: Some(big), ..Default::default() }], 0);
    let more = Step {
        usage_metadata: Some(UsageMetadata { prompt_token_count: 1, ..Default::default() }),
        ..Default::default()
    };
    assert!(!state.fits(&more));
}

#[test]
fn clear_forgets_everything() {
    let mut state = ConversationState::new();
    state.begin_turn();
    record_all(
        &mut state,
        vec![Step { usage_metadata: Some(UsageMetadata { total_token_count: 9, ..Default::default() }), ..Default::default() }],
        0,
    );
    state.clear();
    assert_eq!(state.steps.len(), 0);
    assert_eq!(state.turn_count(), 0);
    assert!(state.compaction_indices.is_empty());
    assert_eq!(state.cumulative_usage, UsageMetadata::default());
    assert_eq!(state.turn_usage, None);
}

#[test]
fn last_response_is_the_latest_complete_one() {
    let mut state = ConversationState::new();
    assert_eq!(state.last_response(), "");
    let done = |c: &str| Step { content: c.to_string(), is_complete_response: Some(true), ..Default::default() };
    let partial = Step { content: "partial".to_string(), is_complete_response: Some(false), ..Default::default() };
    record_all(&mut state, vec![done("first"), done("second"), partial], 0);
    assert_eq!(state.last_response(), "second");
}

#[test]
fn router_remembers_ids_across_steps() {
    let mut router = ChunkRouter::new();
    let step = |ids: &[&str]| Step {
        source: StepSource::Model,
        target: StepTarget::User,
        tool_calls: ids.iter().map(|i| tool_call(i)).collect(),
        ..Default::default()
    };
    let first = router.route(step(&["a", "b"]));
    let second = router.route(step(&["b", "c", "a", ""]));
    assert_eq!(first.len(), 2);
    let ids: Vec<String> = second
        .into_iter()
        .map(|c| match c {
            StreamChunk::ToolCall(t) => t.id,
            _ => panic!("only tool calls"),
        })
        .collect();
    assert_eq!(ids, vec!["c".to_string(), String::new()]);
}

#[test]
fn thought_comes_before_text_and_empty_deltas_are_skipped() {
    let mut router = ChunkRouter::new();
    let step = Step {
        step_index: 7,
        source: StepSource::Model,
        target: StepTarget::User,
        thinking_delta: "t".to_string(),
        ..Default::default()
    };
    let chunks = router.route(step);
    assert_eq!(chunks.len(), 1);
    match &chunks[0] {
        StreamChunk::Thought { step_index, text } => {
            assert_eq!(*step_index, 7);
            assert_eq!(text, "t");
        }
        _ => panic!("a thought"),
    }
}

#[test]
fn turn_text_gathers_chunks() {
    let mut turn = TurnText::new();
    turn.absorb(&StreamChunk::Text { step_index: 0, text: "Hello ".to_string() });
    turn.absorb(&StreamChunk::Thought { step_index: 0, text: "hm".to_string() });
    turn.absorb(&StreamChunk::ToolCall(tool_call("x")));
    turn.absorb(&StreamChunk::Text { step_index: 1, text: "world".to_string() });
    let response = turn.into_response(Vec::new(), UsageMetadata::default());
    assert_eq!(response.text, "Hello world");
    assert_eq!(response.thinking, "hm");
}

#[test]
fn trimming_keeps_compaction_marks_exact() {
    let step = |i: u32, compaction: bool| Step {
        id: i.to_string(),
        step_index: i,
        step_type: if compaction { StepType::Compaction } else { StepType::Unknown },
        ..Default::default()
    };
    let mut state = ConversationState::new();
    state.begin_turn();
    record_all(&mut state, vec![step(0, true), step(1, false), step(2, true)], 0);
    state.begin_turn();
    record_all(&mut state, vec![step(3, false), step(4, true)], 4);
    // Step 0 was trimmed: the marks are the compaction steps that stay.
    assert_eq!(state.history().len(), 4);
    assert_eq!(state.compaction_indices, vec![1, 3]);
    for (i, s) in state.history().iter().enumerate() {
        assert_eq!(s.step_type == StepType::Compaction, state.compaction_indices.contains(&i));
    }
    assert_eq!(state.turn_count(), 1);
}

#[test]
fn chunks_of_a_stream_pass_each_id_once() {
    let step = |i: u32, text: &str, ids: &[&str]| Step {
        step_index: i,
        source: StepSource::Model,
        target: StepTarget::User,
        content_delta: text.to_string(),
        tool_calls: ids.iter().map(|id| tool_call(id)).collect(),
        ..Default::default()
    };
    let mut router = ChunkRouter::new();
    let chunks = route_all(&mut router, vec![step(0, "a", &["x", "x"]), step(1, "", &["", "y", "x"]), step(2, "b", &["y", ""])]);
    let kinds: Vec<String> = chunks
        .iter()
        .map(|c| match c {
            StreamChunk::Text { text, .. } => format!("text:{}", text),
            StreamChunk::Thought { text, .. } => format!("thought:{}", text),
            StreamChunk::ToolCall(t) => format!("call:{}", t.id),
        })
        .collect();
    assert_eq!(kinds, vec!["text:a", "call:x", "call:", "call:y", "text:b", "call:"]);
}

