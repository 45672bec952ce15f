use foldquery::llm::{take_stream_event, EventOutcome};
use foldquery::llm::{
    apply_stream_delta, apply_tool_call_chunk, extract_message, is_done_marker, request_failure_message,
    AccumulatedToolCall, ChatResult, MessageChunk, StreamDelta, ToolCallChunk,
};
use foldquery::provider::{chat_url, normalize_api_base};

fn chunk(index: Option<u64>, id: Option<&str>, name: Option<&str>, arguments: Option<&str>) -> ToolCallChunk {
    ToolCallChunk {
        index,
        id: id.map(|s| s.to_string()),
        name: name.map(|s| s.to_string()),
        arguments: arguments.map(|s| s.to_string()),
    }
}

#[test]
fn api_base_accepts_both_forms() {
    assert_eq!(normalize_api_base("https://api.example.com/v1"), "https://api.example.com/v1");
    assert_eq!(normalize_api_base("https://api.example.com/v1/"), "https://api.example.com/v1");
    assert_eq!(normalize_api_base("  https://api.example.com/v1/chat/completions  "), "https://api.example.com/v1");
    assert_eq!(normalize_api_base("https://api.example.com/v1//chat/completions/"), "https://api.example.com/v1");
    assert_eq!(normalize_api_base(""), "");
    assert_eq!(normalize_api_base("/chat/completions"), "");
    let base = normalize_api_base("http://localhost:11434/v1///");
    assert_eq!(normalize_api_base(&format!("{base}/chat/completions")), base);
}

#[test]
fn chat_url_appends_the_endpoint_once() {
    assert_eq!(chat_url("https://x.ai/v1/chat/completions"), "https://x.ai/v1/chat/completions");
    assert_eq!(chat_url("https://x.ai/v1/"), "https://x.ai/v1/chat/completions");
}

#[test]
fn streamed_tool_call_fragments_accumulate() {
    let mut calls: Vec<AccumulatedToolCall> = Vec::new();
    apply_tool_call_chunk(&mut calls, &chunk(Some(0), Some("call_1"), Some("edit_code"), Some("{\"co")), None);
    apply_tool_call_chunk(&mut calls, &chunk(Some(0), None, None, Some("de\": 1}")), None);
    apply_tool_call_chunk(&mut calls, &chunk(Some(2), Some("call_3"), Some("run_script"), None), None);
    assert_eq!(calls.len(), 3);
    assert_eq!(calls[0].id.as_deref(), Some("call_1"));
    assert_eq!(calls[0].name.as_deref(), Some("edit_code"));
    assert_eq!(calls[0].arguments, "{\"code\": 1}");
    assert_eq!(calls[1].id, None);
    assert_eq!(calls[1].name, None);
    assert_eq!(calls[1].arguments, "");
    assert_eq!(calls[2].name.as_deref(), Some("run_script"));
    // A fragment without an index lands in the first slot.
    apply_tool_call_chunk(&mut calls, &chunk(None, None, Some("get_docs"), None), None);
    assert_eq!(calls[0].name.as_deref(), Some("get_docs"));
    // A given position overrides the index.
    apply_tool_call_chunk(&mut calls, &chunk(Some(0), None, None, Some("x")), Some(1));
    assert_eq!(calls[1].arguments, "x");
}

#[test]
fn stream_deltas_build_the_reply() {
    let mut result = ChatResult::default();
    apply_stream_delta(
        &mut result,
        &StreamDelta { content: Some("Hel".to_string()), reasoning: Some("hmm".to_string()), tool_calls: None },
    );
    apply_stream_delta(
        &mut result,
        &StreamDelta {
            content: Some("lo".to_string()),
            reasoning: None,
            tool_calls: Some(vec![chunk(Some(1), Some("c"), Some("get_docs"), Some("{}"))]),
        },
    );
    assert_eq!(result.content, "Hello");
    assert_eq!(result.tool_calls.len(), 2);
    assert_eq!(result.tool_calls[1].arguments, "{}");
}

#[test]
fn whole_message_fills_slots_in_order() {
    let mut result = ChatResult::default();
    extract_message(
        &mut result,
        &MessageChunk {
            content: Some("done".to_string()),
            tool_calls: Some(vec![
                chunk(Some(7), Some("a"), Some("edit_code"), Some("{}")),
                chunk(None, Some("b"), Some("run_script"), None),
            ]),
        },
    );
    assert_eq!(result.content, "done");
    assert_eq!(result.tool_calls.len(), 2);
    assert_eq!(result.tool_calls[0].id.as_deref(), Some("a"));
    assert_eq!(result.tool_calls[1].id.as_deref(), Some("b"));
    let mut empty = ChatResult::default();
    extract_message(&mut empty, &MessageChunk { content: None, tool_calls: None });
    assert_eq!(empty.content, "");
    assert!(empty.tool_calls.is_empty());
}

#[test]
fn done_marker_and_failure_message() {
    assert!(is_done_marker("[DONE]"));
    assert!(is_done_marker("  [DONE]\n"));
    assert!(!is_done_marker("[DONE]x"));
    assert!(!is_done_marker("{\"choices\": []}"));
    assert_eq!(request_failure_message("401 Unauthorized", "bad key"), "Chat request failed (401 Unauthorized): bad key");
    let body = "b".repeat(500);
    assert_eq!(
        request_failure_message("500", &body),
        format!("Chat request failed (500): {}", "b".repeat(400))
    );
}

#[test]
fn streamed_and_whole_replies_agree() {
    let fragments = || {
        vec![
            chunk(Some(0), Some("a"), Some("edit_code"), Some("{\"code\": \"x\"}")),
            chunk(Some(1), Some("b"), Some("run_script"), Some("{}")),
        ]
    };
    let mut streamed = ChatResult::default();
    apply_stream_delta(&mut streamed, &StreamDelta { content: Some("ok".to_string()), reasoning: None, tool_calls: Some(fragments()) });
    let mut whole = ChatResult::default();
    extract_message(&mut whole, &MessageChunk { content: Some("ok".to_string()), tool_calls: Some(fragments()) });
    assert_eq!(streamed.content, whole.content);
    assert_eq!(streamed.tool_calls.len(), whole.tool_calls.len());
    for (s, w) in streamed.tool_calls.iter().zip(whole.tool_calls.iter()) {
        assert_eq!(s.id, w.id);
        assert_eq!(s.name, w.name);
        assert_eq!(s.arguments, w.arguments);
    }
}

#[test]
fn stream_events_are_taken_or_skipped() {
    let mut result = ChatResult::default();
    assert!(matches!(take_stream_event(&mut result, " [DONE] "), EventOutcome::Done));
    assert!(matches!(take_stream_event(&mut result, "not json"), EventOutcome::Skipped));
    assert!(matches!(take_stream_event(&mut result, "{\"usage\": {\"total\": 3}}"), EventOutcome::Skipped));
    assert!(matches!(take_stream_event(&mut result, "{\"choices\": []}"), EventOutcome::Skipped));
    assert!(matches!(take_stream_event(&mut result, "{\"choices\": [{\"index\": 0}]}"), EventOutcome::Skipped));
    match take_stream_event(&mut result, "{\"choices\": [{\"delta\": {\"content\": \"Hi\", \"reasoning_content\": \"hmm\"}}]}") {
        EventOutcome::Applied { text, reasoning } => {
            assert_eq!(text.as_deref(), Some("Hi"));
            assert_eq!(reasoning.as_deref(), Some("hmm"));
        }
        _ => panic!("expected a delta"),
    }
    let call = "{\"choices\": [{\"delta\": {\"tool_calls\": [{\"index\": 1, \"id\": \"c\", \"function\": {\"name\": \"run_script\", \"arguments\": \"{}\"}}]}}]}";
    assert!(matches!(take_stream_event(&mut result, call), EventOutcome::Applied { text: None, reasoning: None }));
    assert_eq!(result.content, "Hi");
    assert_eq!(result.tool_calls.len(), 2);
    assert_eq!(result.tool_calls[1].name.as_deref(), Some("run_script"));
    assert_eq!(result.tool_calls[1].arguments, "{}");
    let huge = format!("{{\"choices\": [{{\"delta\": {{\"tool_calls\": [{{\"index\": {}}}]}}}}]}}", usize::MAX);
    assert!(matches!(take_stream_event(&mut result, &huge), EventOutcome::SlotTooLarge));
    assert_eq!(result.tool_calls.len(), 2);
}
