use foldquery::agent::{agent_step, argument_or_empty, tool_request, trim_session, AgentAction, AgentEvent, AgentLoop, ToolCallRecord, ToolRequest, MAX_ITERATIONS};
use foldquery::agent::{
    clamp_budget, code_changes, docs_label, restore_history, docs_outcome, edit_outcome, fallback_failure, run_outcome,
    script_context, tool_kind, tool_result_text, trim_history, truncate, unknown_tool, HistoryEntry,
    ToolKind, CONTEXT_BUDGET_MAX, CONTEXT_BUDGET_MIN,
};
use foldquery::agent::assistant_turn;
use foldquery::llm::{AccumulatedToolCall, ChatResult};
use serde_json::Value;

fn msg(role: &str, content: &str) -> HistoryEntry<Value> {
    let mut m = serde_json::Map::new();
    m.insert("role".to_string(), Value::String(role.to_string()));
    m.insert("content".to_string(), Value::String(content.to_string()));
    let message = Value::Object(m);
    let size = serde_json::to_string(&message).map(|s| s.len()).unwrap_or(0);
    HistoryEntry { role: Some(role.to_string()), size, message }
}

fn history_chars_check(h: &[HistoryEntry<Value>]) -> usize {
    h.iter()
        .map(|m| serde_json::to_string(&m.message).map(|s| s.len()).unwrap_or(0))
        .sum()
}

#[test]
fn trims_oldest_turns_keeps_system_and_latest() {
    let mut history = vec![
        msg("system", "S"),
        msg("user", "AAAAAAAAAAAAAAAAAAAAAAAAAAAA"),
        msg("assistant", "BBBBBBBBBBBBBBBBBBBBBBBBBBBB"),
        msg("user", "CCCCCCCCCCCCCCCCCCCCCCCCCCCC"),
        msg("assistant", "DDDDDDDDDDDDDDDDDDDDDDDDDDDD"),
    ];
    let budget = history_chars_check(&history[3..]);
    let dropped = trim_history(&mut history, budget);
    assert_eq!(dropped, 1);
    assert_eq!(history[0].message["role"], "system");
    assert_eq!(history[1].message["content"], "CCCCCCCCCCCCCCCCCCCCCCCCCCCC");
    assert_eq!(history[2].message["content"], "DDDDDDDDDDDDDDDDDDDDDDDDDDDD");
    assert!(!history.iter().any(|m| m.message["content"] == "AAAAAAAAAAAAAAAAAAAAAAAAAAAA"));
}

#[test]
fn tool_messages_dropped_with_their_turn() {
    let mut history = vec![
        msg("system", "S"),
        msg("user", "AAAAAAAAAAAAAAAAAAAAAAAAAAAAAAAA"),
        msg("assistant", "BBBBBBBBBBBBBBBBBBBBBBBBBBBBBBBB"),
        msg("tool", "CCCCCCCCCCCCCCCCCCCCCCCCCCCCCCCC"),
        msg("user", "DDDDDDDDDDDDDDDDDDDDDDDDDDDDDDDD"),
        msg("assistant", "EEEEEEEEEEEEEEEEEEEEEEEEEEEEEEEE"),
    ];
    let budget = history_chars_check(&history[4..]);
    let dropped = trim_history(&mut history, budget);
    assert_eq!(dropped, 1);
    assert!(!history.iter().any(|m| m.message["role"] == "tool"));
    assert_eq!(history[1].message["content"], "DDDDDDDDDDDDDDDDDDDDDDDDDDDDDDDD");
}

#[test]
fn single_turn_never_dropped() {
    let mut history = vec![msg("system", "S"), msg("user", "A"), msg("assistant", "B")];
    let dropped = trim_history(&mut history, 1);
    assert_eq!(dropped, 0);
    assert_eq!(history.len(), 3);
}

#[test]
fn trim_drops_several_turns_until_it_fits() {
    let mut history = vec![
        msg("system", "S"),
        msg("user", "first"),
        msg("assistant", "one"),
        msg("user", "second"),
        msg("assistant", "two"),
        msg("user", "third"),
        msg("assistant", "three"),
    ];
    let users = |h: &[HistoryEntry<Value>]| h.iter().filter(|m| m.role.as_deref() == Some("user")).count();
    let before = users(&history);
    let budget = history_chars_check(&history[..1]) + history_chars_check(&history[5..]);
    let dropped = trim_history(&mut history, budget);
    assert_eq!(dropped, 2);
    assert_eq!(users(&history) + dropped, before);
    assert_eq!(history.len(), 3);
    assert_eq!(history[0].message["content"], "S");
    assert_eq!(history[1].message["content"], "third");
    assert_eq!(history[2].message["content"], "three");
}

#[test]
fn trim_within_budget_changes_nothing() {
    let mut history = vec![msg("system", "S"), msg("user", "A"), msg("assistant", "B"), msg("user", "C")];
    let budget = history_chars_check(&history);
    assert_eq!(trim_history(&mut history, budget), 0);
    assert_eq!(history.len(), 4);
}

#[test]
fn trim_keeps_everything_before_the_first_user_message() {
    let mut history = vec![
        msg("system", "S"),
        msg("system", "context"),
        msg("user", "A"),
        msg("user", "B"),
    ];
    let dropped = trim_history(&mut history, 0);
    assert_eq!(dropped, 1);
    assert_eq!(history.len(), 3);
    assert_eq!(history[1].message["content"], "context");
    assert_eq!(history[2].message["content"], "B");
}

#[test]
fn budget_is_clamped() {
    assert_eq!(clamp_budget(0), CONTEXT_BUDGET_MIN);
    assert_eq!(clamp_budget(3_999), 4_000);
    assert_eq!(clamp_budget(4_000), 4_000);
    assert_eq!(clamp_budget(50_000), 50_000);
    assert_eq!(clamp_budget(200_000), 200_000);
    assert_eq!(clamp_budget(1_000_000), CONTEXT_BUDGET_MAX);
}

#[test]
fn truncate_marks_cut_text() {
    assert_eq!(truncate("hello", 5), "hello");
    assert_eq!(truncate("hello", 10), "hello");
    assert_eq!(truncate("hello world", 5), "hello\n\u{2026}[truncated]");
    assert_eq!(truncate("h\u{e9}llo", 2), "h\u{e9}\n\u{2026}[truncated]");
    assert_eq!(truncate("", 0), "");
}

#[test]
fn code_changes_reports_removed_then_added_lines() {
    assert_eq!(code_changes("a\nb", "a\nb"), "No changes");
    assert_eq!(code_changes("a\nb\n", "a\nc\n"), "Removed 1 line(s):\n  - b\nAdded 1 line(s):\n  + c\n");
    assert_eq!(code_changes("a\nb", "b\na"), "Lines were rearranged but nothing added or removed.");
    assert_eq!(code_changes("", "x\ny"), "Added 2 line(s):\n  + x\n  + y\n");
    assert_eq!(code_changes("x\r\ny", "x\ny"), "Lines were rearranged but nothing added or removed.");
}

#[test]
fn tools_are_recognised_by_name() {
    assert_eq!(tool_kind("edit_code"), ToolKind::EditCode);
    assert_eq!(tool_kind("run_script"), ToolKind::RunScript);
    assert_eq!(tool_kind("get_docs"), ToolKind::GetDocs);
    assert_eq!(tool_kind("delete_everything"), ToolKind::Unknown);
    assert_eq!(tool_kind(""), ToolKind::Unknown);
}

#[test]
fn tool_outcome_texts() {
    assert_eq!(edit_outcome("abc", "No changes"), "Code updated (3 characters).\nNo changes");
    assert_eq!(run_outcome(2, None, "   "), "Script executed. Shown objects: 2.");
    assert_eq!(
        run_outcome(0, Some("boom"), "hi\n"),
        "Script executed. Shown objects: 0.\nError:\nboom\nStdout:\nhi\n"
    );
    let long_error = "e".repeat(1600);
    let report = run_outcome(1, Some(&long_error), "");
    assert_eq!(report, format!("Script executed. Shown objects: 1.\nError:\n{}\n\u{2026}[truncated]", "e".repeat(1500)));
    assert_eq!(docs_outcome("Workplane.box", "Make a box."), "Documentation for Workplane.box:\nMake a box.");
    assert_eq!(unknown_tool("frobnicate"), "Unknown tool: frobnicate");
    assert_eq!(tool_result_text(Ok("done".to_string())), "done");
    assert_eq!(tool_result_text(Err("bad".to_string())), "Tool error: bad");
    assert_eq!(docs_label("Workplane"), "Reading Workplane docs");
}

#[test]
fn script_context_only_for_nonblank_scripts() {
    assert_eq!(script_context("  \n "), None);
    assert_eq!(
        script_context("x = 1"),
        Some("Current CadQuery script (source of truth for edit_code and run_script):\n```python\nx = 1\n```".to_string())
    );
}

#[test]
fn fallback_failure_names_both_errors() {
    assert_eq!(
        fallback_failure("stream broke", "http 500"),
        "Chat request failed (streaming also failed: stream broke): http 500"
    );
}

#[test]
fn stored_system_messages_are_not_restored() {
    let stored = vec![msg("system", "old prompt"), msg("user", "A"), msg("assistant", "B"), msg("system", "x"), msg("tool", "T")];
    let kept = restore_history(stored);
    let contents: Vec<&str> = kept.iter().map(|m| m.message["content"].as_str().unwrap()).collect();
    assert_eq!(contents, vec!["A", "B", "T"]);
}

#[test]
fn assistant_turn_records_calls_with_defaults() {
    let result = ChatResult {
        content: "  \n".to_string(),
        tool_calls: vec![
            AccumulatedToolCall { id: Some("c1".to_string()), name: Some("edit_code".to_string()), arguments: "{}".to_string() },
            AccumulatedToolCall { id: None, name: None, arguments: String::new() },
        ],
    };
    let turn = assistant_turn(&result);
    assert_eq!(turn.content, None);
    assert_eq!(turn.calls.len(), 2);
    assert_eq!((turn.calls[0].id.as_str(), turn.calls[0].name.as_str(), turn.calls[0].arguments.as_str()), ("c1", "edit_code", "{}"));
    assert_eq!((turn.calls[1].id.as_str(), turn.calls[1].name.as_str(), turn.calls[1].arguments.as_str()), ("", "", ""));
    let spoken = ChatResult { content: "Let me edit.".to_string(), tool_calls: Vec::new() };
    assert_eq!(assistant_turn(&spoken).content.as_deref(), Some("Let me edit."));
}

#[test]
fn tool_requests_read_their_arguments() {
    let call = |name: &str, arguments: &str| ToolCallRecord {
        id: "c".to_string(),
        name: name.to_string(),
        arguments: arguments.to_string(),
    };
    assert!(matches!(tool_request(&call("edit_code", "{\"code\": \"x = 1\"}")), ToolRequest::EditCode(c) if c == "x = 1"));
    assert!(matches!(tool_request(&call("edit_code", "not json")), ToolRequest::EditCode(c) if c.is_empty()));
    assert!(matches!(tool_request(&call("run_script", "")), ToolRequest::RunScript));
    assert!(matches!(tool_request(&call("get_docs", "{\"symbol\": \"Workplane.box\"}")), ToolRequest::GetDocs(s) if s == "Workplane.box"));
    assert!(matches!(tool_request(&call("get_docs", "{\"symbol\": 3}")), ToolRequest::GetDocs(s) if s.is_empty()));
    assert!(matches!(tool_request(&call("rm", "{}")), ToolRequest::Unknown(e) if e == "Unknown tool: rm"));
    assert_eq!(argument_or_empty("{\"a\": \"b\"}", "a"), "b");
    assert_eq!(argument_or_empty("[1, 2]", "a"), "");
}

#[test]
fn reply_loop_rounds() {
    let (state, action) = agent_step(AgentLoop::new(), AgentEvent::Started);
    assert_eq!(state.rounds, 1);
    assert!(matches!(action, AgentAction::CallModel));
    let spoken = ChatResult { content: "Done.".to_string(), tool_calls: Vec::new() };
    let (state, action) = agent_step(state, AgentEvent::Answered(spoken));
    assert_eq!(state.rounds, 1);
    assert!(matches!(action, AgentAction::Finish(c) if c == "Done."));
    let calling = ChatResult {
        content: String::new(),
        tool_calls: vec![AccumulatedToolCall { id: None, name: Some("run_script".to_string()), arguments: "{}".to_string() }],
    };
    let (state, action) = agent_step(state, AgentEvent::Answered(calling));
    assert!(matches!(action, AgentAction::RunTools(turn) if turn.calls.len() == 1 && turn.content.is_none()));
    let (state, action) = agent_step(state, AgentEvent::ToolsRan);
    assert_eq!(state.rounds, 2);
    assert!(matches!(action, AgentAction::CallModel));
    let (state, action) = agent_step(AgentLoop { rounds: MAX_ITERATIONS }, AgentEvent::ToolsRan);
    assert_eq!(state.rounds, 20);
    assert!(matches!(action, AgentAction::Fail(e) if e == "The agent exceeded the maximum number of tool iterations."));
}

#[test]
fn trimming_counts_dropped_messages() {
    let mut history = vec![msg("system", "S"), msg("user", "A"), msg("user", "B")];
    assert_eq!(trim_session(&mut history, 0, 5), (1, Some(6)));
    assert_eq!(trim_session(&mut history, 0, 6), (0, None));
}
