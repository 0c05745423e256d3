use rrecall::parser::{extract_text, parent_session_id, parse_session, parse_session_inner, Json, SessionLine};

/// A JSON document as the library holds it.
fn to_json(v: &serde_json::Value) -> Json {
    match v {
        serde_json::Value::Null => Json::Null,
        serde_json::Value::Bool(b) => Json::Bool(*b),
        serde_json::Value::Number(_) => Json::Number,
        serde_json::Value::String(s) => Json::Str(s.clone()),
        serde_json::Value::Array(a) => Json::Array(a.iter().map(to_json).collect()),
        serde_json::Value::Object(o) => Json::Object(o.iter().map(|(k, v)| (k.clone(), to_json(v))).collect()),
    }
}

fn line(text: &str) -> SessionLine {
    SessionLine::Line { text: text.to_string() }
}

/// The transcript the parser tests read: two user and two assistant
/// records, with thinking, tool-use and tool-result blocks and a summary
/// record that is not a message.
fn simple_session() -> Vec<SessionLine> {
    [
        r#"{"type":"user","sessionId":"test-session-1","timestamp":"2026-01-01T00:00:00Z","message":{"role":"user","content":"How should we handle the auth middleware?"},"uuid":"u1"}"#,
        r#"{"type":"assistant","sessionId":"test-session-1","timestamp":"2026-01-01T00:00:05Z","message":{"role":"assistant","content":[{"type":"thinking","thinking":"Let me think about this."},{"type":"text","text":"I suggest we rewrite the auth middleware from scratch."},{"type":"tool_use","id":"t1","name":"Read","input":{"file_path":"src/auth.rs"}}]},"uuid":"u2"}"#,
        r#"{"type":"user","sessionId":"test-session-1","timestamp":"2026-01-01T00:00:10Z","message":{"role":"user","content":[{"type":"tool_result","tool_use_id":"t1","content":"file contents of auth.rs"},{"type":"text","text":"OK, go with the rewrite approach."}]},"uuid":"u3"}"#,
        r#"{"type":"summary","summary":"Auth middleware discussion","leafUuid":"u3"}"#,
        r#"{"type":"assistant","sessionId":"test-session-1","timestamp":"2026-01-01T00:00:20Z","message":{"role":"assistant","content":[{"type":"text","text":"Done. Next up is the token storage migration."}]},"uuid":"u4"}"#,
    ]
    .iter()
    .map(|l| line(l))
    .collect()
}

#[test]
fn test_parse_simple_session() {
    let (msgs, malformed) = parse_session("tests/fixtures/simple_session.jsonl", &simple_session());
    assert_eq!(malformed, 0);
    assert_eq!(msgs.len(), 4);
    assert_eq!(msgs[0].role, "user");
    assert!(msgs[0].text.contains("auth middleware"));
    assert_eq!(msgs[1].role, "assistant");
    assert!(msgs[1].text.contains("rewrite the auth middleware"));
    assert!(msgs[1].text.contains("[tool: Read]"));
    assert!(!msgs[1].text.contains("Let me think"));
    assert_eq!(msgs[2].role, "user");
    assert!(msgs[2].text.contains("rewrite approach"));
    assert!(!msgs[2].text.contains("file contents"));
    assert_eq!(msgs[3].role, "assistant");
    assert!(msgs[3].text.contains("token storage migration"));
}

#[test]
fn test_parse_nonexistent_file() {
    let (msgs, malformed) = parse_session("/nonexistent/file.jsonl", &vec![]);
    assert!(msgs.is_empty());
    assert_eq!(malformed, 0);
}

#[test]
fn test_session_ids_preserved() {
    let (msgs, _) = parse_session("tests/fixtures/simple_session.jsonl", &simple_session());
    for msg in &msgs {
        assert_eq!(msg.session_id, "test-session-1");
    }
}

#[test]
fn test_parent_session_id_detection() {
    assert_eq!(
        parent_session_id("/projects/-Users-test/abc-123/subagents/agent-xyz.jsonl"),
        Some("abc-123".to_string())
    );
    assert_eq!(parent_session_id("/projects/-Users-test/session.jsonl"), None);
}

#[test]
fn test_subagent_logs_attribute_to_parent() {
    let lines = vec![line(
        r#"{"type":"user","sessionId":"subagent-internal-id","timestamp":"2026-01-01T00:00:00Z","message":{"role":"user","content":"test message"},"uuid":"u1"}"#,
    )];
    let (msgs, _) = parse_session("/tmp/x/parent-sess-id/subagents/agent-abc.jsonl", &lines);
    assert_eq!(msgs.len(), 1);
    assert_eq!(msgs[0].session_id, "parent-sess-id");
}

#[test]
fn malformed_and_blank_lines_are_counted_apart() {
    let lines = vec![
        SessionLine::Unreadable,
        line("   "),
        line("{not json"),
        line(r#"{"type":"user","message":{"content":""}}"#),
        line(r#"{"type":"user","message":{"content":"hi"}}"#),
    ];
    let (msgs, malformed) = parse_session("/p/s.jsonl", &lines);
    assert_eq!(malformed, 2);
    assert_eq!(msgs.len(), 1);
    assert_eq!(msgs[0].text, "hi");
    assert_eq!(msgs[0].session_id, "");
    assert_eq!(msgs[0].timestamp, "");
}

#[test]
fn extract_text_joins_blocks_and_marks_tools_only_for_assistant() {
    let v: serde_json::Value = serde_json::from_str(
        r#"{"content":[{"type":"text","text":"a"},{"type":"tool_use","name":"Bash"},{"type":"text","text":"b"}]}"#,
    )
    .unwrap();
    let j = to_json(&v);
    assert_eq!(extract_text(&j, "assistant"), "a\n[tool: Bash]\nb");
    assert_eq!(extract_text(&j, "user"), "a\nb");
    let n = to_json(&serde_json::from_str::<serde_json::Value>(r#"{"content":5}"#).unwrap());
    assert_eq!(extract_text(&n, "user"), "");
}

#[test]
fn override_attributes_every_message() {
    let (msgs, malformed) = parse_session_inner(&simple_session(), &Some("parent".to_string()));
    assert_eq!(malformed, 0);
    assert_eq!(msgs.len(), 4);
    assert!(msgs.iter().all(|m| m.session_id == "parent"));
    let (own, _) = parse_session_inner(&simple_session(), &None);
    assert!(own.iter().all(|m| m.session_id == "test-session-1"));
}
