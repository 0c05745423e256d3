use rrecall::output::{build_session_result, truncate, ContextMessage, SearchOutput, SessionResult};
use rrecall::parser::Message;
use rrecall::search::Match;

fn msg(role: &str, text: &str, ts: &str) -> Message {
    Message {
        role: role.to_string(),
        text: text.to_string(),
        timestamp: ts.to_string(),
        session_id: "sess-1".to_string(),
    }
}

#[test]
fn test_build_session_result() {
    let msgs = vec![
        msg("user", "before", "2026-01-01T00:00:00Z"),
        msg("assistant", "also before", "2026-01-01T00:01:00Z"),
        msg("user", "auth middleware question", "2026-01-01T00:02:00Z"),
        msg("assistant", "auth answer", "2026-01-01T00:03:00Z"),
        msg("user", "after", "2026-01-01T00:04:00Z"),
    ];
    let matches = vec![Match { message_index: 2 }];
    let results = build_session_result(&msgs, &matches, 1, "-test-project", 20);
    assert_eq!(results.len(), 1);
    assert_eq!(results[0].session_id, "sess-1");
    assert_eq!(results[0].match_context.len(), 3);
    assert!(!results[0].match_context[0].matched);
    assert!(results[0].match_context[1].matched);
    assert!(!results[0].match_context[2].matched);
}

#[test]
fn test_deduplication() {
    let msgs = vec![
        msg("user", "a", "t0"),
        msg("user", "b auth", "t1"),
        msg("user", "c auth", "t2"),
        msg("user", "d", "t3"),
    ];
    let matches = vec![Match { message_index: 1 }, Match { message_index: 2 }];
    let results = build_session_result(&msgs, &matches, 1, "-proj", 20);
    assert_eq!(results.len(), 2);
}

#[test]
fn contained_window_is_skipped_and_max_respected() {
    let msgs: Vec<Message> = (0..6).map(|i| msg("user", &format!("m{i}"), "t")).collect();
    let matches = vec![Match { message_index: 2 }, Match { message_index: 2 }, Match { message_index: 5 }];
    let results = build_session_result(&msgs, &matches, 3, "-p", 20);
    assert_eq!(results.len(), 1);
    let capped = build_session_result(&msgs, &[Match { message_index: 0 }, Match { message_index: 5 }], 0, "-p", 1);
    assert_eq!(capped.len(), 1);
    assert_eq!(capped[0].first_match_timestamp, "t");
}

fn sample_output() -> SearchOutput {
    SearchOutput {
        query: "acl permission".into(),
        sessions_searched: 738,
        scope_reached: "all_projects".into(),
        hit_count: 1,
        mode: "hybrid".into(),
        results: vec![SessionResult {
            session_id: "960b089f".into(),
            project_dir: "-Users-alice-ws-alpha-sh".into(),
            first_match_timestamp: "2026-06-03T02:16:29Z".into(),
            match_context: vec![
                ContextMessage {
                    role: "user".into(),
                    text: "what about acls".into(),
                    timestamp: "t".into(),
                    matched: false,
                },
                ContextMessage {
                    role: "assistant".into(),
                    text: "the permission model".into(),
                    timestamp: "t".into(),
                    matched: true,
                },
            ],
        }],
        error: None,
    }
}

#[test]
fn test_to_text_is_readable_not_json() {
    let t = sample_output().to_text();
    assert!(t.contains("mode=hybrid"));
    assert!(t.contains("sessions_searched=738"));
    assert!(t.contains("[1] 960b089f"));
    assert!(t.contains("» assistant"));
    assert!(!t.contains('{'));
}

#[test]
fn test_to_text_empty_reports_coverage() {
    let mut out = sample_output();
    out.results.clear();
    out.hit_count = 0;
    let t = out.to_text();
    assert!(t.contains("No matches"));
    assert!(t.contains("sessions_searched=738"));
}

#[test]
fn test_to_text_error() {
    let t = SearchOutput::error("q", "boom").to_text();
    assert!(t.contains("rrecall error: boom"));
}

#[test]
fn to_text_exact_layout() {
    let t = sample_output().to_text();
    let expected = [
        "rrecall · mode=hybrid · scope_reached=all_projects · sessions_searched=738 · hits=1\n",
        "query: acl permission\n",
        "\n[1] 960b089f · -Users-alice-ws-alpha-sh · 2026-06-03T02:16:29Z\n",
        "    user      what about acls\n",
        "  » assistant the permission model\n",
        "\n(scope_reached=all_projects, sessions_searched=738 — if the session you want isn't here, ",
        "refine the query; do not search by other means.)\n",
    ]
    .concat();
    assert_eq!(t, expected);
    assert_eq!(SearchOutput::error("q", "boom").to_text(), "rrecall error: boom\nquery: q\n");
}

#[test]
fn to_text_indents_continuation_lines() {
    let mut out = sample_output();
    out.results[0].match_context[0].text = "  first\nsecond  ".into();
    let t = out.to_text();
    assert!(t.contains("    user      first\n        second\n"));
}

#[test]
fn test_truncate_marks_overflow() {
    let long = "x".repeat(900);
    let out = truncate(&long, 800);
    assert!(out.contains("… [+100 chars]"));
    assert_eq!(truncate("short", 800), "short");
}

#[test]
fn truncate_counts_characters_not_bytes() {
    assert_eq!(truncate("  ééé  ", 2), "éé… [+1 chars]");
    assert_eq!(truncate(" \t x \n", 1), "x");
}

#[test]
fn error_output_fields() {
    let o = SearchOutput::error("test", "something went wrong");
    assert_eq!(o.sessions_searched, 0);
    assert_eq!(o.mode, "none");
    assert_eq!(o.scope_reached, "none");
    assert_eq!(o.error.as_deref(), Some("something went wrong"));
}
