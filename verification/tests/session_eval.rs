use rrecall::hybrid::{assemble_hybrid, unique_session_ids};
use rrecall::index::EntryMeta;
use rrecall::output::SessionResult;
use rrecall::parser::Message;
use rrecall::query::compile;
use rrecall::reindex::reconcile_due;
use rrecall::search::{context_range, evaluate, Match};

fn msg(role: &str, text: &str) -> Message {
    Message {
        role: role.to_string(),
        text: text.to_string(),
        timestamp: "2026-01-01T00:00:00Z".to_string(),
        session_id: "test".to_string(),
    }
}

fn find_matches(messages: &[Message], q: &rrecall::query::CompiledQuery) -> Vec<Match> {
    evaluate(messages, q).matches
}

#[test]
fn test_matches_across_distant_messages() {
    let mut msgs = vec![msg("user", "question about acl")];
    for i in 0..10 {
        msgs.push(msg("assistant", &format!("filler {i}")));
    }
    msgs.push(msg("assistant", "the jellyfin permission failure"));
    let q = compile("acl AND jellyfin");
    let matches = find_matches(&msgs, &q);
    assert!(!matches.is_empty(), "session-scope AND must match terms any distance apart");
}

#[test]
fn test_no_match_returns_empty() {
    let msgs = vec![msg("user", "hello world")];
    let q = compile("nonexistent");
    assert!(find_matches(&msgs, &q).is_empty());
}

#[test]
fn test_role_filter_restricts_match() {
    let msgs = vec![
        msg("user", "tell me about sandbox"),
        msg("assistant", "sandbox uses excludedCommands"),
    ];
    let q = compile("role:user excludedCommands");
    assert!(find_matches(&msgs, &q).is_empty());
    let q2 = compile("role:assistant excludedCommands");
    assert!(!find_matches(&msgs, &q2).is_empty());
}

#[test]
fn test_match_points_are_positive_messages() {
    let msgs = vec![
        msg("user", "unrelated intro"),
        msg("user", "the acl thing"),
        msg("user", "closing"),
    ];
    let q = compile("acl");
    let matches = find_matches(&msgs, &q);
    assert_eq!(matches.len(), 1);
    assert_eq!(matches[0].message_index, 1);
}

#[test]
fn test_matched_terms_are_distinct_present_terms() {
    let msgs = vec![msg("user", "an acl and permission discussion, no third term")];
    let q = compile("acl permission jellyfin");
    let eval = evaluate(&msgs, &q);
    assert_eq!(eval.matched_terms.len(), 2, "acl + permission present, jellyfin absent");
    assert!(!eval.matches.is_empty());
}

#[test]
fn test_matched_terms_empty_when_no_positive_phrases() {
    let msgs = vec![msg("user", "anything")];
    let q = compile("role:user");
    let eval = evaluate(&msgs, &q);
    assert!(eval.matched_terms.is_empty());
}

#[test]
fn pure_not_query_anchors_first_eligible_message() {
    let msgs = vec![msg("assistant", "hello"), msg("user", "plain talk")];
    let q = compile("role:user NOT smb");
    let eval = evaluate(&msgs, &q);
    assert_eq!(eval.matches.len(), 1);
    assert_eq!(eval.matches[0].message_index, 1);
}

#[test]
fn test_context_range_middle() {
    assert_eq!(context_range(5, 3, 10), (2, 9));
}

#[test]
fn test_context_range_start() {
    assert_eq!(context_range(1, 3, 10), (0, 5));
}

#[test]
fn test_context_range_end() {
    assert_eq!(context_range(9, 3, 10), (6, 10));
}

fn win(id: &str, ts: &str) -> SessionResult {
    SessionResult { session_id: id.into(), project_dir: "-p".into(), first_match_timestamp: ts.into(), match_context: vec![] }
}

#[test]
fn lexical_ids_deduplicated_in_order() {
    let ids = unique_session_ids(&vec![win("b", "1"), win("a", "2"), win("b", "3")]);
    assert_eq!(ids, vec!["b".to_string(), "a".to_string()]);
}

#[test]
fn hybrid_answer_mixes_rich_and_lean_results() {
    let entries = vec![
        EntryMeta { session_id: "z".into(), project: "-pz".into(), offset: 0, timestamp: "tz".into(), hash: 1 },
        EntryMeta { session_id: "z".into(), project: "-other".into(), offset: 2, timestamp: "tz2".into(), hash: 2 },
    ];
    let lexical = vec![win("a", "1"), win("b", "2"), win("a", "3")];
    let ids = vec!["z".to_string(), "a".to_string(), "missing".to_string(), "b".to_string()];
    let out = assemble_hybrid(&ids, lexical, &entries, 3);
    let got: Vec<(&str, &str)> = out.iter().map(|r| (r.session_id.as_str(), r.first_match_timestamp.as_str())).collect();
    assert_eq!(got, vec![("z", "tz"), ("a", "1"), ("a", "3")]);
    assert_eq!(out[0].project_dir, "-pz");
    assert_eq!(out[0].match_context[0].role, "system");
    assert!(out[0].match_context[0].matched);
}

#[test]
fn reconcile_throttled_and_disabled() {
    assert!(reconcile_due(false, None));
    assert!(reconcile_due(false, Some(None)));
    assert!(!reconcile_due(false, Some(Some(10))));
    assert!(reconcile_due(false, Some(Some(300_000_000_000))));
    assert!(!reconcile_due(true, None));
}
