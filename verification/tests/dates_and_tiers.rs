use rrecall::escalate::Scope;
use rrecall::output::SessionResult;
use rrecall::parser::Message;
use rrecall::query::compile;
use rrecall::tier::{
    collect_windows, order_sessions, project_for, score_sessions, session_key, ts_in_range, Candidate,
    ParsedFile, ScoredSession, SessionFiles, PER_SESSION_WINDOW_CAP, score_tier, sessions_fit,
};

#[test]
fn test_ts_in_range_within() {
    assert!(ts_in_range(
        "2026-05-18T10:00:00Z",
        &Some("2026-05-17".into()),
        &Some("2026-05-19".into())
    ));
}

#[test]
fn test_ts_in_range_out_of_window() {
    assert!(!ts_in_range(
        "2026-05-20T10:00:00Z",
        &None,
        &Some("2026-05-19".into())
    ));
    assert!(!ts_in_range(
        "2026-05-10T10:00:00Z",
        &Some("2026-05-17".into()),
        &None
    ));
}

#[test]
fn test_ts_in_range_no_filters() {
    assert!(ts_in_range("2026-05-18T10:00:00Z", &None, &None));
}

#[test]
fn test_ts_in_range_empty_ts_excluded_when_after_set() {
    assert!(!ts_in_range("", &Some("2026-05-01".into()), &None));
    assert!(ts_in_range("", &None, &Some("2026-05-19".into())));
}

#[test]
fn ts_bounds_are_inclusive() {
    assert!(ts_in_range("2026-05-17T00:00:00Z", &Some("2026-05-17".into()), &Some("2026-05-17".into())));
}

fn cand(path: &str, project: &str, mtime: i128) -> Candidate {
    Candidate { path: path.into(), project: project.into(), mtime }
}

#[test]
fn sessions_grouped_filtered_and_newest_first() {
    let cands = vec![
        cand("/p/-a/s1.jsonl", "-a", 10),
        cand("/p/-a/s2.jsonl", "-a", 30),
        cand("/p/-a/s1/subagents/agent-x.jsonl", "-a", 50),
        cand("/p/-b/s3.jsonl", "-b", 20),
    ];
    let all = order_sessions(&cands, &None, Scope::AllProjects, 0);
    let keys: Vec<&str> = all.iter().map(|g| g.key.as_str()).collect();
    assert_eq!(keys, vec!["s1", "s2", "s3"]);
    assert_eq!(all[0].files, vec![0, 2]);
    assert_eq!(all[0].mtime, 50);
    let only_a = order_sessions(&cands, &Some("-a".into()), Scope::CurrentProjectAll, 0);
    assert_eq!(only_a.len(), 2);
    let recent = order_sessions(&cands, &None, Scope::CurrentProjectRecent, 1);
    assert_eq!(recent.len(), 1);
    assert_eq!(recent[0].key, "s1");
}

#[test]
fn session_key_and_project_for() {
    assert_eq!(session_key("/p/-a/abc/subagents/agent-1.jsonl"), "abc");
    assert_eq!(session_key("/p/-a/def.jsonl"), "def");
    let dirs = vec!["/p/-a".to_string(), "/p/-b".to_string()];
    assert_eq!(project_for("/p/-b/x.jsonl", &dirs), "-b");
    assert_eq!(project_for("/q/-c/x.jsonl", &dirs), "-c");
}

fn msg(role: &str, text: &str, ts: &str) -> Message {
    Message { role: role.into(), text: text.into(), timestamp: ts.into(), session_id: "s".into() }
}

#[test]
fn scoring_caps_windows_and_counts_documents() {
    let q = compile("acl jellyfin");
    let chatty = SessionFiles {
        files: vec![ParsedFile {
            messages: vec![
                msg("user", "acl one", "2026-01-01T00:00:00Z"),
                msg("user", "x", "2026-01-01T00:00:00Z"),
                msg("user", "x", "2026-01-01T00:00:00Z"),
                msg("user", "acl two", "2026-01-01T00:00:00Z"),
                msg("user", "x", "2026-01-01T00:00:00Z"),
                msg("user", "x", "2026-01-01T00:00:00Z"),
                msg("user", "acl three", "2026-01-01T00:00:00Z"),
            ],
            project: "-p".into(),
        }],
        mtime: 5,
    };
    let other = SessionFiles {
        files: vec![ParsedFile { messages: vec![msg("user", "jellyfin and acl", "2026-02-01T00:00:00Z")], project: "-q".into() }],
        mtime: 7,
    };
    let none = SessionFiles {
        files: vec![ParsedFile { messages: vec![msg("user", "nothing here", "2026-02-01T00:00:00Z")], project: "-q".into() }],
        mtime: 9,
    };
    let (scored, df) = score_sessions(&vec![chatty, other, none], &q, 0);
    assert_eq!(scored.len(), 2);
    assert_eq!(scored[0].windows.len(), 2);
    assert_eq!(scored[0].matched_terms, vec![0]);
    assert_eq!(scored[1].matched_terms, vec![0, 1]);
    assert_eq!(df, vec![2, 1]);
}

fn win(id: &str) -> SessionResult {
    SessionResult { session_id: id.into(), project_dir: "-p".into(), first_match_timestamp: "t".into(), match_context: vec![] }
}

#[test]
fn windows_collected_in_rank_order_up_to_max() {
    let ranked = vec![
        ScoredSession { matched_terms: vec![], mtime: 0, windows: vec![win("a"), win("a")] },
        ScoredSession { matched_terms: vec![], mtime: 0, windows: vec![win("b")] },
    ];
    let out = collect_windows(ranked, 2);
    let ids: Vec<&str> = out.iter().map(|r| r.session_id.as_str()).collect();
    assert_eq!(ids, vec!["a", "a"]);
}

#[test]
fn window_cap_spans_all_files_of_a_session() {
    let q = compile("acl");
    let file = |p: &str, a: &str, b: &str| ParsedFile {
        messages: vec![
            msg("user", a, "2026-01-01T00:00:00Z"),
            msg("user", "x", "2026-01-01T00:00:00Z"),
            msg("user", "x", "2026-01-01T00:00:00Z"),
            msg("user", b, "2026-01-01T00:00:00Z"),
        ],
        project: p.into(),
    };
    let session = SessionFiles { files: vec![file("-main", "acl 1", "acl 2"), file("-sub", "acl 3", "acl 4")], mtime: 1 };
    let (scored, _) = score_sessions(&vec![session], &q, 0);
    assert_eq!(scored.len(), 1);
    assert_eq!(scored[0].windows.len(), PER_SESSION_WINDOW_CAP);
    assert!(scored[0].windows.iter().all(|w| w.project_dir == "-main"));
}

#[test]
fn huge_context_is_refused_only_where_a_window_is_built() {
    let q = compile("acl");
    let session = |text: &str, ts: &str| SessionFiles {
        files: vec![ParsedFile { messages: vec![msg("user", "x", ts), msg("user", text, ts)], project: "-p".into() }],
        mtime: 1,
    };
    let no_match = vec![session("nothing", "2026-01-01T00:00:00Z")];
    assert!(sessions_fit(&no_match, &q, usize::MAX));
    let (scored, _) = score_tier(&no_match, &q, usize::MAX).unwrap();
    assert!(scored.is_empty());
    let matching = vec![session("acl", "2026-01-01T00:00:00Z")];
    assert!(!sessions_fit(&matching, &q, usize::MAX - 1));
    assert!(score_tier(&matching, &q, usize::MAX - 1).is_none());
    assert!(sessions_fit(&matching, &q, usize::MAX - 2));
    let dated = compile("acl before:2025-01-01");
    assert!(sessions_fit(&matching, &dated, usize::MAX));
    let (scored, _) = score_tier(&matching, &q, 1).unwrap();
    assert_eq!(scored.len(), 1);
}
