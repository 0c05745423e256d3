use rrecall::query::{apply_filter_matches, compile, compile_ast, extract_filters, matches_text, Filters, Occur, QueryAst, QueryLeaf};

#[test]
fn test_or_recall_friendly_default() {
    let q = compile("acl import permission");
    assert!(matches_text(&q, "discussion about acl inheritance"));
}

#[test]
fn test_explicit_and_requires_all() {
    let q = compile("acl AND jellyfin");
    assert!(matches_text(&q, "acl problem in jellyfin playback"));
    assert!(!matches_text(&q, "acl problem only"));
}

#[test]
fn test_not_excludes() {
    let q = compile("acl NOT smb");
    assert!(matches_text(&q, "acl on nfs"));
    assert!(!matches_text(&q, "acl on smb share"));
}

#[test]
fn test_phrase() {
    let q = compile("\"finished downloads\"");
    assert!(matches_text(&q, "moving finished downloads into place"));
    assert!(!matches_text(&q, "finished the downloads later"));
}

#[test]
fn test_positive_phrases_exclude_negated() {
    let q = compile("acl NOT smb");
    assert!(q.positive_phrases.contains(&"acl".to_string()));
    assert!(!q.positive_phrases.contains(&"smb".to_string()));
}

#[test]
fn test_empty_residual_matches_all() {
    let q = compile("role:user");
    assert!(matches_text(&q, "anything at all"));
    assert_eq!(q.filters.role, Some("user".to_string()));
}

#[test]
fn test_malformed_query_matches_all() {
    let q = compile("\"");
    assert!(matches_text(&q, "anything at all"));
    assert!(q.positive_phrases.is_empty());
}

#[test]
fn test_extract_role_and_residual() {
    let (f, residual) = extract_filters("role:user acl OR permission");
    assert_eq!(f.role, Some("user".to_string()));
    assert_eq!(residual, "acl OR permission");
}

#[test]
fn test_extract_all_fields() {
    let (f, residual) = extract_filters("project:alpha.sh after:2026-05-15 before:2026-05-20 jellyfin");
    assert_eq!(f.project, Some("alpha.sh".to_string()));
    assert_eq!(f.after, Some("2026-05-15".to_string()));
    assert_eq!(f.before, Some("2026-05-20".to_string()));
    assert_eq!(residual, "jellyfin");
}

#[test]
fn test_no_fields() {
    let (f, residual) = extract_filters("acl import permission");
    assert_eq!(f, Filters::default());
    assert_eq!(residual, "acl import permission");
}

#[test]
fn test_value_stops_at_paren() {
    let (f, _residual) = extract_filters("(role:user) acl");
    assert_eq!(f.role, Some("user".to_string()), "value must not capture the closing paren");
}

#[test]
fn test_duplicate_key_last_wins() {
    let (f, _residual) = extract_filters("role:user role:assistant foo");
    assert_eq!(f.role, Some("assistant".to_string()));
}

#[test]
fn filter_keys_are_case_insensitive_and_role_lowercased() {
    let (f, residual) = extract_filters("ROLE:User Project:MyProj x");
    assert_eq!(f.role, Some("user".to_string()));
    assert_eq!(f.project, Some("MyProj".to_string()));
    assert_eq!(residual, "x");
}

#[test]
fn positive_phrases_are_lowercased_in_order() {
    let q = compile("Alpha OR \"Beta Gamma\" -delta");
    assert_eq!(q.positive_phrases, vec!["alpha".to_string(), "beta gamma".to_string()]);
}

#[test]
fn regex_leaf_matches_case_insensitively() {
    let q = compile("/jelly.*n/");
    assert!(matches_text(&q, "a jellyfin thing"));
    assert!(!matches_text(&q, "nothing"));
}

#[test]
fn filter_matches_last_key_wins_and_residual_is_joined() {
    let groups = vec![
        (Some("ROLE".to_string()), Some("Assistant".to_string())),
        (Some("project".to_string()), Some("a".to_string())),
        (Some("Project".to_string()), Some("b".to_string())),
        (Some("before".to_string()), None),
    ];
    let pieces = vec![" acl ".to_string(), " ".to_string(), "jellyfin".to_string(), "".to_string(), " ".to_string()];
    let (f, residual) = apply_filter_matches(&groups, &pieces);
    assert_eq!(f.role.as_deref(), Some("assistant"));
    assert_eq!(f.project.as_deref(), Some("b"));
    assert_eq!(f.before.as_deref(), Some(""));
    assert_eq!(f.after, None);
    assert_eq!(residual, "acl  jellyfin");
}

#[test]
fn compiled_tree_yields_unnegated_phrases() {
    let leaf = |s: &str| QueryAst::Leaf(Box::new(QueryLeaf::Literal(s.to_string())));
    let ast = QueryAst::Clause(vec![
        (Some(Occur::Must), leaf("Acl")),
        (Some(Occur::MustNot), leaf("tls")),
        (None, QueryAst::Boost(Box::new(leaf("Jellyfin")))),
    ]);
    let q = compile_ast(Filters::default(), Some(ast));
    assert_eq!(q.positive_phrases, vec!["acl".to_string(), "jellyfin".to_string()]);
    assert!(matches_text(&q, "acl and jellyfin"));
    assert!(!matches_text(&q, "acl over tls"));
    let empty = compile_ast(Filters::default(), None);
    assert!(empty.positive_phrases.is_empty());
    assert!(matches_text(&empty, "anything"));
}
