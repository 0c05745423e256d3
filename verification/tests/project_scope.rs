use rrecall::hybrid::{dense_hits_in_scope, dense_in_scope};
use rrecall::index::EntryMeta;
use rrecall::scope::{ancestor_names, encode_path, project_in_scope, select_ancestor_dirs, select_project_dirs};

fn test_dirs() -> Vec<String> {
    ["-Users-alice", "-Users-alice-ws-kicad", "-Users-alice-ws-kisane", "-Users-other"]
        .iter()
        .map(|s| s.to_string())
        .collect()
}

#[test]
fn test_encode_path() {
    assert_eq!(encode_path("/Users/alice"), "-Users-alice");
    assert_eq!(encode_path("/Users/alice/ws/kicad"), "-Users-alice-ws-kicad");
}

#[test]
fn test_exact_match() {
    let names = test_dirs();
    let dirs = select_project_dirs(&names, "/Users/alice/ws/kicad", false);
    assert_eq!(dirs.len(), 1);
    assert!(names[dirs[0]].ends_with("-Users-alice-ws-kicad"));
}

#[test]
fn test_ancestor_names() {
    assert_eq!(
        ancestor_names("/Users/alice/ws/impostarr"),
        vec!["-Users-alice-ws", "-Users-alice", "-Users"]
    );
    assert!(ancestor_names("/Users").is_empty());
}

#[test]
fn test_resolve_ancestor_dirs_exact_match_only() {
    let names = test_dirs();
    let dirs = select_ancestor_dirs(&names, "/Users/alice/ws/kicad");
    assert_eq!(dirs.len(), 1);
    assert!(names[dirs[0]].ends_with("-Users-alice"));
}

#[test]
fn test_project_in_scope() {
    let enc = "-Users-alice-ws-notes";
    assert!(project_in_scope("-Users-alice-ws-notes", enc));
    assert!(project_in_scope("-Users-alice-ws-notes-scanline", enc));
    assert!(!project_in_scope("-Users-alice-ws-kvmplus", enc));
    assert!(!project_in_scope("-Users-alice-ws-notesbook", enc));
}

#[test]
fn test_parent_dir_includes_children() {
    let dirs = select_project_dirs(&test_dirs(), "/Users/alice", false);
    assert_eq!(dirs.len(), 3);
}

#[test]
fn test_all_projects() {
    let dirs = select_project_dirs(&test_dirs(), "/Users/alice", true);
    assert_eq!(dirs.len(), 4);
}

#[test]
fn test_no_match() {
    let dirs = select_project_dirs(&test_dirs(), "/Users/nobody", false);
    assert!(dirs.is_empty());
}

#[test]
fn encode_path_strips_every_leading_slash() {
    assert_eq!(encode_path("//a/b"), "-a-b");
    assert_eq!(encode_path("rel/x"), "-rel-x");
}

#[test]
fn dense_hits_follow_the_reported_scope() {
    let anc = vec!["-Users-alice".to_string()];
    assert!(dense_in_scope("-Users-alice-ws-kicad", "-Users-alice-ws-kicad", &vec![]));
    assert!(!dense_in_scope("-Users-alice", "-Users-alice-ws-kicad", &vec![]));
    assert!(dense_in_scope("-Users-alice", "-Users-alice-ws-kicad", &anc));
    assert!(!dense_in_scope("-Users-other", "-Users-alice-ws-kicad", &anc));
}

fn entry(sid: &str, project: &str) -> EntryMeta {
    EntryMeta { session_id: sid.into(), project: project.into(), offset: 0, timestamp: "t".into(), hash: 1 }
}

#[test]
fn dense_hits_kept_by_first_entry_project() {
    let entries = vec![
        entry("s1", "-Users-alice-ws-kicad"),
        entry("s2", "-Users-alice"),
        entry("s1", "-Users-other"),
        entry("s3", "-Users-other"),
    ];
    let ids: Vec<String> = ["s3", "s1", "s2", "unknown"].iter().map(|s| s.to_string()).collect();
    let enc = encode_path("/Users/alice/ws/kicad");
    assert_eq!(dense_hits_in_scope(&ids, &entries, &enc, &vec![]), vec![1]);
    let anc = ancestor_names("/Users/alice/ws/kicad");
    assert_eq!(dense_hits_in_scope(&ids, &entries, &enc, &anc), vec![1, 2]);
}

#[test]
fn dense_scope_agrees_with_directory_resolution() {
    let names = test_dirs();
    let wd = "/Users/alice/ws";
    let enc = encode_path(wd);
    let anc = ancestor_names(wd);
    let project = select_project_dirs(&names, wd, false);
    let ancestors = select_ancestor_dirs(&names, wd);
    for (i, n) in names.iter().enumerate() {
        assert_eq!(project.contains(&i), dense_in_scope(n, &enc, &vec![]));
        assert_eq!(project.contains(&i) || ancestors.contains(&i), dense_in_scope(n, &enc, &anc));
    }
}

#[test]
fn joined_subdirectory_is_in_scope() {
    let wd = "/Users/alice/ws";
    let enc = encode_path(wd);
    assert!(project_in_scope(&encode_path(&format!("{wd}/{}", "kicad/lib")), &enc));
    assert!(project_in_scope(&enc, &enc));
}
