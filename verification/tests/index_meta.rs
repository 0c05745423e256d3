use rrecall::index::{chunk_hash, plan_chunk_reuse, session_unchanged, vectors_match_entries, Manifest, DIM};

#[test]
fn test_chunk_hash_stable_and_nonzero() {
    assert_eq!(chunk_hash("user: hello"), chunk_hash("user: hello"));
    assert_ne!(chunk_hash("user: hello"), chunk_hash("user: hello!"));
    assert_ne!(chunk_hash(""), 0);
}

#[test]
fn chunk_hash_is_fnv1a() {
    // FNV-1a 64 of the empty input is the offset basis; of "a" a known value.
    assert_eq!(chunk_hash(""), 0xcbf29ce484222325);
    assert_eq!(chunk_hash("a"), 0xaf63dc4c8601ec8c);
}

#[test]
fn vectors_must_align_with_entries() {
    assert!(vectors_match_entries(4 * DIM, 1));
    assert!(vectors_match_entries(4 * DIM * 3 + 3, 3));
    assert!(!vectors_match_entries(8, 1));
    assert!(vectors_match_entries(0, 0));
    assert!(!vectors_match_entries(usize::MAX, usize::MAX));
}

#[test]
fn manifest_insert_get_and_merge() {
    let mut fresh = Manifest::new();
    fresh.insert("processed.jsonl", (2, 2));
    let mut old = Manifest::new();
    old.insert("unreached.jsonl", (1, 1));
    old.insert("processed.jsonl", (9, 9));
    let merged = Manifest::merged_with(&old, &fresh);
    assert_eq!(merged.get("unreached.jsonl"), Some((1, 1)));
    assert_eq!(merged.get("processed.jsonl"), Some((2, 2)));
    assert_eq!(merged.get("missing.jsonl"), None);
    fresh.insert("processed.jsonl", (3, 4));
    assert_eq!(fresh.get("processed.jsonl"), Some((3, 4)));
    assert_eq!(fresh.files.len(), 1);
}

#[test]
fn session_reuse_decision() {
    let mut old = Manifest::new();
    old.insert("a.jsonl", (10, 100));
    old.insert("b.jsonl", (11, 200));
    let same = vec![("a.jsonl".to_string(), (10, 100)), ("b.jsonl".to_string(), (11, 200))];
    let touched = vec![("a.jsonl".to_string(), (10, 100)), ("b.jsonl".to_string(), (12, 200))];
    let added = vec![("c.jsonl".to_string(), (1, 1))];
    assert!(session_unchanged(true, &old, &same));
    assert!(!session_unchanged(false, &old, &same));
    assert!(!session_unchanged(true, &old, &touched));
    assert!(!session_unchanged(true, &old, &added));
}

#[test]
fn chunk_reuse_plan_takes_first_known_hash() {
    let old = vec![0, 7, 9, 7];
    let new = vec![7, 5, 9, 0];
    assert_eq!(plan_chunk_reuse(&old, &new), vec![Some(1), None, Some(2), None]);
}

#[test]
fn recorded_signatures_make_the_next_build_reuse() {
    let files = vec![("s/a.jsonl".to_string(), (5, 50)), ("s/subagents/x.jsonl".to_string(), (6, 60))];
    let mut fresh = Manifest::new();
    for (k, sig) in &files {
        fresh.insert(k, *sig);
    }
    let mut old = Manifest::new();
    old.insert("s/a.jsonl", (1, 1));
    old.insert("other.jsonl", (2, 2));
    let merged = Manifest::merged_with(&old, &fresh);
    assert!(session_unchanged(true, &fresh, &files));
    assert!(session_unchanged(true, &merged, &files));
    assert!(!session_unchanged(true, &old, &files));
}

#[test]
fn unchanged_chunk_text_keeps_its_vector() {
    let kept = chunk_hash("user: same window");
    let old = vec![0, chunk_hash("user: gone"), kept, kept];
    let new = vec![chunk_hash("user: brand new"), kept];
    assert_eq!(plan_chunk_reuse(&old, &new), vec![None, Some(2)]);
}
