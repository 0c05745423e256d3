use rrecall::scan::{is_jsonl, rg_args, rg_invocation, rg_output_files};

#[test]
fn test_rg_args_shape() {
    let args = rg_args(&vec!["acl".into(), "jellyfin".into()], &vec!["/tmp/p".to_string()]);
    assert_eq!(&args[0..5], &["-l", "-i", "-F", "--glob", "*.jsonl"]);
    assert!(args.windows(2).any(|w| w == ["-e", "acl"]));
    assert!(args.windows(2).any(|w| w == ["-e", "jellyfin"]));
    assert_eq!(args.last().unwrap(), "/tmp/p");
}

#[test]
fn test_no_phrases_means_fallback() {
    assert!(rg_invocation(&vec![], &vec!["/tmp".to_string()]).is_none());
}

#[test]
fn test_is_jsonl() {
    assert!(is_jsonl("a/b.jsonl"));
    assert!(!is_jsonl("a/b.txt"));
}

#[test]
fn rg_output_lines_and_exit_codes() {
    assert_eq!(
        rg_output_files(true, Some(0), "/a/x.jsonl\n\n/b/y.jsonl\r\n/c/z.jsonl"),
        Some(vec!["/a/x.jsonl".to_string(), "/b/y.jsonl".to_string(), "/c/z.jsonl".to_string()])
    );
    assert_eq!(rg_output_files(false, Some(1), ""), Some(vec![]));
    assert_eq!(rg_output_files(false, Some(2), "/a/x.jsonl\n"), None);
    assert_eq!(rg_output_files(false, None, ""), None);
}
