use rrecall::chunk::chunk_session;
use rrecall::parser::Message;

fn m(r: &str, t: &str) -> Message {
    Message {
        role: r.into(),
        text: t.into(),
        timestamp: "2026-01-01T00:00:00Z".into(),
        session_id: "s".into(),
    }
}

#[test]
fn test_chunks_cover_and_overlap() {
    let msgs: Vec<Message> = (0..5).map(|i| m("user", &format!("line {i}"))).collect();
    let cs = chunk_session(&msgs);
    assert!(!cs.is_empty());
    assert_eq!(cs[0].offset, 0);
    assert!(cs[0].text.contains("line 0") && cs[0].text.contains("line 2"));
    assert!(cs.last().unwrap().text.contains("line 4"));
}

#[test]
fn test_empty_session() {
    assert!(chunk_session(&[]).is_empty());
}

#[test]
fn chunk_windows_exact_text_and_offsets() {
    let msgs: Vec<Message> = (0..6).map(|i| m(if i % 2 == 0 { "user" } else { "assistant" }, &format!("t{i}"))).collect();
    let cs = chunk_session(&msgs);
    assert_eq!(cs.len(), 3);
    assert_eq!(cs[0].text, "user: t0\nassistant: t1\nuser: t2");
    assert_eq!(cs[1].offset, 2);
    assert_eq!(cs[1].text, "user: t2\nassistant: t3\nuser: t4");
    assert_eq!(cs[2].offset, 4);
    assert_eq!(cs[2].text, "user: t4\nassistant: t5");
}

#[test]
fn chunk_single_and_short_sessions() {
    assert_eq!(chunk_session(&[m("user", "only")]).len(), 1);
    assert_eq!(chunk_session(&[m("user", "a"), m("user", "b")]).len(), 1);
    let three: Vec<Message> = (0..3).map(|i| m("user", &format!("{i}"))).collect();
    assert_eq!(chunk_session(&three).len(), 1);
    let seven: Vec<Message> = (0..7).map(|i| m("user", &format!("{i}"))).collect();
    assert_eq!(chunk_session(&seven).len(), 3);
}
