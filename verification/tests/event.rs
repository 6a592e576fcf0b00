use devlog::event::{commit_event, CommitPayload, DevlogEvent, EventKind, EventPayload};

fn commit(hash: &str, ts: i64) -> DevlogEvent {
    commit_event(
        "/home/me/proj".to_string(),
        ts,
        hash.to_string(),
        "fix bug".to_string(),
        vec!["src/main.rs".to_string()],
        3,
        1,
        "main".to_string(),
    )
}

#[test]
fn commit_key_has_hash_and_timestamp() {
    assert_eq!(commit("abc123", 1714550400).event_key(), "commit:abc123:1714550400");
    assert_eq!(commit("abc123", -5).event_key(), "commit:abc123:-5");
}

#[test]
fn distinct_commits_get_distinct_keys() {
    let a = commit("abc", 10).event_key();
    let b = commit("abc", 100).event_key();
    let c = commit("abd", 10).event_key();
    assert_ne!(a, b);
    assert_ne!(a, c);
    assert_ne!(b, c);
}

#[test]
fn commit_event_holds_its_parts() {
    let e = commit("abc", 10);
    assert_eq!(e.kind, EventKind::Commit);
    assert_eq!(e.ts, 10);
    assert_eq!(e.project, "/home/me/proj");
    let EventPayload::Commit(CommitPayload { hash, message, files_changed, insertions, deletions, branch }) =
        e.payload;
    assert_eq!(hash, "abc");
    assert_eq!(message, "fix bug");
    assert_eq!(files_changed, vec!["src/main.rs".to_string()]);
    assert_eq!((insertions, deletions), (3, 1));
    assert_eq!(branch, "main");
}

#[test]
fn keys_differ_even_when_hashes_hold_colons() {
    assert_ne!(commit("a:1", 2).event_key(), commit("a", 12).event_key());
    assert_ne!(commit("x:12", 3).event_key(), commit("x", 123).event_key());
    assert_eq!(commit("a:1", 2).event_key(), "commit:a:1:2");
}
