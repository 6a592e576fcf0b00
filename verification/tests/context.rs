use devlog::context::{
    build, commands_report, file_counts_fit_exec, files_report, quote_identifier, truncate,
    ParsedEvent,
};
use devlog::event::{CommitPayload, Event};
use devlog::payload::commit_payload_json;
use devlog::context::commits_report;
use devlog::json::{payload_section, JsonValue};

fn obj(members: Vec<(&str, JsonValue)>) -> JsonValue {
    JsonValue::Object(members.into_iter().map(|(k, v)| (k.to_string(), v)).collect())
}

fn st(s: &str) -> JsonValue {
    JsonValue::Str(s.to_string())
}

fn ev(ts: i64, payload: &str, json: JsonValue) -> ParsedEvent {
    ParsedEvent {
        event: Event {
            id: 1,
            ts,
            kind: "x".to_string(),
            project: "p".to_string(),
            payload: payload.to_string(),
        },
        json,
    }
}

fn file_ev(path: &str) -> ParsedEvent {
    ev(0, "{}", obj(vec![("FileChange", obj(vec![("path", st(path))]))]))
}

#[test]
fn truncate_cuts_and_marks() {
    assert_eq!(truncate("hello", 10), "hello");
    assert_eq!(truncate("hello", 5), "hello");
    assert_eq!(truncate("hello", 3), "hel...");
    assert_eq!(truncate("héllo", 2), "hé...");
    assert_eq!(truncate("", 0), "");
}

#[test]
fn quote_identifier_doubles_quotes() {
    assert_eq!(quote_identifier("events"), "\"events\"");
    assert_eq!(quote_identifier("a\"b"), "\"a\"\"b\"");
    assert_eq!(quote_identifier(""), "\"\"");
}

#[test]
fn payload_section_prefers_named_section() {
    let inner = obj(vec![("message", st("m"))]);
    let wrapped = obj(vec![("Commit", inner)]);
    match payload_section(&wrapped, "Commit") {
        JsonValue::Object(m) => assert_eq!(m[0].0, "message"),
        _ => panic!("expected the section"),
    }
    let bare = obj(vec![("message", st("m"))]);
    match payload_section(&bare, "Commit") {
        JsonValue::Object(m) => assert_eq!(m[0].0, "message"),
        _ => panic!("expected the payload itself"),
    }
}

#[test]
fn commits_are_reported_with_files_and_counts() {
    let c = obj(vec![(
        "Commit",
        obj(vec![
            ("message", st("add parser")),
            ("files_changed", JsonValue::Array(vec![st("a.rs"), st("b.rs"), JsonValue::Int(3)])),
            ("insertions", JsonValue::Int(10)),
            ("deletions", JsonValue::Int(2)),
        ]),
    )]);
    let bare = obj(vec![("message", st("bare"))]);
    let commits = Ok(vec![ev(100, "{}", c), ev(200, "not json", JsonValue::Null), ev(300, "{}", bare)]);
    let out = build(&commits, &Ok(vec![]), &Ok(vec![]));
    assert_eq!(
        out,
        "COMMITS TODAY (3):\n  100  add parser\n     files: a.rs, b.rs,   +10 -2\n  200  \n     files:   +0 -0\n  300  bare\n     files:   +0 -0\n\nFILES TOUCHED (0):\n\nSHELL COMMANDS TODAY (0):\n"
    );
}

#[test]
fn failed_queries_are_reported() {
    let out = build(&Err("db locked".to_string()), &Err("e2".to_string()), &Err("e3".to_string()));
    assert_eq!(
        out,
        "COMMITS TODAY: query failed: db locked\n\nFILES TOUCHED: query failed: e2\n\nSHELL COMMANDS TODAY: query failed: e3\n"
    );
}

#[test]
fn files_are_ranked_by_saves_then_first_save() {
    let files = Ok(vec![
        file_ev("b.rs"),
        file_ev("a.rs"),
        file_ev("a.rs"),
        ev(0, "{}", obj(vec![("path", st("c.rs"))])),
        file_ev("b.rs"),
        file_ev("d.rs"),
        ev(0, "{}", JsonValue::Null),
    ]);
    assert_eq!(
        files_report(&files),
        "\nFILES TOUCHED (4):\n  b.rs  (2 saves)\n  a.rs  (2 saves)\n  c.rs  (1 saves)\n  d.rs  (1 saves)\n"
    );
}

#[test]
fn only_eight_files_are_listed() {
    let mut v = Vec::new();
    for i in 0..10 {
        for _ in 0..(i + 1) {
            v.push(file_ev(&format!("f{i}")));
        }
    }
    let out = files_report(&Ok(v));
    assert!(out.starts_with("\nFILES TOUCHED (10):\n  f9  (10 saves)\n  f8  (9 saves)\n"));
    assert_eq!(out.lines().count(), 1 + 1 + 8);
    assert!(out.ends_with("  f2  (3 saves)\n"));
}

#[test]
fn commands_fall_back_and_are_cut() {
    let long = "x".repeat(200);
    let cmds = Ok(vec![
        ev(1, "{}", obj(vec![("ShellCommand", obj(vec![("command", st("cargo test"))]))])),
        ev(2, "{}", obj(vec![("cmd", st("ls"))])),
        ev(3, "{}", obj(vec![("line", st("pwd"))])),
        ev(4, "raw payload", JsonValue::Null),
        ev(5, "{}", obj(vec![("command", st(&long))])),
    ]);
    let out = commands_report(&cmds);
    let expected = format!(
        "\nSHELL COMMANDS TODAY (5):\n  1  cargo test\n  2  ls\n  3  pwd\n  4  raw payload\n  5  {}...\n",
        "x".repeat(160)
    );
    assert_eq!(out, expected);
}

#[test]
fn only_eight_commands_are_listed() {
    let v: Vec<ParsedEvent> =
        (0..12).map(|i| ev(i, "{}", obj(vec![("cmd", st(&format!("c{i}")))]))).collect();
    let out = commands_report(&Ok(v));
    assert!(out.starts_with("\nSHELL COMMANDS TODAY (12):\n"));
    assert_eq!(out.lines().count(), 2 + 8);
    assert!(out.ends_with("  7  c7\n"));
}

#[test]
fn file_counts_fit_for_ordinary_days() {
    assert!(file_counts_fit_exec(&Err("no table".to_string())));
    assert!(file_counts_fit_exec(&Ok(vec![file_ev("a"), file_ev("b"), file_ev("a")])));
    assert!(file_counts_fit_exec(&Ok(Vec::new())));
}

#[test]
fn quoted_identifiers_read_back() {
    let q = quote_identifier("we\"ird\"\"name");
    assert_eq!(q, "\"we\"\"ird\"\"\"\"name\"");
    assert!(q.starts_with('"') && q.ends_with('"'));
    assert_eq!(q.len(), "we\"ird\"\"name".len() + 3 + 2);
    assert_eq!(q[1..q.len() - 1].replace("\"\"", "\""), "we\"ird\"\"name");
}

#[test]
fn stored_commit_reads_back_in_the_report() {
    let p = CommitPayload {
        hash: "abc".to_string(),
        message: "fix: parser".to_string(),
        files_changed: vec!["src/a.rs".to_string(), "b c.md".to_string()],
        insertions: 7,
        deletions: 2,
        branch: "main".to_string(),
    };
    let r = commits_report(&Ok(vec![ev(1714550400, "{}", commit_payload_json(&p))]));
    assert_eq!(
        r,
        "COMMITS TODAY (1):\n  1714550400  fix: parser\n     files: src/a.rs, b c.md  +7 -2\n"
    );
}
