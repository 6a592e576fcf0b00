use devlog::diagnostics::{
    append_bucket_count, build_diagnostics, needs_event_queries_exec, table_count_query,
    DiagnosticsInput, EventDetails, EventPreview, KindCount,
};

#[test]
fn unreadable_table_list_stops_the_report() {
    let input = DiagnosticsInput {
        db_path: "/db".to_string(),
        midnight: 1000,
        tables: Err("no such db".to_string()),
        table_counts: vec![],
        details: None,
    };
    assert_eq!(
        build_diagnostics(&input),
        "DB path: /db\nToday cutoff ts: 1000\n\nTABLE ROW COUNTS:\n  failed to read sqlite_master: no such db\n"
    );
}

#[test]
fn missing_events_table_is_reported() {
    let tables = Ok(vec!["projects".to_string()]);
    assert!(!needs_event_queries_exec(&tables));
    let input = DiagnosticsInput {
        db_path: "/db".to_string(),
        midnight: -5,
        tables,
        table_counts: vec![Err("locked".to_string())],
        details: None,
    };
    assert_eq!(
        build_diagnostics(&input),
        "DB path: /db\nToday cutoff ts: -5\n\nTABLE ROW COUNTS:\n  projects: count failed: locked\n\nEVENTS TABLE: missing, so standup cannot read activity yet\n"
    );
    let empty = DiagnosticsInput {
        db_path: "/db".to_string(),
        midnight: 0,
        tables: Ok(vec![]),
        table_counts: vec![],
        details: None,
    };
    assert!(build_diagnostics(&empty).ends_with(
        "TABLE ROW COUNTS:\n  no tables found\n\nEVENTS TABLE: missing, so standup cannot read activity yet\n"
    ));
}

#[test]
fn full_report_lists_everything() {
    let tables = Ok(vec!["events".to_string(), "projects".to_string()]);
    assert!(needs_event_queries_exec(&tables));
    let input = DiagnosticsInput {
        db_path: "/db".to_string(),
        midnight: 7,
        tables,
        table_counts: vec![Ok(3), Ok(1)],
        details: Some(EventDetails {
            kind_counts: Ok(vec![KindCount { kind: "Commit".to_string(), row_count: 3 }]),
            commit_count: Ok(2),
            file_count: Err("bad".to_string()),
            command_count: Ok(0),
            recent: Ok(vec![EventPreview {
                id: 9,
                ts: 8,
                kind: "Commit".to_string(),
                project: "p".repeat(70),
                payload: "{}".to_string(),
            }]),
        }),
    };
    let expected = format!(
        "DB path: /db\nToday cutoff ts: 7\n\nTABLE ROW COUNTS:\n  events: 3 rows\n  projects: 1 rows\n\nEVENT KINDS:\n  Commit: 3 rows\n\nCONTEXT QUERIES:\n  commits: 2 rows from events WHERE kind IN ('Commit', 'commit') AND ts >= today_cutoff\n  file changes: failed from events WHERE kind IN ('FileChange', 'file_change', 'file') AND ts >= today_cutoff: bad\n  shell commands: 0 rows from events WHERE kind IN ('ShellCommand', 'shell_command', 'cmd') AND ts >= today_cutoff\n\nRECENT EVENTS:\n  #9 8 Commit {}... payload={{}}\n",
        "p".repeat(60)
    );
    assert_eq!(build_diagnostics(&input), expected);
}

#[test]
fn empty_kinds_and_events_say_none() {
    let input = DiagnosticsInput {
        db_path: "d".to_string(),
        midnight: 0,
        tables: Ok(vec!["events".to_string()]),
        table_counts: vec![Ok(0)],
        details: Some(EventDetails {
            kind_counts: Ok(vec![]),
            commit_count: Ok(0),
            file_count: Ok(0),
            command_count: Ok(0),
            recent: Err("x".to_string()),
        }),
    };
    let out = build_diagnostics(&input);
    assert!(out.contains("\nEVENT KINDS:\n  none\n"));
    assert!(out.ends_with("\nRECENT EVENTS:\n  failed: x\n"));
}

#[test]
fn bucket_count_lines() {
    let mut out = String::new();
    append_bucket_count(&mut out, "commits", "desc", &Ok(4));
    append_bucket_count(&mut out, "files", "desc", &Err("boom".to_string()));
    assert_eq!(out, "  commits: 4 rows from desc\n  files: failed from desc: boom\n");
}

#[test]
fn count_queries_quote_the_table() {
    assert_eq!(table_count_query("events"), "SELECT COUNT(*) FROM \"events\"");
    assert_eq!(table_count_query("a\"b"), "SELECT COUNT(*) FROM \"a\"\"b\"");
}
