use devlog::git::{
    classify_log_line, convert_datetime_to_i64, git_log_lines, hash_path, parse_ipc_message,
    parse_numstat, try_convert_datetime_to_i64, LogLine,
};
use devlog::text::chars_of;

#[test]
fn git_dates_become_timestamps() {
    assert_eq!(convert_datetime_to_i64("2024-05-01 10:00:00 +0200"), 1714550400);
    assert_eq!(convert_datetime_to_i64("  2024-05-01 08:00:00 +0000\n"), 1714550400);
    assert_eq!(try_convert_datetime_to_i64("2024-05-01 10:00:00 +0200"), Some(1714550400));
    assert_eq!(try_convert_datetime_to_i64("yesterday"), None);
}

#[test]
fn project_paths_hash_to_hex_sha256() {
    assert_eq!(hash_path(""), "e3b0c44298fc1c149afbf4c8996fb92427ae41e4649b934ca495991b7852b855");
    assert_eq!(
        hash_path("/home/me/proj"),
        "4c3b4937ddaa21c332cba088d92b4d242d3bc33a6e82ec6ed46c2bbb31262ed3"
    );
}

#[test]
fn log_lines_are_split_in_three() {
    match classify_log_line(&chars_of("abc|fix: a|b|2024-05-01 10:00:00 +0200")) {
        LogLine::Commit { hash, message, date } => {
            assert_eq!(hash, "abc");
            assert_eq!(message, "fix: a");
            assert_eq!(date, "b|2024-05-01 10:00:00 +0200");
        }
        _ => panic!("expected a commit"),
    }
    assert!(matches!(classify_log_line(&chars_of("   ")), LogLine::Blank));
    match classify_log_line(&chars_of("abc|only two")) {
        LogLine::Invalid(l) => assert_eq!(l, "abc|only two"),
        _ => panic!("expected an invalid line"),
    }
    assert!(matches!(classify_log_line(&chars_of("no bars")), LogLine::Invalid(_)));
}

#[test]
fn log_output_is_read_line_by_line() {
    let lines = git_log_lines("h1|m1|d1\n\nbad\nh2|m2|d2\n");
    assert_eq!(lines.len(), 4);
    assert!(matches!(&lines[0], LogLine::Commit { hash, .. } if hash == "h1"));
    assert!(matches!(lines[1], LogLine::Blank));
    assert!(matches!(lines[2], LogLine::Invalid(_)));
    assert!(matches!(&lines[3], LogLine::Commit { message, .. } if message == "m2"));
}

#[test]
fn numstat_is_totalled() {
    let t = parse_numstat("10\t2\tsrc/main.rs\n-\t-\tlogo.png\n3\t0\tdocs/My Notes.md\nshort line\n").unwrap();
    assert_eq!(t.insertions, 13);
    assert_eq!(t.deletions, 2);
    assert_eq!(t.files, vec!["src/main.rs", "logo.png", "docs/My Notes.md"]);
    let empty = parse_numstat("").unwrap();
    assert_eq!((empty.insertions, empty.deletions, empty.files.len()), (0, 0, 0));
}

#[test]
fn numstat_overflow_is_refused() {
    let big = format!("{}\t0\ta\n1\t0\tb\n", i64::MAX);
    assert!(parse_numstat(&big).is_none());
    let ok = format!("{}\t0\ta\n-1\t0\tb\n", i64::MAX);
    assert_eq!(parse_numstat(&ok).unwrap().insertions, i64::MAX - 1);
}

#[test]
fn hook_messages_name_the_project() {
    assert_eq!(parse_ipc_message("commit|/home/me/proj\n"), Some("/home/me/proj".to_string()));
    assert_eq!(parse_ipc_message("commit|"), Some(String::new()));
    assert_eq!(parse_ipc_message("push|/x"), None);
    assert_eq!(parse_ipc_message(""), None);
}
