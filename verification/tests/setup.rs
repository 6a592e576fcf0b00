use devlog::setup::{clean_project_path, hook_update, is_git_dir, is_skipped_dir, project_argument, HookAction};

const LINE: &str = r#"printf 'commit|%s' "$(pwd)" | nc -U ~/.devlog/devlogd.sock 2>/dev/null || true"#;

#[test]
fn dragged_paths_are_cleaned() {
    assert_eq!(clean_project_path("  '/home/me/My Project'  "), "/home/me/My Project");
    assert_eq!(clean_project_path("\"/tmp/x\"\n"), "/tmp/x");
    assert_eq!(clean_project_path("/plain"), "/plain");
    assert_eq!(clean_project_path(" ' \"  "), " ");
}

#[test]
fn empty_project_argument_asks() {
    assert_eq!(project_argument(Some("p".to_string())), Some("p".to_string()));
    assert_eq!(project_argument(Some(String::new())), None);
    assert_eq!(project_argument(None), None);
}

#[test]
fn dependency_dirs_are_skipped() {
    assert!(is_skipped_dir("node_modules"));
    assert!(is_skipped_dir("target"));
    assert!(is_skipped_dir(".cache"));
    assert!(!is_skipped_dir("src"));
    assert!(is_git_dir(true, ".git"));
    assert!(!is_git_dir(false, ".git"));
    assert!(!is_git_dir(true, ".github"));
}

#[test]
fn new_hook_is_a_script() {
    match hook_update(None) {
        HookAction::Create(t) => assert_eq!(t, format!("#!/bin/sh\n{LINE}\n")),
        _ => panic!("expected a new hook"),
    }
}

#[test]
fn existing_hook_gets_the_line_appended() {
    match hook_update(Some("#!/bin/sh\necho hi\n")) {
        HookAction::Append(t) => assert_eq!(t, format!("\n# devlog\n{LINE}\n")),
        _ => panic!("expected an addition"),
    }
}

#[test]
fn hook_install_is_idempotent() {
    let created = match hook_update(None) {
        HookAction::Create(t) => t,
        _ => panic!("expected a new hook"),
    };
    assert!(matches!(hook_update(Some(&created)), HookAction::Skip));
    let existing = "#!/bin/sh\necho hi\n".to_string();
    let appended = match hook_update(Some(&existing)) {
        HookAction::Append(t) => existing + &t,
        _ => panic!("expected an addition"),
    };
    assert!(matches!(hook_update(Some(&appended)), HookAction::Skip));
}
