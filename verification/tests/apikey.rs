use devlog::apikey::{
    api_flow_new, api_key_from_sources, api_mode, api_step, parse_api_key, remove_api_key,
    show_message, show_message_for_config, upsert_api_key, ApiAction, ApiEvent, ApiMode, ApiPhase, MAX_VERIFY_ATTEMPTS,
};

#[test]
fn key_is_read_from_first_key_line() {
    assert_eq!(
        parse_api_key("A=1\nOPENROUTER_API_KEY=  sk-1 \nOPENROUTER_API_KEY=sk-2\n"),
        Some("sk-1".to_string())
    );
    assert_eq!(parse_api_key("A=1\n"), None);
    assert_eq!(parse_api_key(""), None);
    assert_eq!(parse_api_key("OPENROUTER_API_KEY=sk\r\n"), Some("sk".to_string()));
    assert_eq!(parse_api_key(" OPENROUTER_API_KEY=sk"), None);
}

#[test]
fn environment_comes_before_the_file() {
    let file = Some("OPENROUTER_API_KEY=from-file\n".to_string());
    assert_eq!(
        api_key_from_sources(Some("env1".to_string()), Some("env2".to_string()), file.clone()),
        Some("env1".to_string())
    );
    assert_eq!(
        api_key_from_sources(None, Some("env2".to_string()), file.clone()),
        Some("env2".to_string())
    );
    assert_eq!(api_key_from_sources(None, None, file), Some("from-file".to_string()));
    assert_eq!(api_key_from_sources(None, None, None), None);
}

#[test]
fn saving_replaces_the_key_line() {
    assert_eq!(
        upsert_api_key("A=1\nOPENROUTER_API_KEY=old\nB=2", "new"),
        "A=1\nB=2\nOPENROUTER_API_KEY=new\n"
    );
    assert_eq!(upsert_api_key("", "k"), "OPENROUTER_API_KEY=k\n");
}

#[test]
fn saved_key_is_read_back() {
    for existing in ["", "A=1\nOPENROUTER_API_KEY=old\n", "x\r\nOPENROUTER_API_KEY=a\nOPENROUTER_API_KEY=b"] {
        let saved = upsert_api_key(existing, "sk-or-v1-abc");
        assert_eq!(parse_api_key(&saved), Some("sk-or-v1-abc".to_string()));
    }
}

#[test]
fn clearing_removes_every_key_line() {
    let cleared = remove_api_key("A=1\nOPENROUTER_API_KEY=old\nB=2\nOPENROUTER_API_KEY=x");
    assert_eq!(cleared, "A=1\nB=2\n");
    assert_eq!(parse_api_key(&cleared), None);
    assert_eq!(remove_api_key(""), "");
}

#[test]
fn show_comes_before_clear() {
    assert_eq!(api_mode(true, true), ApiMode::Show);
    assert_eq!(api_mode(false, true), ApiMode::Clear);
    assert_eq!(api_mode(false, false), ApiMode::Store);
    assert_eq!(show_message(&Some("k".to_string())), "Current API key: k");
    assert_eq!(show_message(&None), "No API key saved.");
}

#[test]
fn saved_key_is_kept_unless_replaced() {
    let (f, a) = api_step(api_flow_new(None), ApiEvent::Started { has_saved_key: true });
    assert!(matches!(a, ApiAction::AskReplace));
    assert_eq!(f.phase, ApiPhase::AwaitReplace);
    let (f, a) = api_step(f, ApiEvent::ReplaceAnswered(false));
    assert!(matches!(a, ApiAction::KeepExisting));
    assert_eq!(f.phase, ApiPhase::Finished);
}

#[test]
fn given_key_is_verified_and_saved_trimmed() {
    let (f, a) =
        api_step(api_flow_new(Some(" sk-1 ".to_string())), ApiEvent::Started { has_saved_key: false });
    match a {
        ApiAction::Verify(k) => assert_eq!(k, " sk-1 "),
        _ => panic!("expected a verification"),
    }
    let (f, a) = api_step(f, ApiEvent::Verified(true));
    match a {
        ApiAction::Save(k) => assert_eq!(k, "sk-1"),
        _ => panic!("expected a save"),
    }
    assert_eq!(f.phase, ApiPhase::Finished);
}

#[test]
fn three_rejected_keys_give_up() {
    let (mut f, a) = api_step(api_flow_new(None), ApiEvent::Started { has_saved_key: false });
    assert!(matches!(a, ApiAction::PromptKey { retry: false }));
    let mut verifications = 0;
    let mut last = a;
    for i in 0..10 {
        let (f2, a2) = api_step(f, ApiEvent::KeyEntered(format!("k{i}")));
        f = f2;
        match a2 {
            ApiAction::Verify(_) => {
                verifications += 1;
                let (f3, a3) = api_step(f, ApiEvent::Verified(false));
                assert!(matches!(a3, ApiAction::PromptKey { retry: true }));
                f = f3;
            }
            other => {
                last = other;
                break;
            }
        }
    }
    assert_eq!(verifications, MAX_VERIFY_ATTEMPTS);
    match last {
        ApiAction::GiveUp(k) => assert_eq!(k, "k3"),
        _ => panic!("expected to give up"),
    }
}

#[test]
fn events_out_of_turn_are_ignored() {
    let (f, a) = api_step(api_flow_new(None), ApiEvent::Verified(true));
    assert!(matches!(a, ApiAction::Ignore));
    assert_eq!(f.phase, ApiPhase::Begin);
}

#[test]
fn show_reads_the_key_saved_in_the_config() {
    assert_eq!(
        show_message_for_config(Some("A=1\nOPENROUTER_API_KEY= sk-x \n".to_string())),
        "Current API key: sk-x"
    );
    assert_eq!(show_message_for_config(Some("A=1\n".to_string())), "No API key saved.");
    assert_eq!(show_message_for_config(None), "No API key saved.");
}
