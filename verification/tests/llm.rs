use devlog::json::JsonValue;
use devlog::llm::{
    bearer_header, boxed_error, key_check_request, missing_key_reply, read_reply, request_summary,
    summary_reply, summary_request, KEY_CHECK_MAX_TOKENS, MODEL, SUMMARY_MAX_TOKENS, SYSTEM_PROMPT,
};

fn obj(members: Vec<(&str, JsonValue)>) -> JsonValue {
    JsonValue::Object(members.into_iter().map(|(k, v)| (k.to_string(), v)).collect())
}

fn reply(content: &str) -> JsonValue {
    obj(vec![(
        "choices",
        JsonValue::Array(vec![obj(vec![("message", obj(vec![("content", JsonValue::Str(content.to_string()))]))])]),
    )])
}

#[test]
fn summary_counts_characters() {
    assert_eq!(
        request_summary("héllo"),
        "POST https://openrouter.ai/api/v1/chat/completions\nmodel: nvidia/nemotron-3-super-120b-a12b:free\nmessages: system prompt + user context (5 chars)\nauthorization: Bearer <redacted>"
    );
}

#[test]
fn boxed_error_keeps_its_message() {
    assert_eq!(boxed_error("boom".to_string()).to_string(), "boom");
}

#[test]
fn reply_content_is_returned() {
    let r = read_reply(200, "200 OK", &Ok(reply("STANDUP")), "{}");
    assert_eq!(r.unwrap(), "STANDUP");
}

#[test]
fn reply_errors_are_explained() {
    let bad_json = read_reply(502, "502 Bad Gateway", &Err("expected value".to_string()), "");
    assert_eq!(bad_json.unwrap_err().message, "invalid JSON from OpenRouter (502 Bad Gateway): expected value");

    let err_body = obj(vec![("error", obj(vec![("message", JsonValue::Str("no credits".to_string()))]))]);
    let failed = read_reply(402, "402 Payment Required", &Ok(err_body), "{}");
    assert_eq!(failed.unwrap_err().message, "OpenRouter returned 402 Payment Required: no credits");

    let failed = read_reply(500, "500 Internal Server Error", &Ok(JsonValue::Null), "null");
    assert_eq!(failed.unwrap_err().message, "OpenRouter returned 500 Internal Server Error: unknown OpenRouter error");

    let err_body = obj(vec![("error", obj(vec![("message", JsonValue::Str("rate limited".to_string()))]))]);
    let failed = read_reply(200, "200 OK", &Ok(err_body), "{}");
    assert_eq!(failed.unwrap_err().message, "OpenRouter error: rate limited");

    let missing = read_reply(200, "200 OK", &Ok(obj(vec![("choices", JsonValue::Array(vec![]))])), "{\"choices\":[]}");
    assert_eq!(
        missing.unwrap_err().message,
        "OpenRouter response missing choices[0].message.content: {\"choices\":[]}"
    );
}

#[test]
fn summary_replies() {
    assert_eq!(summary_reply(Ok("notes".to_string())), "notes");
    assert_eq!(summary_reply(Err(boxed_error("timeout".to_string()))), "failed to call the summary model: timeout");
    assert_eq!(missing_key_reply(), "API key not set. Run `devlog api` to configure it.");
}

#[test]
fn summary_request_carries_prompt_and_report() {
    let r = summary_request("COMMITS TODAY (0):\n");
    assert_eq!(r.model, MODEL);
    assert_eq!(r.max_tokens, SUMMARY_MAX_TOKENS);
    assert_eq!(r.max_tokens, 1000);
    assert_eq!(r.messages.len(), 2);
    assert_eq!((r.messages[0].role.as_str(), r.messages[0].content.as_str()), ("system", SYSTEM_PROMPT));
    assert!(SYSTEM_PROMPT.starts_with("You are a developer's personal scribe.\n"));
    assert!(SYSTEM_PROMPT.ends_with("Only use what is in the activity log below."));
    assert_eq!((r.messages[1].role.as_str(), r.messages[1].content.as_str()), ("user", "COMMITS TODAY (0):\n"));
}

#[test]
fn key_check_asks_for_one_token() {
    let r = key_check_request();
    assert_eq!(r.model, "nvidia/nemotron-3-super-120b-a12b:free");
    assert_eq!(r.max_tokens, KEY_CHECK_MAX_TOKENS);
    assert_eq!(r.max_tokens, 1);
    assert_eq!(r.messages.len(), 1);
    assert_eq!((r.messages[0].role.as_str(), r.messages[0].content.as_str()), ("user", "hi"));
    assert_eq!(bearer_header("sk-1"), "Bearer sk-1");
}
