//! The request for a standup summary and how the reply is read.
use vstd::prelude::*;

use crate::json::{
    json_as_str, json_as_str_exec, json_at, json_at_exec, json_index, json_index_exec, JsonValue,
};
use crate::text::{dec_nat, push_dec_u64, push_str};

verus! {

/// The OpenRouter endpoint that summaries are requested from.
pub const OPENROUTER_CHAT_COMPLETIONS_URL: &'static str = "https://openrouter.ai/api/v1/chat/completions";

/// The model that writes the summaries.
pub const MODEL: &'static str = "nvidia/nemotron-3-super-120b-a12b:free";

/// The instructions that the model is given with the activity report.
pub const SYSTEM_PROMPT: &'static str = "You are a developer's personal scribe.
Below is a structured log of a developer's actual activity today.
Summarize it into the following three outputs:
1. STANDUP (3 bullets max - Yesterday / Today / Blockers)
   - Be specific. Reference file names, commit messages, test results as evidence.
   - Write in first person, past tense for yesterday/today.
2. DEVLOG (2-4 sentences, narrative form)
   - This is a personal journal entry. Capture what was hard, what was learned.
   - Tone: honest and technical, like a message to a future self.
3. KEY INSIGHT (one sentence)
   - What was the hardest single problem worked on today?
Do not invent information. Only use what is in the activity log below.";

/// The longest summary, in tokens, that is asked for.
pub const SUMMARY_MAX_TOKENS: u32 = 1000;

/// The reply length, in tokens, asked for when a key is only being tested.
pub const KEY_CHECK_MAX_TOKENS: u32 = 1;

/// One message of a chat request: who speaks, and what.
#[derive(Debug)]
pub struct ChatMessage {
    pub role: String,
    pub content: String,
}

/// The body of a chat-completions request.
#[derive(Debug)]
pub struct ChatRequest {
    pub model: String,
    pub messages: Vec<ChatMessage>,
    pub max_tokens: u32,
}

/// The request for a summary of `context`: the model, the instructions as
/// the system message, the report as the user message, and at most
/// `SUMMARY_MAX_TOKENS` tokens.
pub fn summary_request(context: &str) -> (r: ChatRequest)
    ensures
        r.model@ == MODEL@,
        r.messages@.len() == 2,
        r.messages@[0].role@ == "system"@,
        r.messages@[0].content@ == SYSTEM_PROMPT@,
        r.messages@[1].role@ == "user"@,
        r.messages@[1].content@ == context@,
        r.max_tokens == SUMMARY_MAX_TOKENS,
{
    let mut messages: Vec<ChatMessage> = Vec::new();
    messages.push(ChatMessage { role: String::from_str("system"), content: String::from_str(SYSTEM_PROMPT) });
    messages.push(ChatMessage { role: String::from_str("user"), content: String::from_str(context) });
    ChatRequest { model: String::from_str(MODEL), messages, max_tokens: SUMMARY_MAX_TOKENS }
}

/// The cheapest request that tells whether a key is accepted: the model,
/// one user message `hi`, and a one-token reply.
pub fn key_check_request() -> (r: ChatRequest)
    ensures
        r.model@ == MODEL@,
        r.messages@.len() == 1,
        r.messages@[0].role@ == "user"@,
        r.messages@[0].content@ == "hi"@,
        r.max_tokens == KEY_CHECK_MAX_TOKENS,
{
    let mut messages: Vec<ChatMessage> = Vec::new();
    messages.push(ChatMessage { role: String::from_str("user"), content: String::from_str("hi") });
    ChatRequest { model: String::from_str(MODEL), messages, max_tokens: KEY_CHECK_MAX_TOKENS }
}

/// The `Authorization` header's value for the key `key`.
pub fn bearer_header(key: &str) -> (r: String)
    ensures
        r@ == "Bearer "@ + key@,
{
    let mut r = String::new();
    push_str(&mut r, "Bearer ");
    assert(r@ =~= "Bearer "@);
    push_str(&mut r, key);
    r
}

/// An error of the summary request, with its message.
#[derive(Debug)]
pub struct LlmError {
    pub message: String,
}

impl LlmError {
    /// The message, as the error displays it.
    pub fn to_string(&self) -> (r: String)
        ensures
            r@ == self.message@,
    {
        String::from_str(self.message.as_str())
    }
}

/// An error that carries `message`.
pub fn boxed_error(message: String) -> (e: LlmError)
    ensures
        e.message == message,
{
    LlmError { message }
}

/// A one-line description of the request that a context of `n` characters
/// makes, the key left out.
pub open spec fn request_summary_spec(n: nat) -> Seq<char> {
    "POST "@ + OPENROUTER_CHAT_COMPLETIONS_URL@ + "\nmodel: "@ + MODEL@
        + "\nmessages: system prompt + user context ("@ + dec_nat(n) + " chars)\nauthorization: Bearer <redacted>"@
}

/// Describes the request that would be made for `context`.
pub fn request_summary(context: &str) -> (r: String)
    ensures
        r@ == request_summary_spec(context@.len()),
{
    let mut r = String::new();
    push_str(&mut r, "POST ");
    assert(r@ =~= "POST "@);
    push_str(&mut r, OPENROUTER_CHAT_COMPLETIONS_URL);
    push_str(&mut r, "\nmodel: ");
    push_str(&mut r, MODEL);
    push_str(&mut r, "\nmessages: system prompt + user context (");
    let n = crate::text::chars_of(context).len();
    push_dec_u64(&mut r, n as u64);
    push_str(&mut r, " chars)\nauthorization: Bearer <redacted>");
    r
}

/// The `error.message` of a reply, if it is text.
pub open spec fn error_message(v: JsonValue) -> Option<Seq<char>> {
    json_as_str(json_index(json_index(v, "error"@), "message"@))
}

/// The `choices[0].message.content` of a reply, if it is text.
pub open spec fn reply_content(v: JsonValue) -> Option<Seq<char>> {
    json_as_str(
        json_index(json_index(json_at(json_index(v, "choices"@), 0), "message"@), "content"@),
    )
}

/// How a reply is read: the text of its first choice, or the error it
/// reports. `status` is the status as it displays (such as `200 OK`),
/// `body` the parsed body or the parse error's text, and `rendered` the
/// body written back as compact JSON.
pub open spec fn reply_spec(
    status_code: u16,
    status: Seq<char>,
    body: Result<JsonValue, String>,
    rendered: Seq<char>,
) -> Result<Seq<char>, Seq<char>> {
    match body {
        Err(e) => Err("invalid JSON from OpenRouter ("@ + status + "): "@ + e@),
        Ok(v) => if !(200 <= status_code <= 299) {
            Err("OpenRouter returned "@ + status + ": "@ + match error_message(v) {
                Some(m) => m,
                None => "unknown OpenRouter error"@,
            })
        } else if error_message(v) is Some {
            Err("OpenRouter error: "@ + error_message(v)->Some_0)
        } else if reply_content(v) is Some {
            Ok(reply_content(v)->Some_0)
        } else {
            Err("OpenRouter response missing choices[0].message.content: "@ + rendered)
        },
    }
}

/// The `error.message` of a reply, if it is text.
fn error_message_exec(v: &JsonValue) -> (r: Option<&String>)
    ensures
        r matches Some(s) ==> error_message(*v) == Some(s@),
        r is None ==> error_message(*v) is None,
{
    let e = json_index_exec(Some(v), "error");
    let m = json_index_exec(e, "message");
    json_as_str_exec(m)
}

/// Reads a reply of the summary service.
pub fn read_reply(
    status_code: u16,
    status: &str,
    body: &Result<JsonValue, String>,
    rendered: &str,
) -> (r: Result<String, LlmError>)
    ensures
        r matches Ok(s) ==> reply_spec(status_code, status@, *body, rendered@) == Ok::<
            Seq<char>,
            Seq<char>,
        >(s@),
        r matches Err(e) ==> reply_spec(status_code, status@, *body, rendered@) == Err::<
            Seq<char>,
            Seq<char>,
        >(e.message@),
{
    match body {
        Err(e) => {
            let mut m = String::new();
            push_str(&mut m, "invalid JSON from OpenRouter (");
            assert(m@ =~= "invalid JSON from OpenRouter ("@);
            push_str(&mut m, status);
            push_str(&mut m, "): ");
            push_str(&mut m, e.as_str());
            Err(boxed_error(m))
        },
        Ok(v) => {
            let err = error_message_exec(v);
            if !(200 <= status_code && status_code <= 299) {
                let mut m = String::new();
                push_str(&mut m, "OpenRouter returned ");
                assert(m@ =~= "OpenRouter returned "@);
                push_str(&mut m, status);
                push_str(&mut m, ": ");
                match err {
                    Some(msg) => push_str(&mut m, msg.as_str()),
                    None => push_str(&mut m, "unknown OpenRouter error"),
                }
                return Err(boxed_error(m));
            }
            match err {
                Some(msg) => {
                    let mut m = String::new();
                    push_str(&mut m, "OpenRouter error: ");
                    assert(m@ =~= "OpenRouter error: "@);
                    push_str(&mut m, msg.as_str());
                    return Err(boxed_error(m));
                },
                None => {},
            }
            let choices = json_index_exec(Some(v), "choices");
            let first = json_at_exec(choices, 0);
            let message = json_index_exec(first, "message");
            let content = json_index_exec(message, "content");
            match json_as_str_exec(content) {
                Some(c) => Ok(String::from_str(c.as_str())),
                None => {
                    let mut m = String::new();
                    push_str(&mut m, "OpenRouter response missing choices[0].message.content: ");
                    assert(m@ =~= "OpenRouter response missing choices[0].message.content: "@);
                    push_str(&mut m, rendered);
                    Err(boxed_error(m))
                },
            }
        },
    }
}

/// The reply of the standup command when no API key is set.
pub fn missing_key_reply() -> (r: String)
    ensures
        r@ == "API key not set. Run `devlog api` to configure it."@,
{
    String::from_str("API key not set. Run `devlog api` to configure it.")
}

/// What the standup command shows: the summary, or why there is none.
pub open spec fn summary_reply_spec(r: Result<String, LlmError>) -> Seq<char> {
    match r {
        Ok(s) => s@,
        Err(e) => "failed to call the summary model: "@ + e.message@,
    }
}

/// What the standup command shows for the outcome of the request.
pub fn summary_reply(r: Result<String, LlmError>) -> (s: String)
    ensures
        s@ == summary_reply_spec(r),
{
    match r {
        Ok(s) => s,
        Err(e) => {
            let mut m = String::new();
            push_str(&mut m, "failed to call the summary model: ");
            assert(m@ =~= "failed to call the summary model: "@);
            push_str(&mut m, e.message.as_str());
            m
        },
    }
}

} // verus!
