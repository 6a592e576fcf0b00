//! The OpenRouter API key: where it is looked for, how it is read from and
//! written to the config file, and the steps of the `devlog api` command.
use vstd::prelude::*;

use crate::text::{
    chars_of, concat_lines, lemma_lines_concat, lemma_lines_no_newline, lines_chars, lines_spec,
    push_char, push_chars, push_str, starts_with_chars, starts_with_spec, strip_cr, trim_by,
    trim_chars, trim_spec, string_of, TrimSet,
};

verus! {

/// What a config line that holds the API key starts with.
pub open spec fn key_prefix() -> Seq<char> {
    "OPENROUTER_API_KEY="@
}

/// A config line that holds the API key.
pub open spec fn is_key_line(l: Seq<char>) -> bool {
    starts_with_spec(l, key_prefix())
}

/// The first line of `ls` that holds the API key.
pub open spec fn find_key_line(ls: Seq<Seq<char>>) -> Option<Seq<char>>
    decreases ls.len(),
{
    if ls.len() == 0 {
        None
    } else if is_key_line(ls[0]) {
        Some(ls[0])
    } else {
        find_key_line(ls.drop_first())
    }
}

/// The API key that a config file holds: the rest of its first key line,
/// without white space at either end.
pub open spec fn parse_api_key_spec(content: Seq<char>) -> Option<Seq<char>> {
    match find_key_line(lines_spec(content)) {
        Some(l) => Some(trim_spec(l.skip(key_prefix().len() as int))),
        None => None,
    }
}

/// The lines of `ls` that do not hold the API key, in order.
pub open spec fn kept_lines(ls: Seq<Seq<char>>) -> Seq<Seq<char>>
    decreases ls.len(),
{
    if ls.len() == 0 {
        Seq::empty()
    } else if is_key_line(ls.last()) {
        kept_lines(ls.drop_last())
    } else {
        kept_lines(ls.drop_last()).push(ls.last())
    }
}

/// A config file without its API key lines, each kept line ending in a newline.
pub open spec fn remove_api_key_spec(existing: Seq<char>) -> Seq<char> {
    concat_lines(kept_lines(lines_spec(existing)))
}

/// A config file whose API key lines are replaced by one line holding `key`
/// at the end (the kept lines and the new line joined by newlines, and a
/// final newline).
pub open spec fn upsert_api_key_spec(existing: Seq<char>, key: Seq<char>) -> Seq<char> {
    concat_lines(kept_lines(lines_spec(existing)).push(key_prefix() + key))
}

/// The API key, from the first of these that is there: the variable
/// `OPENROUTER_API_KEY`, the variable `OPENROUTER_API`, the config file.
pub open spec fn api_key_from_sources_spec(
    primary: Option<String>,
    fallback: Option<String>,
    config: Option<String>,
) -> Option<Seq<char>> {
    match primary {
        Some(k) => Some(k@),
        None => match fallback {
            Some(k) => Some(k@),
            None => match config {
                Some(c) => parse_api_key_spec(c@),
                None => None,
            },
        },
    }
}

/// Whether `l` holds the API key.
fn is_key_line_exec(l: &[char]) -> (b: bool)
    ensures
        b == is_key_line(l@),
{
    let prefix = chars_of("OPENROUTER_API_KEY=");
    starts_with_chars(l, &prefix)
}

/// Reads the API key from the text of a config file.
pub fn parse_api_key(content: &str) -> (r: Option<String>)
    ensures
        r matches Some(k) ==> parse_api_key_spec(content@) == Some(k@),
        r is None ==> parse_api_key_spec(content@) is None,
{
    let v = chars_of(content);
    let ls = lines_chars(&v);
    let ghost lv = ls@.map_values(|l: Vec<char>| l@);
    let mut i: usize = 0;
    assert(lv.skip(0) =~= lv);
    while i < ls.len()
        invariant
            i <= ls.len(),
            lv == ls@.map_values(|l: Vec<char>| l@),
            lv == lines_spec(content@),
            find_key_line(lv) == find_key_line(lv.skip(i as int)),
        decreases ls.len() - i,
    {
        assert(lv.skip(i as int).drop_first() =~= lv.skip(i + 1));
        assert(lv.skip(i as int)[0] == ls@[i as int]@);
        if is_key_line_exec(&ls[i]) {
            proof {
                reveal_strlit("OPENROUTER_API_KEY=");
            }
            let rest = slice_from(&ls[i], 19);
            let t = trim_chars(&rest, TrimSet::Whitespace);
            return Some(string_of(&t));
        }
        i = i + 1;
    }
    None
}

/// The characters `v[from..]`.
fn slice_from(v: &[char], from: usize) -> (r: Vec<char>)
    requires
        from <= v.len(),
    ensures
        r@ == v@.skip(from as int),
{
    let r = crate::text::slice_chars(v, from, v.len());
    assert(v@.skip(from as int) =~= v@.subrange(from as int, v.len() as int));
    r
}

/// `load_api_key` without the reading: the key from the first source that
/// has one (the two environment variables, then the config file's text).
pub fn api_key_from_sources(
    primary: Option<String>,
    fallback: Option<String>,
    config: Option<String>,
) -> (r: Option<String>)
    ensures
        r matches Some(k) ==> api_key_from_sources_spec(primary, fallback, config) == Some(k@),
        r is None ==> api_key_from_sources_spec(primary, fallback, config) is None,
{
    match primary {
        Some(k) => Some(k),
        None => match fallback {
            Some(k) => Some(k),
            None => match config {
                Some(c) => parse_api_key(c.as_str()),
                None => None,
            },
        },
    }
}

/// The text of `existing` without its API key lines.
pub fn remove_api_key(existing: &str) -> (r: String)
    ensures
        r@ == remove_api_key_spec(existing@),
{
    let v = chars_of(existing);
    let ls = lines_chars(&v);
    let ghost lv = ls@.map_values(|l: Vec<char>| l@);
    let mut out = String::new();
    let mut i: usize = 0;
    assert(lv.take(0) =~= Seq::<Seq<char>>::empty());
    while i < ls.len()
        invariant
            i <= ls.len(),
            lv == ls@.map_values(|l: Vec<char>| l@),
            lv == lines_spec(existing@),
            out@ == concat_lines(kept_lines(lv.take(i as int))),
        decreases ls.len() - i,
    {
        assert(lv.take(i + 1).drop_last() =~= lv.take(i as int));
        assert(lv.take(i + 1).last() == ls@[i as int]@);
        if !is_key_line_exec(&ls[i]) {
            let ghost before = kept_lines(lv.take(i as int));
            assert(kept_lines(lv.take(i + 1)) == before.push(ls@[i as int]@));
            assert(before.push(ls@[i as int]@).drop_last() =~= before);
            push_chars(&mut out, &ls[i]);
            push_char(&mut out, '\n');
        }
        i = i + 1;
    }
    assert(lv.take(ls.len() as int) =~= lv);
    out
}

/// The text of `existing` with its API key lines replaced by one line that
/// holds `key`, at the end.
pub fn upsert_api_key(existing: &str, key: &str) -> (r: String)
    ensures
        r@ == upsert_api_key_spec(existing@, key@),
{
    let mut out = remove_api_key(existing);
    let ghost k = kept_lines(lines_spec(existing@));
    push_str(&mut out, "OPENROUTER_API_KEY=");
    push_str(&mut out, key);
    push_char(&mut out, '\n');
    assert(k.push(key_prefix() + key@).drop_last() =~= k);
    assert(out@ =~= concat_lines(k) + (key_prefix() + key@) + seq!['\n']);
    out
}

// ---------------------------------------------------------------------------
// The `devlog api` command
// ---------------------------------------------------------------------------

/// How many times `devlog api` verifies a key before it gives up.
pub const MAX_VERIFY_ATTEMPTS: i32 = 3;

/// What `devlog api` was asked to do.
#[derive(Debug, Clone, Copy, PartialEq, Eq, Structural)]
pub enum ApiMode {
    /// Print the saved key.
    Show,
    /// Remove the saved key.
    Clear,
    /// Verify and save a key.
    Store,
}

/// `--show` comes before `--clear`; without either the key is set.
pub fn api_mode(show: bool, clear: bool) -> (m: ApiMode)
    ensures
        m == (if show {
            ApiMode::Show
        } else if clear {
            ApiMode::Clear
        } else {
            ApiMode::Store
        }),
{
    if show {
        ApiMode::Show
    } else if clear {
        ApiMode::Clear
    } else {
        ApiMode::Store
    }
}

/// The message of `devlog api --show`.
pub open spec fn show_message_spec(saved: Option<String>) -> Seq<char> {
    match saved {
        Some(k) => "Current API key: "@ + k@,
        None => "No API key saved."@,
    }
}

/// The message of `devlog api --show`.
pub fn show_message(saved: &Option<String>) -> (r: String)
    ensures
        r@ == show_message_spec(*saved),
{
    match saved {
        Some(k) => {
            let mut r = String::new();
            push_str(&mut r, "Current API key: ");
            assert(r@ =~= "Current API key: "@);
            push_str(&mut r, k.as_str());
            r
        },
        None => String::from_str("No API key saved."),
    }
}

/// The message of `devlog api --show` for the text of the config file
/// (`None` when there is no config file): the key saved in it, or that
/// none is saved.
pub open spec fn show_config_message_spec(config: Option<String>) -> Seq<char> {
    let saved = match config {
        Some(c) => parse_api_key_spec(c@),
        None => None,
    };
    match saved {
        Some(k) => "Current API key: "@ + k,
        None => "No API key saved."@,
    }
}

/// The message of `devlog api --show`, from the text of the config file.
pub fn show_message_for_config(config: Option<String>) -> (r: String)
    ensures
        r@ == show_config_message_spec(config),
{
    let saved = match &config {
        Some(c) => parse_api_key(c.as_str()),
        None => None,
    };
    show_message(&saved)
}

/// Where the setting of a key stands.
#[derive(Debug, Clone, Copy, PartialEq, Eq, Structural)]
pub enum ApiPhase {
    /// Nothing has happened yet.
    Begin,
    /// The user was asked whether to replace the saved key.
    AwaitReplace,
    /// The user was asked for a key.
    AwaitKey,
    /// A key is being verified.
    AwaitVerdict,
    /// Nothing more is to be done.
    Finished,
}

/// The state of setting a key: the phase, the verifications still allowed,
/// the key on the command line, and the key being verified.
#[derive(Debug)]
pub struct ApiFlow {
    pub phase: ApiPhase,
    pub attempts_left: i32,
    pub given_key: Option<String>,
    pub key: String,
}

/// What happened since the last step.
#[derive(Debug)]
pub enum ApiEvent {
    /// The command started; `has_saved_key` tells whether a key is saved.
    Started { has_saved_key: bool },
    /// The user answered whether to replace the saved key.
    ReplaceAnswered(bool),
    /// The user entered a key.
    KeyEntered(String),
    /// The service accepted the key being verified, or did not.
    Verified(bool),
}

/// What to do next.
#[derive(Debug)]
pub enum ApiAction {
    /// Ask whether to replace the saved key.
    AskReplace,
    /// Say that the saved key is kept, and stop.
    KeepExisting,
    /// Ask for a key (after "Invalid API key, try again." when `retry`).
    PromptKey { retry: bool },
    /// Verify this key with the service.
    Verify(String),
    /// Save this key, and stop.
    Save(String),
    /// Give up, showing the last key entered, and stop.
    GiveUp(String),
    /// Nothing: the event does not fit the phase.
    Ignore,
}

/// The state before the command starts, with the key given on the command line.
pub fn api_flow_new(given_key: Option<String>) -> (f: ApiFlow)
    ensures
        f.phase == ApiPhase::Begin,
        f.attempts_left == MAX_VERIFY_ATTEMPTS,
        f.given_key == given_key,
{
    ApiFlow { phase: ApiPhase::Begin, attempts_left: MAX_VERIFY_ATTEMPTS, given_key, key: String::new() }
}

/// The action for the key `k` with `n` verifications left: verify it, or
/// give up when none is left (the check at the top of the prompt loop).
pub open spec fn tries_key(n: i32, k: String, a: ApiAction) -> bool {
    if n <= 0 {
        a == ApiAction::GiveUp(k)
    } else {
        a == ApiAction::Verify(k)
    }
}

/// The action that obtains a key: verify the given one, or ask for one.
pub open spec fn obtains_key(flow: ApiFlow, a: ApiAction) -> bool {
    match flow.given_key {
        Some(k) => tries_key(flow.attempts_left, k, a),
        None => a == (ApiAction::PromptKey { retry: false }),
    }
}

/// The phase after trying the key: verifying it, or finished.
pub open spec fn phase_after_try(n: i32) -> ApiPhase {
    if n <= 0 {
        ApiPhase::Finished
    } else {
        ApiPhase::AwaitVerdict
    }
}

/// The phase after obtaining a key.
pub open spec fn phase_after_obtain(flow: ApiFlow) -> ApiPhase {
    match flow.given_key {
        Some(_) => phase_after_try(flow.attempts_left),
        None => ApiPhase::AwaitKey,
    }
}

/// The action of one step of setting a key.
pub open spec fn step_action(flow: ApiFlow, event: ApiEvent, a: ApiAction) -> bool {
    match (flow.phase, event) {
        (ApiPhase::Begin, ApiEvent::Started { has_saved_key }) => if has_saved_key {
            a == ApiAction::AskReplace
        } else {
            obtains_key(flow, a)
        },
        (ApiPhase::AwaitReplace, ApiEvent::ReplaceAnswered(replace)) => if replace {
            obtains_key(flow, a)
        } else {
            a == ApiAction::KeepExisting
        },
        (ApiPhase::AwaitKey, ApiEvent::KeyEntered(k)) => tries_key(flow.attempts_left, k, a),
        (ApiPhase::AwaitVerdict, ApiEvent::Verified(ok)) => if ok {
            a matches ApiAction::Save(s) && s@ == trim_spec(flow.key@)
        } else if flow.attempts_left > 0 {
            a == (ApiAction::PromptKey { retry: true })
        } else {
            a == ApiAction::Ignore
        },
        (_, _) => a == ApiAction::Ignore,
    }
}

/// The phase after one step of setting a key.
pub open spec fn step_phase(flow: ApiFlow, event: ApiEvent) -> ApiPhase {
    match (flow.phase, event) {
        (ApiPhase::Begin, ApiEvent::Started { has_saved_key }) => if has_saved_key {
            ApiPhase::AwaitReplace
        } else {
            phase_after_obtain(flow)
        },
        (ApiPhase::AwaitReplace, ApiEvent::ReplaceAnswered(replace)) => if replace {
            phase_after_obtain(flow)
        } else {
            ApiPhase::Finished
        },
        (ApiPhase::AwaitKey, ApiEvent::KeyEntered(_)) => phase_after_try(flow.attempts_left),
        (ApiPhase::AwaitVerdict, ApiEvent::Verified(ok)) => if ok {
            ApiPhase::Finished
        } else if flow.attempts_left > 0 {
            ApiPhase::AwaitKey
        } else {
            ApiPhase::AwaitVerdict
        },
        (_, _) => flow.phase,
    }
}

/// The verifications left after one step: a rejected key costs one.
pub open spec fn step_attempts(flow: ApiFlow, event: ApiEvent) -> i32 {
    if flow.phase == ApiPhase::AwaitVerdict && event == ApiEvent::Verified(false)
        && flow.attempts_left > 0 {
        (flow.attempts_left - 1) as i32
    } else {
        flow.attempts_left
    }
}

/// The state in which `key` is to be verified, or given up on.
fn try_key(flow: ApiFlow, key: String) -> (r: (ApiFlow, ApiAction))
    ensures
        tries_key(flow.attempts_left, key, r.1),
        r.0.phase == phase_after_try(flow.attempts_left),
        r.1 matches ApiAction::Verify(k) ==> r.0.key == k,
        r.0.attempts_left == flow.attempts_left,
        r.0.given_key == flow.given_key,
{
    if flow.attempts_left <= 0 {
        (ApiFlow { phase: ApiPhase::Finished, ..flow }, ApiAction::GiveUp(key))
    } else {
        let k2 = key.clone();
        (ApiFlow { phase: ApiPhase::AwaitVerdict, key, ..flow }, ApiAction::Verify(k2))
    }
}

/// The state after asking for a key or, when one was given, trying it.
fn obtain_key(flow: ApiFlow) -> (r: (ApiFlow, ApiAction))
    ensures
        obtains_key(flow, r.1),
        r.0.phase == phase_after_obtain(flow),
        r.1 matches ApiAction::Verify(k) ==> r.0.key == k,
        r.0.attempts_left == flow.attempts_left,
        r.0.given_key == flow.given_key,
{
    match flow.given_key {
        Some(k) => {
            let k1 = k.clone();
            try_key(ApiFlow { given_key: Some(k), ..flow }, k1)
        },
        None => (ApiFlow { phase: ApiPhase::AwaitKey, ..flow }, ApiAction::PromptKey { retry: false }),
    }
}

/// One step of setting a key: from the state and what happened, the next
/// state and what to do.
///
/// A saved key is only replaced when the user agrees. A given key is used
/// first, else the user is asked for one. Each key is verified; an
/// accepted key is saved without white space at either end; after a
/// rejected key the user is asked again, and once `MAX_VERIFY_ATTEMPTS`
/// keys were rejected the command gives up. An event that does not fit
/// the phase changes nothing.
pub fn api_step(flow: ApiFlow, event: ApiEvent) -> (r: (ApiFlow, ApiAction))
    ensures
        step_action(flow, event, r.1),
        r.0.phase == step_phase(flow, event),
        r.0.attempts_left == step_attempts(flow, event),
        r.1 matches ApiAction::Verify(k) ==> r.0.key == k,
        r.0.given_key == flow.given_key,
{
    match (flow.phase, event) {
        (ApiPhase::Begin, ApiEvent::Started { has_saved_key }) => {
            if has_saved_key {
                (ApiFlow { phase: ApiPhase::AwaitReplace, ..flow }, ApiAction::AskReplace)
            } else {
                obtain_key(flow)
            }
        },
        (ApiPhase::AwaitReplace, ApiEvent::ReplaceAnswered(replace)) => {
            if replace {
                obtain_key(flow)
            } else {
                (ApiFlow { phase: ApiPhase::Finished, ..flow }, ApiAction::KeepExisting)
            }
        },
        (ApiPhase::AwaitKey, ApiEvent::KeyEntered(k)) => try_key(flow, k),
        (ApiPhase::AwaitVerdict, ApiEvent::Verified(ok)) => {
            if ok {
                let v = chars_of(flow.key.as_str());
                let t = trim_chars(&v, TrimSet::Whitespace);
                let saved = string_of(&t);
                (ApiFlow { phase: ApiPhase::Finished, ..flow }, ApiAction::Save(saved))
            } else if flow.attempts_left > 0 {
                let left = flow.attempts_left - 1;
                (
                    ApiFlow { phase: ApiPhase::AwaitKey, attempts_left: left, ..flow },
                    ApiAction::PromptKey { retry: true },
                )
            } else {
                (flow, ApiAction::Ignore)
            }
        },
        (_, _) => (flow, ApiAction::Ignore),
    }
}

// ---------------------------------------------------------------------------
// Laws
// ---------------------------------------------------------------------------

/// Cutting a trailing carriage return off a line that is not a key line
/// does not make it one.
proof fn lemma_strip_cr_not_key(l: Seq<char>)
    requires
        !is_key_line(l),
    ensures
        !is_key_line(strip_cr(l)),
{
    let p = key_prefix();
    let s = strip_cr(l);
    if is_key_line(s) {
        assert(l.take(p.len() as int) =~= s.take(p.len() as int));
    }
}

/// The first key line after lines that are none is the one that follows.
proof fn lemma_find_key_line_after(a: Seq<Seq<char>>, x: Seq<char>, b: Seq<Seq<char>>)
    requires
        forall|i: int| 0 <= i < a.len() ==> !is_key_line(#[trigger] a[i]),
    ensures
        find_key_line(a + b) == find_key_line(b),
    decreases a.len(),
{
    if a.len() > 0 {
        assert((a + b)[0] == a[0]);
        assert((a + b).drop_first() =~= a.drop_first() + b);
        lemma_find_key_line_after(a.drop_first(), x, b);
    } else {
        assert(a + b =~= b);
    }
}

/// The kept lines of `ls` are lines of `ls` and none is a key line.
proof fn lemma_kept_lines(ls: Seq<Seq<char>>)
    ensures
        forall|i: int|
            0 <= i < kept_lines(ls).len() ==> !is_key_line(#[trigger] kept_lines(ls)[i])
                && ls.contains(kept_lines(ls)[i]),
    decreases ls.len(),
{
    if ls.len() > 0 {
        lemma_kept_lines(ls.drop_last());
        let k = kept_lines(ls);
        let k0 = kept_lines(ls.drop_last());
        assert forall|i: int| 0 <= i < k.len() implies !is_key_line(#[trigger] k[i]) && ls.contains(
            k[i],
        ) by {
            if i < k0.len() {
                assert(k[i] == k0[i]);
                assert(ls.drop_last().contains(k0[i]));
                let j = choose|j: int| 0 <= j < ls.drop_last().len() && ls.drop_last()[j] == k0[i];
                assert(ls[j] == k0[i]);
            } else {
                assert(k[i] == ls.last());
                assert(ls[ls.len() - 1] == ls.last());
            }
        }
    }
}

/// Kept lines of a config file hold no newline.
proof fn lemma_kept_no_newline(existing: Seq<char>)
    ensures
        forall|i: int|
            0 <= i < kept_lines(lines_spec(existing)).len() ==> !(#[trigger] kept_lines(
                lines_spec(existing),
            )[i]).contains('\n') && !is_key_line(kept_lines(lines_spec(existing))[i]),
{
    let ls = lines_spec(existing);
    lemma_lines_no_newline(existing);
    lemma_kept_lines(ls);
    let k = kept_lines(ls);
    assert forall|i: int| 0 <= i < k.len() implies !(#[trigger] k[i]).contains('\n')
        && !is_key_line(k[i]) by {
        assert(ls.contains(k[i]));
        let j = choose|j: int| 0 <= j < ls.len() && ls[j] == k[i];
        assert(!ls[j].contains('\n'));
    }
}

/// After the API key lines are removed, no key is read from the file.
pub proof fn lemma_removed_key_is_gone(existing: Seq<char>)
    ensures
        parse_api_key_spec(remove_api_key_spec(existing)) is None,
{
    let k = kept_lines(lines_spec(existing));
    lemma_kept_no_newline(existing);
    lemma_lines_concat(k, Seq::empty());
    let m = k.map_values(|l: Seq<char>| strip_cr(l));
    assert(concat_lines(k) + Seq::<char>::empty() =~= concat_lines(k));
    assert(lines_spec(Seq::<char>::empty()) =~= Seq::<Seq<char>>::empty());
    assert(m + Seq::<Seq<char>>::empty() =~= m);
    assert forall|i: int| 0 <= i < m.len() implies !is_key_line(#[trigger] m[i]) by {
        lemma_strip_cr_not_key(k[i]);
    }
    lemma_find_key_line_after(m, Seq::empty(), Seq::empty());
    assert(m + Seq::<Seq<char>>::empty() =~= m);
}

/// A saved key is read back: after the key lines of a config file are
/// replaced by one that holds `key` (a key without newlines and without
/// white space at either end, as `devlog api` saves it), reading the
/// file gives `key`.
pub proof fn lemma_saved_key_is_read_back(existing: Seq<char>, key: Seq<char>)
    requires
        !key.contains('\n'),
        trim_spec(key) == key,
    ensures
        parse_api_key_spec(upsert_api_key_spec(existing, key)) == Some(key),
{
    reveal_strlit("OPENROUTER_API_KEY=");
    let p = key_prefix();
    let k = kept_lines(lines_spec(existing));
    let entry = p + key;
    let all = k.push(entry);
    lemma_kept_no_newline(existing);
    assert(!entry.contains('\n')) by {
        if entry.contains('\n') {
            let j = choose|j: int| 0 <= j < entry.len() && entry[j] == '\n';
            if j >= p.len() {
                assert(key[j - p.len()] == '\n');
                assert(key.contains(key[j - p.len()]));
            }
        }
    }
    assert forall|i: int| 0 <= i < all.len() implies !(#[trigger] all[i]).contains('\n') by {
        if i < k.len() {
            assert(all[i] == k[i]);
        }
    }
    lemma_lines_concat(all, Seq::empty());
    assert(concat_lines(all) + Seq::<char>::empty() =~= concat_lines(all));
    assert(lines_spec(Seq::<char>::empty()) =~= Seq::<Seq<char>>::empty());
    let m = all.map_values(|l: Seq<char>| strip_cr(l));
    let mk = k.map_values(|l: Seq<char>| strip_cr(l));
    assert(m + Seq::<Seq<char>>::empty() =~= m);
    // The new line keeps its last character: the key does not end in white space.
    assert(strip_cr(entry) == entry) by {
        if key.len() > 0 && key.last() == '\r' {
            let ts = crate::text::trim_start_by(key, TrimSet::Whitespace);
            lemma_trim_start_suffix(key);
            if ts.len() > 0 {
                assert(ts.last() == key.last());
                lemma_trim_end_last(ts);
            }
            assert(trim_spec(key).len() < key.len());
        }
    }
    assert(m =~= mk.push(entry));
    assert forall|i: int| 0 <= i < mk.len() implies !is_key_line(#[trigger] mk[i]) by {
        lemma_strip_cr_not_key(k[i]);
    }
    assert(is_key_line(entry)) by {
        assert(entry.take(p.len() as int) =~= p);
    }
    lemma_find_key_line_after(mk, entry, seq![entry]);
    assert(mk.push(entry) =~= mk + seq![entry]);
    assert(seq![entry].drop_first() =~= Seq::<Seq<char>>::empty());
    assert(entry.skip(p.len() as int) =~= key);
}

/// `trim_start_by` gives a suffix of its input.
proof fn lemma_trim_start_suffix(s: Seq<char>)
    ensures
        crate::text::trim_start_by(s, TrimSet::Whitespace).len() <= s.len(),
        crate::text::trim_start_by(s, TrimSet::Whitespace) =~= s.skip(
            s.len() - crate::text::trim_start_by(s, TrimSet::Whitespace).len(),
        ),
    decreases s.len(),
{
    if s.len() > 0 && crate::text::in_trim_set(TrimSet::Whitespace, s[0]) {
        lemma_trim_start_suffix(s.drop_first());
        let t = crate::text::trim_start_by(s.drop_first(), TrimSet::Whitespace);
        assert(s.drop_first().skip(s.drop_first().len() - t.len()) =~= s.skip(s.len() - t.len()));
    } else {
        assert(s.skip(0) =~= s);
    }
}

/// A text whose last character is white space is changed by trimming its end.
proof fn lemma_trim_end_last(s: Seq<char>)
    requires
        s.len() > 0,
        crate::text::in_trim_set(TrimSet::Whitespace, s.last()),
    ensures
        crate::text::trim_end_by(s, TrimSet::Whitespace).len() < s.len(),
{
    lemma_trim_end_len(s.drop_last());
}

/// Trimming never lengthens a text.
proof fn lemma_trim_end_len(s: Seq<char>)
    ensures
        crate::text::trim_end_by(s, TrimSet::Whitespace).len() <= s.len(),
    decreases s.len(),
{
    if s.len() > 0 && crate::text::in_trim_set(TrimSet::Whitespace, s.last()) {
        lemma_trim_end_len(s.drop_last());
    }
}

/// Agreeing to replace a saved key goes on exactly as when no key was
/// saved: from the replace question, "yes" takes the same step as starting
/// without a saved key. So a key given on the command line is verified
/// (while verifications are left), and only without one is the user asked.
pub proof fn lemma_replace_goes_on_as_fresh(f: ApiFlow, g: ApiFlow, a: ApiAction)
    requires
        f.phase == ApiPhase::AwaitReplace,
        g.phase == ApiPhase::Begin,
        g.given_key == f.given_key,
        g.attempts_left == f.attempts_left,
    ensures
        step_action(f, ApiEvent::ReplaceAnswered(true), a) == step_action(
            g,
            ApiEvent::Started { has_saved_key: false },
            a,
        ),
        step_phase(f, ApiEvent::ReplaceAnswered(true)) == step_phase(
            g,
            ApiEvent::Started { has_saved_key: false },
        ),
        f.given_key is Some && f.attempts_left > 0 ==> (step_action(
            f,
            ApiEvent::ReplaceAnswered(true),
            a,
        ) <==> a == ApiAction::Verify(f.given_key->0)) && step_phase(
            f,
            ApiEvent::ReplaceAnswered(true),
        ) == ApiPhase::AwaitVerdict,
        f.given_key is None ==> (step_action(f, ApiEvent::ReplaceAnswered(true), a) <==> a
            == (ApiAction::PromptKey { retry: false })) && step_phase(
            f,
            ApiEvent::ReplaceAnswered(true),
        ) == ApiPhase::AwaitKey,
{
}

} // verus!
