//! Linking a project: cleaning the folder path the user gave, choosing the
//! directories to search for git repositories, and installing the
//! post-commit hook that reports commits to the daemon.
use vstd::prelude::*;

use crate::text::{
    chars_of, contains_chars, contains_spec, occurs_at, push_str, string_of, trim_by, trim_chars,
    trim_spec, TrimSet,
};

verus! {

/// The project folder given on the command line, when it is not empty
/// (otherwise the user is asked for one).
pub fn project_argument(project: Option<String>) -> (r: Option<String>)
    ensures
        r == (match project {
            Some(p) => if p@.len() > 0 {
                Some(p)
            } else {
                None
            },
            None => None,
        }),
{
    match project {
        Some(p) => {
            if p.as_str().is_empty() {
                None
            } else {
                Some(p)
            }
        },
        None => None,
    }
}

/// A folder path as dragged into a terminal: without white space at either
/// end, then without quotation marks at either end.
pub open spec fn clean_project_path_spec(input: Seq<char>) -> Seq<char> {
    trim_by(trim_spec(input), TrimSet::Quotes)
}

/// Cleans up a folder path that was pasted or dragged into the terminal.
pub fn clean_project_path(input: &str) -> (r: String)
    ensures
        r@ == clean_project_path_spec(input@),
{
    let v = chars_of(input);
    let t = trim_chars(&v, TrimSet::Whitespace);
    let q = trim_chars(&t, TrimSet::Quotes);
    string_of(&q)
}

/// The directories that the search for repositories does not enter.
pub open spec fn is_skipped_dir_spec(name: Seq<char>) -> bool {
    name == "node_modules"@ || name == "target"@ || name == ".cache"@
}

/// Whether the search for repositories skips a directory entry of this name.
pub fn is_skipped_dir(name: &str) -> (b: bool)
    ensures
        b == is_skipped_dir_spec(name@),
{
    let n = String::from_str(name);
    n == String::from_str("node_modules") || n == String::from_str("target") || n
        == String::from_str(".cache")
}

/// Whether a directory entry is a repository's `.git` directory.
pub fn is_git_dir(is_dir: bool, name: &str) -> (b: bool)
    ensures
        b == (is_dir && name@ == ".git"@),
{
    is_dir && String::from_str(name) == String::from_str(".git")
}

/// The line of the post-commit hook that reports a commit to the daemon.
pub open spec fn hook_line() -> Seq<char> {
    "printf 'commit|%s' \"$(pwd)\" | nc -U ~/.devlog/devlogd.sock 2>/dev/null || true"@
}

/// What marks a hook as installed.
pub open spec fn hook_marker() -> Seq<char> {
    "devlogd.sock"@
}

/// What to do to a repository's post-commit hook.
#[derive(Debug)]
pub enum HookAction {
    /// The hook already reports commits: leave it alone.
    Skip,
    /// Append this text to the existing hook.
    Append(String),
    /// Create the hook with this text (and make it executable).
    Create(String),
}

/// The text of a new hook.
pub open spec fn new_hook_spec() -> Seq<char> {
    "#!/bin/sh\n"@ + hook_line() + "\n"@
}

/// The text appended to an existing hook.
pub open spec fn hook_addition_spec() -> Seq<char> {
    "\n# devlog\n"@ + hook_line() + "\n"@
}

/// What to do given the hook's text, or `None` when there is no hook.
pub open spec fn hook_update_spec(existing: Option<Seq<char>>, a: HookAction) -> bool {
    match existing {
        None => a matches HookAction::Create(t) && t@ == new_hook_spec(),
        Some(c) => if contains_spec(c, hook_marker()) {
            a is Skip
        } else {
            a matches HookAction::Append(t) && t@ == hook_addition_spec()
        },
    }
}

/// The text of the hook after `a` was carried out on `existing`.
pub open spec fn hook_after(existing: Option<Seq<char>>, a: HookAction) -> Option<Seq<char>> {
    match a {
        HookAction::Skip => existing,
        HookAction::Append(t) => match existing {
            Some(c) => Some(c + t@),
            None => Some(t@),
        },
        HookAction::Create(t) => Some(t@),
    }
}

/// Decides how to install the post-commit hook, given the text of the
/// existing hook (`None` when the repository has none).
pub fn hook_update(existing: Option<&str>) -> (a: HookAction)
    ensures
        hook_update_spec(
            match existing {
                Some(c) => Some(c@),
                None => None,
            },
            a,
        ),
{
    let line = "printf 'commit|%s' \"$(pwd)\" | nc -U ~/.devlog/devlogd.sock 2>/dev/null || true";
    match existing {
        None => {
            let mut t = String::new();
            push_str(&mut t, "#!/bin/sh\n");
            assert(t@ =~= "#!/bin/sh\n"@);
            push_str(&mut t, line);
            push_str(&mut t, "\n");
            HookAction::Create(t)
        },
        Some(c) => {
            let cv = chars_of(c);
            let mv = chars_of("devlogd.sock");
            if contains_chars(&cv, &mv) {
                HookAction::Skip
            } else {
                let mut t = String::new();
                push_str(&mut t, "\n# devlog\n");
                assert(t@ =~= "\n# devlog\n"@);
                push_str(&mut t, line);
                push_str(&mut t, "\n");
                HookAction::Append(t)
            }
        },
    }
}

/// The hook line holds the marker.
proof fn lemma_hook_line_marked()
    ensures
        occurs_at(hook_line(), hook_marker(), 46),
{
    reveal_strlit(
        "printf 'commit|%s' \"$(pwd)\" | nc -U ~/.devlog/devlogd.sock 2>/dev/null || true",
    );
    reveal_strlit("devlogd.sock");
    assert(hook_line().subrange(46, 58) =~= hook_marker());
}

/// A text that occurs in `l` occurs in any text that holds `l`.
proof fn lemma_occurs_within(a: Seq<char>, l: Seq<char>, b: Seq<char>, m: Seq<char>, i: int)
    requires
        occurs_at(l, m, i),
    ensures
        occurs_at(a + l + b, m, a.len() + i),
{
    let t = a + l + b;
    assert forall|k: int| 0 <= k < m.len() implies t.subrange(a.len() + i, a.len() + i + m.len())[k]
        == m[k] by {
        assert(t[a.len() + i + k] == l[i + k]);
        assert(l.subrange(i, i + m.len())[k] == l[i + k]);
    }
    assert(t.subrange(a.len() + i, a.len() + i + m.len()) =~= m);
}

/// Installing the hook is idempotent: once the decided action is carried
/// out, deciding again leaves the hook alone.
pub proof fn lemma_hook_install_idempotent(existing: Option<Seq<char>>, a: HookAction, b: HookAction)
    requires
        hook_update_spec(existing, a),
        hook_update_spec(hook_after(existing, a), b),
    ensures
        b is Skip,
{
    lemma_hook_line_marked();
    let m = hook_marker();
    let l = hook_line();
    match existing {
        None => {
            lemma_occurs_within("#!/bin/sh\n"@, l, "\n"@, m, 46);
        },
        Some(c) => {
            if !contains_spec(c, m) {
                lemma_occurs_within("\n# devlog\n"@, l, "\n"@, m, 46);
                let h = hook_addition_spec();
                let k: int = "\n# devlog\n"@.len() as int + 46;
                lemma_occurs_within(c, h, Seq::<char>::empty(), m, k);
                assert(c + h + Seq::<char>::empty() =~= c + h);
            }
        },
    }
}

} // verus!
