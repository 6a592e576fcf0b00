//! The `devlog standup` command: whether there is anything to summarise.
use vstd::prelude::*;

use crate::text::{dec_nat, push_dec_u64, push_str};

verus! {

/// The line that counts today's activity.
pub open spec fn activity_line_spec(commits: nat, files: nat, commands: nat) -> Seq<char> {
    "commits: "@ + dec_nat(commits) + "  files: "@ + dec_nat(files) + "  commands: "@ + dec_nat(
        commands,
    )
}

/// The line that counts today's commits, file changes and shell commands.
pub fn activity_line(commits: usize, files: usize, commands: usize) -> (r: String)
    ensures
        r@ == activity_line_spec(commits as nat, files as nat, commands as nat),
{
    let mut r = String::new();
    push_str(&mut r, "commits: ");
    assert(r@ =~= "commits: "@);
    push_dec_u64(&mut r, commits as u64);
    push_str(&mut r, "  files: ");
    push_dec_u64(&mut r, files as u64);
    push_str(&mut r, "  commands: ");
    push_dec_u64(&mut r, commands as u64);
    r
}

/// Whether anything was recorded today (otherwise no summary is asked for).
pub fn has_activity(commits: usize, files: usize, commands: usize) -> (b: bool)
    ensures
        b == !(commits == 0 && files == 0 && commands == 0),
{
    !(commits == 0 && files == 0 && commands == 0)
}

/// A query's count of events, zero when the query failed.
pub fn count_or_zero(r: &Result<usize, String>) -> (n: usize)
    ensures
        n == (match r {
            Ok(n) => *n,
            Err(_) => 0,
        }),
{
    match r {
        Ok(n) => *n,
        Err(_) => 0,
    }
}

} // verus!
