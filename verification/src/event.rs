//! The events that the daemon records and the rows it stores them in.
use vstd::prelude::*;

use crate::text::{
    dec_int, dec_nat, is_digit, lemma_dec_int_injective, lemma_dec_nat_digits, push_dec_i64,
    push_str,
};

verus! {

/// The kind of a recorded developer activity.
#[derive(Debug, Clone, Copy, PartialEq, Eq, Structural)]
pub enum EventKind {
    Commit,
    FileChange,
    ShellCommand,
    EditorActivity,
}

/// What a commit event carries: the commit, its message, the files it
/// touched with their line counts, and the branch it was made on.
#[derive(Debug)]
pub struct CommitPayload {
    pub hash: String,
    pub message: String,
    pub files_changed: Vec<String>,
    pub insertions: i64,
    pub deletions: i64,
    pub branch: String,
}

/// The payload of an event, by kind.
#[derive(Debug)]
pub enum EventPayload {
    Commit(CommitPayload),
}

/// One recorded activity of a project.
#[derive(Debug)]
pub struct DevlogEvent {
    pub kind: EventKind,
    pub ts: i64,
    pub project: String,
    pub payload: EventPayload,
}

/// An event as the `events` table stores it, read back by the CLI.
#[derive(Debug)]
pub struct Event {
    pub id: i64,
    pub ts: i64,
    pub kind: String,
    pub project: String,
    pub payload: String,
}

/// An event row of the daemon's store.
#[derive(Debug)]
pub struct EventRow {
    pub id: i64,
    pub kind: String,
    pub ts: i64,
    pub project: String,
    pub payload: String,
}

/// A linked project: its name, its path and the hash of that path.
#[derive(Debug)]
pub struct Project {
    pub name: String,
    pub path: String,
    pub path_hash: String,
}

/// The commit hash that an event's payload carries.
pub open spec fn payload_hash(p: EventPayload) -> Seq<char> {
    match p {
        EventPayload::Commit(c) => c.hash@,
    }
}

/// The deduplication key of a commit: `commit:<hash>:<timestamp>`.
pub open spec fn commit_key(hash: Seq<char>, ts: i64) -> Seq<char> {
    "commit:"@ + hash + ":"@ + dec_int(ts as int)
}

impl DevlogEvent {
    /// The key that keeps an event from being stored twice. Only commit
    /// events have one: for the other kinds the daemon stops with
    /// "not yet implemented", so they are outside this function's domain.
    pub fn event_key(&self) -> (key: String)
        requires
            self.kind == EventKind::Commit,
        ensures
            key@ == commit_key(payload_hash(self.payload), self.ts),
    {
        let hash = match &self.payload {
            EventPayload::Commit(payload) => &payload.hash,
        };
        let mut key = String::new();
        push_str(&mut key, "commit:");
        push_str(&mut key, hash.as_str());
        push_str(&mut key, ":");
        push_dec_i64(&mut key, self.ts);
        key
    }
}

/// A commit event of `project` at time `ts` with the given commit details.
pub fn commit_event(
    project: String,
    ts: i64,
    hash: String,
    message: String,
    files_changed: Vec<String>,
    insertions: i64,
    deletions: i64,
    branch: String,
) -> (e: DevlogEvent)
    ensures
        e.kind == EventKind::Commit,
        e.ts == ts,
        e.project == project,
        e.payload == EventPayload::Commit(
            CommitPayload { hash, message, files_changed, insertions, deletions, branch },
        ),
{
    DevlogEvent {
        kind: EventKind::Commit,
        ts,
        project,
        payload: EventPayload::Commit(
            CommitPayload { hash, message, files_changed, insertions, deletions, branch },
        ),
    }
}

/// A written timestamp holds no colon: it is a minus sign and digits.
proof fn lemma_dec_int_no_colon(t: i64)
    ensures
        forall|i: int| 0 <= i < dec_int(t as int).len() ==> #[trigger] dec_int(t as int)[i] != ':',
{
    let d = dec_int(t as int);
    if t < 0 {
        lemma_dec_nat_digits((-t) as nat);
        assert forall|i: int| 0 <= i < d.len() implies #[trigger] d[i] != ':' by {
            if i > 0 {
                assert(d[i] == dec_nat((-t) as nat)[i - 1]);
                assert(is_digit(dec_nat((-t) as nat)[i - 1]));
            }
        }
    } else {
        lemma_dec_nat_digits(t as nat);
        assert forall|i: int| 0 <= i < d.len() implies #[trigger] d[i] != ':' by {
            assert(is_digit(dec_nat(t as nat)[i]));
        }
    }
}

/// Two commits get the same key only when their hashes and timestamps are
/// equal.
pub proof fn lemma_commit_key_injective(h1: Seq<char>, t1: i64, h2: Seq<char>, t2: i64)
    requires
        commit_key(h1, t1) == commit_key(h2, t2),
    ensures
        h1 == h2,
        t1 == t2,
{
    reveal_strlit("commit:");
    reveal_strlit(":");
    let k1 = commit_key(h1, t1);
    let k2 = commit_key(h2, t2);
    let d1 = dec_int(t1 as int);
    let d2 = dec_int(t2 as int);
    let a: int = 7;
    lemma_dec_int_no_colon(t1);
    lemma_dec_int_no_colon(t2);
    assert(k1 =~= "commit:"@ + h1 + ":"@ + d1);
    assert(k2 =~= "commit:"@ + h2 + ":"@ + d2);
    assert(k1.len() == k2.len());
    if h1.len() < h2.len() {
        let q = a + h2.len();
        assert(k2[q] == ':');
        assert(k1[q] == d1[q - a - h1.len() - 1]);
    } else if h2.len() < h1.len() {
        let q = a + h1.len();
        assert(k1[q] == ':');
        assert(k2[q] == d2[q - a - h2.len() - 1]);
    }
    assert(h1.len() == h2.len());
    assert(h1 =~= k1.subrange(a, a + h1.len()));
    assert(h2 =~= k2.subrange(a, a + h2.len()));
    assert(d1 =~= k1.skip(a + h1.len() + 1));
    assert(d2 =~= k2.skip(a + h2.len() + 1));
    lemma_dec_int_injective(t1, t2);
}

} // verus!
