//! The JSON text that a commit is stored as, and what the activity report
//! reads back from it.
use vstd::prelude::*;

use crate::context::{commit_line, commits_section, joined_strs, ParsedEvent};
use crate::event::CommitPayload;
use crate::json::{lookup_member, JsonValue};
use crate::text::{dec_int, dec_nat};

verus! {

/// The files `fs` joined by `", "`.
pub open spec fn join_files(fs: Seq<String>) -> Seq<char>
    decreases fs.len(),
{
    if fs.len() == 0 {
        Seq::empty()
    } else if fs.len() == 1 {
        fs[0]@
    } else {
        join_files(fs.drop_last()) + ", "@ + fs.last()@
    }
}

/// `v` is the string `s`.
pub open spec fn is_str(v: JsonValue, s: Seq<char>) -> bool {
    v matches JsonValue::Str(t) && t@ == s
}

/// `v` is the array of the strings `fs`, in order.
pub open spec fn is_str_array(v: JsonValue, fs: Seq<String>) -> bool {
    &&& v matches JsonValue::Array(a)
    &&& a@.len() == fs.len()
    &&& forall|i: int| 0 <= i < fs.len() ==> is_str(#[trigger] a@[i], fs[i]@)
}

/// `m` is the member named `key` with the value `v`.
pub open spec fn is_member(m: (String, JsonValue), key: Seq<char>) -> bool {
    m.0@ == key
}

/// `j` is the JSON of the commit payload `p`, wrapped in its kind's name:
/// `{"Commit": {"hash", "message", "files_changed", "insertions",
/// "deletions", "branch"}}`, in that order.
pub open spec fn is_commit_payload_json(j: JsonValue, p: CommitPayload) -> bool {
    &&& j matches JsonValue::Object(outer)
    &&& outer@.len() == 1
    &&& is_member(outer@[0], "Commit"@)
    &&& outer@[0].1 matches JsonValue::Object(m)
    &&& m@.len() == 6
    &&& is_member(m@[0], "hash"@) && is_str(m@[0].1, p.hash@)
    &&& is_member(m@[1], "message"@) && is_str(m@[1].1, p.message@)
    &&& is_member(m@[2], "files_changed"@) && is_str_array(m@[2].1, p.files_changed@)
    &&& is_member(m@[3], "insertions"@) && m@[3].1 == JsonValue::Int(p.insertions)
    &&& is_member(m@[4], "deletions"@) && m@[4].1 == JsonValue::Int(p.deletions)
    &&& is_member(m@[5], "branch"@) && is_str(m@[5].1, p.branch@)
}

/// A string value holding `s`.
fn str_value(s: &String) -> (v: JsonValue)
    ensures
        is_str(v, s@),
{
    JsonValue::Str(String::from_str(s.as_str()))
}

/// A member named `key` with the value `v`.
fn member(key: &str, v: JsonValue) -> (m: (String, JsonValue))
    ensures
        m.0@ == key@,
        m.1 == v,
{
    (String::from_str(key), v)
}

/// The JSON that the commit payload `p` is stored as.
pub fn commit_payload_json(p: &CommitPayload) -> (j: JsonValue)
    ensures
        is_commit_payload_json(j, *p),
{
    let mut files: Vec<JsonValue> = Vec::new();
    let mut i: usize = 0;
    while i < p.files_changed.len()
        invariant
            i <= p.files_changed.len(),
            files@.len() == i,
            forall|k: int| 0 <= k < i ==> is_str(#[trigger] files@[k], p.files_changed@[k]@),
        decreases p.files_changed.len() - i,
    {
        files.push(str_value(&p.files_changed[i]));
        i = i + 1;
    }
    let files_value = JsonValue::Array(files);
    assert(is_str_array(files_value, p.files_changed@));
    let mut m: Vec<(String, JsonValue)> = Vec::new();
    m.push(member("hash", str_value(&p.hash)));
    m.push(member("message", str_value(&p.message)));
    m.push(member("files_changed", files_value));
    m.push(member("insertions", JsonValue::Int(p.insertions)));
    m.push(member("deletions", JsonValue::Int(p.deletions)));
    m.push(member("branch", str_value(&p.branch)));
    let mut outer: Vec<(String, JsonValue)> = Vec::new();
    outer.push(member("Commit", JsonValue::Object(m)));
    JsonValue::Object(outer)
}

/// An array of the strings `fs` joins to `join_files(fs)`.
proof fn lemma_joined_strs(a: Seq<JsonValue>, fs: Seq<String>)
    requires
        a.len() == fs.len(),
        forall|i: int| 0 <= i < fs.len() ==> is_str(#[trigger] a[i], fs[i]@),
    ensures
        joined_strs(a) == join_files(fs),
    decreases a.len(),
{
    if a.len() > 0 {
        assert(is_str(a[a.len() - 1], fs[fs.len() - 1]@));
        if a.len() == 1 {
            assert(is_str(a[0], fs[0]@));
        } else {
            assert forall|i: int| 0 <= i < fs.drop_last().len() implies is_str(
                #[trigger] a.drop_last()[i],
                fs.drop_last()[i]@,
            ) by {
                assert(is_str(a[i], fs[i]@));
            }
            lemma_joined_strs(a.drop_last(), fs.drop_last());
        }
    }
}

/// What the daemon stores for a commit, the activity report reads back:
/// the line of an event whose payload is the JSON of the commit `p` shows
/// its time, message, files, insertions and deletions.
pub proof fn lemma_stored_commit_reads_back(e: ParsedEvent, p: CommitPayload)
    requires
        is_commit_payload_json(e.json, p),
    ensures
        commit_line(e) == "  "@ + dec_int(e.event.ts as int) + "  "@ + p.message@
            + "\n     files: "@ + join_files(p.files_changed@) + "  +"@ + dec_int(
            p.insertions as int,
        ) + " -"@ + dec_int(p.deletions as int) + "\n"@,
{
    reveal_strlit("Commit");
    reveal_strlit("hash");
    reveal_strlit("message");
    reveal_strlit("files_changed");
    reveal_strlit("insertions");
    reveal_strlit("deletions");
    reveal_strlit("branch");
    reveal_with_fuel(lookup_member, 7);
    let outer = e.json->Object_0;
    let c = outer@[0].1;
    let m = c->Object_0;
    assert(lookup_member(outer@, "Commit"@) == Some(c));
    assert("hash"@.len() == 4);
    assert("message"@.len() == 7);
    assert("files_changed"@.len() == 13);
    assert("insertions"@.len() == 10);
    assert("deletions"@.len() == 9);
    assert(m@[0].0@.len() == 4);
    assert(m@[1].0@.len() == 7);
    assert(m@[2].0@.len() == 13);
    assert(m@[3].0@.len() == 10);
    assert(m@[0].0@ != "message"@);
    assert(m@[0].0@ != "files_changed"@);
    assert(m@[1].0@ != "files_changed"@);
    assert(m@[0].0@ != "insertions"@);
    assert(m@[1].0@ != "insertions"@);
    assert(m@[2].0@ != "insertions"@);
    assert(m@[0].0@ != "deletions"@);
    assert(m@[1].0@ != "deletions"@);
    assert(m@[2].0@ != "deletions"@);
    assert(m@[3].0@ != "deletions"@);
    assert(m@.drop_first()[0] == m@[1]);
    assert(m@.drop_first().drop_first()[0] == m@[2]);
    assert(m@.drop_first().drop_first().drop_first()[0] == m@[3]);
    assert(m@.drop_first().drop_first().drop_first().drop_first()[0] == m@[4]);
    assert(lookup_member(m@, "message"@) == Some(m@[1].1));
    assert(lookup_member(m@, "files_changed"@) == Some(m@[2].1));
    assert(lookup_member(m@, "insertions"@) == Some(m@[3].1));
    assert(lookup_member(m@, "deletions"@) == Some(m@[4].1));
    let a = m@[2].1->Array_0;
    lemma_joined_strs(a@, p.files_changed@);
}

/// The first line of the commits part of the report, for `n` commits.
pub open spec fn commits_header(n: nat) -> Seq<char> {
    "COMMITS TODAY ("@ + dec_nat(n) + "):\n"@
}

/// Every commit of the query is listed, in order, with no cap: the commits
/// part starts with the header that counts them; with no commits it is the
/// header alone; and one more commit `e` leaves every line before it as it
/// was and adds the line of `e` at the end.
pub proof fn lemma_every_commit_listed(v: Vec<ParsedEvent>, w: Vec<ParsedEvent>, e: ParsedEvent)
    ensures
        commits_section(Ok(v)).take(commits_header(v.len() as nat).len() as int) == commits_header(
            v.len() as nat,
        ),
        v.len() == 0 ==> commits_section(Ok(v)) == commits_header(0),
        w@ == v@.push(e) ==> commits_section(Ok(w)).skip(
            commits_header(w.len() as nat).len() as int,
        ) == commits_section(Ok(v)).skip(commits_header(v.len() as nat).len() as int)
            + commit_line(e),
{
    let hv = commits_header(v.len() as nat);
    assert(commits_section(Ok(v)).take(hv.len() as int) =~= hv);
    if v.len() == 0 {
        assert(commits_section(Ok(v)) =~= commits_header(0));
    }
    if w@ == v@.push(e) {
        let hw = commits_header(w.len() as nat);
        assert(w@.drop_last() =~= v@);
        assert(commits_section(Ok(w)).skip(hw.len() as int) =~= crate::context::commit_lines(w@));
        assert(commits_section(Ok(v)).skip(hv.len() as int) =~= crate::context::commit_lines(v@));
    }
}

} // verus!
