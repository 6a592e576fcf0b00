//! The diagnostics report of the event store: which tables exist and how
//! many rows they hold, which event kinds were recorded, what today's
//! queries find, and the latest events.
use vstd::prelude::*;

use crate::context::{quote_identifier, quote_identifier_spec, truncate, truncate_spec};
use crate::text::{dec_int, push_dec_i64, push_str};

verus! {

/// The query that counts the rows of the table `table`, its name quoted.
pub fn table_count_query(table: &str) -> (r: String)
    ensures
        r@ == "SELECT COUNT(*) FROM "@ + quote_identifier_spec(table@),
{
    let mut r = String::new();
    push_str(&mut r, "SELECT COUNT(*) FROM ");
    assert(r@ =~= "SELECT COUNT(*) FROM "@);
    let q = quote_identifier(table);
    push_str(&mut r, q.as_str());
    r
}

/// The number of stored events of one kind.
#[derive(Debug)]
pub struct KindCount {
    pub kind: String,
    pub row_count: i64,
}

/// A stored event as the diagnostics list it.
#[derive(Debug)]
pub struct EventPreview {
    pub id: i64,
    pub ts: i64,
    pub kind: String,
    pub project: String,
    pub payload: String,
}

/// What the queries about the `events` table found (each outcome is the
/// rows found or the text of the error the query failed with).
#[derive(Debug)]
pub struct EventDetails {
    pub kind_counts: Result<Vec<KindCount>, String>,
    pub commit_count: Result<i64, String>,
    pub file_count: Result<i64, String>,
    pub command_count: Result<i64, String>,
    pub recent: Result<Vec<EventPreview>, String>,
}

/// Everything the diagnostics report is made from.
#[derive(Debug)]
pub struct DiagnosticsInput {
    /// The path of the database file, as it is displayed.
    pub db_path: String,
    /// The timestamp of today's midnight.
    pub midnight: i64,
    /// The names of the tables, or the error of that query.
    pub tables: Result<Vec<String>, String>,
    /// For each table, in order, its row count or the error of that query.
    pub table_counts: Vec<Result<i64, String>>,
    /// The queries about events, made only when there is an `events` table.
    pub details: Option<EventDetails>,
}

/// Whether `tables` names a table called `events`.
pub open spec fn contains_events(tables: Seq<String>) -> bool {
    exists|i: int| 0 <= i < tables.len() && #[trigger] tables[i]@ == "events"@
}

/// The event queries are made when the table list was read and it names
/// an `events` table.
pub open spec fn needs_event_queries(tables: Result<Vec<String>, String>) -> bool {
    match tables {
        Ok(t) => contains_events(t@),
        Err(_) => false,
    }
}

/// The line that reports one table's row count.
pub open spec fn table_line(name: Seq<char>, count: Result<i64, String>) -> Seq<char> {
    match count {
        Ok(c) => "  "@ + name + ": "@ + dec_int(c as int) + " rows\n"@,
        Err(e) => "  "@ + name + ": count failed: "@ + e@ + "\n"@,
    }
}

/// The lines of the tables `t` with their counts `c`.
pub open spec fn table_lines(t: Seq<String>, c: Seq<Result<i64, String>>) -> Seq<char>
    decreases t.len(),
{
    if t.len() == 0 {
        Seq::empty()
    } else {
        table_lines(t.drop_last(), c) + table_line(t.last()@, c[t.len() - 1])
    }
}

/// The lines of the event kinds and their counts.
pub open spec fn kind_lines(k: Seq<KindCount>) -> Seq<char>
    decreases k.len(),
{
    if k.len() == 0 {
        Seq::empty()
    } else {
        kind_lines(k.drop_last()) + "  "@ + k.last().kind@ + ": "@ + dec_int(
            k.last().row_count as int,
        ) + " rows\n"@
    }
}

/// The event kinds part of the report.
pub open spec fn kinds_part(r: Result<Vec<KindCount>, String>) -> Seq<char> {
    match r {
        Ok(k) => if k.len() == 0 {
            "  none\n"@
        } else {
            kind_lines(k@)
        },
        Err(e) => "  failed: "@ + e@ + "\n"@,
    }
}

/// `append_bucket_count`: the line that reports what one of today's
/// queries counted.
pub open spec fn bucket_line(label: Seq<char>, description: Seq<char>, r: Result<i64, String>) -> Seq<
    char,
> {
    match r {
        Ok(c) => "  "@ + label + ": "@ + dec_int(c as int) + " rows from "@ + description + "\n"@,
        Err(e) => "  "@ + label + ": failed from "@ + description + ": "@ + e@ + "\n"@,
    }
}

/// The line that lists one recent event.
pub open spec fn preview_line(e: EventPreview) -> Seq<char> {
    "  #"@ + dec_int(e.id as int) + " "@ + dec_int(e.ts as int) + " "@ + e.kind@ + " "@
        + truncate_spec(e.project@, 60) + " payload="@ + truncate_spec(e.payload@, 140) + "\n"@
}

/// The lines of the recent events, in order.
pub open spec fn preview_lines(es: Seq<EventPreview>) -> Seq<char>
    decreases es.len(),
{
    if es.len() == 0 {
        Seq::empty()
    } else {
        preview_lines(es.drop_last()) + preview_line(es.last())
    }
}

/// The recent events part of the report.
pub open spec fn recent_part(r: Result<Vec<EventPreview>, String>) -> Seq<char> {
    match r {
        Ok(es) => if es.len() == 0 {
            "  none\n"@
        } else {
            preview_lines(es@)
        },
        Err(e) => "  failed: "@ + e@ + "\n"@,
    }
}

/// The part of the report about the `events` table.
pub open spec fn details_part(d: EventDetails) -> Seq<char> {
    "\nEVENT KINDS:\n"@ + kinds_part(d.kind_counts) + "\nCONTEXT QUERIES:\n"@ + bucket_line(
        "commits"@,
        "events WHERE kind IN ('Commit', 'commit') AND ts >= today_cutoff"@,
        d.commit_count,
    ) + bucket_line(
        "file changes"@,
        "events WHERE kind IN ('FileChange', 'file_change', 'file') AND ts >= today_cutoff"@,
        d.file_count,
    ) + bucket_line(
        "shell commands"@,
        "events WHERE kind IN ('ShellCommand', 'shell_command', 'cmd') AND ts >= today_cutoff"@,
        d.command_count,
    ) + "\nRECENT EVENTS:\n"@ + recent_part(d.recent)
}

/// The header of the report.
pub open spec fn diagnostics_header(db_path: Seq<char>, midnight: i64) -> Seq<char> {
    "DB path: "@ + db_path + "\n"@ + "Today cutoff ts: "@ + dec_int(midnight as int) + "\n"@ + "\n"@
        + "TABLE ROW COUNTS:\n"@
}

/// The whole diagnostics report.
pub open spec fn diagnostics_spec(input: DiagnosticsInput) -> Seq<char> {
    diagnostics_header(input.db_path@, input.midnight) + match input.tables {
        Err(e) => "  failed to read sqlite_master: "@ + e@ + "\n"@,
        Ok(t) => (if t.len() == 0 {
            "  no tables found\n"@
        } else {
            Seq::empty()
        }) + table_lines(t@, input.table_counts@) + if !contains_events(t@) {
            "\nEVENTS TABLE: missing, so standup cannot read activity yet\n"@
        } else {
            details_part(input.details->Some_0)
        },
    }
}

/// Whether `t` names a table called `events`.
fn contains_events_exec(t: &Vec<String>) -> (b: bool)
    ensures
        b == contains_events(t@),
{
    let events = String::from_str("events");
    let mut i: usize = 0;
    while i < t.len()
        invariant
            i <= t.len(),
            events@ == "events"@,
            forall|j: int| 0 <= j < i ==> t@[j]@ != "events"@,
        decreases t.len() - i,
    {
        if t[i] == events {
            assert(t@[i as int]@ == "events"@);
            return true;
        }
        i = i + 1;
    }
    false
}

/// Whether the event queries are to be made: the table list was read and
/// it names an `events` table.
pub fn needs_event_queries_exec(tables: &Result<Vec<String>, String>) -> (b: bool)
    ensures
        b == needs_event_queries(*tables),
{
    match tables {
        Ok(t) => contains_events_exec(t),
        Err(_) => false,
    }
}

/// Appends the line that reports what one of today's queries counted.
pub fn append_bucket_count(out: &mut String, label: &str, description: &str, r: &Result<i64, String>)
    ensures
        final(out)@ == old(out)@ + bucket_line(label@, description@, *r),
{
    let mut line = String::new();
    push_str(&mut line, "  ");
    assert(line@ =~= "  "@);
    push_str(&mut line, label);
    match r {
        Ok(c) => {
            push_str(&mut line, ": ");
            push_dec_i64(&mut line, *c);
            push_str(&mut line, " rows from ");
            push_str(&mut line, description);
            push_str(&mut line, "\n");
        },
        Err(e) => {
            push_str(&mut line, ": failed from ");
            push_str(&mut line, description);
            push_str(&mut line, ": ");
            push_str(&mut line, e.as_str());
            push_str(&mut line, "\n");
        },
    }
    push_str(out, line.as_str());
}

/// Appends the lines of the tables and their row counts.
fn push_table_lines(out: &mut String, t: &Vec<String>, c: &Vec<Result<i64, String>>)
    requires
        c.len() == t.len(),
    ensures
        final(out)@ == old(out)@ + table_lines(t@, c@),
{
    let ghost start = out@;
    let mut i: usize = 0;
    while i < t.len()
        invariant
            i <= t.len() == c.len(),
            out@ == start + table_lines(t@.take(i as int), c@),
        decreases t.len() - i,
    {
        assert(t@.take(i + 1).drop_last() =~= t@.take(i as int));
        let mut line = String::new();
        push_str(&mut line, "  ");
        assert(line@ =~= "  "@);
        push_str(&mut line, t[i].as_str());
        match &c[i] {
            Ok(n) => {
                push_str(&mut line, ": ");
                push_dec_i64(&mut line, *n);
                push_str(&mut line, " rows\n");
            },
            Err(e) => {
                push_str(&mut line, ": count failed: ");
                push_str(&mut line, e.as_str());
                push_str(&mut line, "\n");
            },
        }
        push_str(out, line.as_str());
        i = i + 1;
    }
    assert(t@.take(t.len() as int) =~= t@);
}

/// Appends the event kinds part of the report.
fn push_kinds_part(out: &mut String, r: &Result<Vec<KindCount>, String>)
    ensures
        final(out)@ == old(out)@ + kinds_part(*r),
{
    match r {
        Ok(k) => {
            if k.len() == 0 {
                push_str(out, "  none\n");
            } else {
                let ghost start = out@;
                let mut i: usize = 0;
                while i < k.len()
                    invariant
                        i <= k.len(),
                        out@ == start + kind_lines(k@.take(i as int)),
                    decreases k.len() - i,
                {
                    assert(k@.take(i + 1).drop_last() =~= k@.take(i as int));
                    let mut line = String::new();
                    push_str(&mut line, "  ");
                    assert(line@ =~= "  "@);
                    push_str(&mut line, k[i].kind.as_str());
                    push_str(&mut line, ": ");
                    push_dec_i64(&mut line, k[i].row_count);
                    push_str(&mut line, " rows\n");
                    push_str(out, line.as_str());
                    i = i + 1;
                }
                assert(k@.take(k.len() as int) =~= k@);
            }
        },
        Err(e) => {
            push_str(out, "  failed: ");
            push_str(out, e.as_str());
            push_str(out, "\n");
        },
    }
}

/// The line that lists one recent event.
fn preview_line_exec(e: &EventPreview) -> (line: String)
    ensures
        line@ == preview_line(*e),
{
    let mut line = String::new();
    push_str(&mut line, "  #");
    assert(line@ =~= "  #"@);
    push_dec_i64(&mut line, e.id);
    push_str(&mut line, " ");
    push_dec_i64(&mut line, e.ts);
    push_str(&mut line, " ");
    push_str(&mut line, e.kind.as_str());
    push_str(&mut line, " ");
    let project = truncate(e.project.as_str(), 60);
    push_str(&mut line, project.as_str());
    push_str(&mut line, " payload=");
    let payload = truncate(e.payload.as_str(), 140);
    push_str(&mut line, payload.as_str());
    push_str(&mut line, "\n");
    line
}

/// Appends the recent events part of the report.
fn push_recent_part(out: &mut String, r: &Result<Vec<EventPreview>, String>)
    ensures
        final(out)@ == old(out)@ + recent_part(*r),
{
    match r {
        Ok(es) => {
            if es.len() == 0 {
                push_str(out, "  none\n");
            } else {
                let ghost start = out@;
                let mut i: usize = 0;
                while i < es.len()
                    invariant
                        i <= es.len(),
                        out@ == start + preview_lines(es@.take(i as int)),
                    decreases es.len() - i,
                {
                    assert(es@.take(i + 1).drop_last() =~= es@.take(i as int));
                    let line = preview_line_exec(&es[i]);
                    push_str(out, line.as_str());
                    i = i + 1;
                }
                assert(es@.take(es.len() as int) =~= es@);
            }
        },
        Err(e) => {
            push_str(out, "  failed: ");
            push_str(out, e.as_str());
            push_str(out, "\n");
        },
    }
}

/// The part of the report about the `events` table.
fn details_part_exec(d: &EventDetails) -> (r: String)
    ensures
        r@ == details_part(*d),
{
    let mut out = String::new();
    push_str(&mut out, "\nEVENT KINDS:\n");
    assert(out@ =~= "\nEVENT KINDS:\n"@);
    push_kinds_part(&mut out, &d.kind_counts);
    push_str(&mut out, "\nCONTEXT QUERIES:\n");
    append_bucket_count(
        &mut out,
        "commits",
        "events WHERE kind IN ('Commit', 'commit') AND ts >= today_cutoff",
        &d.commit_count,
    );
    append_bucket_count(
        &mut out,
        "file changes",
        "events WHERE kind IN ('FileChange', 'file_change', 'file') AND ts >= today_cutoff",
        &d.file_count,
    );
    append_bucket_count(
        &mut out,
        "shell commands",
        "events WHERE kind IN ('ShellCommand', 'shell_command', 'cmd') AND ts >= today_cutoff",
        &d.command_count,
    );
    push_str(&mut out, "\nRECENT EVENTS:\n");
    push_recent_part(&mut out, &d.recent);
    out
}

/// Builds the diagnostics report. The row counts are given for every
/// table listed, and the event queries were made when they are needed.
pub fn build_diagnostics(input: &DiagnosticsInput) -> (r: String)
    requires
        input.tables matches Ok(t) ==> input.table_counts.len() == t.len(),
        needs_event_queries(input.tables) ==> input.details is Some,
    ensures
        r@ == diagnostics_spec(*input),
{
    let mut out = String::new();
    push_str(&mut out, "DB path: ");
    assert(out@ =~= "DB path: "@);
    push_str(&mut out, input.db_path.as_str());
    push_str(&mut out, "\n");
    push_str(&mut out, "Today cutoff ts: ");
    push_dec_i64(&mut out, input.midnight);
    push_str(&mut out, "\n");
    push_str(&mut out, "\n");
    push_str(&mut out, "TABLE ROW COUNTS:\n");
    let ghost head = out@;
    assert(head == diagnostics_header(input.db_path@, input.midnight));
    let mut rest = String::new();
    match &input.tables {
        Err(e) => {
            push_str(&mut rest, "  failed to read sqlite_master: ");
            assert(rest@ =~= "  failed to read sqlite_master: "@);
            push_str(&mut rest, e.as_str());
            push_str(&mut rest, "\n");
        },
        Ok(t) => {
            if t.len() == 0 {
                push_str(&mut rest, "  no tables found\n");
                assert(rest@ =~= "  no tables found\n"@);
            } else {
                assert(rest@ =~= Seq::<char>::empty());
            }
            push_table_lines(&mut rest, t, &input.table_counts);
            if !needs_event_queries_exec(&input.tables) {
                push_str(&mut rest, "\nEVENTS TABLE: missing, so standup cannot read activity yet\n");
            } else {
                match &input.details {
                    Some(d) => {
                        let dp = details_part_exec(d);
                        push_str(&mut rest, dp.as_str());
                    },
                    None => {},
                }
            }
        },
    }
    push_str(&mut out, rest.as_str());
    out
}

/// Whether the `events` table is there does not depend on where the table
/// list names it: a list that names `events` at any position makes the
/// event queries run (and the report never says the table is missing), and
/// a list that names it nowhere does not.
pub proof fn lemma_events_found_anywhere(t: Vec<String>, i: int)
    ensures
        0 <= i < t.len() && t@[i]@ == "events"@ ==> needs_event_queries(Ok(t)),
        (forall|j: int| 0 <= j < t.len() ==> t@[j]@ != "events"@) ==> !needs_event_queries(Ok(t)),
{
    if 0 <= i < t.len() && t@[i]@ == "events"@ {
        assert(t@[i]@ == "events"@);
    }
}

} // verus!
