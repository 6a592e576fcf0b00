//! The activity report that a standup summary is written from: today's
//! commits, the files touched most often, and the latest shell commands.
use vstd::prelude::*;

use crate::event::Event;
use crate::json::{
    array_field_exec, i64_field, i64_field_exec, json_as_str, json_index, payload_section,
    payload_section_spec, str_field, str_field_exec, JsonValue,
};
use crate::text::{
    chars_of, dec_int, dec_nat, push_char, push_chars, push_dec_i64, push_dec_u64, push_str,
    slice_chars,
};

verus! {

/// A stored event together with its payload parsed as JSON (`Null` when
/// the payload is not valid JSON, as `unwrap_or_default` on the parse gives).
#[derive(Debug)]
pub struct ParsedEvent {
    pub event: Event,
    pub json: JsonValue,
}

// ---------------------------------------------------------------------------
// Small text pieces
// ---------------------------------------------------------------------------

/// A text, or the empty text when there is none.
pub open spec fn str_or_empty(o: Option<Seq<char>>) -> Seq<char> {
    match o {
        Some(s) => s,
        None => Seq::empty(),
    }
}

/// A number, or zero when there is none.
pub open spec fn i64_or_zero(o: Option<i64>) -> i64 {
    match o {
        Some(n) => n,
        None => 0,
    }
}

/// At most the first `n` elements of `s`.
pub open spec fn first_n<A>(s: Seq<A>, n: nat) -> Seq<A> {
    if s.len() <= n {
        s
    } else {
        s.take(n as int)
    }
}

/// `truncate`: the first `max` characters of `v`, followed by `"..."` when
/// characters were cut off.
pub open spec fn truncate_spec(v: Seq<char>, max: nat) -> Seq<char> {
    if v.len() > max {
        v.take(max as int) + "..."@
    } else {
        v
    }
}

/// `v` with every double quote doubled.
pub open spec fn double_quotes(v: Seq<char>) -> Seq<char>
    decreases v.len(),
{
    if v.len() == 0 {
        Seq::empty()
    } else if v.last() == '"' {
        double_quotes(v.drop_last()) + seq!['"', '"']
    } else {
        double_quotes(v.drop_last()).push(v.last())
    }
}

/// `quote_identifier`: an SQL identifier in double quotes, inner double
/// quotes doubled.
pub open spec fn quote_identifier_spec(v: Seq<char>) -> Seq<char> {
    seq!['"'] + double_quotes(v) + seq!['"']
}

/// Cuts `value` down to `max_chars` characters, marking a cut with `"..."`.
pub fn truncate(value: &str, max_chars: usize) -> (r: String)
    ensures
        r@ == truncate_spec(value@, max_chars as nat),
{
    let v = chars_of(value);
    if v.len() > max_chars {
        let head = slice_chars(&v, 0, max_chars);
        let mut r = String::new();
        push_chars(&mut r, &head);
        push_str(&mut r, "...");
        assert(head@ =~= value@.take(max_chars as int));
        r
    } else {
        let mut r = String::new();
        push_chars(&mut r, &v);
        r
    }
}

/// Quotes `identifier` for use as an SQL table name.
pub fn quote_identifier(identifier: &str) -> (r: String)
    ensures
        r@ == quote_identifier_spec(identifier@),
{
    let v = chars_of(identifier);
    let mut r = String::new();
    push_char(&mut r, '"');
    let mut i: usize = 0;
    while i < v.len()
        invariant
            i <= v.len(),
            v@ == identifier@,
            r@ == seq!['"'] + double_quotes(v@.take(i as int)),
        decreases v.len() - i,
    {
        assert(v@.take(i + 1).drop_last() =~= v@.take(i as int));
        if v[i] == '"' {
            push_char(&mut r, '"');
            push_char(&mut r, '"');
        } else {
            push_char(&mut r, v[i]);
        }
        i = i + 1;
    }
    assert(v@.take(v.len() as int) =~= v@);
    push_char(&mut r, '"');
    r
}

// ---------------------------------------------------------------------------
// Commits
// ---------------------------------------------------------------------------

/// The string elements of a JSON array joined by `", "`, a non-string
/// element counting as empty.
pub open spec fn joined_strs(a: Seq<JsonValue>) -> Seq<char>
    decreases a.len(),
{
    if a.len() == 0 {
        Seq::empty()
    } else if a.len() == 1 {
        str_or_empty(json_as_str(a[0]))
    } else {
        joined_strs(a.drop_last()) + ", "@ + str_or_empty(json_as_str(a.last()))
    }
}

/// The files of a commit payload, joined by `", "`.
pub open spec fn files_list(commit: JsonValue) -> Seq<char> {
    match json_index(commit, "files_changed"@) {
        JsonValue::Array(a) => joined_strs(a@),
        _ => Seq::empty(),
    }
}

/// The two lines that report one commit.
pub open spec fn commit_line(e: ParsedEvent) -> Seq<char> {
    let c = payload_section_spec(e.json, "Commit"@);
    "  "@ + dec_int(e.event.ts as int) + "  "@ + str_or_empty(str_field(c, "message"@))
        + "\n     files: "@ + files_list(c) + "  +"@ + dec_int(
        i64_or_zero(i64_field(c, "insertions"@)) as int,
    ) + " -"@ + dec_int(i64_or_zero(i64_field(c, "deletions"@)) as int) + "\n"@
}

/// The lines of all the commits `es`, in order.
pub open spec fn commit_lines(es: Seq<ParsedEvent>) -> Seq<char>
    decreases es.len(),
{
    if es.len() == 0 {
        Seq::empty()
    } else {
        commit_lines(es.drop_last()) + commit_line(es.last())
    }
}

/// The commits part of the report.
pub open spec fn commits_section(r: Result<Vec<ParsedEvent>, String>) -> Seq<char> {
    match r {
        Ok(v) => "COMMITS TODAY ("@ + dec_nat(v.len() as nat) + "):\n"@ + commit_lines(v@),
        Err(e) => "COMMITS TODAY: query failed: "@ + e@ + "\n"@,
    }
}

/// Appends the files of the array `a` joined by `", "`.
fn push_joined_strs(out: &mut String, a: &Vec<JsonValue>)
    ensures
        final(out)@ == old(out)@ + joined_strs(a@),
{
    let ghost start = out@;
    let mut i: usize = 0;
    while i < a.len()
        invariant
            i <= a.len(),
            out@ == start + joined_strs(a@.take(i as int)),
        decreases a.len() - i,
    {
        assert(a@.take(i + 1).drop_last() =~= a@.take(i as int));
        if i > 0 {
            push_str(out, ", ");
        }
        match &a[i] {
            JsonValue::Str(s) => push_str(out, s.as_str()),
            _ => {},
        }
        i = i + 1;
    }
    assert(a@.take(a.len() as int) =~= a@);
}

/// The two lines that report the commit `e`.
fn commit_line_exec(e: &ParsedEvent) -> (line: String)
    ensures
        line@ == commit_line(*e),
{
    let c = payload_section(&e.json, "Commit");
    let mut line = String::new();
    push_str(&mut line, "  ");
    assert(line@ =~= "  "@);
    push_dec_i64(&mut line, e.event.ts);
    push_str(&mut line, "  ");
    match str_field_exec(c, "message") {
        Some(m) => push_str(&mut line, m.as_str()),
        None => {
            assert(line@ + Seq::<char>::empty() =~= line@);
        },
    }
    push_str(&mut line, "\n     files: ");
    match array_field_exec(c, "files_changed") {
        Some(a) => push_joined_strs(&mut line, a),
        None => {
            assert(line@ + Seq::<char>::empty() =~= line@);
        },
    }
    push_str(&mut line, "  +");
    let ins = match i64_field_exec(c, "insertions") {
        Some(n) => n,
        None => 0,
    };
    push_dec_i64(&mut line, ins);
    push_str(&mut line, " -");
    let del = match i64_field_exec(c, "deletions") {
        Some(n) => n,
        None => 0,
    };
    push_dec_i64(&mut line, del);
    push_str(&mut line, "\n");
    line
}

/// The commits part of the report, from the outcome of the commits query.
pub fn commits_report(commits: &Result<Vec<ParsedEvent>, String>) -> (r: String)
    ensures
        r@ == commits_section(*commits),
{
    let mut out = String::new();
    match commits {
        Ok(v) => {
            push_str(&mut out, "COMMITS TODAY (");
            push_dec_u64(&mut out, v.len() as u64);
            push_str(&mut out, "):\n");
            let ghost head = out@;
            let mut i: usize = 0;
            while i < v.len()
                invariant
                    i <= v.len(),
                    out@ == head + commit_lines(v@.take(i as int)),
                decreases v.len() - i,
            {
                assert(v@.take(i + 1).drop_last() =~= v@.take(i as int));
                let line = commit_line_exec(&v[i]);
                push_str(&mut out, line.as_str());
                i = i + 1;
            }
            assert(v@.take(v.len() as int) =~= v@);
        },
        Err(e) => {
            push_str(&mut out, "COMMITS TODAY: query failed: ");
            push_str(&mut out, e.as_str());
            push_str(&mut out, "\n");
        },
    }
    out
}

// ---------------------------------------------------------------------------
// Files touched
// ---------------------------------------------------------------------------

/// The path that a file-change event names: the `path` of its `FileChange`
/// section, or else a `path` at the top of the payload.
pub open spec fn file_path(e: ParsedEvent) -> Option<Seq<char>> {
    match str_field(payload_section_spec(e.json, "FileChange"@), "path"@) {
        Some(p) => Some(p),
        None => str_field(e.json, "path"@),
    }
}

/// The paths that the events `es` name, in order, repeats included.
pub open spec fn file_paths(es: Seq<ParsedEvent>) -> Seq<Seq<char>>
    decreases es.len(),
{
    if es.len() == 0 {
        Seq::empty()
    } else {
        let rest = file_paths(es.drop_last());
        match file_path(es.last()) {
            Some(p) => rest.push(p),
            None => rest,
        }
    }
}

/// How often `p` occurs in `ps`.
pub open spec fn count_in(ps: Seq<Seq<char>>, p: Seq<char>) -> nat
    decreases ps.len(),
{
    if ps.len() == 0 {
        0
    } else {
        count_in(ps.drop_last(), p) + if ps.last() == p {
            1nat
        } else {
            0nat
        }
    }
}

/// `a` occurs in `ps` before the first occurrence of `b`.
pub open spec fn seen_before(ps: Seq<Seq<char>>, a: Seq<char>, b: Seq<char>) -> bool {
    exists|i: int| 0 <= i < ps.len() && ps[i] == a && forall|j: int| 0 <= j <= i ==> ps[j] != b
}

/// `a` comes before `b` in the ranking of `ps`: it was saved more often, or
/// as often and first saved earlier.
pub open spec fn ranks_before(ps: Seq<Seq<char>>, a: Seq<char>, b: Seq<char>) -> bool {
    ||| count_in(ps, a) > count_in(ps, b)
    ||| count_in(ps, a) == count_in(ps, b) && seen_before(ps, a, b)
}

/// `r` lists each path of `ps` once, most saved first, ties in the order
/// in which the paths were first saved. Fixing the tie order is a choice:
/// counting in a hash map and sorting by count alone would leave tied paths
/// in the map's walk order, which varies from run to run; any such order
/// lists the same paths with the same counts.
pub open spec fn is_file_ranking(ps: Seq<Seq<char>>, r: Seq<Seq<char>>) -> bool {
    &&& r.no_duplicates()
    &&& forall|x: Seq<char>| r.contains(x) <==> ps.contains(x)
    &&& forall|i: int, j: int| 0 <= i < j < r.len() ==> ranks_before(ps, r[i], r[j])
}

/// The ranking of the paths of `ps` (there is exactly one, see
/// `lemma_file_ranking_unique`).
pub open spec fn file_ranking(ps: Seq<Seq<char>>) -> Seq<Seq<char>> {
    choose|r: Seq<Seq<char>>| is_file_ranking(ps, r)
}

/// The line that reports one path and how often it was saved.
pub open spec fn file_line(ps: Seq<Seq<char>>, p: Seq<char>) -> Seq<char> {
    "  "@ + p + "  ("@ + dec_nat(count_in(ps, p)) + " saves)\n"@
}

/// The lines of the paths `r`, in order.
pub open spec fn file_lines(ps: Seq<Seq<char>>, r: Seq<Seq<char>>) -> Seq<char>
    decreases r.len(),
{
    if r.len() == 0 {
        Seq::empty()
    } else {
        file_lines(ps, r.drop_last()) + file_line(ps, r.last())
    }
}

/// The files part of the report: how many distinct files were saved, then
/// the eight saved most often.
pub open spec fn files_section(r: Result<Vec<ParsedEvent>, String>) -> Seq<char> {
    match r {
        Ok(v) => {
            let ps = file_paths(v@);
            let rank = file_ranking(ps);
            "\nFILES TOUCHED ("@ + dec_nat(rank.len()) + "):\n"@ + file_lines(ps, first_n(rank, 8))
        },
        Err(e) => "\nFILES TOUCHED: query failed: "@ + e@ + "\n"@,
    }
}

/// Ranking before is asymmetric.
pub proof fn lemma_ranks_before_asymmetric(ps: Seq<Seq<char>>, a: Seq<char>, b: Seq<char>)
    requires
        ranks_before(ps, a, b),
    ensures
        !ranks_before(ps, b, a),
{
    if count_in(ps, a) == count_in(ps, b) && seen_before(ps, a, b) && seen_before(ps, b, a) {
        let i = choose|i: int|
            0 <= i < ps.len() && ps[i] == a && forall|j: int| 0 <= j <= i ==> ps[j] != b;
        let k = choose|k: int|
            0 <= k < ps.len() && ps[k] == b && forall|j: int| 0 <= j <= k ==> ps[j] != a;
        if i <= k {
            assert(ps[i] != a);
        } else {
            assert(ps[k] != b);
        }
    }
}

/// Two duplicate-free sequences with the same elements, both ordered by
/// `ranks_before`, are equal.
proof fn lemma_sorted_unique(ps: Seq<Seq<char>>, r1: Seq<Seq<char>>, r2: Seq<Seq<char>>)
    requires
        r1.no_duplicates(),
        r2.no_duplicates(),
        forall|x: Seq<char>| r1.contains(x) <==> r2.contains(x),
        forall|i: int, j: int| 0 <= i < j < r1.len() ==> ranks_before(ps, r1[i], r1[j]),
        forall|i: int, j: int| 0 <= i < j < r2.len() ==> ranks_before(ps, r2[i], r2[j]),
    ensures
        r1 == r2,
    decreases r1.len(),
{
    if r1.len() == 0 {
        if r2.len() > 0 {
            assert(r2.contains(r2[0]));
        }
        assert(r1 =~= r2);
    } else {
        assert(r1.contains(r1[0]));
        assert(r2.len() > 0);
        assert(r2.contains(r2[0]));
        if r1[0] != r2[0] {
            let j = choose|j: int| 0 <= j < r2.len() && r2[j] == r1[0];
            let i = choose|i: int| 0 <= i < r1.len() && r1[i] == r2[0];
            assert(j > 0 && i > 0);
            assert(ranks_before(ps, r2[0], r2[j]));
            assert(ranks_before(ps, r1[0], r1[i]));
            lemma_ranks_before_asymmetric(ps, r1[0], r2[0]);
        }
        let t1 = r1.drop_first();
        let t2 = r2.drop_first();
        assert forall|x: Seq<char>| t1.contains(x) <==> t2.contains(x) by {
            if t1.contains(x) {
                let k = choose|k: int| 0 <= k < t1.len() && t1[k] == x;
                assert(r1[k + 1] == x);
                assert(x != r1[0]);
                assert(r1.contains(x));
                let m = choose|m: int| 0 <= m < r2.len() && r2[m] == x;
                assert(m != 0);
                assert(t2[m - 1] == x);
            }
            if t2.contains(x) {
                let k = choose|k: int| 0 <= k < t2.len() && t2[k] == x;
                assert(r2[k + 1] == x);
                assert(x != r2[0]);
                assert(r2.contains(x));
                let m = choose|m: int| 0 <= m < r1.len() && r1[m] == x;
                assert(m != 0);
                assert(t1[m - 1] == x);
            }
        }
        assert forall|i: int, j: int| 0 <= i < j < t1.len() implies ranks_before(
            ps,
            t1[i],
            t1[j],
        ) by {
            assert(t1[i] == r1[i + 1] && t1[j] == r1[j + 1]);
        }
        assert forall|i: int, j: int| 0 <= i < j < t2.len() implies ranks_before(
            ps,
            t2[i],
            t2[j],
        ) by {
            assert(t2[i] == r2[i + 1] && t2[j] == r2[j + 1]);
        }
        lemma_sorted_unique(ps, t1, t2);
        assert(r1 =~= seq![r1[0]] + t1);
        assert(r2 =~= seq![r2[0]] + t2);
    }
}

/// There is one ranking of the paths of `ps`, at most.
pub proof fn lemma_file_ranking_unique(ps: Seq<Seq<char>>, r: Seq<Seq<char>>)
    requires
        is_file_ranking(ps, r),
    ensures
        file_ranking(ps) == r,
{
    let c = file_ranking(ps);
    assert(is_file_ranking(ps, c));
    lemma_sorted_unique(ps, c, r);
}

/// `s` is ordered by the ranking of `ps`.
pub open spec fn ranked_sorted(ps: Seq<Seq<char>>, s: Seq<Seq<char>>) -> bool {
    forall|i: int, j: int| 0 <= i < j < s.len() ==> ranks_before(ps, #[trigger] s[i], #[trigger] s[j])
}

/// The distinct paths of `ps`, in the order in which they first occur.
pub open spec fn distinct_paths(ps: Seq<Seq<char>>) -> Seq<Seq<char>>
    decreases ps.len(),
{
    if ps.len() == 0 {
        Seq::empty()
    } else {
        let d = distinct_paths(ps.drop_last());
        if d.contains(ps.last()) {
            d
        } else {
            d.push(ps.last())
        }
    }
}

/// `x` put into the ranked `s` where it belongs.
pub open spec fn insert_ranked(ps: Seq<Seq<char>>, s: Seq<Seq<char>>, x: Seq<char>) -> Seq<Seq<char>>
    decreases s.len(),
{
    if s.len() == 0 {
        seq![x]
    } else if ranks_before(ps, x, s[0]) {
        seq![x] + s
    } else {
        seq![s[0]] + insert_ranked(ps, s.drop_first(), x)
    }
}

/// The paths `d` put in ranking order one by one.
pub open spec fn rank_paths(ps: Seq<Seq<char>>, d: Seq<Seq<char>>) -> Seq<Seq<char>>
    decreases d.len(),
{
    if d.len() == 0 {
        Seq::empty()
    } else {
        insert_ranked(ps, rank_paths(ps, d.drop_last()), d.last())
    }
}

/// A witness for `seen_before`.
proof fn lemma_seen_before_at(ps: Seq<Seq<char>>, a: Seq<char>, b: Seq<char>, i: int)
    requires
        0 <= i < ps.len(),
        ps[i] == a,
        forall|j: int| 0 <= j <= i ==> ps[j] != b,
    ensures
        seen_before(ps, a, b),
{
}

/// Saved first in a prefix is saved first in the whole.
proof fn lemma_seen_before_extend(ps: Seq<Seq<char>>, a: Seq<char>, b: Seq<char>)
    requires
        ps.len() > 0,
        seen_before(ps.drop_last(), a, b),
    ensures
        seen_before(ps, a, b),
{
    let p = ps.drop_last();
    let i = choose|i: int| 0 <= i < p.len() && p[i] == a && forall|j: int| 0 <= j <= i ==> p[j] != b;
    assert forall|j: int| 0 <= j <= i implies ps[j] != b by {
        assert(ps[j] == p[j]);
    }
    lemma_seen_before_at(ps, a, b, i);
}

/// A path of the prefix comes before a path that only the last save has.
proof fn lemma_seen_before_new(ps: Seq<Seq<char>>, a: Seq<char>, b: Seq<char>)
    requires
        ps.len() > 0,
        ps.drop_last().contains(a),
        !ps.drop_last().contains(b),
    ensures
        seen_before(ps, a, b),
{
    let p = ps.drop_last();
    let i = choose|i: int| 0 <= i < p.len() && p[i] == a;
    assert forall|j: int| 0 <= j <= i implies ps[j] != b by {
        assert(ps[j] == p[j]);
        if p[j] == b {
            assert(p.contains(b));
        }
    }
    lemma_seen_before_at(ps, a, b, i);
}

/// Of two distinct paths of `ps`, one is saved first.
proof fn lemma_seen_before_total(ps: Seq<Seq<char>>, a: Seq<char>, b: Seq<char>)
    requires
        ps.contains(a),
        ps.contains(b),
        a != b,
    ensures
        seen_before(ps, a, b) || seen_before(ps, b, a),
    decreases ps.len(),
{
    let p = ps.drop_last();
    if p.contains(a) && p.contains(b) {
        lemma_seen_before_total(p, a, b);
        if seen_before(p, a, b) {
            lemma_seen_before_extend(ps, a, b);
        } else {
            lemma_seen_before_extend(ps, b, a);
        }
    } else if p.contains(a) {
        lemma_seen_before_new(ps, a, b);
    } else if p.contains(b) {
        lemma_seen_before_new(ps, b, a);
    } else {
        let i = choose|i: int| 0 <= i < ps.len() && ps[i] == a;
        let k = choose|k: int| 0 <= k < ps.len() && ps[k] == b;
        if i < p.len() {
            assert(p[i] == a);
        }
        if k < p.len() {
            assert(p[k] == b);
        }
    }
}

/// Ranking before is transitive.
proof fn lemma_ranks_before_trans(ps: Seq<Seq<char>>, a: Seq<char>, b: Seq<char>, c: Seq<char>)
    requires
        ranks_before(ps, a, b),
        ranks_before(ps, b, c),
    ensures
        ranks_before(ps, a, c),
{
    if count_in(ps, a) == count_in(ps, b) && count_in(ps, b) == count_in(ps, c) {
        let i = choose|i: int| 0 <= i < ps.len() && ps[i] == a && forall|j: int| 0 <= j <= i ==> ps[j] != b;
        let k = choose|k: int| 0 <= k < ps.len() && ps[k] == b && forall|j: int| 0 <= j <= k ==> ps[j] != c;
        if k <= i {
            assert(ps[k] != b);
        }
        assert(forall|j: int| 0 <= j <= i ==> ps[j] != c);
        assert(seen_before(ps, a, c));
    }
}

/// Of two distinct paths of `ps`, one ranks before the other.
proof fn lemma_ranks_before_total(ps: Seq<Seq<char>>, a: Seq<char>, b: Seq<char>)
    requires
        ps.contains(a),
        ps.contains(b),
        a != b,
    ensures
        ranks_before(ps, a, b) || ranks_before(ps, b, a),
{
    if count_in(ps, a) == count_in(ps, b) {
        lemma_seen_before_total(ps, a, b);
    }
}

/// The distinct paths of `ps` are the paths of `ps`, each once.
proof fn lemma_distinct_paths(ps: Seq<Seq<char>>)
    ensures
        distinct_paths(ps).no_duplicates(),
        forall|x: Seq<char>| distinct_paths(ps).contains(x) <==> ps.contains(x),
    decreases ps.len(),
{
    if ps.len() > 0 {
        let p = ps.drop_last();
        lemma_distinct_paths(p);
        let d = distinct_paths(p);
        assert forall|x: Seq<char>| distinct_paths(ps).contains(x) <==> ps.contains(x) by {
            if ps.contains(x) {
                let i = choose|i: int| 0 <= i < ps.len() && ps[i] == x;
                if i < p.len() {
                    assert(p[i] == x);
                    assert(p.contains(x));
                }
            }
            if p.contains(x) {
                let i = choose|i: int| 0 <= i < p.len() && p[i] == x;
                assert(ps[i] == x);
            }
            if !d.contains(ps.last()) {
                let e = d.push(ps.last());
                if e.contains(x) {
                    let i = choose|i: int| 0 <= i < e.len() && e[i] == x;
                    if i < d.len() {
                        assert(d[i] == x);
                    }
                }
                if d.contains(x) {
                    let i = choose|i: int| 0 <= i < d.len() && d[i] == x;
                    assert(e[i] == x);
                }
                assert(e[d.len() as int] == ps.last());
            }
            assert(ps[ps.len() - 1] == ps.last());
        }
    }
}

/// Putting a new path into a ranked sequence keeps it ranked and adds
/// just that path.
proof fn lemma_insert_ranked(ps: Seq<Seq<char>>, s: Seq<Seq<char>>, x: Seq<char>)
    requires
        ranked_sorted(ps, s),
        s.no_duplicates(),
        !s.contains(x),
        ps.contains(x),
        forall|y: Seq<char>| s.contains(y) ==> ps.contains(y),
    ensures
        ranked_sorted(ps, insert_ranked(ps, s, x)),
        insert_ranked(ps, s, x).no_duplicates(),
        forall|y: Seq<char>| insert_ranked(ps, s, x).contains(y) <==> (s.contains(y) || y == x),
    decreases s.len(),
{
    let r = insert_ranked(ps, s, x);
    if s.len() == 0 {
        assert forall|y: Seq<char>| r.contains(y) <==> (s.contains(y) || y == x) by {
            if r.contains(y) {
                let i = choose|i: int| 0 <= i < r.len() && r[i] == y;
            }
            if y == x {
                assert(r[0] == x);
            }
        }
    } else if ranks_before(ps, x, s[0]) {
        assert(r == seq![x] + s);
        assert forall|i: int, j: int| 0 <= i < j < r.len() implies ranks_before(ps, #[trigger] r[i], #[trigger] r[j]) by {
            if i == 0 {
                assert(r[j] == s[j - 1]);
                if j > 1 {
                    lemma_ranks_before_trans(ps, x, s[0], s[j - 1]);
                }
            } else {
                assert(r[i] == s[i - 1] && r[j] == s[j - 1]);
            }
        }
        assert forall|i: int, j: int| 0 <= i < r.len() && 0 <= j < r.len() && i != j implies r[i] != r[j] by {
            if i == 0 {
                assert(s.contains(s[j - 1]));
            } else if j == 0 {
                assert(s.contains(s[i - 1]));
            } else {
                assert(r[i] == s[i - 1] && r[j] == s[j - 1]);
            }
        }
        assert forall|y: Seq<char>| r.contains(y) <==> (s.contains(y) || y == x) by {
            if r.contains(y) {
                let i = choose|i: int| 0 <= i < r.len() && r[i] == y;
                if i > 0 {
                    assert(s[i - 1] == y);
                }
            }
            if s.contains(y) {
                let i = choose|i: int| 0 <= i < s.len() && s[i] == y;
                assert(r[i + 1] == y);
            }
            if y == x {
                assert(r[0] == x);
            }
        }
    } else {
        let s0 = s[0];
        let t = s.drop_first();
        assert(s.contains(s0));
        assert(x != s0);
        lemma_ranks_before_total(ps, x, s0);
        assert forall|i: int, j: int| 0 <= i < j < t.len() implies ranks_before(ps, #[trigger] t[i], #[trigger] t[j]) by {
            assert(t[i] == s[i + 1] && t[j] == s[j + 1]);
        }
        assert forall|y: Seq<char>| t.contains(y) implies s.contains(y) && y != s0 && ranks_before(ps, s0, y) by {
            let i = choose|i: int| 0 <= i < t.len() && t[i] == y;
            assert(s[i + 1] == y);
            assert(s[0] == s0);
        }
        assert forall|y: Seq<char>| s.contains(y) implies y == s0 || t.contains(y) by {
            let i = choose|i: int| 0 <= i < s.len() && s[i] == y;
            if i > 0 {
                assert(t[i - 1] == y);
            }
        }
        assert(!t.contains(x));
        lemma_insert_ranked(ps, t, x);
        let rest = insert_ranked(ps, t, x);
        assert(r == seq![s0] + rest);
        lemma_cons_ranked(ps, s0, rest, t, x);
    }
}

/// Putting `s0` in front of the ranked `rest`, whose paths rank after it.
proof fn lemma_cons_ranked(
    ps: Seq<Seq<char>>,
    s0: Seq<char>,
    rest: Seq<Seq<char>>,
    t: Seq<Seq<char>>,
    x: Seq<char>,
)
    requires
        ranked_sorted(ps, rest),
        rest.no_duplicates(),
        forall|y: Seq<char>| rest.contains(y) <==> (t.contains(y) || y == x),
        forall|y: Seq<char>| t.contains(y) ==> y != s0 && ranks_before(ps, s0, y),
        x != s0,
        ranks_before(ps, s0, x),
    ensures
        ranked_sorted(ps, seq![s0] + rest),
        (seq![s0] + rest).no_duplicates(),
        forall|y: Seq<char>| (seq![s0] + rest).contains(y) <==> (y == s0 || rest.contains(y)),
{
    let r = seq![s0] + rest;
    assert forall|j: int| 0 <= j < rest.len() implies #[trigger] rest[j] != s0 && ranks_before(ps, s0, rest[j]) by {
        assert(rest.contains(rest[j]));
    }
    assert forall|i: int, j: int| 0 <= i < j < r.len() implies ranks_before(ps, #[trigger] r[i], #[trigger] r[j]) by {
        assert(r[j] == rest[j - 1]);
        if i > 0 {
            assert(r[i] == rest[i - 1]);
        }
    }
    assert forall|i: int, j: int| 0 <= i < r.len() && 0 <= j < r.len() && i != j implies r[i] != r[j] by {
        if i > 0 {
            assert(r[i] == rest[i - 1]);
        }
        if j > 0 {
            assert(r[j] == rest[j - 1]);
        }
    }
    assert forall|y: Seq<char>| r.contains(y) <==> (y == s0 || rest.contains(y)) by {
        if r.contains(y) {
            let i = choose|i: int| 0 <= i < r.len() && r[i] == y;
            if i > 0 {
                assert(rest[i - 1] == y);
            }
        }
        if rest.contains(y) {
            let k = choose|k: int| 0 <= k < rest.len() && rest[k] == y;
            assert(r[k + 1] == y);
        }
        if y == s0 {
            assert(r[0] == y);
        }
    }
}

/// Ranking the distinct paths `d` one by one gives them in ranking order.
proof fn lemma_rank_paths(ps: Seq<Seq<char>>, d: Seq<Seq<char>>)
    requires
        d.no_duplicates(),
        forall|y: Seq<char>| d.contains(y) ==> ps.contains(y),
    ensures
        ranked_sorted(ps, rank_paths(ps, d)),
        rank_paths(ps, d).no_duplicates(),
        forall|y: Seq<char>| rank_paths(ps, d).contains(y) <==> d.contains(y),
    decreases d.len(),
{
    if d.len() > 0 {
        let p = d.drop_last();
        assert forall|y: Seq<char>| p.contains(y) implies d.contains(y) && y != d.last() by {
            let i = choose|i: int| 0 <= i < p.len() && p[i] == y;
            assert(d[i] == y);
            assert(d[d.len() - 1] == d.last());
        }
        lemma_rank_paths(ps, p);
        assert(d.contains(d.last())) by {
            assert(d[d.len() - 1] == d.last());
        }
        lemma_insert_ranked(ps, rank_paths(ps, p), d.last());
        assert forall|y: Seq<char>| d.contains(y) implies (p.contains(y) || y == d.last()) by {
            let i = choose|i: int| 0 <= i < d.len() && d[i] == y;
            if i < p.len() {
                assert(p[i] == y);
            }
        }
    }
}

/// Every sequence of paths has a ranking, so `file_ranking(ps)` is one.
pub proof fn lemma_file_ranking_exists(ps: Seq<Seq<char>>)
    ensures
        is_file_ranking(ps, file_ranking(ps)),
{
    let d = distinct_paths(ps);
    lemma_distinct_paths(ps);
    lemma_rank_paths(ps, d);
    let r = rank_paths(ps, d);
    assert(is_file_ranking(ps, r));
}

/// How often a path was saved, and the position in the saves where it
/// was saved first. The tally is a `Vec` of these, one per distinct path,
/// found again by a scan of the paths (`find_tally`).
struct FileTally {
    path: String,
    count: u32,
    first: usize,
}

/// `e` tells the truth about its path in `ps`.
spec fn entry_ok(ps: Seq<Seq<char>>, e: FileTally) -> bool {
    &&& 0 <= e.first < ps.len()
    &&& ps[e.first as int] == e.path@
    &&& forall|j: int| 0 <= j < e.first ==> ps[j] != e.path@
    &&& e.count == count_in(ps, e.path@)
}

/// `t` holds one truthful entry for each distinct path of `ps`.
spec fn tally_ok(ps: Seq<Seq<char>>, t: Seq<FileTally>) -> bool {
    &&& forall|k: int| 0 <= k < t.len() ==> entry_ok(ps, #[trigger] t[k])
    &&& forall|j: int|
        #![trigger ps[j]]
        0 <= j < ps.len() ==> exists|k: int| 0 <= k < t.len() && #[trigger] t[k].path@ == ps[j]
    &&& forall|k: int, l: int| 0 <= k < l < t.len() ==> #[trigger] t[k].first != #[trigger] t[l].first
}

/// The ranking order on tallies: more saves first, then earlier first save.
spec fn tally_lt(a: FileTally, b: FileTally) -> bool {
    a.count > b.count || (a.count == b.count && a.first < b.first)
}

/// The paths of a sequence of tallies.
spec fn tally_paths(t: Seq<FileTally>) -> Seq<Seq<char>> {
    t.map_values(|e: FileTally| e.path@)
}

/// Adding one more element to `ps` adds one to the count of that element.
proof fn lemma_count_in_step(ps: Seq<Seq<char>>, i: int, p: Seq<char>)
    requires
        0 <= i < ps.len(),
    ensures
        count_in(ps.take(i + 1), p) == count_in(ps.take(i), p) + if ps[i] == p {
            1nat
        } else {
            0nat
        },
{
    assert(ps.take(i + 1).drop_last() =~= ps.take(i));
}

/// An element that does not occur is counted zero times.
proof fn lemma_count_in_absent(ps: Seq<Seq<char>>, p: Seq<char>)
    requires
        forall|j: int| 0 <= j < ps.len() ==> ps[j] != p,
    ensures
        count_in(ps, p) == 0,
    decreases ps.len(),
{
    if ps.len() > 0 {
        lemma_count_in_absent(ps.drop_last(), p);
    }
}

/// No element occurs more often than `ps` is long.
proof fn lemma_count_in_bound(ps: Seq<Seq<char>>, p: Seq<char>)
    ensures
        count_in(ps, p) <= ps.len(),
    decreases ps.len(),
{
    if ps.len() > 0 {
        lemma_count_in_bound(ps.drop_last(), p);
    }
}

/// A prefix of `ps` holds `p` no more often than `ps` does.
proof fn lemma_count_in_prefix(ps: Seq<Seq<char>>, k: int, p: Seq<char>)
    requires
        0 <= k <= ps.len(),
    ensures
        count_in(ps.take(k), p) <= count_in(ps, p),
    decreases ps.len() - k,
{
    if k < ps.len() {
        lemma_count_in_step(ps, k, p);
        lemma_count_in_prefix(ps, k + 1, p);
    } else {
        assert(ps.take(k) =~= ps);
    }
}

/// A path that is counted occurs.
proof fn lemma_count_in_present(ps: Seq<Seq<char>>, p: Seq<char>)
    requires
        count_in(ps, p) > 0,
    ensures
        ps.contains(p),
    decreases ps.len(),
{
    if ps.last() == p {
        assert(ps[ps.len() - 1] == p);
    } else {
        lemma_count_in_present(ps.drop_last(), p);
        let i = choose|i: int| 0 <= i < ps.drop_last().len() && ps.drop_last()[i] == p;
        assert(ps[i] == p);
    }
}

/// No path of the file-change events `v` was saved more than `u32::MAX`
/// times (the per-path counter is a `u32`).
pub open spec fn file_counts_fit(r: Result<Vec<ParsedEvent>, String>) -> bool {
    match r {
        Ok(v) => forall|p: Seq<char>| #[trigger] count_in(file_paths(v@), p) <= u32::MAX,
        Err(_) => true,
    }
}

/// A sorted, complete tally lists the ranking of `ps`.
proof fn lemma_ranking_from_tally(ps: Seq<Seq<char>>, t: Seq<FileTally>, s: Seq<FileTally>)
    requires
        tally_ok(ps, t),
        forall|x: FileTally| s.contains(x) <==> t.contains(x),
        forall|a: int, b: int| 0 <= a < b < s.len() ==> tally_lt(s[a], s[b]),
    ensures
        is_file_ranking(ps, tally_paths(s)),
{
    let r = tally_paths(s);
    assert forall|a: int| 0 <= a < s.len() implies entry_ok(ps, #[trigger] s[a]) by {
        assert(s.contains(s[a]));
        let k = choose|k: int| 0 <= k < t.len() && t[k] == s[a];
        assert(entry_ok(ps, t[k]));
    }
    assert forall|a: int, b: int| 0 <= a < b < r.len() implies r[a] != r[b] by {
        assert(entry_ok(ps, s[a]));
        assert(entry_ok(ps, s[b]));
        assert(tally_lt(s[a], s[b]));
        if r[a] == r[b] {
            if s[a].first < s[b].first {
                assert(ps[s[a].first as int] == r[b]);
            } else if s[b].first < s[a].first {
                assert(ps[s[b].first as int] == r[a]);
            }
        }
    }
    assert forall|x: Seq<char>| r.contains(x) <==> ps.contains(x) by {
        if r.contains(x) {
            let a = choose|a: int| 0 <= a < r.len() && r[a] == x;
            assert(entry_ok(ps, s[a]));
            assert(ps[s[a].first as int] == x);
        }
        if ps.contains(x) {
            let j = choose|j: int| 0 <= j < ps.len() && ps[j] == x;
            let k = choose|k: int| 0 <= k < t.len() && #[trigger] t[k].path@ == ps[j];
            assert(t.contains(t[k]));
            assert(s.contains(t[k]));
            let a = choose|a: int| 0 <= a < s.len() && s[a] == t[k];
            assert(r[a] == x);
        }
    }
    assert forall|a: int, b: int| 0 <= a < b < r.len() implies ranks_before(ps, r[a], r[b]) by {
        assert(entry_ok(ps, s[a]));
        assert(entry_ok(ps, s[b]));
        assert(tally_lt(s[a], s[b]));
        if s[a].count == s[b].count {
            let i = s[a].first as int;
            assert(forall|j: int| 0 <= j <= i ==> ps[j] != r[b]);
            assert(seen_before(ps, r[a], r[b]));
        }
    }
}

/// The text of the path that the event `e` names.
fn file_path_exec(e: &ParsedEvent) -> (r: Option<&String>)
    ensures
        r matches Some(p) ==> file_path(*e) == Some(p@),
        r is None ==> file_path(*e) is None,
{
    let section = payload_section(&e.json, "FileChange");
    match str_field_exec(section, "path") {
        Some(p) => Some(p),
        None => str_field_exec(&e.json, "path"),
    }
}

/// The paths that the events `v` name, in order.
fn file_paths_exec(v: &Vec<ParsedEvent>) -> (r: Vec<String>)
    ensures
        r@.map_values(|s: String| s@) == file_paths(v@),
        r.len() <= v.len(),
{
    let mut r: Vec<String> = Vec::new();
    let mut i: usize = 0;
    while i < v.len()
        invariant
            i <= v.len(),
            r.len() <= i,
            r@.map_values(|s: String| s@) == file_paths(v@.take(i as int)),
        decreases v.len() - i,
    {
        assert(v@.take(i + 1).drop_last() =~= v@.take(i as int));
        let ghost before = r@.map_values(|s: String| s@);
        match file_path_exec(&v[i]) {
            Some(p) => {
                r.push(p.clone());
                assert(r@.map_values(|s: String| s@) =~= before.push(p@));
            },
            None => {},
        }
        i = i + 1;
    }
    assert(v@.take(v.len() as int) =~= v@);
    r
}

/// The entry of `t` for the path `p`, if there is one.
fn find_tally(t: &Vec<FileTally>, p: &String) -> (r: Option<usize>)
    ensures
        r matches Some(k) ==> k < t.len() && t@[k as int].path@ == p@,
        r is None ==> forall|m: int| 0 <= m < t.len() ==> t@[m].path@ != p@,
{
    let mut k: usize = 0;
    while k < t.len()
        invariant
            k <= t.len(),
            forall|m: int| 0 <= m < k ==> t@[m].path@ != p@,
        decreases t.len() - k,
    {
        if t[k].path == *p {
            return Some(k);
        }
        k = k + 1;
    }
    None
}

/// The entries of a truthful tally have distinct paths.
proof fn lemma_tally_paths_distinct(ps: Seq<Seq<char>>, t: Seq<FileTally>, a: int, b: int)
    requires
        tally_ok(ps, t),
        0 <= a < t.len(),
        0 <= b < t.len(),
        a != b,
    ensures
        t[a].path@ != t[b].path@,
{
    assert(entry_ok(ps, t[a]));
    assert(entry_ok(ps, t[b]));
    if a < b {
        assert(t[a].first != t[b].first);
    } else {
        assert(t[b].first != t[a].first);
    }
    if t[a].path@ == t[b].path@ {
        if t[a].first < t[b].first {
            assert(ps[t[a].first as int] == t[b].path@);
        } else {
            assert(ps[t[b].first as int] == t[a].path@);
        }
    }
}

/// After counting one more save of `ps[i]` in entry `k`, every entry is
/// still truthful.
proof fn lemma_tally_bump_entries(
    ps: Seq<Seq<char>>,
    i: int,
    old_t: Seq<FileTally>,
    k: int,
    t: Seq<FileTally>,
)
    requires
        0 <= i < ps.len(),
        tally_ok(ps.take(i), old_t),
        0 <= k < old_t.len(),
        old_t[k].path@ == ps[i],
        t.len() == old_t.len(),
        forall|m: int| 0 <= m < t.len() && m != k ==> t[m] == old_t[m],
        t[k].path@ == old_t[k].path@,
        t[k].first == old_t[k].first,
        t[k].count == old_t[k].count + 1,
    ensures
        forall|m: int| 0 <= m < t.len() ==> entry_ok(ps.take(i + 1), #[trigger] t[m]),
{
    let pi = ps.take(i);
    let pn = ps.take(i + 1);
    assert forall|m: int| 0 <= m < t.len() implies entry_ok(pn, #[trigger] t[m]) by {
        lemma_count_in_step(ps, i, t[m].path@);
        assert(entry_ok(pi, old_t[m]));
        assert forall|j: int| 0 <= j < t[m].first implies pn[j] == pi[j] by {}
        if m != k {
            lemma_tally_paths_distinct(pi, old_t, m, k);
        }
    }
}

/// Counting one more save of a path that already has an entry.
proof fn lemma_tally_bump(
    ps: Seq<Seq<char>>,
    i: int,
    old_t: Seq<FileTally>,
    k: int,
    t: Seq<FileTally>,
)
    requires
        0 <= i < ps.len(),
        tally_ok(ps.take(i), old_t),
        0 <= k < old_t.len(),
        old_t[k].path@ == ps[i],
        t.len() == old_t.len(),
        forall|m: int| 0 <= m < t.len() && m != k ==> t[m] == old_t[m],
        t[k].path@ == old_t[k].path@,
        t[k].first == old_t[k].first,
        t[k].count == old_t[k].count + 1,
    ensures
        tally_ok(ps.take(i + 1), t),
{
    let pi = ps.take(i);
    let pn = ps.take(i + 1);
    lemma_tally_bump_entries(ps, i, old_t, k, t);
    assert forall|j: int|
        #![trigger pn[j]]
        0 <= j < pn.len() implies exists|l: int| 0 <= l < t.len() && #[trigger] t[l].path@ == pn[j] by {
        if j < i {
            assert(pn[j] == pi[j]);
            let l = choose|l: int| 0 <= l < old_t.len() && #[trigger] old_t[l].path@ == pi[j];
            assert(t[l].path@ == pn[j]);
        } else {
            assert(t[k].path@ == pn[j]);
        }
    }
    assert forall|a: int, b: int| 0 <= a < b < t.len() implies #[trigger] t[a].first
        != #[trigger] t[b].first by {
        assert(old_t[a].first != old_t[b].first);
    }
}

/// Counting the first save of a path.
proof fn lemma_tally_add(ps: Seq<Seq<char>>, i: int, old_t: Seq<FileTally>, e: FileTally)
    requires
        0 <= i < ps.len(),
        tally_ok(ps.take(i), old_t),
        forall|m: int| 0 <= m < old_t.len() ==> old_t[m].path@ != ps[i],
        e.path@ == ps[i],
        e.count == 1,
        e.first == i,
    ensures
        tally_ok(ps.take(i + 1), old_t.push(e)),
{
    let pi = ps.take(i);
    let pn = ps.take(i + 1);
    let p = ps[i];
    let t = old_t.push(e);
    assert forall|j: int| 0 <= j < i implies pn[j] == pi[j] by {}
    assert(pn[i] == p);
    assert forall|j: int| 0 <= j < pi.len() implies pi[j] != p by {
        if pi[j] == p {
            let l = choose|l: int| 0 <= l < old_t.len() && #[trigger] old_t[l].path@ == pi[j];
        }
    }
    lemma_count_in_absent(pi, p);
    assert forall|m: int| 0 <= m < t.len() implies entry_ok(pn, #[trigger] t[m]) by {
        lemma_count_in_step(ps, i, t[m].path@);
        if m < old_t.len() {
            assert(t[m] == old_t[m]);
            assert(entry_ok(pi, old_t[m]));
        }
    }
    assert forall|j: int|
        #![trigger pn[j]]
        0 <= j < pn.len() implies exists|l: int| 0 <= l < t.len() && #[trigger] t[l].path@ == pn[j] by {
        if j < i {
            let l = choose|l: int| 0 <= l < old_t.len() && #[trigger] old_t[l].path@ == pi[j];
            assert(t[l].path@ == pn[j]);
        } else {
            assert(t[old_t.len() as int].path@ == pn[j]);
        }
    }
    assert forall|a: int, b: int| 0 <= a < b < t.len() implies #[trigger] t[a].first
        != #[trigger] t[b].first by {
        if b < old_t.len() {
            assert(old_t[a].first != old_t[b].first);
        } else {
            assert(entry_ok(pi, old_t[a]));
        }
    }
}

/// The texts of `v`.
spec fn views_of(v: Seq<String>) -> Seq<Seq<char>> {
    v.map_values(|s: String| s@)
}

/// Counts the saves of each distinct path of `paths`.
fn tally_paths_exec(paths: &Vec<String>) -> (t: Vec<FileTally>)
    requires
        forall|p: Seq<char>| #[trigger] count_in(views_of(paths@), p) <= u32::MAX,
    ensures
        tally_ok(paths@.map_values(|s: String| s@), t@),
{
    let ghost ps = paths@.map_values(|s: String| s@);
    let mut t: Vec<FileTally> = Vec::new();
    let mut i: usize = 0;
    assert(views_of(paths@) == ps);
    assert(tally_ok(ps.take(0), t@));
    while i < paths.len()
        invariant
            i <= paths.len(),
            ps == paths@.map_values(|s: String| s@),
            forall|p: Seq<char>| #[trigger] count_in(ps, p) <= u32::MAX,
            tally_ok(ps.take(i as int), t@),
        decreases paths.len() - i,
    {
        assert(paths@[i as int]@ == ps[i as int]);
        match find_tally(&t, &paths[i]) {
            Some(k) => {
                let ghost old_t = t@;
                proof {
                    assert(entry_ok(ps.take(i as int), old_t[k as int]));
                    lemma_count_in_step(ps, i as int, ps[i as int]);
                    lemma_count_in_prefix(ps, i + 1, ps[i as int]);
                }
                let e = FileTally {
                    path: t[k].path.clone(),
                    count: t[k].count + 1,
                    first: t[k].first,
                };
                t.set(k, e);
                proof {
                    lemma_tally_bump(ps, i as int, old_t, k as int, t@);
                }
            },
            None => {
                let ghost old_t = t@;
                let e = FileTally { path: paths[i].clone(), count: 1, first: i };
                proof {
                    lemma_tally_add(ps, i as int, old_t, e);
                }
                t.push(e);
            },
        }
        i = i + 1;
    }
    assert(ps.take(paths.len() as int) =~= ps);
    t
}

/// A copy of the tally entry `e`.
fn copy_tally(e: &FileTally) -> (r: FileTally)
    ensures
        r == *e,
{
    FileTally { path: e.path.clone(), count: e.count, first: e.first }
}

/// Whether `a` ranks before `b`.
fn tally_before(a: &FileTally, b: &FileTally) -> (r: bool)
    ensures
        r == tally_lt(*a, *b),
{
    a.count > b.count || (a.count == b.count && a.first < b.first)
}

/// Inserting `x` into the sorted `s` where it belongs keeps `s` sorted.
proof fn lemma_insert_sorted(s: Seq<FileTally>, x: FileTally, pos: int)
    requires
        0 <= pos <= s.len(),
        forall|a: int, b: int| 0 <= a < b < s.len() ==> tally_lt(s[a], s[b]),
        forall|a: int| 0 <= a < pos ==> tally_lt(s[a], x),
        forall|a: int| pos <= a < s.len() ==> tally_lt(x, s[a]),
    ensures
        forall|a: int, b: int|
            0 <= a < b < s.insert(pos, x).len() ==> tally_lt(s.insert(pos, x)[a], s.insert(pos, x)[b]),
{
    s.insert_ensures(pos, x);
}

/// The entries of `t`, most saved first, ties by first save.
fn rank_tallies(t: &Vec<FileTally>) -> (s: Vec<FileTally>)
    requires
        forall|k: int, l: int| 0 <= k < l < t.len() ==> #[trigger] t@[k].first != #[trigger] t@[l].first,
    ensures
        forall|x: FileTally| s@.contains(x) <==> t@.contains(x),
        forall|a: int, b: int| 0 <= a < b < s.len() ==> tally_lt(s@[a], s@[b]),
{
    let mut s: Vec<FileTally> = Vec::new();
    let mut i: usize = 0;
    while i < t.len()
        invariant
            i <= t.len(),
            forall|k: int, l: int| 0 <= k < l < t.len() ==> #[trigger] t@[k].first != #[trigger] t@[l].first,
            forall|x: FileTally| s@.contains(x) <==> t@.take(i as int).contains(x),
            forall|a: int, b: int| 0 <= a < b < s.len() ==> tally_lt(s@[a], s@[b]),
        decreases t.len() - i,
    {
        let x = copy_tally(&t[i]);
        proof {
            assert forall|a: int| 0 <= a < s.len() implies s@[a].first != x.first by {
                assert(s@.contains(s@[a]));
                let k = choose|k: int| 0 <= k < i && t@.take(i as int)[k] == s@[a];
                assert(t@[k] == s@[a]);
            }
        }
        let mut pos: usize = 0;
        while pos < s.len() && tally_before(&s[pos], &x)
            invariant
                pos <= s.len(),
                forall|a: int| 0 <= a < pos ==> tally_lt(s@[a], x),
            decreases s.len() - pos,
        {
            pos = pos + 1;
        }
        proof {
            if pos < s.len() {
                assert(!tally_lt(s@[pos as int], x));
                assert(s@[pos as int].first != x.first);
                assert(tally_lt(x, s@[pos as int]));
                assert forall|a: int| pos <= a < s.len() implies tally_lt(x, s@[a]) by {
                    if a > pos {
                        assert(tally_lt(s@[pos as int], s@[a]));
                    }
                }
            }
            lemma_insert_sorted(s@, x, pos as int);
        }
        let ghost old_s = s@;
        s.insert(pos, x);
        proof {
            old_s.insert_ensures(pos as int, x);
            let ti = t@.take(i as int);
            let tn = t@.take(i + 1);
            assert(tn =~= ti.push(t@[i as int]));
            assert forall|y: FileTally| s@.contains(y) <==> tn.contains(y) by {
                if s@.contains(y) {
                    let a = choose|a: int| 0 <= a < s@.len() && s@[a] == y;
                    if a < pos {
                        assert(old_s.contains(old_s[a]));
                    } else if a > pos {
                        assert(old_s.contains(old_s[a - 1]));
                    }
                    if y != x {
                        assert(old_s.contains(y));
                        assert(ti.contains(y));
                        let k = choose|k: int| 0 <= k < i && ti[k] == y;
                        assert(tn[k] == y);
                    } else {
                        assert(tn[i as int] == y);
                    }
                }
                if tn.contains(y) {
                    let k = choose|k: int| 0 <= k < i + 1 && tn[k] == y;
                    if k < i {
                        assert(ti[k] == y);
                        assert(old_s.contains(y));
                        let a = choose|a: int| 0 <= a < old_s.len() && old_s[a] == y;
                        if a < pos {
                            assert(s@[a] == y);
                        } else {
                            assert(s@[a + 1] == y);
                        }
                    } else {
                        assert(s@[pos as int] == y);
                    }
                }
            }
        }
        i = i + 1;
    }
    assert(t@.take(t.len() as int) =~= t@);
    s
}

/// How often `p` occurs in `paths`.
fn count_path(paths: &Vec<String>, p: &String) -> (c: usize)
    ensures
        c == count_in(views_of(paths@), p@),
{
    let ghost ps = views_of(paths@);
    let mut c: usize = 0;
    let mut i: usize = 0;
    assert(ps.take(0) =~= Seq::<Seq<char>>::empty());
    while i < paths.len()
        invariant
            i <= paths.len(),
            ps == views_of(paths@),
            ps.len() == paths.len(),
            c == count_in(ps.take(i as int), p@),
            c <= i,
        decreases paths.len() - i,
    {
        proof {
            lemma_count_in_step(ps, i as int, p@);
        }
        assert(ps[i as int] == paths@[i as int]@);
        if paths[i] == *p {
            c = c + 1;
        }
        i = i + 1;
    }
    assert(ps.take(paths.len() as int) =~= ps);
    c
}

/// Whether no path of the file-change events was saved more than
/// `u32::MAX` times, so that `files_report` and `build` can count them.
pub fn file_counts_fit_exec(files: &Result<Vec<ParsedEvent>, String>) -> (b: bool)
    ensures
        b == file_counts_fit(*files),
{
    match files {
        Err(_) => true,
        Ok(v) => {
            let paths = file_paths_exec(v);
            let ghost ps = views_of(paths@);
            assert(ps == file_paths(v@));
            if paths.len() <= 4294967295 {
                assert forall|p: Seq<char>| #[trigger] count_in(file_paths(v@), p) <= u32::MAX by {
                    lemma_count_in_bound(ps, p);
                }
                assert(file_counts_fit(*files));
                return true;
            }
            let mut i: usize = 0;
            while i < paths.len()
                invariant
                    i <= paths.len(),
                    ps == views_of(paths@),
                    ps.len() == paths.len(),
                    ps == file_paths(v@),
                    file_counts_fit(*files) == (forall|p: Seq<char>|
                        #[trigger] count_in(file_paths(v@), p) <= u32::MAX),
                    forall|j: int| 0 <= j < i ==> #[trigger] count_in(ps, ps[j]) <= u32::MAX,
                decreases paths.len() - i,
            {
                let c = count_path(&paths, &paths[i]);
                assert(ps[i as int] == paths@[i as int]@);
                assert(c == count_in(ps, ps[i as int]));
                if c > 4294967295 {
                    assert(count_in(file_paths(v@), ps[i as int]) > u32::MAX);
                    assert(!file_counts_fit(*files));
                    return false;
                }
                i = i + 1;
            }
            assert forall|p: Seq<char>| #[trigger] count_in(file_paths(v@), p) <= u32::MAX by {
                if count_in(ps, p) > 0 {
                    lemma_count_in_present(ps, p);
                    let j = choose|j: int| 0 <= j < ps.len() && ps[j] == p;
                    assert(count_in(ps, ps[j]) <= u32::MAX);
                }
            }
            assert(file_counts_fit(*files));
            true
        },
    }
}

/// The files part of the report, from the outcome of the file-changes query.
pub fn files_report(files: &Result<Vec<ParsedEvent>, String>) -> (r: String)
    requires
        file_counts_fit(*files),
    ensures
        r@ == files_section(*files),
{
    let mut out = String::new();
    match files {
        Ok(v) => {
            let paths = file_paths_exec(v);
            let ghost ps = paths@.map_values(|s: String| s@);
            let t = tally_paths_exec(&paths);
            let ranked = rank_tallies(&t);
            let ghost r = tally_paths(ranked@);
            proof {
                lemma_ranking_from_tally(ps, t@, ranked@);
                lemma_file_ranking_unique(ps, r);
                assert forall|a: int| 0 <= a < ranked.len() implies entry_ok(ps, #[trigger] ranked@[a]) by {
                    assert(ranked@.contains(ranked@[a]));
                    let k = choose|k: int| 0 <= k < t@.len() && t@[k] == ranked@[a];
                    assert(entry_ok(ps, t@[k]));
                }
            }
            push_str(&mut out, "\nFILES TOUCHED (");
            push_dec_u64(&mut out, ranked.len() as u64);
            push_str(&mut out, "):\n");
            let shown: usize = if ranked.len() <= 8 { ranked.len() } else { 8 };
            let ghost head = out@;
            let mut i: usize = 0;
            while i < shown
                invariant
                    i <= shown <= ranked.len(),
                    shown == if ranked.len() <= 8 { ranked.len() } else { 8 },
                    r == tally_paths(ranked@),
                    forall|a: int| 0 <= a < ranked.len() ==> entry_ok(ps, #[trigger] ranked@[a]),
                    out@ == head + file_lines(ps, r.take(i as int)),
                decreases shown - i,
            {
                assert(r.take(i + 1).drop_last() =~= r.take(i as int));
                assert(entry_ok(ps, ranked@[i as int]));
                let mut line = String::new();
                push_str(&mut line, "  ");
                assert(line@ =~= "  "@);
                push_str(&mut line, ranked[i].path.as_str());
                push_str(&mut line, "  (");
                push_dec_u64(&mut line, ranked[i].count as u64);
                push_str(&mut line, " saves)\n");
                push_str(&mut out, line.as_str());
                i = i + 1;
            }
            assert(first_n(r, 8) =~= r.take(shown as int));
        },
        Err(e) => {
            push_str(&mut out, "\nFILES TOUCHED: query failed: ");
            push_str(&mut out, e.as_str());
            push_str(&mut out, "\n");
        },
    }
    out
}

// ---------------------------------------------------------------------------
// Shell commands
// ---------------------------------------------------------------------------

/// The command that a shell event records: the `command`, `cmd` or `line`
/// of its `ShellCommand` section, else the raw payload.
pub open spec fn command_text(e: ParsedEvent) -> Seq<char> {
    let shell = payload_section_spec(e.json, "ShellCommand"@);
    match str_field(shell, "command"@) {
        Some(c) => c,
        None => match str_field(shell, "cmd"@) {
            Some(c) => c,
            None => match str_field(shell, "line"@) {
                Some(c) => c,
                None => e.event.payload@,
            },
        },
    }
}

/// The line that reports one shell command, cut to 160 characters.
pub open spec fn command_line(e: ParsedEvent) -> Seq<char> {
    "  "@ + dec_int(e.event.ts as int) + "  "@ + truncate_spec(command_text(e), 160) + "\n"@
}

/// The lines of the commands `es`, in order.
pub open spec fn command_lines(es: Seq<ParsedEvent>) -> Seq<char>
    decreases es.len(),
{
    if es.len() == 0 {
        Seq::empty()
    } else {
        command_lines(es.drop_last()) + command_line(es.last())
    }
}

/// The shell commands part of the report: how many commands ran, then the
/// first eight of them.
pub open spec fn commands_section(r: Result<Vec<ParsedEvent>, String>) -> Seq<char> {
    match r {
        Ok(v) => "\nSHELL COMMANDS TODAY ("@ + dec_nat(v.len() as nat) + "):\n"@ + command_lines(
            first_n(v@, 8),
        ),
        Err(e) => "\nSHELL COMMANDS TODAY: query failed: "@ + e@ + "\n"@,
    }
}

/// The command that the shell event `e` records.
fn command_text_exec(e: &ParsedEvent) -> (r: &String)
    ensures
        r@ == command_text(*e),
{
    let shell = payload_section(&e.json, "ShellCommand");
    match str_field_exec(shell, "command") {
        Some(c) => c,
        None => match str_field_exec(shell, "cmd") {
            Some(c) => c,
            None => match str_field_exec(shell, "line") {
                Some(c) => c,
                None => &e.event.payload,
            },
        },
    }
}

/// The shell commands part of the report, from the outcome of the shell
/// commands query.
pub fn commands_report(commands: &Result<Vec<ParsedEvent>, String>) -> (r: String)
    ensures
        r@ == commands_section(*commands),
{
    let mut out = String::new();
    match commands {
        Ok(v) => {
            push_str(&mut out, "\nSHELL COMMANDS TODAY (");
            push_dec_u64(&mut out, v.len() as u64);
            push_str(&mut out, "):\n");
            let shown: usize = if v.len() <= 8 { v.len() } else { 8 };
            let ghost head = out@;
            let mut i: usize = 0;
            while i < shown
                invariant
                    i <= shown <= v.len(),
                    out@ == head + command_lines(v@.take(i as int)),
                decreases shown - i,
            {
                assert(v@.take(i + 1).drop_last() =~= v@.take(i as int));
                let text = command_text_exec(&v[i]);
                let cut = truncate(text.as_str(), 160);
                let mut line = String::new();
                push_str(&mut line, "  ");
                assert(line@ =~= "  "@);
                push_dec_i64(&mut line, v[i].event.ts);
                push_str(&mut line, "  ");
                push_str(&mut line, cut.as_str());
                push_str(&mut line, "\n");
                push_str(&mut out, line.as_str());
                i = i + 1;
            }
            assert(first_n(v@, 8) =~= v@.take(shown as int));
        },
        Err(e) => {
            push_str(&mut out, "\nSHELL COMMANDS TODAY: query failed: ");
            push_str(&mut out, e.as_str());
            push_str(&mut out, "\n");
        },
    }
    out
}

// ---------------------------------------------------------------------------
// The whole report
// ---------------------------------------------------------------------------

/// The activity report: commits, then files, then shell commands.
pub open spec fn context_spec(
    commits: Result<Vec<ParsedEvent>, String>,
    files: Result<Vec<ParsedEvent>, String>,
    commands: Result<Vec<ParsedEvent>, String>,
) -> Seq<char> {
    commits_section(commits) + files_section(files) + commands_section(commands)
}

/// Builds the activity report from the outcomes of today's three queries
/// (each the events it found, or the text of the error it failed with).
pub fn build(
    commits: &Result<Vec<ParsedEvent>, String>,
    files: &Result<Vec<ParsedEvent>, String>,
    commands: &Result<Vec<ParsedEvent>, String>,
) -> (r: String)
    requires
        file_counts_fit(*files),
    ensures
        r@ == context_spec(*commits, *files, *commands),
{
    let mut out = commits_report(commits);
    let f = files_report(files);
    push_str(&mut out, f.as_str());
    let c = commands_report(commands);
    push_str(&mut out, c.as_str());
    out
}

} // verus!
