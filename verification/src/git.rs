//! What the daemon reads from git and from its socket: the lines of
//! `git log`, the totals of `git show --numstat`, commit dates, project
//! path hashes and the messages of the post-commit hook.
use sha2::Digest;
use vstd::prelude::*;
use vstd::string::StringSliceAdditionalSpecFns;

use crate::text::{
    all_in_trim_set, lemma_trim_shape,
    chars_of, find_char, find_char_exec, is_whitespace, join_spaces, lines_chars, lines_spec,
    parse_i64_chars, parse_i64_spec, push_char, push_chars, slice_chars, starts_with_chars,
    starts_with_spec, string_of, trim, trim_chars, trim_spec, words_chars, words_spec, TrimSet,
};

verus! {

// ---------------------------------------------------------------------------
// Commit dates
// ---------------------------------------------------------------------------

/// The Unix timestamp that chrono reads from `text` with the format `fmt`
/// (`DateTime::parse_from_str`, then `timestamp`), when the text matches.
pub uninterp spec fn datetime_timestamp(text: Seq<char>, fmt: Seq<char>) -> Option<i64>;

/// Parses a date with chrono: `DateTime::parse_from_str(text, fmt)`, then
/// `timestamp`. The claim: the result is a function of the text and the
/// format alone, named `datetime_timestamp`; a text that does not match the
/// format gives `None`.
#[verifier::external_body]
fn parse_datetime(text: &str, fmt: &str) -> (r: Option<i64>)
    ensures
        r == datetime_timestamp(text@, fmt@),
{
    match chrono::DateTime::parse_from_str(text, fmt) {
        Ok(datetime) => Some(datetime.timestamp()),
        Err(_) => None,
    }
}

/// The format of the dates that `git log --format=%ai` writes, such as
/// `2024-05-01 10:00:00 +0200`.
pub open spec fn git_date_format() -> Seq<char> {
    "%Y-%m-%d %H:%M:%S %z"@
}

/// The timestamp of a git date, white space at either end ignored, when
/// the text is one.
pub open spec fn git_datetime_timestamp(input: Seq<char>) -> Option<i64> {
    datetime_timestamp(trim_spec(input), git_date_format())
}

/// The timestamp of a git date, white space at either end ignored. Any
/// other text stops the daemon with "failed to parse git datetime", so
/// that text is outside this function's domain.
pub fn convert_datetime_to_i64(input: &str) -> (r: i64)
    requires
        git_datetime_timestamp(input@) is Some,
    ensures
        git_datetime_timestamp(input@) == Some(r),
{
    let t = trim(input);
    match parse_datetime(t.as_str(), "%Y-%m-%d %H:%M:%S %z") {
        Some(ts) => ts,
        None => 0,
    }
}

/// The timestamp of a git date, or `None` when the text is not one.
pub fn try_convert_datetime_to_i64(input: &str) -> (r: Option<i64>)
    ensures
        r == git_datetime_timestamp(input@),
{
    let t = trim(input);
    match parse_datetime(t.as_str(), "%Y-%m-%d %H:%M:%S %z") {
        Some(_) => Some(convert_datetime_to_i64(input)),
        None => None,
    }
}

// ---------------------------------------------------------------------------
// Project path hashes
// ---------------------------------------------------------------------------

/// The SHA-256 digest of `data`.
pub uninterp spec fn sha256_digest_spec(data: Seq<u8>) -> Seq<u8>;

/// SHA-256 of `data` with the `sha2` crate (`Sha256::new`, `update`,
/// `finalize`). The claim: the digest is 32 bytes and a function of the
/// data alone, named `sha256_digest_spec`.
#[verifier::external_body]
fn sha256_digest(data: &[u8]) -> (r: Vec<u8>)
    ensures
        r@ == sha256_digest_spec(data@),
        r@.len() == 32,
{
    let mut hasher = sha2::Sha256::new();
    hasher.update(data);
    hasher.finalize().to_vec()
}

/// The lower-case hexadecimal digit of `n` (below 16).
pub open spec fn hex_digit(n: int) -> char {
    if n < 10 {
        (48 + n) as char
    } else {
        (87 + n) as char
    }
}

/// `data` in lower-case hexadecimal, two digits per byte, high half first.
pub open spec fn hex_lower(data: Seq<u8>) -> Seq<char>
    decreases data.len(),
{
    if data.len() == 0 {
        Seq::empty()
    } else {
        hex_lower(data.drop_last()) + seq![
            hex_digit(data.last() as int / 16),
            hex_digit(data.last() as int % 16),
        ]
    }
}

/// `hex::encode`: the claim is that it writes `data` in lower-case
/// hexadecimal, two digits per byte, high half first (`hex_lower`).
#[verifier::external_body]
fn hex_encode(data: &[u8]) -> (r: String)
    ensures
        r@ == hex_lower(data@),
{
    hex::encode(data)
}

/// The key under which a project path is stored: the SHA-256 digest of its
/// UTF-8 bytes, in lower-case hexadecimal.
pub fn hash_path(path: &str) -> (r: String)
    ensures
        r@ == hex_lower(sha256_digest_spec(path.spec_bytes())),
        r@.len() == 64,
{
    let digest = sha256_digest(path.as_bytes());
    let r = hex_encode(digest.as_slice());
    proof {
        lemma_hex_lower_len(digest@);
    }
    r
}

/// Two hexadecimal digits per byte.
pub proof fn lemma_hex_lower_len(data: Seq<u8>)
    ensures
        hex_lower(data).len() == 2 * data.len(),
    decreases data.len(),
{
    if data.len() > 0 {
        lemma_hex_lower_len(data.drop_last());
    }
}

// ---------------------------------------------------------------------------
// `git log` lines
// ---------------------------------------------------------------------------

/// One line of `git log --format=%H|%s|%ai`.
#[derive(Debug)]
pub enum LogLine {
    /// A line of white space only: skipped.
    Blank,
    /// A line without two `|`: reported and skipped.
    Invalid(String),
    /// A commit: its hash, its subject and its author date.
    Commit { hash: String, message: String, date: String },
}

/// How `classify_log_line` reads a line: a blank line, a line with fewer
/// than three `|`-separated parts, or the hash, the subject and the rest
/// (which may hold more `|`) of a commit.
pub open spec fn log_line_spec(line: Seq<char>, r: LogLine) -> bool {
    let i1 = find_char(line, '|');
    let rest = line.skip(i1 as int + 1);
    let i2 = find_char(rest, '|');
    if trim_spec(line).len() == 0 {
        r is Blank
    } else if i1 >= line.len() || i2 >= rest.len() {
        r matches LogLine::Invalid(l) && l@ == line
    } else {
        r matches LogLine::Commit { hash, message, date } && hash@ == line.take(i1 as int)
            && message@ == rest.take(i2 as int) && date@ == rest.skip(i2 as int + 1)
    }
}

/// Reads one line of the commit log (`line.splitn(3, '|')`).
pub fn classify_log_line(line: &[char]) -> (r: LogLine)
    ensures
        log_line_spec(line@, r),
{
    let t = trim_chars(line, TrimSet::Whitespace);
    if t.len() == 0 {
        return LogLine::Blank;
    }
    let i1 = find_char_exec(line, '|');
    if i1 >= line.len() {
        return LogLine::Invalid(string_of(line));
    }
    let rest = slice_chars(line, i1 + 1, line.len());
    assert(rest@ =~= line@.skip(i1 + 1));
    let i2 = find_char_exec(&rest, '|');
    if i2 >= rest.len() {
        return LogLine::Invalid(string_of(line));
    }
    let hash = slice_chars(line, 0, i1);
    let message = slice_chars(&rest, 0, i2);
    let date = slice_chars(&rest, i2 + 1, rest.len());
    assert(hash@ =~= line@.take(i1 as int));
    assert(message@ =~= rest@.take(i2 as int));
    assert(date@ =~= rest@.skip(i2 + 1));
    LogLine::Commit { hash: string_of(&hash), message: string_of(&message), date: string_of(&date) }
}

/// Reads the output of `git log`, line by line.
pub fn git_log_lines(output: &str) -> (r: Vec<LogLine>)
    ensures
        r.len() == lines_spec(output@).len(),
        forall|i: int| 0 <= i < r.len() ==> log_line_spec(lines_spec(output@)[i], #[trigger] r@[i]),
{
    let v = chars_of(output);
    let ls = lines_chars(&v);
    let ghost lv = ls@.map_values(|l: Vec<char>| l@);
    let mut r: Vec<LogLine> = Vec::new();
    let mut i: usize = 0;
    while i < ls.len()
        invariant
            i <= ls.len(),
            r.len() == i,
            lv == ls@.map_values(|l: Vec<char>| l@),
            lv == lines_spec(output@),
            forall|j: int| 0 <= j < i ==> log_line_spec(lv[j], #[trigger] r@[j]),
        decreases ls.len() - i,
    {
        let c = classify_log_line(&ls[i]);
        assert(lv[i as int] == ls@[i as int]@);
        r.push(c);
        i = i + 1;
    }
    r
}

// ---------------------------------------------------------------------------
// `git show --numstat` totals
// ---------------------------------------------------------------------------

/// The totals of a commit's `--numstat` lines.
#[derive(Debug)]
pub struct NumstatTotals {
    pub insertions: i64,
    pub deletions: i64,
    pub files: Vec<String>,
}

/// A number of a numstat line, zero when it does not parse (as for binary
/// files, which git counts as `-`).
pub open spec fn count_value(w: Seq<char>) -> int {
    match parse_i64_spec(w) {
        Some(n) => n as int,
        None => 0,
    }
}

/// The lines of a numstat output that hold at least three words, as words.
pub open spec fn numstat_rows(ls: Seq<Seq<char>>) -> Seq<Seq<Seq<char>>>
    decreases ls.len(),
{
    if ls.len() == 0 {
        Seq::empty()
    } else {
        let ws = words_spec(ls.last());
        if ws.len() >= 3 {
            numstat_rows(ls.drop_last()).push(ws)
        } else {
            numstat_rows(ls.drop_last())
        }
    }
}

/// The sum of the numbers in column `col` of `rows`.
pub open spec fn column_sum(rows: Seq<Seq<Seq<char>>>, col: int) -> int
    decreases rows.len(),
{
    if rows.len() == 0 {
        0
    } else {
        column_sum(rows.drop_last(), col) + count_value(rows.last()[col])
    }
}

/// Every running total of column `col` fits in an `i64` (otherwise the
/// summing addition overflows).
pub open spec fn column_fits(rows: Seq<Seq<Seq<char>>>, col: int) -> bool {
    forall|k: int|
        0 <= k <= rows.len() ==> i64::MIN <= #[trigger] column_sum(rows.take(k), col) <= i64::MAX
}

/// The file named by a numstat row: its words after the two counts,
/// joined by spaces.
pub open spec fn row_file(row: Seq<Seq<char>>) -> Seq<char> {
    join_spaces(row.skip(2))
}

/// The numstat totals of `output`, or `None` when a running total does not
/// fit in an `i64`.
pub open spec fn numstat_spec(output: Seq<char>, r: Option<NumstatTotals>) -> bool {
    let rows = numstat_rows(lines_spec(output));
    if column_fits(rows, 0) && column_fits(rows, 1) {
        r matches Some(t) && t.insertions == column_sum(rows, 0) && t.deletions == column_sum(rows, 1)
            && t.files@.len() == rows.len() && forall|i: int|
            0 <= i < rows.len() ==> #[trigger] t.files@[i]@ == row_file(rows[i])
    } else {
        r is None
    }
}

/// The words `ws[from..]` joined by single spaces.
fn join_words_from(ws: &Vec<Vec<char>>, from: usize) -> (r: String)
    requires
        from <= ws.len(),
    ensures
        r@ == join_spaces(ws@.map_values(|w: Vec<char>| w@).skip(from as int)),
{
    let ghost wv = ws@.map_values(|w: Vec<char>| w@);
    let mut r = String::new();
    let mut i: usize = from;
    assert(wv.skip(from as int).take(0) =~= Seq::<Seq<char>>::empty());
    while i < ws.len()
        invariant
            from <= i <= ws.len(),
            wv == ws@.map_values(|w: Vec<char>| w@),
            r@ == join_spaces(wv.skip(from as int).take(i - from)),
        decreases ws.len() - i,
    {
        let ghost part = wv.skip(from as int);
        assert(part.take(i - from + 1).drop_last() =~= part.take(i - from));
        assert(part.take(i - from + 1).last() == ws@[i as int]@);
        if i > from {
            push_char(&mut r, ' ');
        } else {
            assert(part.take(1)[0] == ws@[i as int]@);
        }
        push_chars(&mut r, &ws[i]);
        if i == from {
            assert(r@ =~= ws@[i as int]@);
        }
        i = i + 1;
    }
    assert(wv.skip(from as int).take(ws.len() - from) =~= wv.skip(from as int));
    r
}

/// Totals the `--numstat` output of one commit: insertions, deletions and
/// the files, one per line of three or more words; a count that does not
/// parse counts as zero. `None` when a total overflows an `i64`.
pub fn parse_numstat(output: &str) -> (r: Option<NumstatTotals>)
    ensures
        numstat_spec(output@, r),
{
    let v = chars_of(output);
    let ls = lines_chars(&v);
    let ghost lv = ls@.map_values(|l: Vec<char>| l@);
    let mut ins: i64 = 0;
    let mut del: i64 = 0;
    let mut files: Vec<String> = Vec::new();
    let mut i: usize = 0;
    assert(numstat_rows(lv.take(0)) =~= Seq::<Seq<Seq<char>>>::empty());
    while i < ls.len()
        invariant
            i <= ls.len(),
            lv == ls@.map_values(|l: Vec<char>| l@),
            lv == lines_spec(output@),
            column_fits(numstat_rows(lv.take(i as int)), 0),
            column_fits(numstat_rows(lv.take(i as int)), 1),
            ins == column_sum(numstat_rows(lv.take(i as int)), 0),
            del == column_sum(numstat_rows(lv.take(i as int)), 1),
            files@.len() == numstat_rows(lv.take(i as int)).len(),
            forall|j: int|
                0 <= j < files@.len() ==> #[trigger] files@[j]@ == row_file(
                    numstat_rows(lv.take(i as int))[j],
                ),
        decreases ls.len() - i,
    {
        let ghost rows = numstat_rows(lv.take(i as int));
        assert(lv.take(i + 1).drop_last() =~= lv.take(i as int));
        assert(lv.take(i + 1).last() == ls@[i as int]@);
        let ws = words_chars(&ls[i]);
        let ghost wv = ws@.map_values(|w: Vec<char>| w@);
        if ws.len() >= 3 {
            let ghost rows2 = rows.push(wv);
            assert(numstat_rows(lv.take(i + 1)) == rows2);
            assert(rows2.drop_last() =~= rows);
            assert(wv[0] == ws@[0]@ && wv[1] == ws@[1]@);
            let a = match parse_i64_chars(&ws[0]) {
                Some(n) => n,
                None => 0,
            };
            let b = match parse_i64_chars(&ws[1]) {
                Some(n) => n,
                None => 0,
            };
            let ghost s0 = column_sum(rows2, 0);
            let ghost s1 = column_sum(rows2, 1);
            assert(s0 == ins + a);
            assert(s1 == del + b);
            proof {
                assert(rows2.take(rows2.len() as int) =~= rows2);
                assert forall|k: int| 0 <= k <= rows.len() implies rows2.take(k) =~= rows.take(k) by {}
            }
            let na = ins.checked_add(a);
            let nb = del.checked_add(b);
            match (na, nb) {
                (Some(x), Some(y)) => {
                    ins = x;
                    del = y;
                    let f = join_words_from(&ws, 2);
                    let ghost old_files = files@;
                    files.push(f);
                    proof {
                        assert forall|k: int| 0 <= k <= rows2.len() implies i64::MIN <= #[trigger] column_sum(
                            rows2.take(k),
                            0,
                        ) <= i64::MAX by {
                            if k <= rows.len() {
                                assert(rows2.take(k) =~= rows.take(k));
                            }
                        }
                        assert forall|k: int| 0 <= k <= rows2.len() implies i64::MIN <= #[trigger] column_sum(
                            rows2.take(k),
                            1,
                        ) <= i64::MAX by {
                            if k <= rows.len() {
                                assert(rows2.take(k) =~= rows.take(k));
                            }
                        }
                        assert forall|j: int| 0 <= j < files@.len() implies #[trigger] files@[j]@
                            == row_file(rows2[j]) by {
                            if j < old_files.len() {
                                assert(files@[j] == old_files[j]);
                            }
                        }
                    }
                },
                _ => {
                    proof {
                        lemma_fits_stays_broken(lv, i as int + 1);
                    }
                    return None;
                },
            }
        } else {
            assert(numstat_rows(lv.take(i + 1)) == rows);
        }
        i = i + 1;
    }
    assert(lv.take(ls.len() as int) =~= lv);
    Some(NumstatTotals { insertions: ins, deletions: del, files })
}

/// When a running total of the first `k` lines overflows, the totals of
/// all lines do not fit either.
proof fn lemma_fits_stays_broken(lv: Seq<Seq<char>>, k: int)
    requires
        0 <= k <= lv.len(),
        !(i64::MIN <= column_sum(numstat_rows(lv.take(k)), 0) <= i64::MAX) || !(i64::MIN
            <= column_sum(numstat_rows(lv.take(k)), 1) <= i64::MAX),
    ensures
        !(column_fits(numstat_rows(lv), 0) && column_fits(numstat_rows(lv), 1)),
{
    let n = numstat_rows(lv.take(k)).len() as int;
    lemma_rows_prefix(lv, k);
    assert(numstat_rows(lv).take(n) == numstat_rows(lv.take(k)));
    assert(!(i64::MIN <= column_sum(numstat_rows(lv).take(n), 0) <= i64::MAX) || !(i64::MIN
        <= column_sum(numstat_rows(lv).take(n), 1) <= i64::MAX));
}

/// The rows of a prefix of the lines are a prefix of the rows.
proof fn lemma_rows_prefix(lv: Seq<Seq<char>>, k: int)
    requires
        0 <= k <= lv.len(),
    ensures
        numstat_rows(lv.take(k)).len() <= numstat_rows(lv).len(),
        numstat_rows(lv).take(numstat_rows(lv.take(k)).len() as int) == numstat_rows(lv.take(k)),
    decreases lv.len() - k,
{
    if k == lv.len() {
        assert(lv.take(k) =~= lv);
        assert(numstat_rows(lv).take(numstat_rows(lv).len() as int) =~= numstat_rows(lv));
    } else {
        lemma_rows_prefix(lv, k + 1);
        let a = numstat_rows(lv.take(k));
        let b = numstat_rows(lv.take(k + 1));
        assert(lv.take(k + 1).drop_last() =~= lv.take(k));
        if b.len() > a.len() {
            assert(b.drop_last() =~= a);
            assert(numstat_rows(lv).take(a.len() as int) =~= numstat_rows(lv).take(b.len() as int).take(
                a.len() as int,
            ));
            assert(b.take(a.len() as int) =~= a);
        }
    }
}

// ---------------------------------------------------------------------------
// Hook messages
// ---------------------------------------------------------------------------

/// The project that a hook message `commit|<path>` names, white space at
/// either end of the path ignored.
pub open spec fn ipc_project_spec(msg: Seq<char>) -> Option<Seq<char>> {
    if starts_with_spec(msg, "commit|"@) {
        Some(trim_spec(msg.skip(7)))
    } else {
        None
    }
}

/// Reads a message of the post-commit hook: the project path of
/// `commit|<path>`, or `None` for any other message.
pub fn parse_ipc_message(msg: &str) -> (r: Option<String>)
    ensures
        r matches Some(p) ==> ipc_project_spec(msg@) == Some(p@),
        r is None ==> ipc_project_spec(msg@) is None,
{
    proof {
        reveal_strlit("commit|");
    }
    let v = chars_of(msg);
    let prefix = chars_of("commit|");
    if starts_with_chars(&v, &prefix) {
        let rest = slice_chars(&v, 7, v.len());
        assert(rest@ =~= msg@.skip(7));
        let t = trim_chars(&rest, TrimSet::Whitespace);
        Some(string_of(&t))
    } else {
        None
    }
}

/// A hook message names the whole project path: for any text `p`, the
/// message `commit|` + `p` gives a path `r` such that `p` is white space,
/// then `r`, then white space, and `r` neither starts nor ends with white
/// space. Spaces inside the path are kept.
pub proof fn lemma_ipc_keeps_whole_path(p: Seq<char>)
    ensures
        ipc_project_spec("commit|"@ + p) is Some,
        exists|lead: Seq<char>, trail: Seq<char>|
            p == lead + ipc_project_spec("commit|"@ + p)->Some_0 + trail
                && #[trigger] all_in_trim_set(lead, TrimSet::Whitespace)
                && #[trigger] all_in_trim_set(trail, TrimSet::Whitespace),
        ipc_project_spec("commit|"@ + p)->Some_0.len() > 0 ==> !is_whitespace(
            ipc_project_spec("commit|"@ + p)->Some_0[0],
        ) && !is_whitespace(ipc_project_spec("commit|"@ + p)->Some_0.last()),
{
    reveal_strlit("commit|");
    let msg = "commit|"@ + p;
    assert(msg.take(7) =~= "commit|"@);
    assert(msg.skip(7) =~= p);
    lemma_trim_shape(p);
}

} // verus!
