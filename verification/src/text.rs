//! Character-level text utilities shared by the rest of the library:
//! whitespace trimming, line splitting, prefix and substring tests, and
//! decimal formatting and parsing of integers.
use vstd::prelude::*;

verus! {

// ---------------------------------------------------------------------------
// Specifications
// ---------------------------------------------------------------------------

/// The Unicode `White_Space` property, which `char::is_whitespace` tests.
pub open spec fn is_whitespace(c: char) -> bool {
    ||| c == '\t'
    ||| c == '\n'
    ||| c == '\u{0B}'
    ||| c == '\u{0C}'
    ||| c == '\r'
    ||| c == ' '
    ||| c == '\u{85}'
    ||| c == '\u{A0}'
    ||| c == '\u{1680}'
    ||| ('\u{2000}' <= c && c <= '\u{200A}')
    ||| c == '\u{2028}'
    ||| c == '\u{2029}'
    ||| c == '\u{202F}'
    ||| c == '\u{205F}'
    ||| c == '\u{3000}'
}

/// Which characters a trimming operation removes.
#[derive(Clone, Copy, PartialEq, Eq, Structural)]
pub enum TrimSet {
    /// Unicode white space, as `str::trim` removes it.
    Whitespace,
    /// Double and single quotation marks.
    Quotes,
}

/// Whether `c` belongs to the trim set `set`.
pub open spec fn in_trim_set(set: TrimSet, c: char) -> bool {
    match set {
        TrimSet::Whitespace => is_whitespace(c),
        TrimSet::Quotes => c == '"' || c == '\'',
    }
}

/// `s` without its leading characters that belong to `set`.
pub open spec fn trim_start_by(s: Seq<char>, set: TrimSet) -> Seq<char>
    decreases s.len(),
{
    if s.len() > 0 && in_trim_set(set, s[0]) {
        trim_start_by(s.drop_first(), set)
    } else {
        s
    }
}

/// `s` without its trailing characters that belong to `set`.
pub open spec fn trim_end_by(s: Seq<char>, set: TrimSet) -> Seq<char>
    decreases s.len(),
{
    if s.len() > 0 && in_trim_set(set, s.last()) {
        trim_end_by(s.drop_last(), set)
    } else {
        s
    }
}

/// `s` without the characters of `set` at either end.
pub open spec fn trim_by(s: Seq<char>, set: TrimSet) -> Seq<char> {
    trim_end_by(trim_start_by(s, set), set)
}

/// What `str::trim` gives back: `s` without white space at either end.
pub open spec fn trim_spec(s: Seq<char>) -> Seq<char> {
    trim_by(s, TrimSet::Whitespace)
}

/// `p` is a prefix of `s`.
pub open spec fn starts_with_spec(s: Seq<char>, p: Seq<char>) -> bool {
    p.len() <= s.len() && s.take(p.len() as int) == p
}

/// `p` occurs in `s` starting at position `i`.
pub open spec fn occurs_at(s: Seq<char>, p: Seq<char>, i: int) -> bool {
    0 <= i && i + p.len() <= s.len() && s.subrange(i, i + p.len()) == p
}

/// `p` occurs somewhere in `s`.
pub open spec fn contains_spec(s: Seq<char>, p: Seq<char>) -> bool {
    exists|i: int| occurs_at(s, p, i)
}

/// The position of the first `'\n'` in `s`, or `s.len()` when there is none.
pub open spec fn newline_index(s: Seq<char>) -> nat
    decreases s.len(),
{
    if s.len() == 0 {
        0
    } else if s[0] == '\n' {
        0
    } else {
        1 + newline_index(s.drop_first())
    }
}

/// A line that ended in `'\n'`, without a `'\r'` just before that newline.
pub open spec fn strip_cr(l: Seq<char>) -> Seq<char> {
    if l.len() > 0 && l.last() == '\r' {
        l.drop_last()
    } else {
        l
    }
}

/// What `str::lines` gives back: the pieces of `s` between `'\n'` characters,
/// a `"\r\n"` ending counting as one, and no empty piece after a final newline.
pub open spec fn lines_spec(s: Seq<char>) -> Seq<Seq<char>>
    decreases s.len(),
{
    if s.len() == 0 {
        seq![]
    } else {
        let i = newline_index(s);
        if i < s.len() {
            seq![strip_cr(s.take(i as int))] + lines_spec(s.skip((i + 1) as int))
        } else {
            seq![s]
        }
    }
}

/// The character of the decimal digit `d`.
pub open spec fn digit_char(d: nat) -> char {
    (48 + d) as char
}

/// The decimal digits of `n`, without leading zeros.
pub open spec fn dec_nat(n: nat) -> Seq<char>
    decreases n,
{
    if n < 10 {
        seq![digit_char(n)]
    } else {
        dec_nat(n / 10).push(digit_char(n % 10))
    }
}

/// How `Display` writes the integer `n`: a minus sign when it is negative,
/// then its decimal digits.
pub open spec fn dec_int(n: int) -> Seq<char> {
    if n < 0 {
        seq!['-'] + dec_nat((-n) as nat)
    } else {
        dec_nat(n as nat)
    }
}

/// `c` is one of `'0'` to `'9'`.
pub open spec fn is_digit(c: char) -> bool {
    '0' <= c && c <= '9'
}

/// The value of the decimal digit `c`.
pub open spec fn digit_value(c: char) -> int {
    c as int - 48
}

/// Every character of `s` is a decimal digit.
pub open spec fn all_digits(s: Seq<char>) -> bool {
    forall|i: int| 0 <= i < s.len() ==> is_digit(#[trigger] s[i])
}

/// The number that the digits `s` spell in base ten.
pub open spec fn digits_value(s: Seq<char>) -> int
    decreases s.len(),
{
    if s.len() == 0 {
        0
    } else {
        digits_value(s.drop_last()) * 10 + digit_value(s.last())
    }
}

/// The digits after an optional leading `'+'` or `'-'`.
pub open spec fn unsigned_part(s: Seq<char>) -> Seq<char> {
    if s.len() > 0 && (s[0] == '+' || s[0] == '-') {
        s.drop_first()
    } else {
        s
    }
}

/// What `str::parse::<i64>` gives back: an optional sign followed by at
/// least one decimal digit and nothing else, whose value fits in an `i64`.
pub open spec fn parse_i64_spec(s: Seq<char>) -> Option<i64> {
    let digits = unsigned_part(s);
    if digits.len() == 0 || !all_digits(digits) {
        None
    } else {
        let v = if s[0] == '-' {
            -digits_value(digits)
        } else {
            digits_value(digits)
        };
        if i64::MIN <= v <= i64::MAX {
            Some(v as i64)
        } else {
            None
        }
    }
}

// ---------------------------------------------------------------------------
// Lemmas
// ---------------------------------------------------------------------------

/// The first newline of `s` is at `k` when none comes before `k` and `k` is
/// a newline or the end.
pub proof fn lemma_newline_index(s: Seq<char>, k: int)
    requires
        0 <= k <= s.len(),
        forall|j: int| 0 <= j < k ==> s[j] != '\n',
        k == s.len() || s[k] == '\n',
    ensures
        newline_index(s) == k,
    decreases k,
{
    if k > 0 {
        lemma_newline_index(s.drop_first(), k - 1);
    }
}

/// `newline_index` never passes the end.
pub proof fn lemma_newline_index_bound(s: Seq<char>)
    ensures
        newline_index(s) <= s.len(),
        newline_index(s) < s.len() ==> s[newline_index(s) as int] == '\n',
        forall|j: int| 0 <= j < newline_index(s) ==> s[j] != '\n',
    decreases s.len(),
{
    if s.len() > 0 && s[0] != '\n' {
        lemma_newline_index_bound(s.drop_first());
        assert forall|j: int| 0 <= j < newline_index(s) implies s[j] != '\n' by {
            if j > 0 {
                assert(s[j] == s.drop_first()[j - 1]);
            }
        }
    }
}

/// The digit characters of `dec_nat` are digits whose value is `n`.
pub proof fn lemma_dec_nat_digits(n: nat)
    ensures
        all_digits(dec_nat(n)),
        digits_value(dec_nat(n)) == n,
        dec_nat(n).len() >= 1,
    decreases n,
{
    if n >= 10 {
        lemma_dec_nat_digits(n / 10);
        let d = dec_nat(n / 10);
        assert(dec_nat(n).drop_last() =~= d);
        let m = n % 10;
        assert(digit_value(digit_char(m)) == m);
        assert(dec_nat(n).last() == digit_char(m));
        assert(digits_value(dec_nat(n)) == digits_value(d) * 10 + m);
        assert((n / 10) * 10 + m == n);
        assert forall|i: int| 0 <= i < dec_nat(n).len() implies is_digit(#[trigger] dec_nat(n)[i]) by {
            if i < d.len() {
                assert(dec_nat(n)[i] == d[i]);
            }
        }
    } else {
        let s = dec_nat(n);
        assert(s =~= seq![digit_char(n)]);
        assert(s.drop_last() =~= Seq::<char>::empty());
        assert(digits_value(s.drop_last()) == 0);
        assert(s.last() == digit_char(n));
        assert(digit_value(digit_char(n)) == n);
    }
}

/// `digits_value` of digits is never negative.
pub proof fn lemma_digits_value_nonneg(s: Seq<char>)
    requires
        all_digits(s),
    ensures
        digits_value(s) >= 0,
    decreases s.len(),
{
    if s.len() > 0 {
        assert(all_digits(s.drop_last())) by {
            assert forall|i: int| 0 <= i < s.drop_last().len() implies is_digit(
                #[trigger] s.drop_last()[i],
            ) by {
                assert(s.drop_last()[i] == s[i]);
            }
        }
        lemma_digits_value_nonneg(s.drop_last());
        assert(is_digit(s[s.len() - 1]));
    }
}

/// A longer run of digits is worth at least as much as its prefix.
pub proof fn lemma_digits_value_prefix(s: Seq<char>, k: int)
    requires
        all_digits(s),
        0 <= k <= s.len(),
    ensures
        digits_value(s.take(k)) <= digits_value(s),
    decreases s.len(),
{
    if k < s.len() {
        let d = s.drop_last();
        assert(all_digits(d)) by {
            assert forall|i: int| 0 <= i < d.len() implies is_digit(#[trigger] d[i]) by {
                assert(d[i] == s[i]);
            }
        }
        lemma_digits_value_prefix(d, k);
        assert(d.take(k) =~= s.take(k));
        lemma_digits_value_nonneg(d);
        assert(is_digit(s[s.len() - 1]));
    } else {
        assert(s.take(k) =~= s);
    }
}

/// Parsing what `Display` writes for an `i64` gives the number back.
pub proof fn lemma_parse_dec_int(x: i64)
    ensures
        parse_i64_spec(dec_int(x as int)) == Some(x),
{
    if x < 0 {
        let n = (-x) as nat;
        lemma_dec_nat_digits(n);
        let s = dec_int(x as int);
        assert(s[0] == '-');
        assert(unsigned_part(s) =~= dec_nat(n));
    } else {
        let n = x as nat;
        lemma_dec_nat_digits(n);
        let s = dec_nat(n);
        assert(is_digit(s[0]));
        assert(unsigned_part(s) =~= s);
    }
}

/// Two numbers are written alike only when they are equal.
pub proof fn lemma_dec_int_injective(a: i64, b: i64)
    requires
        dec_int(a as int) == dec_int(b as int),
    ensures
        a == b,
{
    lemma_parse_dec_int(a);
    lemma_parse_dec_int(b);
}

/// The lines `ls`, each followed by a newline.
pub open spec fn concat_lines(ls: Seq<Seq<char>>) -> Seq<char>
    decreases ls.len(),
{
    if ls.len() == 0 {
        Seq::empty()
    } else {
        concat_lines(ls.drop_last()) + ls.last() + seq!['\n']
    }
}

/// The lines of `x`, a newline, then `y`: the line `x`, then the lines of `y`.
pub proof fn lemma_lines_prepend(x: Seq<char>, y: Seq<char>)
    requires
        !x.contains('\n'),
    ensures
        lines_spec(x + seq!['\n'] + y) == seq![strip_cr(x)] + lines_spec(y),
{
    let s = x + seq!['\n'] + y;
    assert forall|j: int| 0 <= j < x.len() implies s[j] != '\n' by {
        assert(s[j] == x[j]);
        if x[j] == '\n' {
            assert(x.contains(x[j]));
        }
    }
    lemma_newline_index(s, x.len() as int);
    assert(s.take(x.len() as int) =~= x);
    assert(s.skip(x.len() as int + 1) =~= y);
}

/// Lines that hold no newline, written one per line and read back, come
/// back without a trailing carriage return.
pub proof fn lemma_lines_concat(ls: Seq<Seq<char>>, rest: Seq<char>)
    requires
        forall|i: int| 0 <= i < ls.len() ==> !(#[trigger] ls[i]).contains('\n'),
    ensures
        lines_spec(concat_lines(ls) + rest) == ls.map_values(|l: Seq<char>| strip_cr(l))
            + lines_spec(rest),
    decreases ls.len(),
{
    if ls.len() == 0 {
        assert(concat_lines(ls) + rest =~= rest);
        assert(ls.map_values(|l: Seq<char>| strip_cr(l)) + lines_spec(rest) =~= lines_spec(rest));
    } else {
        let init = ls.drop_last();
        let l = ls.last();
        assert(!ls[ls.len() - 1].contains('\n'));
        lemma_lines_concat(init, l + seq!['\n'] + rest);
        lemma_lines_prepend(l, rest);
        assert(concat_lines(ls) + rest =~= concat_lines(init) + (l + seq!['\n'] + rest));
        assert(ls.map_values(|l: Seq<char>| strip_cr(l)) =~= init.map_values(
            |l: Seq<char>| strip_cr(l),
        ).push(strip_cr(l)));
        assert(init.map_values(|l: Seq<char>| strip_cr(l)) + (seq![strip_cr(l)] + lines_spec(rest))
            =~= init.map_values(|l: Seq<char>| strip_cr(l)).push(strip_cr(l)) + lines_spec(rest));
    }
}

/// No line that `lines_spec` gives holds a newline.
pub proof fn lemma_lines_no_newline(s: Seq<char>)
    ensures
        forall|i: int| 0 <= i < lines_spec(s).len() ==> !(#[trigger] lines_spec(s)[i]).contains('\n'),
    decreases s.len(),
{
    if s.len() > 0 {
        let k = newline_index(s);
        lemma_newline_index_bound(s);
        if k < s.len() {
            lemma_lines_no_newline(s.skip(k as int + 1));
            let first = strip_cr(s.take(k as int));
            assert(!first.contains('\n')) by {
                if first.contains('\n') {
                    let j = choose|j: int| 0 <= j < first.len() && first[j] == '\n';
                    assert(s[j] == '\n');
                }
            }
            assert forall|i: int| 0 <= i < lines_spec(s).len() implies !(
            #[trigger] lines_spec(s)[i]).contains('\n') by {
                if i > 0 {
                    assert(lines_spec(s)[i] == lines_spec(s.skip(k as int + 1))[i - 1]);
                }
            }
        } else {
            assert(!s.contains('\n')) by {
                if s.contains('\n') {
                    let j = choose|j: int| 0 <= j < s.len() && s[j] == '\n';
                }
            }
        }
    }
}

/// The position of the first `c` in `s`, or `s.len()` when there is none.
pub open spec fn find_char(s: Seq<char>, c: char) -> nat
    decreases s.len(),
{
    if s.len() == 0 {
        0
    } else if s[0] == c {
        0
    } else {
        1 + find_char(s.drop_first(), c)
    }
}

/// The first `c` of `s` is at `k` when none comes before `k` and `k` is a
/// `c` or the end.
pub proof fn lemma_find_char(s: Seq<char>, c: char, k: int)
    requires
        0 <= k <= s.len(),
        forall|j: int| 0 <= j < k ==> s[j] != c,
        k == s.len() || s[k] == c,
    ensures
        find_char(s, c) == k,
    decreases k,
{
    if k > 0 {
        lemma_find_char(s.drop_first(), c, k - 1);
    }
}

/// The length of the run of non-white-space characters at the start of `s`.
pub open spec fn word_end(s: Seq<char>) -> nat
    decreases s.len(),
{
    if s.len() == 0 {
        0
    } else if is_whitespace(s[0]) {
        0
    } else {
        1 + word_end(s.drop_first())
    }
}

/// What `str::split_whitespace` gives back: the maximal runs of
/// non-white-space characters of `s`, in order.
pub open spec fn words_spec(s: Seq<char>) -> Seq<Seq<char>>
    decreases s.len(),
{
    if s.len() == 0 {
        seq![]
    } else if is_whitespace(s[0]) {
        words_spec(s.drop_first())
    } else {
        let k = word_end(s);
        if 0 < k <= s.len() {
            seq![s.take(k as int)] + words_spec(s.skip(k as int))
        } else {
            seq![]
        }
    }
}

/// The texts `ws` joined by single spaces.
pub open spec fn join_spaces(ws: Seq<Seq<char>>) -> Seq<char>
    decreases ws.len(),
{
    if ws.len() == 0 {
        Seq::empty()
    } else if ws.len() == 1 {
        ws[0]
    } else {
        join_spaces(ws.drop_last()) + seq![' '] + ws.last()
    }
}

/// The run of non-white-space characters at the start of `s` ends at `k`
/// when they all are and `k` is white space or the end.
pub proof fn lemma_word_end(s: Seq<char>, k: int)
    requires
        0 <= k <= s.len(),
        forall|j: int| 0 <= j < k ==> !is_whitespace(s[j]),
        k == s.len() || is_whitespace(s[k]),
    ensures
        word_end(s) == k,
    decreases k,
{
    if k > 0 {
        lemma_word_end(s.drop_first(), k - 1);
    }
}

// ---------------------------------------------------------------------------
// Executable helpers
// ---------------------------------------------------------------------------

/// Appends one character to a `String` (`String::push` from std).
/// The claim: the string's characters afterwards are the old ones followed by `c`.
#[verifier::external_body]
pub(crate) fn push_char(s: &mut String, c: char)
    ensures
        final(s)@ == old(s)@.push(c),
{
    s.push(c);
}

/// Appends the characters of a `&str` to `out`.
pub(crate) fn push_str(out: &mut String, s: &str)
    ensures
        final(out)@ == old(out)@ + s@,
{
    out.append(s);
}

/// Appends the characters `v` to `out`.
pub(crate) fn push_chars(out: &mut String, v: &[char])
    ensures
        final(out)@ == old(out)@ + v@,
{
    let ghost start = out@;
    let mut i: usize = 0;
    while i < v.len()
        invariant
            i <= v.len(),
            out@ == start + v@.take(i as int),
        decreases v.len() - i,
    {
        push_char(out, v[i]);
        i = i + 1;
        assert(v@.take(i as int) =~= v@.take((i - 1) as int).push(v@[i - 1]));
    }
    assert(v@.take(v.len() as int) =~= v@);
}

/// The characters of `s`, in order.
pub fn chars_of(s: &str) -> (v: Vec<char>)
    ensures
        v@ == s@,
{
    let mut v: Vec<char> = Vec::new();
    for c in it: s.chars()
        invariant
            v@ == it.seq().take(it.index() as int),
            it.seq() == s@,
    {
        v.push(c);
    }
    v
}

/// A `String` holding the characters `v`.
pub fn string_of(v: &[char]) -> (s: String)
    ensures
        s@ == v@,
{
    let mut s = String::new();
    push_chars(&mut s, v);
    s
}

/// The characters `v[from..to]`.
pub fn slice_chars(v: &[char], from: usize, to: usize) -> (r: Vec<char>)
    requires
        from <= to <= v.len(),
    ensures
        r@ == v@.subrange(from as int, to as int),
{
    let mut r: Vec<char> = Vec::new();
    let mut i = from;
    while i < to
        invariant
            from <= i <= to <= v.len(),
            r@ == v@.subrange(from as int, i as int),
        decreases to - i,
    {
        r.push(v[i]);
        i = i + 1;
        assert(r@ =~= v@.subrange(from as int, i as int));
    }
    r
}

/// Whether `c` is white space (`char::is_whitespace`).
pub fn char_is_whitespace(c: char) -> (b: bool)
    ensures
        b == is_whitespace(c),
{
    c == '\t' || c == '\n' || c == '\u{0B}' || c == '\u{0C}' || c == '\r' || c == ' ' || c
        == '\u{85}' || c == '\u{A0}' || c == '\u{1680}' || ('\u{2000}' <= c && c <= '\u{200A}')
        || c == '\u{2028}' || c == '\u{2029}' || c == '\u{202F}' || c == '\u{205F}' || c
        == '\u{3000}'
}

/// Whether `c` belongs to the trim set `set`.
pub fn char_in_trim_set(set: TrimSet, c: char) -> (b: bool)
    ensures
        b == in_trim_set(set, c),
{
    match set {
        TrimSet::Whitespace => char_is_whitespace(c),
        TrimSet::Quotes => c == '"' || c == '\'',
    }
}

/// `v` without the characters of `set` at either end.
pub fn trim_chars(v: &[char], set: TrimSet) -> (r: Vec<char>)
    ensures
        r@ == trim_by(v@, set),
{
    let n = v.len();
    let mut a: usize = 0;
    assert(v@.skip(0) =~= v@);
    while a < n && char_in_trim_set(set, v[a])
        invariant
            a <= n == v.len(),
            trim_start_by(v@, set) == trim_start_by(v@.skip(a as int), set),
        decreases n - a,
    {
        assert(v@.skip(a as int).drop_first() =~= v@.skip(a + 1));
        a = a + 1;
    }
    assert(trim_start_by(v@.skip(a as int), set) == v@.skip(a as int));
    let mut b: usize = n;
    assert(v@.skip(a as int) =~= v@.subrange(a as int, b as int));
    while b > a && char_in_trim_set(set, v[b - 1])
        invariant
            a <= b <= n == v.len(),
            trim_by(v@, set) == trim_end_by(v@.subrange(a as int, b as int), set),
        decreases b - a,
    {
        assert(v@.subrange(a as int, b as int).drop_last() =~= v@.subrange(a as int, b - 1));
        b = b - 1;
    }
    slice_chars(v, a, b)
}

/// `s` without white space at either end (`str::trim`).
pub fn trim(s: &str) -> (r: String)
    ensures
        r@ == trim_spec(s@),
{
    let v = chars_of(s);
    let t = trim_chars(&v, TrimSet::Whitespace);
    string_of(&t)
}

/// Whether `p` is a prefix of `s`.
pub fn starts_with_chars(s: &[char], p: &[char]) -> (b: bool)
    ensures
        b == starts_with_spec(s@, p@),
{
    if p.len() > s.len() {
        return false;
    }
    let mut i: usize = 0;
    while i < p.len()
        invariant
            i <= p.len() <= s.len(),
            s@.take(i as int) == p@.take(i as int),
        decreases p.len() - i,
    {
        if s[i] != p[i] {
            assert(s@.take(p.len() as int)[i as int] != p@[i as int]);
            return false;
        }
        i = i + 1;
        assert(s@.take(i as int) =~= s@.take((i - 1) as int).push(s@[i - 1]));
        assert(p@.take(i as int) =~= p@.take((i - 1) as int).push(p@[i - 1]));
    }
    assert(p@.take(p.len() as int) =~= p@);
    true
}

/// Whether `p` occurs in `s` at position `i`.
fn occurs_at_chars(s: &[char], p: &[char], i: usize) -> (b: bool)
    ensures
        b == occurs_at(s@, p@, i as int),
{
    if p.len() > s.len() || i > s.len() - p.len() {
        return false;
    }
    let mut k: usize = 0;
    while k < p.len()
        invariant
            k <= p.len(),
            i + p.len() <= s.len(),
            forall|j: int| 0 <= j < k ==> s@[i + j] == p@[j],
        decreases p.len() - k,
    {
        if s[i + k] != p[k] {
            assert(s@.subrange(i as int, i + p.len())[k as int] != p@[k as int]);
            return false;
        }
        k = k + 1;
    }
    assert(s@.subrange(i as int, i + p.len()) =~= p@);
    true
}

/// Whether `p` occurs anywhere in `s` (`str::contains` with a string pattern).
pub fn contains_chars(s: &[char], p: &[char]) -> (b: bool)
    ensures
        b == contains_spec(s@, p@),
{
    if p.len() > s.len() {
        return false;
    }
    let last = s.len() - p.len();
    let mut i: usize = 0;
    loop
        invariant
            last == s.len() - p.len(),
            i <= last,
            forall|j: int| 0 <= j < i ==> !occurs_at(s@, p@, j),
        decreases last - i,
    {
        if occurs_at_chars(s, p, i) {
            return true;
        }
        if i == last {
            return false;
        }
        i = i + 1;
    }
}

/// The lines of `v`, as `str::lines` splits them.
pub fn lines_chars(v: &[char]) -> (r: Vec<Vec<char>>)
    ensures
        r@.map_values(|l: Vec<char>| l@) == lines_spec(v@),
{
    let n = v.len();
    let mut r: Vec<Vec<char>> = Vec::new();
    let mut start: usize = 0;
    let mut i: usize = 0;
    assert(v@.skip(0) =~= v@);
    assert(r@.map_values(|l: Vec<char>| l@) =~= Seq::<Seq<char>>::empty());
    assert(Seq::<Seq<char>>::empty() + lines_spec(v@) =~= lines_spec(v@));
    while i < n
        invariant
            start <= i <= n == v.len(),
            forall|j: int| start <= j < i ==> v@[j] != '\n',
            lines_spec(v@) == r@.map_values(|l: Vec<char>| l@) + lines_spec(v@.skip(start as int)),
        decreases n - i,
    {
        if v[i] == '\n' {
            let ghost rest = v@.skip(start as int);
            proof {
                lemma_newline_index(rest, i - start);
                assert(rest.take(i - start) =~= v@.subrange(start as int, i as int));
                assert(rest.skip(i - start + 1) =~= v@.skip(i + 1));
            }
            let mut line = slice_chars(v, start, i);
            if line.len() > 0 && line[line.len() - 1] == '\r' {
                line.pop();
            }
            assert(line@ == strip_cr(v@.subrange(start as int, i as int)));
            let ghost before = r@.map_values(|l: Vec<char>| l@);
            r.push(line);
            assert(r@.map_values(|l: Vec<char>| l@) =~= before.push(line@));
            start = i + 1;
        }
        i = i + 1;
    }
    if start < n {
        let ghost rest = v@.skip(start as int);
        proof {
            lemma_newline_index(rest, n - start);
            assert(rest.take(n - start) =~= rest);
        }
        let line = slice_chars(v, start, n);
        let ghost before = r@.map_values(|l: Vec<char>| l@);
        r.push(line);
        assert(r@.map_values(|l: Vec<char>| l@) =~= before.push(line@));
        assert(line@ =~= rest);
    } else {
        assert(v@.skip(start as int) =~= Seq::<char>::empty());
    }
    r
}

/// The words of `v`, as `str::split_whitespace` splits them.
pub fn words_chars(v: &[char]) -> (r: Vec<Vec<char>>)
    ensures
        r@.map_values(|w: Vec<char>| w@) == words_spec(v@),
{
    let n = v.len();
    let mut r: Vec<Vec<char>> = Vec::new();
    let mut start: usize = 0;
    let mut i: usize = 0;
    assert(v@.skip(0) =~= v@);
    assert(r@.map_values(|w: Vec<char>| w@) =~= Seq::<Seq<char>>::empty());
    assert(Seq::<Seq<char>>::empty() + words_spec(v@) =~= words_spec(v@));
    while i < n
        invariant
            start <= i <= n == v.len(),
            forall|j: int| start <= j < i ==> !is_whitespace(v@[j]),
            words_spec(v@) == r@.map_values(|w: Vec<char>| w@) + words_spec(v@.skip(start as int)),
        decreases n - i,
    {
        if char_is_whitespace(v[i]) {
            let ghost rest = v@.skip(start as int);
            if start < i {
                proof {
                    lemma_word_end(rest, i - start);
                    assert(rest.take(i - start) =~= v@.subrange(start as int, i as int));
                    assert(rest.skip(i - start) =~= v@.skip(i as int));
                    assert(!is_whitespace(rest[0]));
                    assert(words_spec(rest) == seq![rest.take(i - start)] + words_spec(v@.skip(i as int)));
                }
                let w = slice_chars(v, start, i);
                let ghost before = r@.map_values(|w: Vec<char>| w@);
                r.push(w);
                assert(r@.map_values(|w: Vec<char>| w@) =~= before.push(w@));
                assert(before.push(w@) + words_spec(v@.skip(i as int)) =~= before + (seq![w@] + words_spec(v@.skip(i as int))));
            }
            proof {
                let s2 = v@.skip(i as int);
                assert(s2[0] == v@[i as int]);
                assert(s2.drop_first() =~= v@.skip(i + 1));
                assert(words_spec(s2) == words_spec(v@.skip(i + 1)));
            }
            start = i + 1;
        }
        i = i + 1;
    }
    if start < n {
        let ghost rest = v@.skip(start as int);
        proof {
            lemma_word_end(rest, n - start);
            assert(rest.take(n - start) =~= rest);
            assert(rest.skip(n - start) =~= Seq::<char>::empty());
            assert(!is_whitespace(rest[0]));
            assert(words_spec(rest) == seq![rest] + words_spec(Seq::<char>::empty()));
            assert(words_spec(Seq::<char>::empty()) =~= Seq::<Seq<char>>::empty());
        }
        let w = slice_chars(v, start, n);
        let ghost before = r@.map_values(|w: Vec<char>| w@);
        r.push(w);
        assert(r@.map_values(|w: Vec<char>| w@) =~= before.push(w@));
        assert(w@ =~= rest);
        assert(before + (seq![rest] + Seq::<Seq<char>>::empty()) =~= before.push(rest));
    } else {
        assert(v@.skip(start as int) =~= Seq::<char>::empty());
        assert(words_spec(Seq::<char>::empty()) =~= Seq::<Seq<char>>::empty());
        assert(r@.map_values(|w: Vec<char>| w@) + Seq::<Seq<char>>::empty() =~= r@.map_values(|w: Vec<char>| w@));
    }
    r
}

/// The position of the first `c` in `v`, or `v.len()` when there is none.
pub fn find_char_exec(v: &[char], c: char) -> (k: usize)
    ensures
        k == find_char(v@, c),
        k <= v.len(),
{
    let mut k: usize = 0;
    while k < v.len() && v[k] != c
        invariant
            k <= v.len(),
            forall|j: int| 0 <= j < k ==> v@[j] != c,
        decreases v.len() - k,
    {
        k = k + 1;
    }
    proof {
        lemma_find_char(v@, c, k as int);
    }
    k
}

/// The character of the decimal digit `d`.
fn digit_to_char(d: u64) -> (c: char)
    requires
        d < 10,
    ensures
        c == digit_char(d as nat),
{
    let b: u8 = 48 + d as u8;
    b as char
}

/// Appends the decimal digits of `n` to `out`.
pub(crate) fn push_dec_u64(out: &mut String, n: u64)
    ensures
        final(out)@ == old(out)@ + dec_nat(n as nat),
    decreases n,
{
    if n >= 10 {
        push_dec_u64(out, n / 10);
    }
    push_char(out, digit_to_char(n % 10));
}

/// Appends `n` as `Display` writes an `i64`.
pub(crate) fn push_dec_i64(out: &mut String, n: i64)
    ensures
        final(out)@ == old(out)@ + dec_int(n as int),
{
    if n < 0 {
        push_char(out, '-');
        let m: u64 = ((-(n + 1)) as u64) + 1;
        push_dec_u64(out, m);
    } else {
        push_dec_u64(out, n as u64);
    }
}

/// `n` written in decimal, as `Display` writes an `i64`.
pub fn format_i64(n: i64) -> (s: String)
    ensures
        s@ == dec_int(n as int),
{
    let mut s = String::new();
    push_dec_i64(&mut s, n);
    s
}

/// `n` written in decimal, as `Display` writes a `u64`.
pub fn format_u64(n: u64) -> (s: String)
    ensures
        s@ == dec_nat(n as nat),
{
    let mut s = String::new();
    push_dec_u64(&mut s, n);
    s
}

/// The value of `c` when it is a decimal digit.
pub fn char_digit(c: char) -> (r: Option<u64>)
    ensures
        r is Some <==> is_digit(c),
        r matches Some(d) ==> d < 10 && d as int == digit_value(c),
{
    if c == '0' {
        Some(0)
    } else if c == '1' {
        Some(1)
    } else if c == '2' {
        Some(2)
    } else if c == '3' {
        Some(3)
    } else if c == '4' {
        Some(4)
    } else if c == '5' {
        Some(5)
    } else if c == '6' {
        Some(6)
    } else if c == '7' {
        Some(7)
    } else if c == '8' {
        Some(8)
    } else if c == '9' {
        Some(9)
    } else {
        None
    }
}

/// Parses `s` as `str::parse::<i64>` does.
pub fn parse_i64_chars(s: &[char]) -> (r: Option<i64>)
    ensures
        r == parse_i64_spec(s@),
{
    let n = s.len();
    if n == 0 {
        return None;
    }
    let neg = s[0] == '-';
    let from: usize = if s[0] == '+' || s[0] == '-' { 1 } else { 0 };
    let ghost digits = unsigned_part(s@);
    assert(digits =~= s@.skip(from as int));
    if from == n {
        return None;
    }
    let mut k: usize = from;
    while k < n
        invariant
            from <= k <= n == s.len(),
            digits == s@.skip(from as int),
            digits == unsigned_part(s@),
            neg == (s@[0] == '-'),
            forall|j: int| 0 <= j < k - from ==> is_digit(#[trigger] digits[j]),
        decreases n - k,
    {
        if char_digit(s[k]).is_none() {
            assert(digits[k - from] == s@[k as int]);
            assert(!is_digit(digits[k - from]));
            return None;
        }
        assert(digits[k - from] == s@[k as int]);
        k = k + 1;
    }
    assert(all_digits(digits));
    let mut acc: u64 = 0;
    let mut i: usize = from;
    assert(digits.take(0) =~= Seq::<char>::empty());
    while i < n
        invariant
            from <= i <= n == s.len(),
            from < n,
            digits == s@.skip(from as int),
            digits == unsigned_part(s@),
            neg == (s@[0] == '-'),
            all_digits(digits),
            acc as int == digits_value(digits.take(i - from)),
            acc <= 9223372036854775808u64,
        decreases n - i,
    {
        assert(digits[i - from] == s@[i as int]);
        let d: u64 = match char_digit(s[i]) {
            Some(d) => d,
            None => 0,
        };
        assert(digits.take(i - from + 1).drop_last() =~= digits.take(i - from));
        assert(digits.take(i - from + 1).last() == s@[i as int]);
        if acc > (9223372036854775808u64 - d) / 10 {
            proof {
                assert(digits_value(digits.take(i - from + 1)) > 9223372036854775808u64);
                lemma_digits_value_prefix(digits, i - from + 1);
            }
            return None;
        }
        acc = acc * 10 + d;
        i = i + 1;
    }
    assert(digits.take(n - from) =~= digits);
    if neg {
        if acc == 9223372036854775808u64 {
            Some(-9223372036854775807 - 1)
        } else {
            Some(-(acc as i64))
        }
    } else {
        if acc == 9223372036854775808u64 {
            None
        } else {
            Some(acc as i64)
        }
    }
}

/// Every character of `s` belongs to `set`.
pub open spec fn all_in_trim_set(s: Seq<char>, set: TrimSet) -> bool {
    forall|j: int| 0 <= j < s.len() ==> in_trim_set(set, #[trigger] s[j])
}

/// Trimming the start drops a run of characters of `set`, and no more:
/// what is left is empty or starts with a character outside `set`.
pub proof fn lemma_trim_start_by_shape(s: Seq<char>, set: TrimSet)
    ensures
        exists|k: int|
            0 <= k <= s.len() && trim_start_by(s, set) == s.skip(k) && all_in_trim_set(
                #[trigger] s.take(k),
                set,
            ),
        trim_start_by(s, set).len() > 0 ==> !in_trim_set(set, trim_start_by(s, set)[0]),
    decreases s.len(),
{
    if s.len() > 0 && in_trim_set(set, s[0]) {
        let t = s.drop_first();
        lemma_trim_start_by_shape(t, set);
        let k = choose|k: int|
            0 <= k <= t.len() && trim_start_by(t, set) == t.skip(k) && all_in_trim_set(
                #[trigger] t.take(k),
                set,
            );
        assert(t.skip(k) =~= s.skip(k + 1));
        assert forall|j: int| 0 <= j < s.take(k + 1).len() implies in_trim_set(
            set,
            #[trigger] s.take(k + 1)[j],
        ) by {
            if j > 0 {
                assert(s.take(k + 1)[j] == t.take(k)[j - 1]);
            }
        }
        assert(all_in_trim_set(s.take(k + 1), set));
        assert(trim_start_by(s, set) == s.skip(k + 1));
    } else {
        assert(s.skip(0) =~= s);
        assert(s.take(0).len() == 0);
        assert(all_in_trim_set(s.take(0), set));
        assert(trim_start_by(s, set) == s.skip(0));
    }
}

/// Trimming the end drops a run of characters of `set`, and no more:
/// what is left is empty or ends with a character outside `set`.
pub proof fn lemma_trim_end_by_shape(s: Seq<char>, set: TrimSet)
    ensures
        exists|m: int|
            0 <= m <= s.len() && trim_end_by(s, set) == s.take(m) && all_in_trim_set(
                #[trigger] s.skip(m),
                set,
            ),
        trim_end_by(s, set).len() > 0 ==> !in_trim_set(set, trim_end_by(s, set).last()),
    decreases s.len(),
{
    if s.len() > 0 && in_trim_set(set, s.last()) {
        let t = s.drop_last();
        lemma_trim_end_by_shape(t, set);
        let m = choose|m: int|
            0 <= m <= t.len() && trim_end_by(t, set) == t.take(m) && all_in_trim_set(
                #[trigger] t.skip(m),
                set,
            );
        assert(t.take(m) =~= s.take(m));
        assert forall|j: int| 0 <= j < s.skip(m).len() implies in_trim_set(
            set,
            #[trigger] s.skip(m)[j],
        ) by {
            if j < t.skip(m).len() {
                assert(s.skip(m)[j] == t.skip(m)[j]);
            } else {
                assert(s.skip(m)[j] == s.last());
            }
        }
        assert(all_in_trim_set(s.skip(m), set));
        assert(trim_end_by(s, set) == s.take(m));
    } else {
        assert(s.take(s.len() as int) =~= s);
        assert(s.skip(s.len() as int).len() == 0);
        assert(all_in_trim_set(s.skip(s.len() as int), set));
        assert(trim_end_by(s, set) == s.take(s.len() as int));
    }
}

/// `str::trim` keeps the text between a leading and a trailing run of
/// white space, whole: `s` is that leading run, then the trimmed text,
/// then that trailing run, and the trimmed text neither starts nor ends
/// with white space.
pub proof fn lemma_trim_shape(s: Seq<char>)
    ensures
        exists|lead: Seq<char>, trail: Seq<char>|
            s == lead + trim_spec(s) + trail && #[trigger] all_in_trim_set(lead, TrimSet::Whitespace)
                && #[trigger] all_in_trim_set(trail, TrimSet::Whitespace),
        trim_spec(s).len() > 0 ==> !is_whitespace(trim_spec(s)[0]) && !is_whitespace(
            trim_spec(s).last(),
        ),
{
    let set = TrimSet::Whitespace;
    lemma_trim_start_by_shape(s, set);
    let k = choose|k: int|
        0 <= k <= s.len() && trim_start_by(s, set) == s.skip(k) && all_in_trim_set(
            #[trigger] s.take(k),
            set,
        );
    let u = s.skip(k);
    lemma_trim_end_by_shape(u, set);
    let m = choose|m: int|
        0 <= m <= u.len() && trim_end_by(u, set) == u.take(m) && all_in_trim_set(
            #[trigger] u.skip(m),
            set,
        );
    let r = trim_spec(s);
    assert(r == u.take(m));
    assert(s =~= s.take(k) + r + u.skip(m));
    if r.len() > 0 {
        assert(r[0] == trim_start_by(s, set)[0]);
    }
}

} // verus!
