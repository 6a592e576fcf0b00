//! What quoting an SQL identifier guarantees: the quoted name cannot be
//! closed early by anything in the identifier, and reads back to it.
use vstd::prelude::*;

use crate::context::{double_quotes, quote_identifier_spec};

verus! {

/// How many double quotes `v` holds.
pub open spec fn quote_count(v: Seq<char>) -> nat
    decreases v.len(),
{
    if v.len() == 0 {
        0
    } else {
        quote_count(v.drop_last()) + if v.last() == '"' {
            1nat
        } else {
            0nat
        }
    }
}

/// `s` read from the front with each pair of double quotes read as one
/// (what replacing `""` by `"` gives).
pub open spec fn undouble_quotes(s: Seq<char>) -> Seq<char>
    decreases s.len(),
{
    if s.len() == 0 {
        Seq::empty()
    } else if s.len() >= 2 && s[0] == '"' && s[1] == '"' {
        seq!['"'] + undouble_quotes(s.skip(2))
    } else {
        seq![s[0]] + undouble_quotes(s.skip(1))
    }
}

/// Read from the front, every double quote in `s` is the first of a pair,
/// so no lone quote can end a quoted name inside `s`.
pub open spec fn quotes_paired(s: Seq<char>) -> bool
    decreases s.len(),
{
    if s.len() == 0 {
        true
    } else if s[0] == '"' {
        s.len() >= 2 && s[1] == '"' && quotes_paired(s.skip(2))
    } else {
        quotes_paired(s.skip(1))
    }
}

/// Doubling the quotes of two texts one after the other is doubling the
/// quotes of the joined text.
proof fn lemma_double_quotes_concat(a: Seq<char>, b: Seq<char>)
    ensures
        double_quotes(a + b) == double_quotes(a) + double_quotes(b),
    decreases b.len(),
{
    if b.len() == 0 {
        assert(a + b =~= a);
        assert(double_quotes(a) + double_quotes(b) =~= double_quotes(a));
    } else {
        lemma_double_quotes_concat(a, b.drop_last());
        assert((a + b).drop_last() =~= a + b.drop_last());
        assert((a + b).last() == b.last());
        if b.last() == '"' {
            assert(double_quotes(a + b) =~= double_quotes(a) + double_quotes(b));
        } else {
            assert(double_quotes(a + b) =~= double_quotes(a) + double_quotes(b));
        }
    }
}

/// The length of `double_quotes(v)`: one more character per quote.
proof fn lemma_double_quotes_len(v: Seq<char>)
    ensures
        double_quotes(v).len() == v.len() + quote_count(v),
    decreases v.len(),
{
    if v.len() > 0 {
        lemma_double_quotes_len(v.drop_last());
    }
}

/// Undoubling the quotes of `double_quotes(v)` gives `v` back, and every
/// quote in it is paired.
proof fn lemma_undouble_double_quotes(v: Seq<char>)
    ensures
        undouble_quotes(double_quotes(v)) == v,
        quotes_paired(double_quotes(v)),
    decreases v.len(),
{
    if v.len() > 0 {
        let c = v[0];
        let r = v.drop_first();
        lemma_undouble_double_quotes(r);
        assert(v =~= seq![c] + r);
        lemma_double_quotes_concat(seq![c], r);
        assert(seq![c].drop_last() =~= Seq::<char>::empty());
        assert(seq![c].last() == c);
        assert(double_quotes(Seq::<char>::empty()) =~= Seq::<char>::empty());
        assert(double_quotes(seq![c]) == double_quotes(seq![c].drop_last()) + (if c == '"' {
            seq!['"', '"']
        } else {
            seq![c]
        }));
        let x = double_quotes(r);
        if c == '"' {
            assert(double_quotes(seq![c]) =~= seq!['"', '"']);
            let d = seq!['"', '"'] + x;
            assert(d.skip(2) =~= x);
            assert(d.len() >= 2 && d[0] == '"' && d[1] == '"');
            assert(undouble_quotes(d) =~= seq!['"'] + undouble_quotes(x));
        } else {
            assert(double_quotes(seq![c]) =~= seq![c]);
            let d = seq![c] + x;
            assert(d.skip(1) =~= x);
            assert(d.len() >= 1 && d[0] == c);
            assert(undouble_quotes(d) =~= seq![c] + undouble_quotes(x));
        }
        assert(undouble_quotes(double_quotes(v)) =~= v);
    } else {
        assert(double_quotes(v) =~= Seq::<char>::empty());
    }
}

/// A quoted identifier begins and ends with a double quote, is two longer
/// than the identifier plus one per quote in it, has every inner quote
/// doubled (so nothing in the identifier can end the quoted name early),
/// and reading its inside with `""` as `"` gives the identifier back.
pub proof fn lemma_quote_identifier_reads_back(v: Seq<char>)
    ensures
        quote_identifier_spec(v).len() == v.len() + quote_count(v) + 2,
        quote_identifier_spec(v)[0] == '"',
        quote_identifier_spec(v).last() == '"',
        quotes_paired(quote_identifier_spec(v).subrange(1, quote_identifier_spec(v).len() - 1)),
        undouble_quotes(quote_identifier_spec(v).subrange(1, quote_identifier_spec(v).len() - 1)) == v,
{
    let q = quote_identifier_spec(v);
    lemma_double_quotes_len(v);
    lemma_undouble_double_quotes(v);
    assert(q.subrange(1, q.len() - 1) =~= double_quotes(v));
}

} // verus!
