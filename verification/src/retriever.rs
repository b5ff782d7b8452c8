//! Query-side logic of hybrid retrieval: turning a segmented query into a
//! literal-only full-text query, and choosing which fused results to load.
use vstd::prelude::*;
use crate::split::{pieces_of, ranges_within, word_ranges, words};
use crate::text::chars_of;

verus! {

/// A token with every `"` doubled, as the full-text query syntax expects
/// inside a quoted string.
pub open spec fn escape_quotes(t: Seq<char>) -> Seq<char>
    decreases t.len(),
{
    if t.len() == 0 {
        Seq::empty()
    } else if t.last() == '"' {
        escape_quotes(t.drop_last()) + seq!['"', '"']
    } else {
        escape_quotes(t.drop_last()).push(t.last())
    }
}

/// A token wrapped in double quotes, so that it is matched literally.
pub open spec fn quote_token(t: Seq<char>) -> Seq<char> {
    seq!['"'] + escape_quotes(t) + seq!['"']
}

/// Pieces joined with single spaces.
pub open spec fn join_with_space(ps: Seq<Seq<char>>) -> Seq<char>
    decreases ps.len(),
{
    if ps.len() == 0 {
        Seq::empty()
    } else if ps.len() == 1 {
        ps[0]
    } else {
        join_with_space(ps.drop_last()) + seq![' '] + ps.last()
    }
}

/// The sanitised form of a query: each whitespace-separated token quoted,
/// the quoted tokens joined by single spaces.
pub open spec fn sanitized_query(q: Seq<char>) -> Seq<char> {
    join_with_space(words(q).map_values(|t: Seq<char>| quote_token(t)))
}

/// Escape each token of a full-text query so that characters such as `-`,
/// `:`, `(`, `)` and `"` are taken literally rather than as query syntax:
/// tokens are split on whitespace, each has its `"` doubled and is wrapped
/// in double quotes, and the results are joined by single spaces.
pub fn sanitize_fts5_query(query: &str) -> (r: String)
    ensures
        r@ == sanitized_query(query@),
{
    let chars = chars_of(query);
    let rs = word_ranges(&chars, 0, chars.len());
    assert(chars@.subrange(0, chars@.len() as int) =~= query@);
    let ghost toks = words(query@);
    let ghost quoted = toks.map_values(|t: Seq<char>| quote_token(t));
    let mut out = String::new();
    let mut k: usize = 0;
    while k < rs.len()
        invariant
            k <= rs.len(),
            pieces_of(chars@, rs@) == toks,
            ranges_within(rs@, 0, chars@.len() as int),
            quoted == toks.map_values(|t: Seq<char>| quote_token(t)),
            out@ == join_with_space(quoted.take(k as int)),
        decreases rs.len() - k,
    {
        let ghost before = out@;
        if k > 0 {
            out.push(' ');
        }
        let ghost base = out@;
        out.push('"');
        let (lo, hi) = rs[k];
        let ghost tok = chars@.subrange(lo as int, hi as int);
        assert(tok == toks[k as int]);
        let mut j = lo;
        assert(chars@.subrange(lo as int, lo as int) =~= Seq::<char>::empty());
        while j < hi
            invariant
                lo <= j <= hi <= chars.len(),
                out@ == base + seq!['"'] + escape_quotes(chars@.subrange(lo as int, j as int)),
            decreases hi - j,
        {
            let c = chars[j];
            let ghost t2 = chars@.subrange(lo as int, j + 1);
            assert(t2.drop_last() =~= chars@.subrange(lo as int, j as int));
            assert(t2.last() == c);
            out.push(c);
            if c == '"' {
                out.push('"');
                assert(out@ =~= base + seq!['"'] + escape_quotes(t2));
            } else {
                assert(out@ =~= base + seq!['"'] + escape_quotes(t2));
            }
            j += 1;
        }
        out.push('"');
        assert(out@ =~= base + quote_token(tok));
        let ghost q2 = quoted.take(k + 1);
        assert(q2.drop_last() =~= quoted.take(k as int));
        assert(q2.last() == quote_token(tok));
        if k == 0 {
            assert(q2.len() == 1);
            assert(out@ =~= q2[0]);
        } else {
            assert(out@ =~= join_with_space(q2));
        }
        k += 1;
    }
    assert(quoted.take(rs.len() as int) =~= quoted);
    out
}

} // verus!
