//! Splitting text into paragraphs, sentences and whitespace-separated words.
//!
//! Each splitter is specified by a left-to-right scan (`*_pieces`) that
//! extends the last piece by one character at a time and starts a new piece
//! at a cut; the executable versions return the pieces as `[start, end)`
//! character ranges into the scanned vector.
use vstd::prelude::*;
use crate::text::{is_blank, is_blank_range, is_whitespace_char, is_ws};

verus! {

/// The pieces a list of ranges denotes in `v`.
pub open spec fn pieces_of(v: Seq<char>, rs: Seq<(usize, usize)>) -> Seq<Seq<char>> {
    rs.map_values(|r: (usize, usize)| v.subrange(r.0 as int, r.1 as int))
}

/// Every range lies inside `[lo, hi]` and is well ordered.
pub open spec fn ranges_within(rs: Seq<(usize, usize)>, lo: int, hi: int) -> bool {
    forall|k: int| 0 <= k < rs.len() ==> lo <= (#[trigger] rs[k]).0 <= rs[k].1 <= hi
}

/// The ranges come in order, each ending no later than the next begins.
pub open spec fn ranges_sorted(rs: Seq<(usize, usize)>) -> bool {
    forall|k: int, l: int| 0 <= k < l < rs.len() ==> (#[trigger] rs[k]).1 <= (#[trigger] rs[l]).0
}

/// Keep the non-empty pieces, in order.
pub open spec fn nonempty_only(ps: Seq<Seq<char>>) -> Seq<Seq<char>>
    decreases ps.len(),
{
    if ps.len() == 0 {
        Seq::empty()
    } else {
        let r = nonempty_only(ps.drop_last());
        if ps.last().len() == 0 {
            r
        } else {
            r.push(ps.last())
        }
    }
}

/// Keep the pieces that are not blank, in order.
pub open spec fn nonblank_only(ps: Seq<Seq<char>>) -> Seq<Seq<char>>
    decreases ps.len(),
{
    if ps.len() == 0 {
        Seq::empty()
    } else {
        let r = nonblank_only(ps.drop_last());
        if is_blank(ps.last()) {
            r
        } else {
            r.push(ps.last())
        }
    }
}

// ---------------------------------------------------------------------------
// Whitespace-separated words (`str::split_whitespace`).
/// Cut at every whitespace character, dropping it.
pub open spec fn ws_pieces(s: Seq<char>) -> Seq<Seq<char>>
    decreases s.len(),
{
    if s.len() == 0 {
        seq![Seq::empty()]
    } else {
        let ps = ws_pieces(s.drop_last());
        if is_ws(s.last()) {
            ps.push(Seq::empty())
        } else {
            ps.update(ps.len() - 1, ps.last().push(s.last()))
        }
    }
}

/// The words of `s`: maximal runs of non-whitespace characters.
pub open spec fn words(s: Seq<char>) -> Seq<Seq<char>> {
    nonempty_only(ws_pieces(s))
}

pub proof fn lemma_ws_pieces_nonempty(s: Seq<char>)
    ensures
        ws_pieces(s).len() >= 1,
    decreases s.len(),
{
    if s.len() > 0 {
        lemma_ws_pieces_nonempty(s.drop_last());
    }
}

/// The words of `v[lo..hi]`, as ranges into `v`.
pub fn word_ranges(v: &Vec<char>, lo: usize, hi: usize) -> (rs: Vec<(usize, usize)>)
    requires
        lo <= hi <= v.len(),
    ensures
        pieces_of(v@, rs@) == words(v@.subrange(lo as int, hi as int)),
        ranges_within(rs@, lo as int, hi as int),
        ranges_sorted(rs@),
{
    let mut rs: Vec<(usize, usize)> = Vec::new();
    let mut start = lo;
    let mut i = lo;
    assert(v@.subrange(lo as int, lo as int) =~= Seq::<char>::empty());
    while i < hi
        invariant
            lo <= start <= i <= hi <= v.len(),
            ws_pieces(v@.subrange(lo as int, i as int)).len() >= 1,
            ws_pieces(v@.subrange(lo as int, i as int)).last() == v@.subrange(
                start as int,
                i as int,
            ),
            nonempty_only(ws_pieces(v@.subrange(lo as int, i as int)).drop_last()) == pieces_of(
                v@,
                rs@,
            ),
            ranges_within(rs@, lo as int, start as int),
            ranges_sorted(rs@),
        decreases hi - i,
    {
        let ghost s = v@.subrange(lo as int, i as int);
        let ghost s2 = v@.subrange(lo as int, i + 1);
        assert(s2.drop_last() =~= s);
        assert(s2.last() == v@[i as int]);
        let ghost ps = ws_pieces(s);
        if is_whitespace_char(v[i]) {
            assert(ws_pieces(s2) == ps.push(Seq::empty()));
            assert(ws_pieces(s2).drop_last() =~= ps);
            assert(ps =~= ps.drop_last().push(ps.last()));
            if start < i {
                let ghost old_rs = rs@;
                rs.push((start, i));
                assert(pieces_of(v@, rs@) =~= pieces_of(v@, old_rs).push(
                    v@.subrange(start as int, i as int),
                )) by {
                    assert(pieces_of(v@, rs@).len() == pieces_of(v@, old_rs).len() + 1);
                }
            }
            start = i + 1;
            assert(v@.subrange(start as int, i + 1) =~= Seq::<char>::empty());
        } else {
            assert(ws_pieces(s2) == ps.update(ps.len() - 1, ps.last().push(v@[i as int])));
            assert(ws_pieces(s2).drop_last() =~= ps.drop_last());
            assert(v@.subrange(start as int, i + 1) =~= v@.subrange(start as int, i as int).push(
                v@[i as int],
            ));
        }
        i += 1;
    }
    let ghost s = v@.subrange(lo as int, hi as int);
    let ghost ps = ws_pieces(s);
    assert(ps =~= ps.drop_last().push(ps.last()));
    if start < hi {
        let ghost old_rs = rs@;
        rs.push((start, hi));
        assert(pieces_of(v@, rs@) =~= pieces_of(v@, old_rs).push(
            v@.subrange(start as int, hi as int),
        )) by {
            assert(pieces_of(v@, rs@).len() == pieces_of(v@, old_rs).len() + 1);
        }
    }
    rs
}


// ---------------------------------------------------------------------------
// Sentences: cut after `.`, `!`, `?` and their full-width forms.
/// Sentence-ending punctuation.
pub open spec fn is_terminator(c: char) -> bool {
    c == '.' || c == '!' || c == '?' || c == '\u{3002}' || c == '\u{FF01}' || c == '\u{FF1F}'
}

/// Whether `c` ends a sentence.
pub fn is_terminator_char(c: char) -> (b: bool)
    ensures
        b == is_terminator(c),
{
    c == '.' || c == '!' || c == '?' || c == '\u{3002}' || c == '\u{FF01}' || c == '\u{FF1F}'
}

/// Cut after every terminator, keeping the terminator in the piece it ends.
pub open spec fn sentence_pieces(s: Seq<char>) -> Seq<Seq<char>>
    decreases s.len(),
{
    if s.len() == 0 {
        seq![Seq::empty()]
    } else {
        let ps = sentence_pieces(s.drop_last());
        let ps2 = ps.update(ps.len() - 1, ps.last().push(s.last()));
        if is_terminator(s.last()) {
            ps2.push(Seq::empty())
        } else {
            ps2
        }
    }
}

/// The sentences of a paragraph: its non-blank pieces; a non-blank paragraph
/// without any non-blank piece is kept whole.
pub open spec fn sentences(p: Seq<char>) -> Seq<Seq<char>> {
    let r = nonblank_only(sentence_pieces(p));
    if r.len() == 0 && !is_blank(p) {
        seq![p]
    } else {
        r
    }
}

pub proof fn lemma_sentence_pieces_nonempty(s: Seq<char>)
    ensures
        sentence_pieces(s).len() >= 1,
    decreases s.len(),
{
    if s.len() > 0 {
        lemma_sentence_pieces_nonempty(s.drop_last());
    }
}

/// The sentences of `v[lo..hi]`, as ranges into `v`.
pub fn sentence_ranges(v: &Vec<char>, lo: usize, hi: usize) -> (rs: Vec<(usize, usize)>)
    requires
        lo <= hi <= v.len(),
    ensures
        pieces_of(v@, rs@) == sentences(v@.subrange(lo as int, hi as int)),
        ranges_within(rs@, lo as int, hi as int),
        ranges_sorted(rs@),
{
    let mut rs: Vec<(usize, usize)> = Vec::new();
    let mut start = lo;
    let mut i = lo;
    assert(v@.subrange(lo as int, lo as int) =~= Seq::<char>::empty());
    while i < hi
        invariant
            lo <= start <= i <= hi <= v.len(),
            sentence_pieces(v@.subrange(lo as int, i as int)).len() >= 1,
            sentence_pieces(v@.subrange(lo as int, i as int)).last() == v@.subrange(
                start as int,
                i as int,
            ),
            nonblank_only(sentence_pieces(v@.subrange(lo as int, i as int)).drop_last())
                == pieces_of(v@, rs@),
            ranges_within(rs@, lo as int, start as int),
            ranges_sorted(rs@),
        decreases hi - i,
    {
        let ghost s = v@.subrange(lo as int, i as int);
        let ghost s2 = v@.subrange(lo as int, i + 1);
        assert(s2.drop_last() =~= s);
        assert(s2.last() == v@[i as int]);
        let ghost ps = sentence_pieces(s);
        let ghost ps2 = ps.update(ps.len() - 1, ps.last().push(v@[i as int]));
        assert(v@.subrange(start as int, i + 1) =~= v@.subrange(start as int, i as int).push(
            v@[i as int],
        ));
        if is_terminator_char(v[i]) {
            assert(sentence_pieces(s2) == ps2.push(Seq::empty()));
            assert(sentence_pieces(s2).drop_last() =~= ps2);
            assert(ps2 =~= ps2.drop_last().push(ps2.last()));
            assert(ps2.drop_last() =~= ps.drop_last());
            let blank = is_blank_range(v, start, i + 1);
            if !blank {
                let ghost old_rs = rs@;
                rs.push((start, i + 1));
                assert(pieces_of(v@, rs@) =~= pieces_of(v@, old_rs).push(
                    v@.subrange(start as int, i + 1),
                )) by {
                    assert(pieces_of(v@, rs@).len() == pieces_of(v@, old_rs).len() + 1);
                }
            }
            start = i + 1;
            assert(v@.subrange(start as int, i + 1) =~= Seq::<char>::empty());
        } else {
            assert(sentence_pieces(s2) == ps2);
            assert(sentence_pieces(s2).drop_last() =~= ps.drop_last());
        }
        i += 1;
    }
    let ghost s = v@.subrange(lo as int, hi as int);
    let ghost ps = sentence_pieces(s);
    assert(ps =~= ps.drop_last().push(ps.last()));
    let blank_tail = is_blank_range(v, start, hi);
    if !blank_tail {
        let ghost old_rs = rs@;
        rs.push((start, hi));
        assert(pieces_of(v@, rs@) =~= pieces_of(v@, old_rs).push(
            v@.subrange(start as int, hi as int),
        )) by {
            assert(pieces_of(v@, rs@).len() == pieces_of(v@, old_rs).len() + 1);
        }
    }
    if rs.len() == 0 {
        let whole_blank = is_blank_range(v, lo, hi);
        if !whole_blank {
            rs.push((lo, hi));
            assert(pieces_of(v@, rs@) =~= seq![s]);
        }
    }
    rs
}

// ---------------------------------------------------------------------------
// Paragraphs: cut at every (leftmost, non-overlapping) `"\n\n\n"`.
/// Whether `s` ends with three newlines.
pub open spec fn ends_with_separator(s: Seq<char>) -> bool {
    s.len() >= 3 && s[s.len() - 3] == '\n' && s[s.len() - 2] == '\n' && s[s.len() - 1] == '\n'
}

/// Cut at each `"\n\n\n"` found scanning left to right; the separator is dropped.
pub open spec fn paragraph_pieces(s: Seq<char>) -> Seq<Seq<char>>
    decreases s.len(),
{
    if s.len() == 0 {
        seq![Seq::empty()]
    } else {
        let ps = paragraph_pieces(s.drop_last());
        let cur = ps.last().push(s.last());
        if ends_with_separator(cur) {
            ps.update(ps.len() - 1, cur.take(cur.len() - 3)).push(Seq::empty())
        } else {
            ps.update(ps.len() - 1, cur)
        }
    }
}

/// The paragraphs of a text: its non-blank pieces.
pub open spec fn paragraphs(s: Seq<char>) -> Seq<Seq<char>> {
    nonblank_only(paragraph_pieces(s))
}

/// The paragraphs of `v[lo..hi]`, as ranges into `v`.
pub fn paragraph_ranges(v: &Vec<char>, lo: usize, hi: usize) -> (rs: Vec<(usize, usize)>)
    requires
        lo <= hi <= v.len(),
    ensures
        pieces_of(v@, rs@) == paragraphs(v@.subrange(lo as int, hi as int)),
        ranges_within(rs@, lo as int, hi as int),
        ranges_sorted(rs@),
{
    let mut rs: Vec<(usize, usize)> = Vec::new();
    let mut start = lo;
    let mut i = lo;
    assert(v@.subrange(lo as int, lo as int) =~= Seq::<char>::empty());
    while i < hi
        invariant
            lo <= start <= i <= hi <= v.len(),
            paragraph_pieces(v@.subrange(lo as int, i as int)).len() >= 1,
            paragraph_pieces(v@.subrange(lo as int, i as int)).last() == v@.subrange(
                start as int,
                i as int,
            ),
            nonblank_only(paragraph_pieces(v@.subrange(lo as int, i as int)).drop_last())
                == pieces_of(v@, rs@),
            ranges_within(rs@, lo as int, start as int),
            ranges_sorted(rs@),
        decreases hi - i,
    {
        let ghost s = v@.subrange(lo as int, i as int);
        let ghost s2 = v@.subrange(lo as int, i + 1);
        assert(s2.drop_last() =~= s);
        assert(s2.last() == v@[i as int]);
        let ghost ps = paragraph_pieces(s);
        let ghost cur = ps.last().push(v@[i as int]);
        assert(v@.subrange(start as int, i + 1) =~= cur);
        let sep = i + 1 - start >= 3 && v[i - 2] == '\n' && v[i - 1] == '\n' && v[i] == '\n';
        assert(sep == ends_with_separator(cur)) by {
            if i + 1 - start >= 3 {
                assert(cur[cur.len() - 3] == v@[i - 2]);
                assert(cur[cur.len() - 2] == v@[i - 1]);
            }
        }
        if sep {
            let ghost ps2 = ps.update(ps.len() - 1, cur.take(cur.len() - 3));
            assert(paragraph_pieces(s2) == ps2.push(Seq::empty()));
            assert(paragraph_pieces(s2).drop_last() =~= ps2);
            assert(ps2 =~= ps2.drop_last().push(ps2.last()));
            assert(ps2.drop_last() =~= ps.drop_last());
            assert(cur.take(cur.len() - 3) =~= v@.subrange(start as int, i - 2));
            let blank = is_blank_range(v, start, i - 2);
            if !blank {
                let ghost old_rs = rs@;
                rs.push((start, i - 2));
                assert(pieces_of(v@, rs@) =~= pieces_of(v@, old_rs).push(
                    v@.subrange(start as int, i - 2),
                )) by {
                    assert(pieces_of(v@, rs@).len() == pieces_of(v@, old_rs).len() + 1);
                }
            }
            start = i + 1;
            assert(v@.subrange(start as int, i + 1) =~= Seq::<char>::empty());
        } else {
            assert(paragraph_pieces(s2) == ps.update(ps.len() - 1, cur));
            assert(paragraph_pieces(s2).drop_last() =~= ps.drop_last());
        }
        i += 1;
    }
    let ghost s = v@.subrange(lo as int, hi as int);
    let ghost ps = paragraph_pieces(s);
    assert(ps =~= ps.drop_last().push(ps.last()));
    let blank_tail = is_blank_range(v, start, hi);
    if !blank_tail {
        let ghost old_rs = rs@;
        rs.push((start, hi));
        assert(pieces_of(v@, rs@) =~= pieces_of(v@, old_rs).push(
            v@.subrange(start as int, hi as int),
        )) by {
            assert(pieces_of(v@, rs@).len() == pieces_of(v@, old_rs).len() + 1);
        }
    }
    rs
}


// ---------------------------------------------------------------------------
// Non-blank texts keep some content through splitting.

pub proof fn lemma_paragraph_pieces_nonempty(s: Seq<char>)
    ensures
        paragraph_pieces(s).len() >= 1,
    decreases s.len(),
{
    if s.len() > 0 {
        lemma_paragraph_pieces_nonempty(s.drop_last());
    }
}

/// A text with a non-whitespace character has a non-empty whitespace piece.
pub proof fn lemma_ws_pieces_keep_content(s: Seq<char>)
    requires
        !is_blank(s),
    ensures
        exists|i: int| 0 <= i < ws_pieces(s).len() && (#[trigger] ws_pieces(s)[i]).len() > 0,
    decreases s.len(),
{
    let t = s.drop_last();
    let ps = ws_pieces(t);
    lemma_ws_pieces_nonempty(t);
    if is_ws(s.last()) {
        let j = choose|j: int| 0 <= j < s.len() && !is_ws(#[trigger] s[j]);
        assert(j < s.len() - 1);
        assert(t[j] == s[j]);
        lemma_ws_pieces_keep_content(t);
        let i = choose|i: int| 0 <= i < ps.len() && (#[trigger] ps[i]).len() > 0;
        assert(ws_pieces(s)[i] == ps[i]);
    } else {
        let r = ws_pieces(s);
        assert(r[r.len() - 1] == ps.last().push(s.last()));
    }
}

/// A text with a non-whitespace character has a non-blank paragraph piece.
pub proof fn lemma_paragraph_pieces_keep_content(s: Seq<char>)
    requires
        !is_blank(s),
    ensures
        exists|i: int| 0 <= i < paragraph_pieces(s).len() && !is_blank(#[trigger] paragraph_pieces(s)[i]),
    decreases s.len(),
{
    let t = s.drop_last();
    let ps = paragraph_pieces(t);
    lemma_paragraph_pieces_nonempty(t);
    let r = paragraph_pieces(s);
    let cur = ps.last().push(s.last());
    if !is_ws(s.last()) {
        assert(!ends_with_separator(cur));
        assert(r[r.len() - 1] == cur);
        assert(cur[cur.len() - 1] == s.last());
    } else {
        let j = choose|j: int| 0 <= j < s.len() && !is_ws(#[trigger] s[j]);
        assert(j < s.len() - 1);
        assert(t[j] == s[j]);
        lemma_paragraph_pieces_keep_content(t);
        let i = choose|i: int| 0 <= i < ps.len() && !is_blank(#[trigger] ps[i]);
        let k = choose|k: int| 0 <= k < ps[i].len() && !is_ws(#[trigger] ps[i][k]);
        if i < ps.len() - 1 {
            assert(r[i] == ps[i]);
        } else if ends_with_separator(cur) {
            let p = cur.take(cur.len() - 3);
            assert(r[i] == p);
            assert(cur[k] == ps[i][k]);
            assert(k < cur.len() - 3);
            assert(p[k] == ps[i][k]);
        } else {
            assert(r[i] == cur);
            assert(cur[k] == ps[i][k]);
        }
    }
}

/// Keeping the non-blank pieces keeps at least one when there is one, and
/// keeps nothing blank.
pub proof fn lemma_nonblank_only_content(ps: Seq<Seq<char>>)
    ensures
        (exists|i: int| 0 <= i < ps.len() && !is_blank(#[trigger] ps[i])) ==> nonblank_only(ps).len() > 0,
        forall|i: int| 0 <= i < nonblank_only(ps).len() ==> !is_blank(#[trigger] nonblank_only(ps)[i]),
    decreases ps.len(),
{
    if ps.len() > 0 {
        let t = ps.drop_last();
        lemma_nonblank_only_content(t);
        let r = nonblank_only(ps);
        let rt = nonblank_only(t);
        assert forall|i: int| 0 <= i < r.len() implies !is_blank(#[trigger] r[i]) by {
            if i < rt.len() {
                assert(r[i] == rt[i]);
            }
        }
        if exists|i: int| 0 <= i < ps.len() && !is_blank(#[trigger] ps[i]) {
            let i = choose|i: int| 0 <= i < ps.len() && !is_blank(#[trigger] ps[i]);
            if i < ps.len() - 1 {
                assert(t[i] == ps[i]);
            }
        }
    }
}

/// Keeping the non-empty pieces keeps at least one when there is one, and
/// keeps nothing empty.
pub proof fn lemma_nonempty_only_content(ps: Seq<Seq<char>>)
    ensures
        (exists|i: int| 0 <= i < ps.len() && (#[trigger] ps[i]).len() > 0) ==> nonempty_only(ps).len() > 0,
        forall|i: int| 0 <= i < nonempty_only(ps).len() ==> (#[trigger] nonempty_only(ps)[i]).len() > 0,
    decreases ps.len(),
{
    if ps.len() > 0 {
        let t = ps.drop_last();
        lemma_nonempty_only_content(t);
        let r = nonempty_only(ps);
        let rt = nonempty_only(t);
        assert forall|i: int| 0 <= i < r.len() implies (#[trigger] r[i]).len() > 0 by {
            if i < rt.len() {
                assert(r[i] == rt[i]);
            }
        }
        if exists|i: int| 0 <= i < ps.len() && (#[trigger] ps[i]).len() > 0 {
            let i = choose|i: int| 0 <= i < ps.len() && (#[trigger] ps[i]).len() > 0;
            if i < ps.len() - 1 {
                assert(t[i] == ps[i]);
            }
        }
    }
}

/// A non-blank text has a paragraph, and every paragraph is non-blank.
pub proof fn lemma_paragraphs_content(s: Seq<char>)
    ensures
        !is_blank(s) ==> paragraphs(s).len() > 0,
        forall|i: int| 0 <= i < paragraphs(s).len() ==> !is_blank(#[trigger] paragraphs(s)[i]),
{
    lemma_nonblank_only_content(paragraph_pieces(s));
    if !is_blank(s) {
        lemma_paragraph_pieces_keep_content(s);
    }
}

/// A non-blank paragraph has a sentence, and every sentence is non-blank.
pub proof fn lemma_sentences_content(p: Seq<char>)
    ensures
        !is_blank(p) ==> sentences(p).len() > 0,
        forall|i: int| 0 <= i < sentences(p).len() ==> !is_blank(#[trigger] sentences(p)[i]),
{
    lemma_nonblank_only_content(sentence_pieces(p));
}

/// A non-blank sentence has a word, and every word is non-empty.
pub proof fn lemma_words_content(s: Seq<char>)
    ensures
        !is_blank(s) ==> words(s).len() > 0,
        forall|i: int| 0 <= i < words(s).len() ==> (#[trigger] words(s)[i]).len() > 0,
{
    lemma_nonempty_only_content(ws_pieces(s));
    if !is_blank(s) {
        lemma_ws_pieces_keep_content(s);
    }
}

} // verus!
