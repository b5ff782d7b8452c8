//! Chinese-aware word segmentation for full-text indexing: jieba cuts the
//! text into words, and the non-blank words are joined by single spaces so
//! that the FTS5 `unicode61` tokenizer sees one term per word. Documents are
//! segmented when indexed and queries when searched.
use vstd::prelude::*;
use vstd::string::*;
use jieba_rs::Jieba;
use crate::split::nonblank_only;
use crate::text::{chars_of, is_blank_range, string_views};
use crate::traits::WordSegmenter;

verus! {

/// `jieba_rs::Jieba`, carried through unchanged.
#[verifier::external_type_specification]
#[verifier::external_body]
pub struct ExJieba(Jieba);

/// The words that `Jieba::cut(text, true)` (HMM on for unknown words) gives
/// on a `Jieba` built by `Jieba::new()`, with the embedded default
/// dictionary.
pub uninterp spec fn jieba_words(text: Seq<char>) -> Seq<Seq<char>>;

/// Calls `Jieba::new()`: a segmenter loaded with the embedded default
/// dictionary. Nothing is claimed of the value; `jieba_cut` states what
/// cutting with it gives.
#[verifier::external_body]
fn default_jieba() -> Jieba {
    Jieba::new()
}

/// Calls `Jieba::cut(text, true)` on the segmenter's `Jieba` (always one
/// made by `default_jieba`) and takes each token's word as a `String`.
/// Trusted to give the words that `jieba_words` names, in order.
#[verifier::external_body]
fn jieba_cut(segmenter: &JiebaSegmenter, text: &str) -> (ws: Vec<String>)
    ensures
        string_views(ws@) == jieba_words(text@),
{
    segmenter.jieba.cut(text, true).into_iter().map(|t| t.word.to_string()).collect()
}

/// Words joined by single spaces.
pub open spec fn joined_by_spaces(ws: Seq<Seq<char>>) -> Seq<char>
    decreases ws.len(),
{
    if ws.len() == 0 {
        Seq::empty()
    } else if ws.len() == 1 {
        ws[0]
    } else {
        joined_by_spaces(ws.drop_last()) + " "@ + ws.last()
    }
}

/// The full-text terms of `words`: the non-blank words, in order, joined by
/// single spaces.
pub open spec fn fts_terms(words: Seq<Seq<char>>) -> Seq<char> {
    joined_by_spaces(nonblank_only(words))
}

/// Join the non-blank `words` by single spaces.
pub fn join_terms(words: &Vec<String>) -> (s: String)
    ensures
        s@ == fts_terms(string_views(words@)),
{
    let ghost ws = string_views(words@);
    let mut s = String::new();
    let mut kept: bool = false;
    let mut i: usize = 0;
    assert(ws.take(0) =~= Seq::<Seq<char>>::empty());
    while i < words.len()
        invariant
            i <= words@.len(),
            ws == string_views(words@),
            s@ == joined_by_spaces(nonblank_only(ws.take(i as int))),
            kept == (nonblank_only(ws.take(i as int)).len() > 0),
        decreases words@.len() - i,
    {
        let ghost before = nonblank_only(ws.take(i as int));
        let ghost t = ws.take(i + 1);
        assert(t.drop_last() =~= ws.take(i as int));
        assert(t.last() == words@[i as int]@);
        let v = chars_of(words[i].as_str());
        assert(v@.subrange(0, v@.len() as int) =~= v@);
        let blank = is_blank_range(&v, 0, v.len());
        if !blank {
            let ghost after = before.push(words@[i as int]@);
            assert(nonblank_only(t) == after);
            assert(after.drop_last() =~= before);
            if kept {
                s.append(" ");
            } else {
                assert(after =~= seq![words@[i as int]@]);
            }
            s.append(words[i].as_str());
            kept = true;
        }
        i += 1;
    }
    assert(ws.take(words@.len() as int) =~= ws);
    s
}

/// Segments text with jieba (default dictionary, HMM on) into
/// space-separated terms.
pub struct JiebaSegmenter {
    jieba: Jieba,
}

impl JiebaSegmenter {
    /// A segmenter with jieba's default dictionary.
    pub fn new() -> (s: JiebaSegmenter) {
        JiebaSegmenter { jieba: default_jieba() }
    }

    /// The full-text terms of `text`: its jieba words that are not blank,
    /// joined by single spaces.
    pub fn segment_text(&self, text: &str) -> (s: String)
        ensures
            s@ == fts_terms(jieba_words(text@)),
    {
        let words = jieba_cut(self, text);
        join_terms(&words)
    }
}

impl WordSegmenter for JiebaSegmenter {
    fn segment(&self, text: &str) -> (s: String)
        ensures
            s@ == fts_terms(jieba_words(text@)),
    {
        self.segment_text(text)
    }
}

/// The full-text terms of `text` under a fresh default-dictionary jieba
/// segmenter (see `JiebaSegmenter::segment_text`).
pub fn jieba_tokenize(text: &str) -> (s: String)
    ensures
        s@ == fts_terms(jieba_words(text@)),
{
    let segmenter = JiebaSegmenter::new();
    segmenter.segment_text(text)
}

/// `w` holds no space character.
pub open spec fn no_space(w: Seq<char>) -> bool {
    forall|q: int| 0 <= q < w.len() ==> w[q] != ' '
}

/// The pieces of `s` between single spaces, as `str::split(' ')` gives
/// them (an empty text is one empty piece).
pub open spec fn split_spaces(s: Seq<char>) -> Seq<Seq<char>>
    decreases s.len(),
{
    if s.len() == 0 {
        seq![Seq::<char>::empty()]
    } else {
        let ps = split_spaces(s.drop_last());
        if s.last() == ' ' {
            ps.push(Seq::<char>::empty())
        } else {
            ps.update(ps.len() - 1, ps.last().push(s.last()))
        }
    }
}

proof fn lemma_split_spaces_len(s: Seq<char>)
    ensures
        split_spaces(s).len() >= 1,
    decreases s.len(),
{
    if s.len() > 0 {
        lemma_split_spaces_len(s.drop_last());
    }
}

proof fn lemma_split_word(w: Seq<char>)
    requires
        no_space(w),
    ensures
        split_spaces(w) == seq![w],
    decreases w.len(),
{
    if w.len() == 0 {
        assert(w =~= Seq::<char>::empty());
    } else {
        let d = w.drop_last();
        assert(no_space(d));
        lemma_split_word(d);
        assert(w.last() == w[w.len() - 1]);
        assert(w.last() != ' ');
        assert(d.push(w.last()) =~= w);
        assert(seq![d].update(0, d.push(w.last())) =~= seq![w]);
    }
}

proof fn lemma_split_after_space(a: Seq<char>, w: Seq<char>)
    requires
        no_space(w),
    ensures
        split_spaces(a + seq![' '] + w) == split_spaces(a).push(w),
    decreases w.len(),
{
    lemma_split_spaces_len(a);
    if w.len() == 0 {
        let x = a + seq![' '] + w;
        assert(x.len() == a.len() + 1);
        assert(x.drop_last() =~= a);
        assert(x.last() == ' ');
        assert(w =~= Seq::<char>::empty());
    } else {
        let d = w.drop_last();
        assert(no_space(d));
        lemma_split_after_space(a, d);
        let x = a + seq![' '] + w;
        assert(x.drop_last() =~= a + seq![' '] + d);
        assert(x.len() == a.len() + 1 + w.len());
        assert(x.last() == w[w.len() - 1]);
        assert(w.last() != ' ');
        assert(d.push(w.last()) =~= w);
        let ps = split_spaces(a).push(d);
        assert(ps.update(ps.len() - 1, d.push(w.last())) =~= split_spaces(a).push(w));
    }
}

proof fn lemma_split_joined(ws: Seq<Seq<char>>)
    requires
        ws.len() > 0,
        forall|i: int| 0 <= i < ws.len() ==> no_space(#[trigger] ws[i]),
    ensures
        split_spaces(joined_by_spaces(ws)) == ws,
    decreases ws.len(),
{
    if ws.len() == 1 {
        lemma_split_word(ws[0]);
        assert(seq![ws[0]] =~= ws);
    } else {
        let d = ws.drop_last();
        assert forall|i: int| 0 <= i < d.len() implies no_space(#[trigger] d[i]) by {
            assert(d[i] == ws[i]);
        }
        lemma_split_joined(d);
        assert(no_space(ws[ws.len() - 1]));
        lemma_split_after_space(joined_by_spaces(d), ws.last());
        reveal_strlit(" ");
        assert(joined_by_spaces(d) + " "@ + ws.last() =~= joined_by_spaces(d) + seq![' '] + ws.last());
        assert(d.push(ws.last()) =~= ws);
    }
}

proof fn lemma_nonblank_only_keeps(ws: Seq<Seq<char>>)
    requires
        forall|i: int| 0 <= i < ws.len() ==> no_space(#[trigger] ws[i]),
    ensures
        forall|i: int| 0 <= i < nonblank_only(ws).len() ==> no_space(#[trigger] nonblank_only(ws)[i]),
    decreases ws.len(),
{
    if ws.len() > 0 {
        let d = ws.drop_last();
        assert forall|i: int| 0 <= i < d.len() implies no_space(#[trigger] d[i]) by {
            assert(d[i] == ws[i]);
        }
        lemma_nonblank_only_keeps(d);
        let r = nonblank_only(d);
        assert(no_space(ws[ws.len() - 1]));
        assert forall|i: int| 0 <= i < nonblank_only(ws).len() implies no_space(
            #[trigger] nonblank_only(ws)[i],
        ) by {
            if i < r.len() {
                assert(nonblank_only(ws)[i] == r[i]);
            }
        }
    }
}

/// Segmenting keeps every non-blank word, in order, repeats included:
/// when no word holds a space, splitting the terms at single spaces gives
/// back exactly the non-blank words (so there are as many terms as
/// non-blank words), and no non-blank word gives no text at all.
pub proof fn lemma_terms_split_back(words: Seq<Seq<char>>)
    requires
        forall|i: int| 0 <= i < words.len() ==> no_space(#[trigger] words[i]),
    ensures
        nonblank_only(words).len() > 0 ==> split_spaces(fts_terms(words)) == nonblank_only(words),
        nonblank_only(words).len() == 0 ==> fts_terms(words).len() == 0,
{
    lemma_nonblank_only_keeps(words);
    if nonblank_only(words).len() > 0 {
        lemma_split_joined(nonblank_only(words));
    }
}

} // verus!
