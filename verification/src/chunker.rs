//! Sentence-aware chunking (paragraph → sentence → word → character), with
//! chunk sizes measured in tokens of the embedding model's tokenizer.
use vstd::prelude::*;
use vstd::string::*;
use vstd::utf8::encode_utf8;
use tokenizers::Tokenizer;
use crate::merge::{
    byte_offsets, candidate_views, lemma_packed_groups, lemma_slice_bytes, pack_groups,
    packed_groups, place_chunks, placed_chunk, placed_chunks, places_ok, text_bytes, token_views,
};
use crate::models::ChunkCandidate;
use crate::split::{
    lemma_paragraphs_content, lemma_sentences_content, lemma_words_content, paragraph_ranges,
    paragraphs, pieces_of, ranges_sorted, ranges_within, sentence_ranges, sentences, word_ranges,
    words,
};
use crate::text::{chars_of, is_blank, is_blank_range, string_of, utf8_len};
use crate::traits::Chunker;

verus! {

/// `tokenizers::Tokenizer`, carried through unchanged.
#[verifier::external_type_specification]
#[verifier::external_body]
pub struct ExTokenizer(Tokenizer);

/// Calls `Tokenizer::encode(text, false)` and returns the number of token
/// ids of the encoding, or `None` when encoding fails. Nothing is claimed of
/// the count: it depends on the tokenizer's vocabulary and rules.
#[verifier::external_body]
fn encoded_token_count(tokenizer: &Tokenizer, text: &str) -> Option<usize> {
    match tokenizer.encode(text, false) {
        Ok(enc) => Some(enc.get_ids().len()),
        Err(_) => None,
    }
}

/// The token count of an encoding, or the character count of `text` when
/// it could not be encoded.
fn count_or_chars(encoded: Option<usize>, text: &str) -> (n: usize)
    ensures
        n == match encoded {
            Some(c) => c as int,
            None => text@.len() as int,
        },
{
    match encoded {
        Some(c) => c,
        None => text.unicode_len(),
    }
}

/// Chunker that packs sentences into chunks of at most `chunk_size` tokens
/// (a sentence too long on its own is split into words, a word too long into
/// characters), consecutive chunks sharing up to `chunk_overlap` tokens.
pub struct SentenceSplitter {
    tokenizer: Tokenizer,
    chunk_size: usize,
    chunk_overlap: usize,
}

// ---------------------------------------------------------------------------
// Units of a text, given token counts.
/// The units of one word: the word itself when its count fits, otherwise
/// one unit of one token per character.
pub open spec fn word_units(w: Seq<char>, wc: int, size: int) -> Seq<(Seq<char>, int)> {
    if wc <= size {
        seq![(w, wc)]
    } else {
        Seq::new(w.len(), |i: int| (seq![w[i]], 1int))
    }
}

/// The units of a list of words with their counts.
pub open spec fn words_units(ws: Seq<Seq<char>>, wcs: Seq<int>, size: int) -> Seq<(Seq<char>, int)>
    decreases ws.len(),
{
    if ws.len() == 0 {
        Seq::empty()
    } else {
        words_units(ws.drop_last(), wcs.take(ws.len() - 1), size) + word_units(
            ws.last(),
            wcs[ws.len() - 1],
            size,
        )
    }
}

/// The units of one sentence: the sentence itself when its count fits,
/// otherwise the units of its words.
pub open spec fn sentence_units(s: Seq<char>, sc: int, wcs: Seq<int>, size: int) -> Seq<
    (Seq<char>, int),
> {
    if sc <= size {
        seq![(s, sc)]
    } else {
        words_units(words(s), wcs, size)
    }
}

/// The units of a list of sentences with their counts.
pub open spec fn text_units(
    sl: Seq<Seq<char>>,
    scs: Seq<int>,
    wcss: Seq<Seq<int>>,
    size: int,
) -> Seq<(Seq<char>, int)>
    decreases sl.len(),
{
    if sl.len() == 0 {
        Seq::empty()
    } else {
        text_units(sl.drop_last(), scs.take(sl.len() - 1), wcss.take(sl.len() - 1), size)
            + sentence_units(sl.last(), scs[sl.len() - 1], wcss[sl.len() - 1], size)
    }
}

/// The sentences of the given paragraphs, in order.
pub open spec fn sentences_of(ps: Seq<Seq<char>>) -> Seq<Seq<char>>
    decreases ps.len(),
{
    if ps.len() == 0 {
        Seq::empty()
    } else {
        sentences_of(ps.drop_last()) + sentences(ps.last())
    }
}

/// The sentences of a text: those of each of its paragraphs.
pub open spec fn text_sentences(t: Seq<char>) -> Seq<Seq<char>> {
    sentences_of(paragraphs(t))
}

/// Counts that fit the sentences: one non-negative count per sentence and,
/// for each sentence whose count exceeds `size`, one per word.
pub open spec fn counts_fit(sl: Seq<Seq<char>>, scs: Seq<int>, wcss: Seq<Seq<int>>, size: int) -> bool {
    &&& scs.len() == sl.len()
    &&& wcss.len() == sl.len()
    &&& forall|i: int| 0 <= i < sl.len() ==> #[trigger] scs[i] >= 0
    &&& forall|i: int|
        0 <= i < sl.len() && #[trigger] scs[i] > size ==> wcss[i].len() == words(sl[i]).len()
    &&& forall|i: int, j: int|
        0 <= i < sl.len() && 0 <= j < wcss[i].len() ==> #[trigger] wcss[i][j] >= 0
}


/// The token counts of units.
pub open spec fn unit_tokens(us: Seq<(Seq<char>, int)>) -> Seq<int> {
    us.map_values(|u: (Seq<char>, int)| u.1)
}

/// `ps` places the units `us` in `t`: each unit is the text at its place,
/// and the places are non-empty and in order.
pub open spec fn units_placed(t: Seq<char>, us: Seq<(Seq<char>, int)>, ps: Seq<(usize, usize)>) -> bool {
    &&& ps.len() == us.len()
    &&& places_ok(ps, t.len() as int)
    &&& forall|i: int|
        0 <= i < us.len() ==> t.subrange((#[trigger] ps[i]).0 as int, ps[i].1 as int) == us[i].0
}

/// The chunks of a text for the given counts, its units placed at `ps`.
pub open spec fn chunks_for_counts(
    t: Seq<char>,
    scs: Seq<int>,
    wcss: Seq<Seq<int>>,
    ps: Seq<(usize, usize)>,
    size: int,
    overlap: int,
) -> Seq<(Seq<char>, int, int)> {
    placed_chunks(
        t,
        ps,
        packed_groups(unit_tokens(text_units(text_sentences(t), scs, wcss, size)), size, overlap),
    )
}

/// A chunk lies in `t`: its text is non-empty and its bytes are those of
/// `t` in its byte range.
pub open spec fn chunk_in_text(t: Seq<char>, c: (Seq<char>, int, int)) -> bool {
    &&& c.0.len() > 0
    &&& 0 <= c.1 < c.2 <= text_bytes(t)
    &&& encode_utf8(c.0) == encode_utf8(t).subrange(c.1, c.2)
}

proof fn lemma_place_push(
    t: Seq<char>,
    us: Seq<(Seq<char>, int)>,
    ps: Seq<(usize, usize)>,
    u: (Seq<char>, int),
    p: (usize, usize),
    lb: int,
)
    requires
        units_placed(t, us, ps),
        forall|k: int| 0 <= k < ps.len() ==> (#[trigger] ps[k]).1 <= lb,
        lb <= p.0 < p.1 <= t.len(),
        t.subrange(p.0 as int, p.1 as int) == u.0,
    ensures
        units_placed(t, us.push(u), ps.push(p)),
        forall|k: int| 0 <= k < ps.push(p).len() ==> (#[trigger] ps.push(p)[k]).1 <= p.1,
        unit_tokens(us.push(u)) == unit_tokens(us).push(u.1),
{
    let ps2 = ps.push(p);
    let us2 = us.push(u);
    assert forall|i: int, j: int| 0 <= i < j < ps2.len() implies (#[trigger] ps2[i]).1 <= (
    #[trigger] ps2[j]).0 by {
        if j < ps.len() {
            assert(ps2[i] == ps[i] && ps2[j] == ps[j]);
        } else {
            assert(ps2[i] == ps[i]);
        }
    }
    assert forall|i: int| 0 <= i < us2.len() implies t.subrange(
        (#[trigger] ps2[i]).0 as int,
        ps2[i].1 as int,
    ) == us2[i].0 by {
        if i < us.len() {
            assert(ps2[i] == ps[i] && us2[i] == us[i]);
        }
    }
    assert forall|k: int| 0 <= k < ps2.len() implies (#[trigger] ps2[k]).1 <= p.1 by {
        if k < ps.len() {
            assert(ps2[k] == ps[k]);
        }
    }
    assert(unit_tokens(us2) =~= unit_tokens(us).push(u.1));
}

// ---------------------------------------------------------------------------
// The splitter.
impl SentenceSplitter {
    /// Chunk size in tokens.
    pub closed spec fn size(&self) -> int {
        self.chunk_size as int
    }

    /// Overlap budget in tokens.
    pub closed spec fn overlap(&self) -> int {
        self.chunk_overlap as int
    }

    /// Both budgets are token counts: non-negative and within `usize`.
    pub proof fn lemma_budgets(&self)
        ensures
            0 <= self.size() <= usize::MAX,
            0 <= self.overlap() <= usize::MAX,
    {
    }

    pub fn new(tokenizer: Tokenizer, chunk_size: usize, chunk_overlap: usize) -> (s: Self)
        ensures
            s.size() == chunk_size,
            s.overlap() == chunk_overlap,
    {
        SentenceSplitter { tokenizer, chunk_size, chunk_overlap }
    }

    /// `n` is a token count this splitter may give for `text`: what its
    /// tokenizer's encoding of `text` gave, or the character count of `text`
    /// when the encoding failed.
    pub closed spec fn counts_as(&self, text: Seq<char>, n: int) -> bool {
        exists|t: &str, e: Option<usize>|
            t@ == text && #[trigger] call_ensures(encoded_token_count, (&self.tokenizer, t), e) && n
                == match e {
                Some(c) => c as int,
                None => text.len() as int,
            }
    }

    /// The counts are ones this splitter gives: one per sentence and, for a
    /// sentence over the chunk size, one per word.
    pub open spec fn counts_given(&self, sl: Seq<Seq<char>>, scs: Seq<int>, wcss: Seq<Seq<int>>) -> bool {
        &&& forall|i: int| 0 <= i < sl.len() ==> #[trigger] self.counts_as(sl[i], scs[i])
        &&& forall|i: int, j: int|
            0 <= i < sl.len() && scs[i] > self.size() && 0 <= j < wcss[i].len() ==> #[trigger] self.counts_as(
                words(sl[i])[j],
                wcss[i][j],
            )
    }

    /// Tokens of `text` under the tokenizer; its character count when the
    /// tokenizer cannot encode it.
    fn token_count(&self, text: &str) -> (n: usize)
        ensures
            self.counts_as(text@, n as int),
    {
        let e = encoded_token_count(&self.tokenizer, text);
        assert(call_ensures(encoded_token_count, (&self.tokenizer, text), e));
        count_or_chars(e, text)
    }
}

impl Chunker for SentenceSplitter {
    /// Split `text` into paragraphs (at `"\n\n\n"`), paragraphs into
    /// sentences, and turn each sentence into units: the sentence when its
    /// token count fits the chunk size, otherwise its words, and a word that
    /// does not fit becomes one single-token unit per character. The units
    /// are then grouped by `pack_groups`, and each chunk is the stretch of
    /// `text` from its first unit to its last, with that stretch's byte
    /// range. The result is `chunks_for_counts` for the token counts the
    /// tokenizer gave; a blank text has no chunks.
    fn chunk(&self, text: &str) -> (chunks: Vec<ChunkCandidate>)
        ensures
            is_blank(text@) ==> chunks@.len() == 0,
            !is_blank(text@) ==> chunks@.len() > 0,
            !is_blank(text@) ==> exists|scs: Seq<int>, wcss: Seq<Seq<int>>, ps: Seq<(usize, usize)>|
                counts_fit(text_sentences(text@), scs, wcss, self.size()) && self.counts_given(
                    text_sentences(text@),
                    scs,
                    wcss,
                ) && units_placed(
                    text@,
                    text_units(text_sentences(text@), scs, wcss, self.size()),
                    ps,
                ) && candidate_views(chunks@) == #[trigger] chunks_for_counts(
                    text@,
                    scs,
                    wcss,
                    ps,
                    self.size(),
                    self.overlap(),
                ),
            forall|i: int|
                0 <= i < chunks@.len() ==> chunk_in_text(text@, (#[trigger] chunks@[i]).view_triple()),
    {
        let chars = chars_of(text);
        let n = chars.len();
        assert(chars@.subrange(0, n as int) =~= text@);
        assert(chars@ =~= text@);
        if is_blank_range(&chars, 0, n) {
            return Vec::new();
        }
        let paras = paragraph_ranges(&chars, 0, n);
        let ghost pv = pieces_of(chars@, paras@);
        // ---- sentences of every paragraph, in order ----
        let mut sents: Vec<(usize, usize)> = Vec::new();
        let ghost mut bnd: int = 0;
        let mut pi: usize = 0;
        assert(pv.take(0) =~= Seq::<Seq<char>>::empty());
        assert(pieces_of(chars@, sents@) =~= Seq::<Seq<char>>::empty());
        while pi < paras.len()
            invariant
                pi <= paras.len(),
                n == chars.len(),
                pv == pieces_of(chars@, paras@),
                ranges_within(paras@, 0, n as int),
                ranges_sorted(paras@),
                ranges_within(sents@, 0, n as int),
                ranges_sorted(sents@),
                forall|k: int| 0 <= k < sents@.len() ==> (#[trigger] sents@[k]).1 <= bnd,
                forall|j: int| pi <= j < paras@.len() ==> bnd <= (#[trigger] paras@[j]).0,
                0 <= bnd <= n,
                pieces_of(chars@, sents@) == sentences_of(pv.take(pi as int)),
            decreases paras.len() - pi,
        {
            let (a, b) = paras[pi];
            assert(pv[pi as int] == chars@.subrange(a as int, b as int));
            let rs = sentence_ranges(&chars, a, b);
            let ghost base = pieces_of(chars@, sents@);
            let ghost mut lb: int = bnd;
            let mut q: usize = 0;
            assert(pieces_of(chars@, rs@).take(0) =~= Seq::<Seq<char>>::empty());
            assert(base + Seq::<Seq<char>>::empty() =~= base);
            while q < rs.len()
                invariant
                    q <= rs.len(),
                    n == chars.len(),
                    ranges_within(rs@, a as int, b as int),
                    ranges_sorted(rs@),
                    a <= b <= n,
                    ranges_within(sents@, 0, n as int),
                    ranges_sorted(sents@),
                    forall|k: int| 0 <= k < sents@.len() ==> (#[trigger] sents@[k]).1 <= lb,
                    forall|j: int| q <= j < rs@.len() ==> lb <= (#[trigger] rs@[j]).0,
                    lb <= b,
                    pieces_of(chars@, sents@) == base + pieces_of(chars@, rs@).take(q as int),
                decreases rs.len() - q,
            {
                let ghost before = sents@;
                let r = rs[q];
                sents.push(r);
                assert(pieces_of(chars@, sents@) =~= pieces_of(chars@, before).push(
                    pieces_of(chars@, rs@)[q as int],
                )) by {
                    assert(pieces_of(chars@, sents@).len() == pieces_of(chars@, before).len()
                        + 1);
                }
                assert(pieces_of(chars@, rs@).take(q + 1) =~= pieces_of(chars@, rs@).take(
                    q as int,
                ).push(pieces_of(chars@, rs@)[q as int]));
                assert forall|k: int, l: int| 0 <= k < l < sents@.len() implies (
                #[trigger] sents@[k]).1 <= (#[trigger] sents@[l]).0 by {
                    if l < before.len() {
                        assert(sents@[k] == before[k] && sents@[l] == before[l]);
                    } else {
                        assert(sents@[k] == before[k]);
                    }
                }
                assert forall|k: int| 0 <= k < sents@.len() implies ((#[trigger] sents@[k]).1
                    <= r.1) by {
                    if k < before.len() {
                        assert(sents@[k] == before[k]);
                    }
                }
                assert forall|j: int| q + 1 <= j < rs@.len() implies r.1 <= (#[trigger] rs@[j]).0 by {
                    assert(rs@[q as int] == r);
                }
                proof {
                    lb = r.1 as int;
                }
                q += 1;
            }
            assert(pieces_of(chars@, rs@).take(rs.len() as int) =~= pieces_of(chars@, rs@));
            assert(pv.take(pi + 1).drop_last() =~= pv.take(pi as int));
            assert forall|j: int| pi + 1 <= j < paras@.len() implies b <= (#[trigger] paras@[j]).0 by {
                assert(paras@[pi as int] == (a, b));
            }
            proof {
                bnd = b as int;
            }
            pi += 1;
        }
        assert(pv.take(paras.len() as int) =~= pv);
        let ghost sl = pieces_of(chars@, sents@);
        assert(sl == text_sentences(text@));
        proof {
            lemma_paragraphs_content(text@);
            lemma_sentences_of_content(paragraphs(text@));
        }
        // ---- units of every sentence, with their places and counts ----
        let mut pos: Vec<(usize, usize)> = Vec::new();
        let mut toks: Vec<usize> = Vec::new();
        let ghost mut uv: Seq<(Seq<char>, int)> = Seq::empty();
        let ghost mut scs: Seq<int> = Seq::empty();
        let ghost mut wcss: Seq<Seq<int>> = Seq::empty();
        let ghost mut lb: int = 0;
        let mut si: usize = 0;
        assert(sl.take(0) =~= Seq::<Seq<char>>::empty());
        assert(token_views(toks@) =~= unit_tokens(uv));
        while si < sents.len()
            invariant
                si <= sents.len(),
                n == chars.len(),
                chars@ == text@,
                sl == pieces_of(chars@, sents@),
                sl == text_sentences(text@),
                forall|i: int| 0 <= i < sl.len() ==> !is_blank(#[trigger] sl[i]),
                ranges_within(sents@, 0, n as int),
                ranges_sorted(sents@),
                uv == text_units(sl.take(si as int), scs, wcss, self.size()),
                counts_fit(sl.take(si as int), scs, wcss, self.size()),
                self.counts_given(sl.take(si as int), scs, wcss),
                units_placed(chars@, uv, pos@),
                token_views(toks@) == unit_tokens(uv),
                forall|k: int| 0 <= k < pos@.len() ==> (#[trigger] pos@[k]).1 <= lb,
                forall|j: int| si <= j < sents@.len() ==> lb <= (#[trigger] sents@[j]).0,
                0 <= lb,
            decreases sents.len() - si,
        {
            let (a, b) = sents[si];
            let ghost sen = chars@.subrange(a as int, b as int);
            assert(sl[si as int] == sen);
            assert(a < b) by {
                if a >= b {
                    assert(sen.len() == 0);
                    assert(is_blank(sen));
                }
            }
            let st = string_of(&chars, a, b);
            let sc = self.token_count(st.as_str());
            let ghost base = uv;
            let ghost sl2 = sl.take(si + 1);
            assert(sl2.drop_last() =~= sl.take(si as int));
            assert(sl2.last() == sen);
            if sc <= self.chunk_size {
                proof {
                    lemma_place_push(chars@, uv, pos@, (sen, sc as int), (a, b), lb);
                }
                pos.push((a, b));
                toks.push(sc);
                proof {
                    uv = base.push((sen, sc as int));
                    lb = b as int;
                    let scs2 = scs.push(sc as int);
                    let wcss2 = wcss.push(Seq::<int>::empty());
                    assert(scs2.take(si as int) =~= scs);
                    assert(wcss2.take(si as int) =~= wcss);
                    assert(text_units(sl2, scs2, wcss2, self.size()) == base + sentence_units(
                        sen,
                        sc as int,
                        Seq::<int>::empty(),
                        self.size(),
                    ));
                    assert(base + seq![(sen, sc as int)] =~= base.push((sen, sc as int)));
                    assert forall|i: int|
                        0 <= i < sl2.len() && #[trigger] scs2[i] > self.size() implies wcss2[i].len()
                        == words(sl2[i]).len() by {
                        assert(sl2[i] == sl.take(si as int)[i] || i == si);
                    }
                    assert(st@ == sen);
                    lemma_counts_given_push(self, sl.take(si as int), scs, wcss, sen, sc as int, Seq::<int>::empty());
                    assert(sl.take(si as int).push(sen) =~= sl2);
                    scs = scs2;
                    wcss = wcss2;
                }
            } else {
                let wr = word_ranges(&chars, a, b);
                let ghost wv = pieces_of(chars@, wr@);
                proof {
                    lemma_words_content(sen);
                }
                let ghost mut wcs: Seq<int> = Seq::empty();
                let mut wi: usize = 0;
                assert(wv.take(0) =~= Seq::<Seq<char>>::empty());
                assert(base + Seq::<(Seq<char>, int)>::empty() =~= base);
                while wi < wr.len()
                    invariant
                        wi <= wr.len(),
                        n == chars.len(),
                        a < b <= n,
                        wv == pieces_of(chars@, wr@),
                        wv == words(sen),
                        sen == chars@.subrange(a as int, b as int),
                        forall|i: int| 0 <= i < wv.len() ==> (#[trigger] wv[i]).len() > 0,
                        ranges_within(wr@, a as int, b as int),
                        ranges_sorted(wr@),
                        wcs.len() == wi,
                        forall|j: int| 0 <= j < wi ==> #[trigger] wcs[j] >= 0,
                        forall|j: int| 0 <= j < wi ==> #[trigger] self.counts_as(wv[j], wcs[j]),
                        uv == base + words_units(wv.take(wi as int), wcs, self.size()),
                        units_placed(chars@, uv, pos@),
                        token_views(toks@) == unit_tokens(uv),
                        forall|k: int| 0 <= k < pos@.len() ==> (#[trigger] pos@[k]).1 <= lb,
                        forall|j: int| wi <= j < wr@.len() ==> lb <= (#[trigger] wr@[j]).0,
                        lb <= b,
                    decreases wr.len() - wi,
                {
                    let (c, d) = wr[wi];
                    let ghost w = chars@.subrange(c as int, d as int);
                    assert(wv[wi as int] == w);
                    let wt = string_of(&chars, c, d);
                    let wc = self.token_count(wt.as_str());
                    let ghost before = uv;
                    if wc <= self.chunk_size {
                        proof {
                            lemma_place_push(chars@, uv, pos@, (w, wc as int), (c, d), lb);
                        }
                        pos.push((c, d));
                        toks.push(wc);
                        proof {
                            uv = before.push((w, wc as int));
                            assert(word_units(w, wc as int, self.size()) == seq![(w, wc as int)]);
                            assert(before + seq![(w, wc as int)] =~= uv);
                        }
                    } else {
                        let ghost cu = Seq::new(w.len(), |i: int| (seq![w[i]], 1int));
                        let mut x = c;
                        assert(before + cu.take(0) =~= before);
                        while x < d
                            invariant
                                c <= x <= d <= n,
                                n == chars.len(),
                                c < d,
                                w == chars@.subrange(c as int, d as int),
                                cu == Seq::new(w.len(), |i: int| (seq![w[i]], 1int)),
                                uv == before + cu.take(x - c),
                                units_placed(chars@, uv, pos@),
                                token_views(toks@) == unit_tokens(uv),
                                forall|k: int| 0 <= k < pos@.len() ==> (#[trigger] pos@[k]).1 <= lb,
                                lb <= x,
                            decreases d - x,
                        {
                            proof {
                                assert(chars@.subrange(x as int, x + 1) =~= seq![w[x - c]]);
                                lemma_place_push(chars@, uv, pos@, cu[x - c], (x, (x + 1) as usize), lb);
                            }
                            pos.push((x, x + 1));
                            toks.push(1);
                            proof {
                                assert(cu.take(x + 1 - c) =~= cu.take(x - c).push(cu[x - c]));
                                uv = uv.push(cu[x - c]);
                                lb = x + 1;
                            }
                            x += 1;
                        }
                        assert(cu.take(d - c) =~= cu);
                    }
                    proof {
                        let wcs2 = wcs.push(wc as int);
                        let w2 = wv.take(wi + 1);
                        assert(w2.drop_last() =~= wv.take(wi as int));
                        assert(wcs2.take(wi as int) =~= wcs);
                        assert(words_units(w2, wcs2, self.size()) == words_units(
                            wv.take(wi as int),
                            wcs,
                            self.size(),
                        ) + word_units(wv[wi as int], wc as int, self.size()));
                        assert(uv =~= base + words_units(w2, wcs2, self.size()));
                        assert(wt@ == w);
                        assert forall|j: int| 0 <= j < wi + 1 implies #[trigger] self.counts_as(
                            wv[j],
                            wcs2[j],
                        ) by {
                            if j < wi {
                                assert(wcs2[j] == wcs[j]);
                            }
                        }
                        wcs = wcs2;
                        lb = d as int;
                        assert forall|j: int| wi + 1 <= j < wr@.len() implies lb <= (
                        #[trigger] wr@[j]).0 by {
                            assert(wr@[wi as int] == (c, d));
                        }
                    }
                    wi += 1;
                }
                assert(wv.take(wr.len() as int) =~= wv);
                proof {
                    let scs2 = scs.push(sc as int);
                    let wcss2 = wcss.push(wcs);
                    assert(scs2.take(si as int) =~= scs);
                    assert(wcss2.take(si as int) =~= wcss);
                    assert(text_units(sl2, scs2, wcss2, self.size()) == base + sentence_units(
                        sen,
                        sc as int,
                        wcs,
                        self.size(),
                    ));
                    assert forall|i: int|
                        0 <= i < sl2.len() && #[trigger] scs2[i] > self.size() implies wcss2[i].len()
                        == words(sl2[i]).len() by {
                        if i < si {
                            assert(sl2[i] == sl.take(si as int)[i]);
                        }
                    }
                    assert forall|i: int, j: int|
                        0 <= i < sl2.len() && 0 <= j < wcss2[i].len() implies #[trigger] wcss2[i][j]
                        >= 0 by {
                        if i < si {
                            assert(wcss2[i] == wcss[i]);
                        }
                    }
                    assert(st@ == sen);
                    lemma_counts_given_push(self, sl.take(si as int), scs, wcss, sen, sc as int, wcs);
                    assert(sl.take(si as int).push(sen) =~= sl2);
                    scs = scs2;
                    wcss = wcss2;
                    lb = b as int;
                }
            }
            assert forall|j: int| si + 1 <= j < sents@.len() implies lb <= (#[trigger] sents@[j]).0 by {
                assert(sents@[si as int] == (a, b));
            }
            si += 1;
        }
        assert(sl.take(sents.len() as int) =~= sl);
        let ghost units = text_units(sl, scs, wcss, self.size());
        // ---- chunks: unit groups placed in the text ----
        let _total = utf8_len(text);
        let offs = byte_offsets(&chars);
        let gs = pack_groups(&toks, self.chunk_size, self.chunk_overlap);
        proof {
            lemma_packed_groups(unit_tokens(units), self.size(), self.overlap());
        }
        let chunks = place_chunks(&chars, &offs, &pos, &gs);
        assert(candidate_views(chunks@) == chunks_for_counts(
            text@,
            scs,
            wcss,
            pos@,
            self.size(),
            self.overlap(),
        ));
        proof {
            lemma_nonblank_text_has_chunks(text@, scs, wcss, pos@, self.size(), self.overlap());
            lemma_chunks_lie_in_text(text@, scs, wcss, pos@, self.size(), self.overlap());
            assert forall|i: int| 0 <= i < chunks@.len() implies chunk_in_text(
                text@,
                (#[trigger] chunks@[i]).view_triple(),
            ) by {
                assert(candidate_views(chunks@)[i] == chunks@[i].view_triple());
            }
        }
        chunks
    }
}


proof fn lemma_counts_given_push(
    sp: &SentenceSplitter,
    sl: Seq<Seq<char>>,
    scs: Seq<int>,
    wcss: Seq<Seq<int>>,
    s: Seq<char>,
    sc: int,
    wcs: Seq<int>,
)
    requires
        sl.len() == scs.len(),
        sl.len() == wcss.len(),
        sp.counts_given(sl, scs, wcss),
        sp.counts_as(s, sc),
        sc > sp.size() ==> wcs.len() <= words(s).len() && forall|j: int|
            0 <= j < wcs.len() ==> #[trigger] sp.counts_as(words(s)[j], wcs[j]),
    ensures
        sp.counts_given(sl.push(s), scs.push(sc), wcss.push(wcs)),
{
    let sl2 = sl.push(s);
    let scs2 = scs.push(sc);
    let wcss2 = wcss.push(wcs);
    assert forall|i: int| 0 <= i < sl2.len() implies #[trigger] sp.counts_as(sl2[i], scs2[i]) by {
        if i < sl.len() {
            assert(sl2[i] == sl[i] && scs2[i] == scs[i]);
        }
    }
    assert forall|i: int, j: int|
        0 <= i < sl2.len() && scs2[i] > sp.size() && 0 <= j < wcss2[i].len() implies #[trigger] sp.counts_as(
            words(sl2[i])[j],
            wcss2[i][j],
        ) by {
        if i < sl.len() {
            assert(sl2[i] == sl[i] && scs2[i] == scs[i] && wcss2[i] == wcss[i]);
        }
    }
}

// ---------------------------------------------------------------------------
// Laws of chunking.
proof fn lemma_placed_chunk_in_text(t: Seq<char>, ps: Seq<(usize, usize)>, g: (int, int))
    requires
        places_ok(ps, t.len() as int),
        0 <= g.0 < g.1 <= ps.len(),
    ensures
        chunk_in_text(t, placed_chunk(t, ps, g)),
        ps[g.0].0 < ps[g.1 - 1].1,
{
    let s = ps[g.0].0 as int;
    let e = ps[g.1 - 1].1 as int;
    if g.0 < g.1 - 1 {
        assert(ps[g.0].1 <= ps[g.1 - 1].0);
    }
    assert(s < e);
    lemma_slice_bytes(t, s, e);
    lemma_slice_bytes(t, 0, t.len() as int);
    assert(t.take(t.len() as int) =~= t);
    let mid = t.subrange(s, e);
    assert(mid.len() > 0);
    assert(encode_utf8(mid).len() > 0) by {
        assert(encode_utf8(mid) == vstd::utf8::encode_scalar(mid[0] as u32) + encode_utf8(mid.drop_first()));
    }
}

proof fn lemma_placed_pair_ordered(t: Seq<char>, ps: Seq<(usize, usize)>, g: (int, int), h: (int, int))
    requires
        places_ok(ps, t.len() as int),
        0 <= g.0 < g.1 <= ps.len(),
        0 <= h.0 < h.1 <= ps.len(),
        g.0 <= h.0,
        g.1 < h.1,
    ensures
        placed_chunk(t, ps, g).1 <= placed_chunk(t, ps, h).1,
        placed_chunk(t, ps, g).2 <= placed_chunk(t, ps, h).2,
{
    let s1 = ps[g.0].0 as int;
    let s2 = ps[h.0].0 as int;
    let e1 = ps[g.1 - 1].1 as int;
    let e2 = ps[h.1 - 1].1 as int;
    if g.0 < h.0 {
        assert(ps[g.0].1 <= ps[h.0].0);
    }
    assert(s1 <= s2);
    assert(ps[g.1 - 1].1 <= ps[h.1 - 1].0);
    assert(e1 <= e2);
    lemma_slice_bytes(t, s1, s2);
    lemma_slice_bytes(t, e1, e2);
}

proof fn lemma_placed_chunks_in_text(t: Seq<char>, ps: Seq<(usize, usize)>, gs: Seq<(int, int)>)
    requires
        places_ok(ps, t.len() as int),
        forall|i: int| 0 <= i < gs.len() ==> 0 <= (#[trigger] gs[i]).0 < gs[i].1 <= ps.len(),
        forall|i: int|
            0 <= i < gs.len() - 1 ==> (#[trigger] gs[i]).0 <= gs[i + 1].0 <= gs[i].1 < gs[i + 1].1,
    ensures
        ({
            let cs = placed_chunks(t, ps, gs);
            &&& forall|i: int| 0 <= i < cs.len() ==> chunk_in_text(t, #[trigger] cs[i])
            &&& forall|i: int|
                0 <= i < cs.len() - 1 ==> (#[trigger] cs[i]).1 <= cs[i + 1].1 && cs[i].2 <= cs[i + 1].2
        }),
{
    let cs = placed_chunks(t, ps, gs);
    assert forall|i: int| 0 <= i < cs.len() implies chunk_in_text(t, #[trigger] cs[i]) by {
        lemma_placed_chunk_in_text(t, ps, gs[i]);
    }
    assert forall|i: int| 0 <= i < cs.len() - 1 implies (#[trigger] cs[i]).1 <= cs[i + 1].1 && cs[i].2
        <= cs[i + 1].2 by {
        lemma_placed_pair_ordered(t, ps, gs[i], gs[i + 1]);
    }
}

/// Chunks of a text, whatever token counts the tokenizer gives: each chunk
/// is a non-empty stretch of the text whose bytes are exactly the text's
/// bytes in the chunk's byte range; chunks start in order and end in order.
pub proof fn lemma_chunks_lie_in_text(
    t: Seq<char>,
    scs: Seq<int>,
    wcss: Seq<Seq<int>>,
    ps: Seq<(usize, usize)>,
    size: int,
    overlap: int,
)
    requires
        units_placed(t, text_units(text_sentences(t), scs, wcss, size), ps),
    ensures
        ({
            let cs = chunks_for_counts(t, scs, wcss, ps, size, overlap);
            &&& forall|i: int| 0 <= i < cs.len() ==> chunk_in_text(t, #[trigger] cs[i])
            &&& forall|i: int|
                0 <= i < cs.len() - 1 ==> (#[trigger] cs[i]).1 <= cs[i + 1].1 && cs[i].2 <= cs[i + 1].2
        }),
{
    let ts = unit_tokens(text_units(text_sentences(t), scs, wcss, size));
    lemma_packed_groups(ts, size, overlap);
    lemma_placed_chunks_in_text(t, ps, packed_groups(ts, size, overlap));
}

proof fn lemma_sentences_of_content(ps: Seq<Seq<char>>)
    requires
        forall|i: int| 0 <= i < ps.len() ==> !is_blank(#[trigger] ps[i]),
    ensures
        ps.len() > 0 ==> sentences_of(ps).len() > 0,
        forall|i: int| 0 <= i < sentences_of(ps).len() ==> !is_blank(#[trigger] sentences_of(ps)[i]),
    decreases ps.len(),
{
    if ps.len() > 0 {
        let t = ps.drop_last();
        assert forall|i: int| 0 <= i < t.len() implies !is_blank(#[trigger] t[i]) by {
            assert(t[i] == ps[i]);
        }
        lemma_sentences_of_content(t);
        assert(ps[ps.len() - 1] == ps.last());
        lemma_sentences_content(ps.last());
        let a = sentences_of(t);
        let b = sentences(ps.last());
        assert forall|i: int| 0 <= i < (a + b).len() implies !is_blank(#[trigger] (a + b)[i]) by {
            if i >= a.len() {
                assert((a + b)[i] == b[i - a.len()]);
            }
        }
    }
}

proof fn lemma_words_units_nonempty(ws: Seq<Seq<char>>, wcs: Seq<int>, size: int)
    requires
        ws.len() > 0,
        ws.last().len() > 0,
    ensures
        words_units(ws, wcs, size).len() > 0,
{
    let w = ws.last();
    assert(word_units(w, wcs[ws.len() - 1], size).len() > 0);
}

proof fn lemma_text_units_nonempty(sl: Seq<Seq<char>>, scs: Seq<int>, wcss: Seq<Seq<int>>, size: int)
    requires
        sl.len() > 0,
        !is_blank(sl.last()),
        counts_fit(sl, scs, wcss, size),
    ensures
        text_units(sl, scs, wcss, size).len() > 0,
{
    let n = sl.len() - 1;
    let s = sl.last();
    if scs[n] > size {
        assert(sl[n] == s);
        assert(wcss[n].len() == words(s).len());
        lemma_words_content(s);
        let ws = words(s);
        assert(ws[ws.len() - 1] == ws.last());
        lemma_words_units_nonempty(ws, wcss[n], size);
    }
    assert(sentence_units(s, scs[n], wcss[n], size).len() > 0);
}

/// Every text that is not blank yields at least one chunk, whatever token
/// counts the tokenizer gives.
pub proof fn lemma_nonblank_text_has_chunks(
    t: Seq<char>,
    scs: Seq<int>,
    wcss: Seq<Seq<int>>,
    ps: Seq<(usize, usize)>,
    size: int,
    overlap: int,
)
    requires
        !is_blank(t),
        counts_fit(text_sentences(t), scs, wcss, size),
    ensures
        chunks_for_counts(t, scs, wcss, ps, size, overlap).len() > 0,
{
    lemma_paragraphs_content(t);
    lemma_sentences_of_content(paragraphs(t));
    let sl = text_sentences(t);
    assert(sl[sl.len() - 1] == sl.last());
    lemma_text_units_nonempty(sl, scs, wcss, size);
    lemma_packed_groups(unit_tokens(text_units(sl, scs, wcss, size)), size, overlap);
}

} // verus!
