//! Answer synthesis around a language model: the prompt that frames the
//! retrieved passages as numbered sources, and the citations read back from
//! the model's answer.
use vstd::prelude::*;
use vstd::string::*;
use crate::error::DocqError;
use crate::models::{Answer, Citation};
use crate::traits::Llm;
use crate::search::HitBase;
use crate::text::{chars_of, decimal, decimal_string, str_equal};

verus! {

/// `<path> (bytes <start>-<end>)`: where a passage comes from.
pub open spec fn source_text(path: Seq<char>, start: nat, end: nat) -> Seq<char> {
    path + " (bytes "@ + decimal(start) + "-"@ + decimal(end) + ")"@
}

/// `[n]`: how the `n`-th source is cited.
pub open spec fn marker_text(n: nat) -> Seq<char> {
    "["@ + decimal(n) + "]"@
}

/// The marker and source of the hit at 0-based position `i`.
pub open spec fn hit_citation(h: HitBase, i: int) -> (Seq<char>, Seq<char>) {
    (
        marker_text((i + 1) as nat),
        source_text(h.file_path@, h.chunk.byte_range.start as nat, h.chunk.byte_range.end as nat),
    )
}

fn marker_of(n: usize) -> (m: String)
    ensures
        m@ == marker_text(n as nat),
{
    let mut m = String::from_str("[");
    m.append(decimal_string(n as u128).as_str());
    m.append("]");
    m
}

fn source_of(h: &HitBase) -> (s: String)
    ensures
        s@ == source_text(h.file_path@, h.chunk.byte_range.start as nat, h.chunk.byte_range.end as nat),
{
    let mut s = h.file_path.clone();
    s.append(" (bytes ");
    s.append(decimal_string(h.chunk.byte_range.start as u128).as_str());
    s.append("-");
    s.append(decimal_string(h.chunk.byte_range.end as u128).as_str());
    s.append(")");
    s
}

/// The sources a prompt offers: `[1]`, `[2]`, ... in hit order, with their
/// passages' locations.
pub fn context_citations(hits: &Vec<HitBase>) -> (c: Vec<Citation>)
    requires
        hits@.len() < usize::MAX,
    ensures
        c@.len() == hits@.len(),
        forall|i: int|
            0 <= i < hits@.len() ==> ((#[trigger] c@[i]).marker@, c@[i].source@) == hit_citation(
                hits@[i],
                i,
            ),
{
    let mut c: Vec<Citation> = Vec::new();
    let mut i: usize = 0;
    while i < hits.len()
        invariant
            i <= hits@.len() < usize::MAX,
            c@.len() == i,
            forall|j: int|
                0 <= j < i ==> ((#[trigger] c@[j]).marker@, c@[j].source@) == hit_citation(
                    hits@[j],
                    j,
                ),
        decreases hits@.len() - i,
    {
        c.push(Citation { marker: marker_of(i + 1), source: source_of(&hits[i]) });
        i += 1;
    }
    c
}

/// One source block of the prompt: `[n] <source>:` and the passage.
pub open spec fn context_block(h: HitBase, i: int) -> Seq<char> {
    hit_citation(h, i).0 + " "@ + hit_citation(h, i).1 + ":\n"@ + h.chunk.text@
}

/// The source blocks, separated by blank lines.
pub open spec fn context_body(hits: Seq<HitBase>) -> Seq<char>
    decreases hits.len(),
{
    if hits.len() == 0 {
        Seq::empty()
    } else if hits.len() == 1 {
        context_block(hits[0], 0)
    } else {
        context_body(hits.drop_last()) + "\n\n"@ + context_block(hits.last(), hits.len() - 1)
    }
}

/// The prompt asking the model to answer `query` from the numbered sources.
pub open spec fn ask_prompt(query: Seq<char>, hits: Seq<HitBase>) -> Seq<char> {
    "Context information is below.\n---------------------\n"@ + context_body(hits)
        + "\n---------------------\nGiven the context information and not prior knowledge, answer the query.\nCite sources using [1], [2], etc.\nQuery: "@
        + query + "\nAnswer:"@
}

/// Build the prompt for `query` over the retrieved `hits`.
pub fn build_ask_prompt(query: &str, hits: &Vec<HitBase>) -> (p: String)
    requires
        hits@.len() < usize::MAX,
    ensures
        p@ == ask_prompt(query@, hits@),
{
    let mut body = String::new();
    let mut i: usize = 0;
    while i < hits.len()
        invariant
            i <= hits@.len() < usize::MAX,
            body@ == context_body(hits@.take(i as int)),
        decreases hits@.len() - i,
    {
        let ghost t = hits@.take(i + 1);
        assert(t.drop_last() =~= hits@.take(i as int));
        assert(t.last() == hits@[i as int]);
        if i > 0 {
            body.append("\n\n");
        } else {
            assert(t[0] == hits@[0]);
        }
        body.append(marker_of(i + 1).as_str());
        body.append(" ");
        body.append(source_of(&hits[i]).as_str());
        body.append(":\n");
        body.append(hits[i].chunk.text.as_str());
        i += 1;
    }
    assert(hits@.take(hits@.len() as int) =~= hits@);
    let mut p = String::from_str("Context information is below.\n---------------------\n");
    p.append(body.as_str());
    p.append(
        "\n---------------------\nGiven the context information and not prior knowledge, answer the query.\nCite sources using [1], [2], etc.\nQuery: ",
    );
    p.append(query);
    p.append("\nAnswer:");
    p
}

/// An ASCII decimal digit.
pub open spec fn is_digit(c: char) -> bool {
    '0' <= c && c <= '9'
}

/// The end of the run of digits starting at `i`.
pub open spec fn digits_end(s: Seq<char>, i: int) -> int
    decreases s.len() - i,
{
    if 0 <= i < s.len() && is_digit(s[i]) {
        digits_end(s, i + 1)
    } else {
        i
    }
}

/// The markers `[digits]` of `s` from position `i` on, leftmost first,
/// without overlaps.
pub open spec fn markers_from(s: Seq<char>, i: int) -> Seq<Seq<char>>
    decreases s.len() - i,
{
    if i < 0 || i >= s.len() {
        Seq::empty()
    } else if s[i] == '[' && digits_end(s, i + 1) > i + 1 && digits_end(s, i + 1) < s.len() && s[digits_end(
        s,
        i + 1,
    )] == ']' {
        seq![s.subrange(i, digits_end(s, i + 1) + 1)] + markers_from(s, digits_end(s, i + 1) + 1)
    } else {
        markers_from(s, i + 1)
    }
}

proof fn lemma_digits_end(s: Seq<char>, i: int)
    requires
        0 <= i,
    ensures
        i <= digits_end(s, i),
        digits_end(s, i) <= s.len() || digits_end(s, i) == i,
        forall|j: int| i <= j < digits_end(s, i) ==> is_digit(#[trigger] s[j]),
        digits_end(s, i) < s.len() ==> !is_digit(s[digits_end(s, i)]),
    decreases s.len() - i,
{
    if 0 <= i < s.len() && is_digit(s[i]) {
        lemma_digits_end(s, i + 1);
    }
}

/// The index just past the run of digits starting at `i`.
fn scan_digits(v: &Vec<char>, i: usize) -> (j: usize)
    requires
        i <= v@.len(),
    ensures
        j == digits_end(v@, i as int),
        i <= j <= v@.len(),
{
    proof {
        lemma_digits_end(v@, i as int);
    }
    let mut j = i;
    while j < v.len() && '0' <= v[j] && v[j] <= '9'
        invariant
            i <= j <= v@.len(),
            digits_end(v@, j as int) == digits_end(v@, i as int),
        decreases v@.len() - j,
    {
        j += 1;
    }
    j
}

/// The citation markers of an answer, in order of appearance.
pub fn find_markers(answer: &str) -> (ms: Vec<String>)
    ensures
        ms@.len() == markers_from(answer@, 0).len(),
        forall|i: int| 0 <= i < ms@.len() ==> (#[trigger] ms@[i])@ == markers_from(answer@, 0)[i],
{
    let v = chars_of(answer);
    let ghost s = v@;
    let mut ms: Vec<String> = Vec::new();
    let ghost mut found: Seq<Seq<char>> = Seq::empty();
    let mut i: usize = 0;
    while i < v.len()
        invariant
            s == v@,
            s == answer@,
            i <= v@.len(),
            markers_from(s, 0) == found + markers_from(s, i as int),
            ms@.len() == found.len(),
            forall|q: int| 0 <= q < ms@.len() ==> (#[trigger] ms@[q])@ == found[q],
        decreases v@.len() - i,
    {
        if v[i] == '[' {
            let j = scan_digits(&v, i + 1);
            if j > i + 1 && j < v.len() && v[j] == ']' {
                let m = crate::text::string_of(&v, i, j + 1);
                proof {
                    assert(markers_from(s, i as int) == seq![s.subrange(i as int, j + 1)]
                        + markers_from(s, j + 1));
                    assert(found + markers_from(s, i as int) =~= found.push(m@) + markers_from(
                        s,
                        j + 1,
                    ));
                    found = found.push(m@);
                }
                ms.push(m);
                i = j + 1;
            } else {
                i += 1;
            }
        } else {
            i += 1;
        }
    }
    assert(markers_from(s, i as int) =~= Seq::<Seq<char>>::empty());
    assert(found =~= markers_from(s, 0));
    ms
}

/// `(marker, source)` views of citations.
pub open spec fn citation_views(c: Seq<Citation>) -> Seq<(Seq<char>, Seq<char>)> {
    Seq::new(c.len(), |i: int| (c[i].marker@, c[i].source@))
}

/// The sources a prompt over `hits` offers, as `(marker, source)`.
pub open spec fn hit_citations(hits: Seq<HitBase>) -> Seq<(Seq<char>, Seq<char>)> {
    Seq::new(hits.len(), |i: int| hit_citation(hits[i], i))
}

/// Index of the first source cited as `marker`, or -1.
pub open spec fn source_index(context: Seq<(Seq<char>, Seq<char>)>, marker: Seq<char>) -> int
    decreases context.len(),
{
    if context.len() == 0 {
        -1
    } else {
        let k = source_index(context.drop_last(), marker);
        if k >= 0 {
            k
        } else if context.last().0 == marker {
            context.len() - 1
        } else {
            -1
        }
    }
}

proof fn lemma_source_index(context: Seq<(Seq<char>, Seq<char>)>, marker: Seq<char>)
    ensures
        -1 <= source_index(context, marker) < context.len(),
        source_index(context, marker) >= 0 ==> context[source_index(context, marker)].0 == marker,
        source_index(context, marker) == -1 ==> forall|i: int|
            0 <= i < context.len() ==> (#[trigger] context[i]).0 != marker,
        forall|i: int| 0 <= i < source_index(context, marker) ==> (#[trigger] context[i]).0 != marker,
    decreases context.len(),
{
    if context.len() > 0 {
        let t = context.drop_last();
        lemma_source_index(t, marker);
        assert forall|i: int| 0 <= i < source_index(context, marker) implies (
        #[trigger] context[i]).0 != marker by {
            assert(t[i] == context[i]);
        }
        if source_index(context, marker) == -1 {
            assert forall|i: int| 0 <= i < context.len() implies (#[trigger] context[i]).0 != marker by {
                if i < t.len() {
                    assert(t[i] == context[i]);
                }
            }
        }
    }
}

/// The citations of the sources that `markers` name, in order of first
/// mention, each once; markers that name no source are dropped.
pub open spec fn cited(markers: Seq<Seq<char>>, context: Seq<(Seq<char>, Seq<char>)>) -> Seq<
    (Seq<char>, Seq<char>),
>
    decreases markers.len(),
{
    if markers.len() == 0 {
        Seq::empty()
    } else {
        let r = cited(markers.drop_last(), context);
        let k = source_index(context, markers.last());
        if k >= 0 && !markers.drop_last().contains(markers.last()) {
            r.push(context[k])
        } else {
            r
        }
    }
}

/// Every citation read from an answer is one of the offered sources, named by
/// a marker the answer mentions, and no source marker is cited twice.
pub proof fn lemma_cited_are_offered_once(
    markers: Seq<Seq<char>>,
    context: Seq<(Seq<char>, Seq<char>)>,
)
    ensures
        forall|i: int|
            0 <= i < cited(markers, context).len() ==> context.contains(
                #[trigger] cited(markers, context)[i],
            ) && markers.contains(cited(markers, context)[i].0),
        forall|i: int, j: int|
            0 <= i < j < cited(markers, context).len() ==> (#[trigger] cited(markers, context)[i]).0
                != (#[trigger] cited(markers, context)[j]).0,
    decreases markers.len(),
{
    if markers.len() > 0 {
        let init = markers.drop_last();
        let last = markers.last();
        lemma_cited_are_offered_once(init, context);
        lemma_source_index(context, last);
        let r = cited(init, context);
        let c = cited(markers, context);
        assert forall|i: int| 0 <= i < r.len() implies markers.contains(#[trigger] r[i].0) by {
            let w = choose|w: int| 0 <= w < init.len() && init[w] == r[i].0;
            assert(markers[w] == init[w]);
        }
        let k = source_index(context, last);
        if k >= 0 && !init.contains(last) {
            assert(c == r.push(context[k]));
            assert(context.contains(context[k]));
            assert(markers[markers.len() - 1] == last);
            assert forall|i: int, j: int| 0 <= i < j < c.len() implies (#[trigger] c[i]).0 != (
            #[trigger] c[j]).0 by {
                if j == c.len() - 1 {
                    assert(c[i] == r[i]);
                    assert(init.contains(r[i].0));
                } else {
                    assert(c[i] == r[i] && c[j] == r[j]);
                }
            }
            assert forall|i: int| 0 <= i < c.len() implies context.contains(#[trigger] c[i])
                && markers.contains(c[i].0) by {
                if i < r.len() {
                    assert(c[i] == r[i]);
                }
            }
        } else {
            assert(c == r);
        }
    }
}

/// The citations of an answer: the sources among `context` whose markers it
/// mentions, in order of first mention, each once.
pub fn parse_citations(answer: &str, context: &Vec<Citation>) -> (c: Vec<Citation>)
    ensures
        citation_views(c@) == cited(markers_from(answer@, 0), citation_views(context@)),
{
    let ms = find_markers(answer);
    let ghost mv = markers_from(answer@, 0);
    let ghost cv = citation_views(context@);
    let mut c: Vec<Citation> = Vec::new();
    let mut i: usize = 0;
    while i < ms.len()
        invariant
            i <= ms@.len(),
            ms@.len() == mv.len(),
            forall|q: int| 0 <= q < ms@.len() ==> (#[trigger] ms@[q])@ == mv[q],
            cv == citation_views(context@),
            citation_views(c@) == cited(mv.take(i as int), cv),
        decreases ms@.len() - i,
    {
        let ghost t = mv.take(i + 1);
        assert(t.drop_last() =~= mv.take(i as int));
        assert(t.last() == mv[i as int]);
        assert(ms@[i as int]@ == mv[i as int]);
        proof {
            lemma_source_index(cv, mv[i as int]);
        }
        // Mentioned before?
        let mut seen = false;
        let mut q: usize = 0;
        while q < i
            invariant
                q <= i < ms@.len(),
                seen == exists|w: int| 0 <= w < q && (#[trigger] ms@[w])@ == ms@[i as int]@,
            decreases i - q,
        {
            if str_equal(ms[q].as_str(), ms[i].as_str()) {
                seen = true;
            }
            q += 1;
        }
        assert(seen == mv.take(i as int).contains(mv[i as int])) by {
            if seen {
                let w = choose|w: int| 0 <= w < i && (#[trigger] ms@[w])@ == ms@[i as int]@;
                assert(mv.take(i as int)[w] == mv[w]);
            }
            if mv.take(i as int).contains(mv[i as int]) {
                let w = choose|w: int| 0 <= w < i && mv.take(i as int)[w] == mv[i as int];
                assert(ms@[w]@ == mv[w]);
            }
        }
        if !seen {
            // The first source with this marker.
            let mut k: usize = 0;
            while k < context.len() && !str_equal(context[k].marker.as_str(), ms[i].as_str())
                invariant
                    k <= context@.len(),
                    i < ms@.len(),
                    forall|w: int| 0 <= w < k ==> (#[trigger] context@[w]).marker@ != ms@[i as int]@,
                decreases context@.len() - k,
            {
                k += 1;
            }
            if k < context.len() {
                proof {
                    let si = source_index(cv, mv[i as int]);
                    assert(cv[k as int].0 == mv[i as int]);
                    assert(si == k) by {
                        if si != k {
                            if si == -1 {
                                assert(cv[k as int].0 != mv[i as int]);
                            } else if si < k {
                                assert(cv[si].0 == context@[si].marker@);
                                assert(context@[si].marker@ != ms@[i as int]@);
                            } else {
                                assert(cv[k as int].0 != mv[i as int]);
                            }
                        }
                    }
                }
                let ghost before = c@;
                c.push(Citation { marker: context[k].marker.clone(), source: context[k].source.clone() });
                assert(citation_views(c@) =~= citation_views(before).push(cv[k as int]));
            } else {
                proof {
                    let si = source_index(cv, mv[i as int]);
                    if si >= 0 {
                        assert(cv[si].0 == context@[si].marker@);
                        assert(context@[si].marker@ != ms@[i as int]@);
                    }
                }
            }
        }
        i += 1;
    }
    assert(mv.take(ms@.len() as int) =~= mv);
    c
}


/// `out` is what `llm` may answer to a prompt with the text `prompt`.
pub open spec fn model_replies<L: Llm + ?Sized>(
    llm: &L,
    prompt: Seq<char>,
    out: Result<String, DocqError>,
) -> bool {
    exists|p: &str| p@ == prompt && #[trigger] call_ensures(L::complete, (llm, p), out)
}

/// Answer `query` from `hits` with the language model: the model receives the
/// prompt of `build_ask_prompt`, its reply is the answer's text, and the
/// answer cites the offered sources that the reply mentions (in order of
/// first mention, each once). A failure of the model is returned as is.
pub fn answer_from_hits<L: Llm + ?Sized>(llm: &L, query: &str, hits: &Vec<HitBase>) -> (r: Result<
    Answer,
    DocqError,
>)
    requires
        hits@.len() < usize::MAX,
    ensures
        exists|out: Result<String, DocqError>|
            #[trigger] model_replies(llm, ask_prompt(query@, hits@), out) && match out {
                Ok(text) => r is Ok && r->Ok_0.text@ == text@,
                Err(e) => r == Err::<Answer, DocqError>(e),
            },
        r is Ok ==> citation_views(r->Ok_0.citations@) == cited(
            markers_from(r->Ok_0.text@, 0),
            hit_citations(hits@),
        ),
{
    let prompt = build_ask_prompt(query, hits);
    let p = prompt.as_str();
    let reply = llm.complete(p);
    assert(call_ensures(L::complete, (llm, p), reply));
    assert(model_replies(llm, ask_prompt(query@, hits@), reply));
    match reply {
        Ok(text) => Ok(answer_from_reply(text, hits)),
        Err(e) => Err(e),
    }
}

/// The answer a model's `reply` gives over `hits`: the reply as its text,
/// citing the offered sources that it mentions (in order of first mention,
/// each once).
pub fn answer_from_reply(reply: String, hits: &Vec<HitBase>) -> (a: Answer)
    requires
        hits@.len() < usize::MAX,
    ensures
        a.text@ == reply@,
        citation_views(a.citations@) == cited(markers_from(reply@, 0), hit_citations(hits@)),
{
    let context = context_citations(hits);
    assert(citation_views(context@) =~= hit_citations(hits@));
    let citations = parse_citations(reply.as_str(), &context);
    Answer { text: reply, citations }
}

/// `s[i..=j]` is a citation marker: `[`, one or more ASCII digits, `]`.
pub open spec fn marker_at(s: Seq<char>, i: int, j: int) -> bool {
    &&& 0 <= i
    &&& i + 1 < j < s.len()
    &&& s[i] == '['
    &&& s[j] == ']'
    &&& forall|q: int| i < q < j ==> is_digit(#[trigger] s[q])
}

proof fn lemma_digits_end_at(s: Seq<char>, a: int, j: int)
    requires
        0 <= a <= j < s.len(),
        forall|q: int| a <= q < j ==> is_digit(#[trigger] s[q]),
        !is_digit(s[j]),
    ensures
        digits_end(s, a) == j,
    decreases j - a,
{
    if a < j {
        lemma_digits_end_at(s, a + 1, j);
    }
}

/// Markers are found from every position before them: reading the markers
/// of `s` from any position `p` at or before a marker `s[i..=j]` finds it.
proof fn lemma_marker_found_from(s: Seq<char>, p: int, i: int, j: int)
    requires
        0 <= p <= i,
        marker_at(s, i, j),
    ensures
        markers_from(s, p).contains(s.subrange(i, j + 1)),
    decreases i - p,
{
    let m = s.subrange(i, j + 1);
    if p == i {
        lemma_digits_end_at(s, i + 1, j);
        assert(markers_from(s, p)[0] == m);
    } else {
        let e = digits_end(s, p + 1);
        lemma_digits_end(s, p + 1);
        if s[p] == '[' && e > p + 1 && e < s.len() && s[e] == ']' {
            assert(e < i) by {
                if i <= e {
                    if i < e {
                        assert(is_digit(s[i]));
                    }
                }
            }
            lemma_marker_found_from(s, e + 1, i, j);
            let rest = markers_from(s, e + 1);
            let k = choose|k: int| 0 <= k < rest.len() && rest[k] == m;
            assert(markers_from(s, p) == seq![s.subrange(p, e + 1)] + rest);
            assert(markers_from(s, p)[k + 1] == m);
        } else {
            lemma_marker_found_from(s, p + 1, i, j);
        }
    }
}

/// Every citation marker of an answer is read: for every `[digits]` in `s`,
/// the markers of `s` include it, adjacent markers such as `[1][2]`
/// included.
pub proof fn lemma_every_marker_found(s: Seq<char>, i: int, j: int)
    requires
        marker_at(s, i, j),
    ensures
        markers_from(s, 0).contains(s.subrange(i, j + 1)),
{
    lemma_marker_found_from(s, 0, i, j);
}

/// `m` is a citation marker of `s` starting at or after position `p`.
pub open spec fn marker_in(s: Seq<char>, p: int, m: Seq<char>) -> bool {
    exists|i: int, j: int| #![trigger marker_at(s, i, j)] p <= i && marker_at(s, i, j) && m == s.subrange(i, j + 1)
}

proof fn lemma_found_are_markers_from(s: Seq<char>, p: int)
    requires
        0 <= p,
    ensures
        forall|k: int| 0 <= k < markers_from(s, p).len() ==> marker_in(s, p, #[trigger] markers_from(s, p)[k]),
    decreases s.len() - p,
{
    if p < s.len() {
        let e = digits_end(s, p + 1);
        lemma_digits_end(s, p + 1);
        let r = markers_from(s, p);
        if s[p] == '[' && e > p + 1 && e < s.len() && s[e] == ']' {
            lemma_found_are_markers_from(s, e + 1);
            let rest = markers_from(s, e + 1);
            assert(r == seq![s.subrange(p, e + 1)] + rest);
            assert(marker_at(s, p, e));
            assert forall|k: int| 0 <= k < r.len() implies marker_in(s, p, #[trigger] r[k]) by {
                if k > 0 {
                    assert(r[k] == rest[k - 1]);
                    assert(marker_in(s, e + 1, rest[k - 1]));
                    let (i, j) = choose|i: int, j: int|
                        #![trigger marker_at(s, i, j)]
                        e + 1 <= i && marker_at(s, i, j) && rest[k - 1] == s.subrange(i, j + 1);
                    assert(marker_at(s, i, j));
                } else {
                    assert(r[0] == s.subrange(p, e + 1));
                }
            }
        } else {
            lemma_found_are_markers_from(s, p + 1);
            let r1 = markers_from(s, p + 1);
            assert(r == r1);
            assert forall|k: int| 0 <= k < r.len() implies marker_in(s, p, #[trigger] r[k]) by {
                assert(marker_in(s, p + 1, r1[k]));
                let (i, j) = choose|i: int, j: int|
                    #![trigger marker_at(s, i, j)]
                    p + 1 <= i && marker_at(s, i, j) && r1[k] == s.subrange(i, j + 1);
                assert(marker_at(s, i, j));
            }
        }
    }
}

/// Nothing but citation markers is read: every marker read from `s` is a
/// `[digits]` of `s`.
pub proof fn lemma_found_are_markers(s: Seq<char>)
    ensures
        forall|k: int| 0 <= k < markers_from(s, 0).len() ==> marker_in(s, 0, #[trigger] markers_from(s, 0)[k]),
{
    lemma_found_are_markers_from(s, 0);
}

} // verus!
