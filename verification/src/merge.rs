//! Greedy packing of text units into overlapping chunks.
//!
//! Units (sentences, words or single characters, each with its token count
//! and its place in the text) are appended to the current chunk until the
//! next unit would push its token total over the chunk size; the chunk is
//! then emitted and the next one starts with the longest run of trailing
//! units whose tokens fit in the overlap budget. A chunk is the stretch of
//! the text from the start of its first unit to the end of its last one, and
//! its byte range is where that stretch lies in the text's UTF-8 bytes.
use vstd::prelude::*;
use vstd::utf8::encode_utf8;
use vstd::string::*;
use crate::models::ChunkCandidate;
use crate::text::{string_of, utf8_len};

verus! {

/// UTF-8 byte length of a text.
pub open spec fn text_bytes(s: Seq<char>) -> int {
    encode_utf8(s).len() as int
}

proof fn lemma_encode_utf8_concat(a: Seq<char>, b: Seq<char>)
    ensures
        encode_utf8(a + b) == encode_utf8(a) + encode_utf8(b),
    decreases a.len(),
{
    if a.len() == 0 {
        assert(a + b =~= b);
        assert(encode_utf8(a) =~= Seq::<u8>::empty());
        assert(encode_utf8(a) + encode_utf8(b) =~= encode_utf8(b));
    } else {
        assert((a + b).drop_first() =~= a.drop_first() + b);
        assert((a + b)[0] == a[0]);
        lemma_encode_utf8_concat(a.drop_first(), b);
        assert(encode_utf8(a + b) =~= encode_utf8(a) + encode_utf8(b));
    }
}

pub proof fn lemma_text_bytes_concat(a: Seq<char>, b: Seq<char>)
    ensures
        text_bytes(a + b) == text_bytes(a) + text_bytes(b),
{
    lemma_encode_utf8_concat(a, b);
}

/// The bytes of `t[s..e]` are the bytes of `t` between the byte offsets of
/// `s` and `e`.
pub proof fn lemma_slice_bytes(t: Seq<char>, s: int, e: int)
    requires
        0 <= s <= e <= t.len(),
    ensures
        text_bytes(t.take(s)) <= text_bytes(t.take(e)) <= text_bytes(t),
        encode_utf8(t.subrange(s, e)) == encode_utf8(t).subrange(
            text_bytes(t.take(s)),
            text_bytes(t.take(e)),
        ),
{
    assert(t =~= t.take(s) + t.subrange(s, e) + t.skip(e));
    assert(t.take(e) =~= t.take(s) + t.subrange(s, e));
    lemma_encode_utf8_concat(t.take(s) + t.subrange(s, e), t.skip(e));
    lemma_encode_utf8_concat(t.take(s), t.subrange(s, e));
    let a = encode_utf8(t.take(s));
    let b = encode_utf8(t.subrange(s, e));
    let c = encode_utf8(t.skip(e));
    assert(encode_utf8(t) == a + b + c);
    assert((a + b + c).subrange(a.len() as int, (a.len() + b.len()) as int) =~= b);
}

/// Total of a run of token counts.
pub open spec fn token_sum(ts: Seq<int>) -> int
    decreases ts.len(),
{
    if ts.len() == 0 {
        0
    } else {
        token_sum(ts.drop_last()) + ts.last()
    }
}

/// Number of trailing units kept as overlap: walking back from the end,
/// units are taken while their cumulative tokens stay within `budget`.
pub open spec fn overlap_len(ts: Seq<int>, budget: int) -> int
    decreases ts.len(),
{
    if ts.len() == 0 {
        0
    } else if ts.last() > budget {
        0
    } else {
        1 + overlap_len(ts.drop_last(), budget - ts.last())
    }
}

pub proof fn lemma_overlap_len_bounds(ts: Seq<int>, budget: int)
    ensures
        0 <= overlap_len(ts, budget) <= ts.len(),
    decreases ts.len(),
{
    if ts.len() > 0 && ts.last() <= budget {
        lemma_overlap_len_bounds(ts.drop_last(), budget - ts.last());
    }
}

/// The packing state after some units: the groups `[lo, hi)` of unit
/// indices emitted so far, and the first unit of the group being built.
pub struct PackState {
    pub groups: Seq<(int, int)>,
    pub lo: int,
}

/// Add unit `i` (the group being built is `[st.lo, i)`).
pub open spec fn pack_step(st: PackState, ts: Seq<int>, i: int, size: int, overlap: int) -> PackState {
    let cur = ts.subrange(st.lo, i);
    if token_sum(cur) + ts[i] > size && st.lo < i {
        PackState { groups: st.groups.push((st.lo, i)), lo: i - overlap_len(cur, overlap) }
    } else {
        st
    }
}

/// The state after the first `n` units.
pub open spec fn pack_prefix(ts: Seq<int>, n: nat, size: int, overlap: int) -> PackState
    decreases n,
{
    if n == 0 {
        PackState { groups: Seq::empty(), lo: 0 }
    } else {
        pack_step(pack_prefix(ts, (n - 1) as nat, size, overlap), ts, n - 1, size, overlap)
    }
}

/// The groups `[lo, hi)` of unit indices that form the chunks, for units
/// with token counts `ts`.
pub open spec fn packed_groups(ts: Seq<int>, size: int, overlap: int) -> Seq<(int, int)> {
    let st = pack_prefix(ts, ts.len(), size, overlap);
    if st.lo < ts.len() {
        st.groups.push((st.lo, ts.len() as int))
    } else {
        st.groups
    }
}

/// Token counts as integers.
pub open spec fn token_views(ts: Seq<usize>) -> Seq<int> {
    ts.map_values(|t: usize| t as int)
}

/// Index groups as integers.
pub open spec fn group_views(gs: Seq<(usize, usize)>) -> Seq<(int, int)> {
    gs.map_values(|g: (usize, usize)| (g.0 as int, g.1 as int))
}

/// `(text, start, end)` views of chunk candidates.
pub open spec fn candidate_views(cs: Seq<ChunkCandidate>) -> Seq<(Seq<char>, int, int)> {
    cs.map_values(|c: ChunkCandidate| c.view_triple())
}

/// The chunk of `t` made of the units of group `g`, placed at `ps`: the
/// text from the first unit's start to the last unit's end, with its byte
/// range in `t`.
pub open spec fn placed_chunk(t: Seq<char>, ps: Seq<(usize, usize)>, g: (int, int)) -> (
    Seq<char>,
    int,
    int,
) {
    let s = ps[g.0].0 as int;
    let e = ps[g.1 - 1].1 as int;
    (t.subrange(s, e), text_bytes(t.take(s)), text_bytes(t.take(e)))
}

/// The chunks of `t` for the groups `gs` of units placed at `ps`.
pub open spec fn placed_chunks(t: Seq<char>, ps: Seq<(usize, usize)>, gs: Seq<(int, int)>) -> Seq<
    (Seq<char>, int, int),
> {
    gs.map_values(|g: (int, int)| placed_chunk(t, ps, g))
}

/// Unit places in a text of `n` characters: non-empty, in order, none
/// overlapping the next.
pub open spec fn places_ok(ps: Seq<(usize, usize)>, n: int) -> bool {
    &&& forall|i: int| 0 <= i < ps.len() ==> (#[trigger] ps[i]).0 < ps[i].1 <= n
    &&& forall|i: int, j: int| 0 <= i < j < ps.len() ==> (#[trigger] ps[i]).1 <= (#[trigger] ps[j]).0
}

/// Groups of `m` units: non-empty index ranges within `[0, m)`.
pub open spec fn groups_ok(gs: Seq<(int, int)>, m: int) -> bool {
    forall|i: int| 0 <= i < gs.len() ==> 0 <= (#[trigger] gs[i]).0 < gs[i].1 <= m
}

proof fn lemma_overlap_step(ts: Seq<int>, budget: int)
    requires
        ts.len() > 0,
        ts.last() <= budget,
    ensures
        overlap_len(ts, budget) == 1 + overlap_len(ts.drop_last(), budget - ts.last()),
{
}

/// Count the trailing units of `toks[lo..i]` that fit in the overlap budget,
/// and their tokens.
fn overlap_count(toks: &Vec<usize>, lo: usize, i: usize, chunk_overlap: usize) -> (r: (usize, u128))
    requires
        lo <= i <= toks.len(),
    ensures
        r.0 == overlap_len(token_views(toks@).subrange(lo as int, i as int), chunk_overlap as int),
        r.1 == token_sum(token_views(toks@).subrange(i - r.0, i as int)),
        r.1 <= chunk_overlap,
        r.0 <= i - lo,
{
    let ghost tv = token_views(toks@);
    let ghost c = tv.subrange(lo as int, i as int);
    let n = i - lo;
    let mut k: usize = 0;
    let mut ot: u128 = 0;
    assert(tv.subrange(i as int, i as int) =~= Seq::<int>::empty());
    assert(c.take(n as int) =~= c);
    while k < n && ot + (toks[i - 1 - k] as u128) <= chunk_overlap as u128
        invariant
            n == i - lo,
            lo <= i <= toks.len(),
            tv == token_views(toks@),
            c == tv.subrange(lo as int, i as int),
            0 <= k <= n,
            ot == token_sum(tv.subrange(i - k, i as int)),
            ot <= chunk_overlap,
            overlap_len(c, chunk_overlap as int) == k + overlap_len(
                c.take(n - k),
                chunk_overlap - ot,
            ),
        decreases n - k,
    {
        let t = toks[i - 1 - k] as u128;
        let ghost pre = c.take(n - k);
        assert(pre.last() == tv[i - 1 - k]);
        assert(pre.drop_last() =~= c.take(n - k - 1));
        proof {
            lemma_overlap_step(pre, chunk_overlap - ot);
            let suf = tv.subrange(i - k - 1, i as int);
            assert(suf.drop_first() =~= tv.subrange(i - k, i as int));
            lemma_token_sum_first(suf);
        }
        ot = ot + t;
        k = k + 1;
    }
    proof {
        let pre = c.take(n - k);
        if k < n {
            assert(pre.last() == tv[i - 1 - k]);
        } else {
            assert(pre.len() == 0);
        }
        assert(overlap_len(pre, chunk_overlap - ot) == 0);
    }
    (k, ot)
}

proof fn lemma_token_sum_first(ts: Seq<int>)
    requires
        ts.len() > 0,
    ensures
        token_sum(ts) == ts[0] + token_sum(ts.drop_first()),
    decreases ts.len(),
{
    if ts.len() > 1 {
        lemma_token_sum_first(ts.drop_last());
        assert(ts.drop_last().drop_first() =~= ts.drop_first().drop_last());
        assert(ts.drop_first().last() == ts.last());
    } else {
        assert(ts.drop_first() =~= Seq::<int>::empty());
        assert(ts.drop_last() =~= Seq::<int>::empty());
    }
}

proof fn lemma_token_sum_push(ts: Seq<int>, lo: int, i: int)
    requires
        0 <= lo <= i < ts.len(),
    ensures
        token_sum(ts.subrange(lo, i + 1)) == token_sum(ts.subrange(lo, i)) + ts[i],
{
    assert(ts.subrange(lo, i + 1).drop_last() =~= ts.subrange(lo, i));
}

/// Group the units with token counts `toks` into chunks (see the module
/// documentation); the result is exactly `packed_groups` of the counts.
pub fn pack_groups(toks: &Vec<usize>, chunk_size: usize, chunk_overlap: usize) -> (gs: Vec<
    (usize, usize),
>)
    ensures
        group_views(gs@) == packed_groups(token_views(toks@), chunk_size as int, chunk_overlap as int),
{
    let ghost tv = token_views(toks@);
    let ghost size = chunk_size as int;
    let ghost ovl = chunk_overlap as int;
    let mut gs: Vec<(usize, usize)> = Vec::new();
    let mut lo: usize = 0;
    let mut cur: u128 = 0;
    let mut i: usize = 0;
    assert(tv.subrange(0, 0) =~= Seq::<int>::empty());
    assert(group_views(gs@) =~= Seq::<(int, int)>::empty());
    while i < toks.len()
        invariant
            i <= toks.len(),
            tv == token_views(toks@),
            size == chunk_size,
            ovl == chunk_overlap,
            lo <= i,
            pack_prefix(tv, i as nat, size, ovl).groups == group_views(gs@),
            pack_prefix(tv, i as nat, size, ovl).lo == lo,
            cur == token_sum(tv.subrange(lo as int, i as int)),
            cur <= (if size > ovl { size } else { ovl }) + usize::MAX,
        decreases toks.len() - i,
    {
        let ghost st = pack_prefix(tv, i as nat, size, ovl);
        assert(pack_prefix(tv, (i + 1) as nat, size, ovl) == pack_step(st, tv, i as int, size, ovl));
        let t = toks[i];
        if cur + (t as u128) > chunk_size as u128 && lo < i {
            let ghost old_gs = gs@;
            gs.push((lo, i));
            assert(group_views(gs@) =~= group_views(old_gs).push((lo as int, i as int)));
            let (k, ot) = overlap_count(toks, lo, i, chunk_overlap);
            lo = i - k;
            cur = ot;
        }
        proof {
            lemma_token_sum_push(tv, lo as int, i as int);
        }
        cur = cur + t as u128;
        i += 1;
    }
    if lo < toks.len() {
        let ghost old_gs = gs@;
        gs.push((lo, toks.len()));
        assert(group_views(gs@) =~= group_views(old_gs).push((lo as int, toks.len() as int)));
    }
    gs
}

/// The byte offset in `chars` of every character position `0..=len`.
pub fn byte_offsets(chars: &Vec<char>) -> (offs: Vec<usize>)
    requires
        text_bytes(chars@) <= usize::MAX,
    ensures
        offs@.len() == chars@.len() + 1,
        forall|k: int| 0 <= k <= chars@.len() ==> (#[trigger] offs@[k]) == text_bytes(chars@.take(k)),
{
    let mut offs: Vec<usize> = Vec::new();
    let mut b: usize = 0;
    let mut k: usize = 0;
    assert(encode_utf8(chars@.take(0)) =~= Seq::<u8>::empty());
    offs.push(0);
    while k < chars.len()
        invariant
            k <= chars@.len(),
            text_bytes(chars@) <= usize::MAX,
            offs@.len() == k + 1,
            b == text_bytes(chars@.take(k as int)),
            forall|j: int| 0 <= j <= k ==> (#[trigger] offs@[j]) == text_bytes(chars@.take(j)),
        decreases chars@.len() - k,
    {
        let one = string_of(chars, k, k + 1);
        let cb = utf8_len(one.as_str());
        proof {
            assert(chars@.take(k + 1) =~= chars@.take(k as int) + chars@.subrange(k as int, k + 1));
            lemma_text_bytes_concat(chars@.take(k as int), chars@.subrange(k as int, k + 1));
            lemma_slice_bytes(chars@, 0, k + 1);
        }
        b = b + cb;
        offs.push(b);
        k += 1;
    }
    offs
}

/// The chunks of the text `chars` (with byte offsets `offs`) for the unit
/// groups `gs` of units placed at `pos`.
pub fn place_chunks(
    chars: &Vec<char>,
    offs: &Vec<usize>,
    pos: &Vec<(usize, usize)>,
    gs: &Vec<(usize, usize)>,
) -> (chunks: Vec<ChunkCandidate>)
    requires
        offs@.len() == chars@.len() + 1,
        forall|k: int| 0 <= k <= chars@.len() ==> (#[trigger] offs@[k]) == text_bytes(chars@.take(k)),
        places_ok(pos@, chars@.len() as int),
        groups_ok(group_views(gs@), pos@.len() as int),
    ensures
        candidate_views(chunks@) == placed_chunks(chars@, pos@, group_views(gs@)),
{
    let ghost gv = group_views(gs@);
    let mut chunks: Vec<ChunkCandidate> = Vec::new();
    let mut i: usize = 0;
    while i < gs.len()
        invariant
            i <= gs@.len(),
            gv == group_views(gs@),
            offs@.len() == chars@.len() + 1,
            forall|k: int| 0 <= k <= chars@.len() ==> (#[trigger] offs@[k]) == text_bytes(chars@.take(k)),
            places_ok(pos@, chars@.len() as int),
            groups_ok(gv, pos@.len() as int),
            candidate_views(chunks@) == placed_chunks(chars@, pos@, gv.take(i as int)),
        decreases gs@.len() - i,
    {
        let (lo, hi) = gs[i];
        assert(gv[i as int] == (lo as int, hi as int));
        let s = pos[lo].0;
        let e = pos[hi - 1].1;
        assert(s <= e) by {
            if lo < hi - 1 {
                assert(pos@[lo as int].1 <= pos@[hi - 1].0);
            }
        }
        let text = string_of(chars, s, e);
        let ghost before = chunks@;
        chunks.push(ChunkCandidate { text, byte_range: offs[s]..offs[e] });
        assert(gv.take(i + 1) =~= gv.take(i as int).push(gv[i as int]));
        assert(candidate_views(chunks@) =~= candidate_views(before).push(
            placed_chunk(chars@, pos@, gv[i as int]),
        ));
        assert(placed_chunks(chars@, pos@, gv.take(i + 1)) =~= placed_chunks(
            chars@,
            pos@,
            gv.take(i as int),
        ).push(placed_chunk(chars@, pos@, gv[i as int])));
        i += 1;
    }
    assert(gv.take(gs@.len() as int) =~= gv);
    chunks
}


// ---------------------------------------------------------------------------
// Laws of packing.
/// Facts kept by every packing step over `n` units.
pub open spec fn groups_laid_out(st: PackState, n: int) -> bool {
    let gs = st.groups;
    &&& 0 <= st.lo <= n
    &&& forall|i: int| 0 <= i < gs.len() ==> 0 <= (#[trigger] gs[i]).0 < gs[i].1 <= n
    &&& gs.len() > 0 ==> gs[0].0 == 0
    &&& forall|i: int|
        0 <= i < gs.len() - 1 ==> (#[trigger] gs[i]).0 <= gs[i + 1].0 <= gs[i].1 < gs[i + 1].1
    &&& gs.len() > 0 ==> gs.last().0 <= st.lo <= gs.last().1 < n
    &&& gs.len() == 0 ==> st.lo == 0
}

proof fn lemma_pack_prefix_layout(ts: Seq<int>, n: nat, size: int, overlap: int)
    requires
        n <= ts.len(),
    ensures
        groups_laid_out(pack_prefix(ts, n, size, overlap), n as int),
        n > 0 ==> pack_prefix(ts, n, size, overlap).lo < n,
    decreases n,
{
    if n > 0 {
        let m = (n - 1) as nat;
        lemma_pack_prefix_layout(ts, m, size, overlap);
        let st = pack_prefix(ts, m, size, overlap);
        let cur = ts.subrange(st.lo, m as int);
        lemma_overlap_len_bounds(cur, overlap);
        let nxt = pack_step(st, ts, m as int, size, overlap);
        if token_sum(cur) + ts[m as int] > size && st.lo < m {
            let gs2 = st.groups.push((st.lo, m as int));
            assert(nxt.groups == gs2);
            assert forall|i: int| 0 <= i < gs2.len() - 1 implies (#[trigger] gs2[i]).0 <= gs2[i
                + 1].0 <= gs2[i].1 < gs2[i + 1].1 by {
                if i < gs2.len() - 2 {
                    assert(gs2[i] == st.groups[i] && gs2[i + 1] == st.groups[i + 1]);
                }
            }
            assert forall|i: int| 0 <= i < gs2.len() implies 0 <= (#[trigger] gs2[i]).0 < gs2[i].1
                <= n by {
                if i < gs2.len() - 1 {
                    assert(gs2[i] == st.groups[i]);
                }
            }
        }
    }
}

/// Chunk groups: each is a non-empty run of units, the first starts at the
/// first unit and the last ends at the last unit; each starts no earlier
/// than the previous one, ends later than it, and starts no later than its
/// end, so every unit lies in some chunk and consecutive chunks share at
/// most the overlap.
pub proof fn lemma_packed_groups(ts: Seq<int>, size: int, overlap: int)
    ensures
        ({
            let gs = packed_groups(ts, size, overlap);
            &&& forall|i: int| 0 <= i < gs.len() ==> 0 <= (#[trigger] gs[i]).0 < gs[i].1 <= ts.len()
            &&& gs.len() > 0 ==> gs[0].0 == 0 && gs.last().1 == ts.len()
            &&& forall|i: int|
                0 <= i < gs.len() - 1 ==> (#[trigger] gs[i]).0 <= gs[i + 1].0 <= gs[i].1 < gs[i + 1].1
            &&& ts.len() > 0 <==> gs.len() > 0
        }),
{
    let n = ts.len();
    lemma_pack_prefix_layout(ts, n, size, overlap);
    let st = pack_prefix(ts, n, size, overlap);
    if st.lo < n {
        let gs = st.groups.push((st.lo, n as int));
        assert forall|i: int| 0 <= i < gs.len() - 1 implies (#[trigger] gs[i]).0 <= gs[i + 1].0
            <= gs[i].1 < gs[i + 1].1 by {
            if i < gs.len() - 2 {
                assert(gs[i] == st.groups[i] && gs[i + 1] == st.groups[i + 1]);
            }
        }
        assert forall|i: int| 0 <= i < gs.len() implies 0 <= (#[trigger] gs[i]).0 < gs[i].1 <= n by {
            if i < gs.len() - 1 {
                assert(gs[i] == st.groups[i]);
            }
        }
    }
}

proof fn lemma_pack_prefix_tokens(ts: Seq<int>, n: nat, size: int, overlap: int)
    requires
        n <= ts.len(),
    ensures
        ({
            let st = pack_prefix(ts, n, size, overlap);
            &&& forall|i: int|
                0 <= i < st.groups.len() ==> token_sum(
                    ts.subrange((#[trigger] st.groups[i]).0, st.groups[i].1),
                ) + ts[st.groups[i].1] > size
            &&& (overlap == 0 && forall|k: int| 0 <= k < ts.len() ==> #[trigger] ts[k] > 0) ==> {
                &&& forall|i: int|
                    0 <= i < st.groups.len() && (#[trigger] st.groups[i]).1 - st.groups[i].0 >= 2
                        ==> token_sum(ts.subrange(st.groups[i].0, st.groups[i].1)) <= size
                &&& n - st.lo >= 2 ==> token_sum(ts.subrange(st.lo, n as int)) <= size
            }
        }),
    decreases n,
{
    lemma_pack_prefix_layout(ts, n, size, overlap);
    if n > 0 {
        let m = (n - 1) as nat;
        lemma_pack_prefix_tokens(ts, m, size, overlap);
        lemma_pack_prefix_layout(ts, m, size, overlap);
        let st = pack_prefix(ts, m, size, overlap);
        let cur = ts.subrange(st.lo, m as int);
        let nxt = pack_prefix(ts, n, size, overlap);
        assert(nxt == pack_step(st, ts, m as int, size, overlap));
        lemma_token_sum_push(ts, st.lo, m as int);
        if token_sum(cur) + ts[m as int] > size && st.lo < m {
            let gs2 = st.groups.push((st.lo, m as int));
            assert(nxt.groups == gs2);
            assert forall|i: int|
                0 <= i < gs2.len() implies token_sum(ts.subrange((#[trigger] gs2[i]).0, gs2[i].1))
                + ts[gs2[i].1] > size by {
                if i < st.groups.len() {
                    assert(gs2[i] == st.groups[i]);
                }
            }
            if overlap == 0 && forall|k: int| 0 <= k < ts.len() ==> #[trigger] ts[k] > 0 {
                assert(cur.last() == ts[m - 1]);
                assert(ts[m - 1] > 0);
                assert(overlap_len(cur, overlap) == 0);
                assert forall|i: int|
                    0 <= i < gs2.len() && (#[trigger] gs2[i]).1 - gs2[i].0 >= 2 implies token_sum(
                    ts.subrange(gs2[i].0, gs2[i].1),
                ) <= size by {
                    if i < st.groups.len() {
                        assert(gs2[i] == st.groups[i]);
                    }
                }
            }
        } else {
            assert(nxt == st);
        }
    }
}

/// Chunks respect the chunk size: every chunk but the last was closed
/// because the next unit would have pushed it over the size; and with no
/// overlap and units of at least one token each, a chunk of two or more
/// units never holds more tokens than the size (only a single unit larger
/// than the size makes a chunk that does).
pub proof fn lemma_packed_groups_respect_size(ts: Seq<int>, size: int, overlap: int)
    ensures
        ({
            let gs = packed_groups(ts, size, overlap);
            &&& forall|i: int|
                0 <= i < gs.len() - 1 ==> token_sum(ts.subrange((#[trigger] gs[i]).0, gs[i].1))
                    + ts[gs[i].1] > size
            &&& (overlap == 0 && forall|k: int| 0 <= k < ts.len() ==> #[trigger] ts[k] > 0) ==> forall|i: int|
                0 <= i < gs.len() && (#[trigger] gs[i]).1 - gs[i].0 >= 2 ==> token_sum(
                    ts.subrange(gs[i].0, gs[i].1),
                ) <= size
        }),
{
    let n = ts.len();
    lemma_pack_prefix_tokens(ts, n, size, overlap);
    lemma_pack_prefix_layout(ts, n, size, overlap);
    let st = pack_prefix(ts, n, size, overlap);
    let gs = packed_groups(ts, size, overlap);
    if st.lo < n {
        assert(gs == st.groups.push((st.lo, n as int)));
        assert forall|i: int| 0 <= i < gs.len() - 1 implies token_sum(
            ts.subrange((#[trigger] gs[i]).0, gs[i].1),
        ) + ts[gs[i].1] > size by {
            assert(gs[i] == st.groups[i]);
        }
        if overlap == 0 && forall|k: int| 0 <= k < ts.len() ==> #[trigger] ts[k] > 0 {
            assert forall|i: int| 0 <= i < gs.len() && (#[trigger] gs[i]).1 - gs[i].0 >= 2 implies token_sum(
                ts.subrange(gs[i].0, gs[i].1),
            ) <= size by {
                if i < st.groups.len() {
                    assert(gs[i] == st.groups[i]);
                }
            }
        }
    } else {
        assert(gs == st.groups);
    }
}

proof fn lemma_token_prefix(ts: Seq<int>, i: int)
    requires
        0 <= i <= ts.len(),
        forall|j: int| 0 <= j < ts.len() ==> 0 <= #[trigger] ts[j],
    ensures
        token_sum(ts.take(i)) <= token_sum(ts),
    decreases ts.len() - i,
{
    if i < ts.len() {
        lemma_token_prefix(ts, i + 1);
        assert(ts.take(i + 1).drop_last() =~= ts.take(i));
    } else {
        assert(ts.take(i) =~= ts);
    }
}

proof fn lemma_no_flush_prefix(ts: Seq<int>, size: int, overlap: int, i: nat)
    requires
        i <= ts.len(),
        forall|j: int| 0 <= j < ts.len() ==> 0 <= #[trigger] ts[j],
        token_sum(ts) <= size,
    ensures
        pack_prefix(ts, i, size, overlap).groups.len() == 0,
        pack_prefix(ts, i, size, overlap).lo == 0,
    decreases i,
{
    if i > 0 {
        let m = (i - 1) as nat;
        lemma_no_flush_prefix(ts, size, overlap, m);
        assert(ts.subrange(0, m as int) =~= ts.take(m as int));
        lemma_token_sum_push(ts, 0, m as int);
        assert(ts.subrange(0, i as int) =~= ts.take(i as int));
        lemma_token_prefix(ts, i as int);
    }
}

/// Units whose tokens all fit in one chunk give exactly one chunk, of all
/// of them.
pub proof fn lemma_fits_in_one_chunk(ts: Seq<int>, size: int, overlap: int)
    requires
        ts.len() > 0,
        forall|j: int| 0 <= j < ts.len() ==> 0 <= #[trigger] ts[j],
        token_sum(ts) <= size,
    ensures
        packed_groups(ts, size, overlap) == seq![(0int, ts.len() as int)],
{
    lemma_no_flush_prefix(ts, size, overlap, ts.len());
    assert(packed_groups(ts, size, overlap) =~= seq![(0int, ts.len() as int)]);
}

} // verus!
