//! The decisions of a hybrid search: when to search at all, which fused ids
//! to fetch, and how fetched chunks and document paths become hits.
use vstd::prelude::*;
use crate::fusion::{dedup_ids, distinct, first_occurrences, id_views, RrfScore};
use crate::models::Chunk;
use crate::text::{chars_of, is_blank, is_blank_range, string_views};

verus! {

/// A blank query is answered with no hits and no search.
pub fn is_blank_query(query: &str) -> (b: bool)
    ensures
        b == is_blank(query@),
{
    let v = chars_of(query);
    let b = is_blank_range(&v, 0, v.len());
    assert(v@.subrange(0, v@.len() as int) =~= v@);
    b
}

/// The ids of the first `limit` fused entries.
pub open spec fn fused_prefix(fused: Seq<(String, RrfScore)>, limit: int) -> Seq<Seq<char>> {
    let n = if limit < fused.len() {
        limit
    } else {
        fused.len() as int
    };
    Seq::new(n as nat, |i: int| fused[i].0@)
}

/// The ids of the first `limit` fused entries: the chunks to fetch.
pub fn fetch_ids(fused: &Vec<(String, RrfScore)>, limit: usize) -> (ids: Vec<String>)
    ensures
        string_views(ids@) == fused_prefix(fused@, limit as int),
{
    let n = if limit < fused.len() {
        limit
    } else {
        fused.len()
    };
    let mut ids: Vec<String> = Vec::new();
    let mut i: usize = 0;
    while i < n
        invariant
            i <= n,
            n <= fused.len(),
            n == (if limit < fused.len() { limit as int } else { fused.len() as int }),
            ids@.len() == i,
            forall|j: int| 0 <= j < i ==> (#[trigger] ids@[j])@ == fused@[j].0@,
        decreases n - i,
    {
        ids.push(fused[i].0.clone());
        i += 1;
    }
    assert(string_views(ids@) =~= fused_prefix(fused@, limit as int));
    ids
}

/// Index of the last chunk with id `id` (a later row shadows an earlier one,
/// as when rows are collected into a map), or -1.
pub open spec fn last_chunk(chunks: Seq<Chunk>, id: Seq<char>) -> int
    decreases chunks.len(),
{
    if chunks.len() == 0 {
        -1
    } else if chunks.last().id@ == id {
        chunks.len() - 1
    } else {
        last_chunk(chunks.drop_last(), id)
    }
}

proof fn lemma_last_chunk_range(chunks: Seq<Chunk>, id: Seq<char>)
    ensures
        -1 <= last_chunk(chunks, id) < chunks.len(),
        last_chunk(chunks, id) >= 0 ==> chunks[last_chunk(chunks, id)].id@ == id,
    decreases chunks.len(),
{
    if chunks.len() > 0 {
        lemma_last_chunk_range(chunks.drop_last(), id);
    }
}

fn find_chunk(chunks: &Vec<Chunk>, id: &String) -> (r: Option<usize>)
    ensures
        r is Some <==> last_chunk(chunks@, id@) >= 0,
        r is Some ==> r->0 == last_chunk(chunks@, id@) && r->0 < chunks@.len(),
{
    proof {
        lemma_last_chunk_range(chunks@, id@);
    }
    let mut i = chunks.len();
    assert(chunks@.take(i as int) =~= chunks@);
    while i > 0
        invariant
            i <= chunks.len(),
            last_chunk(chunks@, id@) == last_chunk(chunks@.take(i as int), id@),
        decreases i,
    {
        let ghost t = chunks@.take(i as int);
        assert(t.drop_last() =~= chunks@.take(i - 1));
        assert(t.last() == chunks@[i - 1]);
        if chunks[i - 1].id == *id {
            return Some(i - 1);
        }
        i -= 1;
    }
    None
}

/// A field-by-field copy of a chunk.
pub fn copy_chunk(c: &Chunk) -> (r: Chunk)
    ensures
        r == *c,
{
    Chunk {
        id: c.id.clone(),
        doc_id: c.doc_id.clone(),
        text: c.text.clone(),
        byte_range: c.byte_range.start..c.byte_range.end,
    }
}

/// For each id in order, the chunk stored under it, ids without a chunk left out.
pub open spec fn chunks_for_ids(ids: Seq<Seq<char>>, chunks: Seq<Chunk>) -> Seq<Chunk>
    decreases ids.len(),
{
    if ids.len() == 0 {
        Seq::empty()
    } else {
        let r = chunks_for_ids(ids.drop_last(), chunks);
        let k = last_chunk(chunks, ids.last());
        if k >= 0 {
            r.push(chunks[k])
        } else {
            r
        }
    }
}

/// The fetched chunks in the order of `ids`: what the reranker scores.
pub fn chunks_in_order(ids: &Vec<String>, chunks: &Vec<Chunk>) -> (r: Vec<Chunk>)
    ensures
        r@ == chunks_for_ids(string_views(ids@), chunks@),
{
    let ghost s = string_views(ids@);
    let mut r: Vec<Chunk> = Vec::new();
    let mut i: usize = 0;
    while i < ids.len()
        invariant
            i <= ids.len(),
            s == string_views(ids@),
            r@ == chunks_for_ids(s.take(i as int), chunks@),
        decreases ids.len() - i,
    {
        assert(s.take(i + 1).drop_last() =~= s.take(i as int));
        assert(s.take(i + 1).last() == ids@[i as int]@);
        match find_chunk(chunks, &ids[i]) {
            Some(k) => {
                r.push(copy_chunk(&chunks[k]));
            },
            None => {},
        }
        i += 1;
    }
    assert(s.take(ids.len() as int) =~= s);
    r
}

/// The documents the fetched chunks belong to, each once, in order of first mention.
pub fn distinct_doc_ids(chunks: &Vec<Chunk>) -> (ids: Vec<String>)
    ensures
        id_views(ids@) == first_occurrences(Seq::new(chunks@.len(), |i: int| chunks@[i].doc_id@)),
        distinct(id_views(ids@)),
{
    let mut all: Vec<String> = Vec::new();
    let mut i: usize = 0;
    while i < chunks.len()
        invariant
            i <= chunks.len(),
            all@.len() == i,
            forall|j: int| 0 <= j < i ==> (#[trigger] all@[j])@ == chunks@[j].doc_id@,
        decreases chunks.len() - i,
    {
        all.push(chunks[i].doc_id.clone());
        i += 1;
    }
    assert(id_views(all@) =~= Seq::new(chunks@.len(), |i: int| chunks@[i].doc_id@));
    dedup_ids(&all)
}

/// The path stored for a document (the last entry for it), or the empty path.
pub open spec fn path_for(paths: Seq<(String, String)>, doc_id: Seq<char>) -> Seq<char>
    decreases paths.len(),
{
    if paths.len() == 0 {
        Seq::empty()
    } else if paths.last().0@ == doc_id {
        paths.last().1@
    } else {
        path_for(paths.drop_last(), doc_id)
    }
}

fn find_path(paths: &Vec<(String, String)>, doc_id: &String) -> (p: String)
    ensures
        p@ == path_for(paths@, doc_id@),
{
    let mut i = paths.len();
    assert(paths@.take(i as int) =~= paths@);
    while i > 0
        invariant
            i <= paths.len(),
            path_for(paths@, doc_id@) == path_for(paths@.take(i as int), doc_id@),
        decreases i,
    {
        let ghost t = paths@.take(i as int);
        assert(t.drop_last() =~= paths@.take(i - 1));
        assert(t.last() == paths@[i - 1]);
        if paths[i - 1].0 == *doc_id {
            return paths[i - 1].1.clone();
        }
        i -= 1;
    }
    String::new()
}

/// A search hit before scores are attached: the chunk and its file's path.
#[derive(Debug)]
pub struct HitBase {
    pub chunk: Chunk,
    pub file_path: String,
}

/// The hits for `ids` in order: each id with a fetched chunk, paired with
/// the path of the chunk's document.
pub open spec fn hits_for(ids: Seq<Seq<char>>, chunks: Seq<Chunk>, paths: Seq<(String, String)>) -> Seq<
    (Chunk, Seq<char>),
>
    decreases ids.len(),
{
    if ids.len() == 0 {
        Seq::empty()
    } else {
        let r = hits_for(ids.drop_last(), chunks, paths);
        let k = last_chunk(chunks, ids.last());
        if k >= 0 {
            r.push((chunks[k], path_for(paths, chunks[k].doc_id@)))
        } else {
            r
        }
    }
}

/// The views of a list of hits.
pub open spec fn hit_views(h: Seq<HitBase>) -> Seq<(Chunk, Seq<char>)> {
    Seq::new(h.len(), |i: int| (h[i].chunk, h[i].file_path@))
}

/// Assemble the hits: the first `top_k` ids of the final order that have a
/// fetched chunk, in that order, each with its document's path.
pub fn assemble_hits(
    ordered: &Vec<String>,
    top_k: usize,
    chunks: &Vec<Chunk>,
    paths: &Vec<(String, String)>,
) -> (hits: Vec<HitBase>)
    ensures
        hit_views(hits@) == hits_for(
            string_views(ordered@).take(if top_k < ordered@.len() { top_k as int } else { ordered@.len() as int }),
            chunks@,
            paths@,
        ),
{
    let n = if top_k < ordered.len() {
        top_k
    } else {
        ordered.len()
    };
    let ghost s = string_views(ordered@);
    let mut hits: Vec<HitBase> = Vec::new();
    let mut i: usize = 0;
    while i < n
        invariant
            i <= n <= ordered.len(),
            s == string_views(ordered@),
            hit_views(hits@) == hits_for(s.take(i as int), chunks@, paths@),
        decreases n - i,
    {
        assert(s.take(i + 1).drop_last() =~= s.take(i as int));
        assert(s.take(i + 1).last() == ordered@[i as int]@);
        match find_chunk(chunks, &ordered[i]) {
            Some(k) => {
                let c = copy_chunk(&chunks[k]);
                let p = find_path(paths, &c.doc_id);
                let ghost old_h = hits@;
                hits.push(HitBase { chunk: c, file_path: p });
                assert(hit_views(hits@) =~= hit_views(old_h).push((chunks@[k as int], p@)));
            },
            None => {},
        }
        i += 1;
    }
    hits
}


/// There are never more hits than ids asked for, and every hit is a fetched
/// chunk stored under one of those ids.
pub proof fn lemma_hits_bounded(ids: Seq<Seq<char>>, chunks: Seq<Chunk>, paths: Seq<(String, String)>)
    ensures
        hits_for(ids, chunks, paths).len() <= ids.len(),
        forall|i: int|
            0 <= i < hits_for(ids, chunks, paths).len() ==> {
                let h = #[trigger] hits_for(ids, chunks, paths)[i];
                &&& chunks.contains(h.0)
                &&& ids.contains(h.0.id@)
            },
    decreases ids.len(),
{
    if ids.len() > 0 {
        let t = ids.drop_last();
        lemma_hits_bounded(t, chunks, paths);
        lemma_last_chunk_range(chunks, ids.last());
        let r = hits_for(ids, chunks, paths);
        let rt = hits_for(t, chunks, paths);
        assert forall|i: int| 0 <= i < r.len() implies {
            let h = #[trigger] r[i];
            &&& chunks.contains(h.0)
            &&& ids.contains(h.0.id@)
        } by {
            if i < rt.len() {
                assert(r[i] == rt[i]);
                assert(t.contains(rt[i].0.id@));
                let j = choose|j: int| 0 <= j < t.len() && t[j] == rt[i].0.id@;
                assert(ids[j] == t[j]);
            } else {
                let k = last_chunk(chunks, ids.last());
                assert(r[i].0 == chunks[k]);
                assert(ids[ids.len() - 1] == ids.last());
            }
        }
    }
}

/// The ids that have a fetched chunk, in order.
pub open spec fn fetched(ids: Seq<Seq<char>>, chunks: Seq<Chunk>) -> Seq<Seq<char>> {
    ids.filter(has_chunk(chunks))
}

/// Whether an id has a fetched chunk.
pub open spec fn has_chunk(chunks: Seq<Chunk>) -> spec_fn(Seq<char>) -> bool {
    |id: Seq<char>| last_chunk(chunks, id) >= 0
}

/// No fetched id is lost: there is one hit for every id that has a fetched
/// chunk, in the ids' order (whatever documents the chunks belong to), and
/// the hit is that id's chunk with its document's path.
pub proof fn lemma_hit_per_fetched_id(ids: Seq<Seq<char>>, chunks: Seq<Chunk>, paths: Seq<(String, String)>)
    ensures
        hits_for(ids, chunks, paths).len() == fetched(ids, chunks).len(),
        forall|i: int|
            0 <= i < hits_for(ids, chunks, paths).len() ==> {
                let h = #[trigger] hits_for(ids, chunks, paths)[i];
                &&& h.0.id@ == fetched(ids, chunks)[i]
                &&& h.0 == chunks[last_chunk(chunks, fetched(ids, chunks)[i])]
                &&& h.1 == path_for(paths, h.0.doc_id@)
            },
    decreases ids.len(),
{
    if ids.len() > 0 {
        let t = ids.drop_last();
        lemma_hit_per_fetched_id(t, chunks, paths);
        lemma_last_chunk_range(chunks, ids.last());
        let h = hits_for(ids, chunks, paths);
        let ht = hits_for(t, chunks, paths);
        let f = fetched(ids, chunks);
        let ft = fetched(t, chunks);
        let p = has_chunk(chunks);
        assert(p(ids.last()) == (last_chunk(chunks, ids.last()) >= 0));
        assert(f == (if p(ids.last()) { t.filter(p).push(ids.last()) } else { t.filter(p) })) by {
            reveal(Seq::filter);
        }
        assert(f == (if last_chunk(chunks, ids.last()) >= 0 { ft.push(ids.last()) } else { ft }));
        assert forall|i: int| 0 <= i < h.len() implies {
            let x = #[trigger] h[i];
            &&& x.0.id@ == f[i]
            &&& x.0 == chunks[last_chunk(chunks, f[i])]
            &&& x.1 == path_for(paths, x.0.doc_id@)
        } by {
            if i < ht.len() {
                assert(h[i] == ht[i]);
                assert(f[i] == ft[i]);
            }
        }
    }
}

} // verus!
