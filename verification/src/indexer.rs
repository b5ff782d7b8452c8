//! Incremental indexing decisions: which files changed, what a changed file
//! turns into, which stored documents disappeared, and how prepared files
//! are grouped into embedding batches.
use vstd::prelude::*;
use crate::hashing::{sha256_hex, sha256_hex_of};
use crate::models::{Chunk, ChunkCandidate, Document, DocumentSource};
use crate::text::{contains_string, has_prefix, string_views, strings_contain, utf8_len};
use crate::merge::text_bytes;
use vstd::string::*;
use crate::traits::{Chunker, WordSegmenter};

verus! {

/// Chunks buffered before a batch is embedded and written.
pub const EMBED_BATCH_SIZE: usize = 500;

/// Counters reported by an indexing run.
#[derive(Debug, Clone, Copy, PartialEq, Eq, Structural)]
pub struct IndexStats {
    pub files_indexed: usize,
    pub files_skipped: usize,
    pub files_removed: usize,
    pub chunks_indexed: usize,
}

/// The four counters of `s`, as integers.
pub open spec fn counts(s: IndexStats) -> (int, int, int, int) {
    (s.files_indexed as int, s.files_skipped as int, s.files_removed as int, s.chunks_indexed as int)
}

/// Counter-wise sum.
pub open spec fn add_counts(a: (int, int, int, int), b: (int, int, int, int)) -> (int, int, int, int) {
    (a.0 + b.0, a.1 + b.1, a.2 + b.2, a.3 + b.3)
}

/// No counter of `a + b` leaves `usize`.
pub open spec fn merge_fits(a: IndexStats, b: IndexStats) -> bool {
    &&& a.files_indexed + b.files_indexed <= usize::MAX
    &&& a.files_skipped + b.files_skipped <= usize::MAX
    &&& a.files_removed + b.files_removed <= usize::MAX
    &&& a.chunks_indexed + b.chunks_indexed <= usize::MAX
}

impl Default for IndexStats {
    fn default() -> (s: IndexStats)
        ensures
            counts(s) == (0int, 0int, 0int, 0int),
    {
        IndexStats { files_indexed: 0, files_skipped: 0, files_removed: 0, chunks_indexed: 0 }
    }
}

impl IndexStats {
    /// All counters zero.
    pub fn zero() -> (s: IndexStats)
        ensures
            counts(s) == (0int, 0int, 0int, 0int),
    {
        IndexStats { files_indexed: 0, files_skipped: 0, files_removed: 0, chunks_indexed: 0 }
    }

    /// The result for a single file that was left alone.
    pub fn one_skipped() -> (s: IndexStats)
        ensures
            counts(s) == (0int, 1int, 0int, 0int),
    {
        IndexStats { files_indexed: 0, files_skipped: 1, files_removed: 0, chunks_indexed: 0 }
    }

    /// Add `other`'s counters to this one's.
    pub fn merge(&mut self, other: &IndexStats)
        requires
            merge_fits(*old(self), *other),
        ensures
            counts(*final(self)) == add_counts(counts(*old(self)), counts(*other)),
    {
        self.files_indexed = self.files_indexed + other.files_indexed;
        self.files_skipped = self.files_skipped + other.files_skipped;
        self.files_removed = self.files_removed + other.files_removed;
        self.chunks_indexed = self.chunks_indexed + other.chunks_indexed;
    }
}

/// Merging all-zero counters changes nothing.
pub proof fn lemma_merge_zero_identity(a: IndexStats, z: IndexStats)
    requires
        counts(z) == (0int, 0int, 0int, 0int),
    ensures
        add_counts(counts(a), counts(z)) == counts(a),
        add_counts(counts(z), counts(a)) == counts(a),
{
}

/// Merging in either order gives the same counters.
pub proof fn lemma_merge_commutes(a: IndexStats, b: IndexStats)
    ensures
        add_counts(counts(a), counts(b)) == add_counts(counts(b), counts(a)),
{
}

/// Merging three results gives the same counters however it is grouped.
pub proof fn lemma_merge_associates(a: IndexStats, b: IndexStats, c: IndexStats)
    ensures
        add_counts(add_counts(counts(a), counts(b)), counts(c)) == add_counts(
            counts(a),
            add_counts(counts(b), counts(c)),
        ),
{
}

/// Counter-wise sum of a list of results.
pub open spec fn total_counts(s: Seq<IndexStats>) -> (int, int, int, int)
    decreases s.len(),
{
    if s.len() == 0 {
        (0, 0, 0, 0)
    } else {
        add_counts(total_counts(s.drop_last()), counts(s.last()))
    }
}

/// The counters of every prefix of `s` fit in `usize`.
pub open spec fn totals_fit(s: Seq<IndexStats>) -> bool {
    forall|n: int|
        0 <= n <= s.len() ==> {
            let t = #[trigger] total_counts(s.take(n));
            &&& t.0 <= usize::MAX
            &&& t.1 <= usize::MAX
            &&& t.2 <= usize::MAX
            &&& t.3 <= usize::MAX
        }
}

/// The merged counters of several indexing runs (one per collection).
pub fn merge_all(results: &Vec<IndexStats>) -> (total: IndexStats)
    requires
        totals_fit(results@),
    ensures
        counts(total) == total_counts(results@),
{
    let mut total = IndexStats::zero();
    let mut i: usize = 0;
    while i < results.len()
        invariant
            i <= results.len(),
            totals_fit(results@),
            counts(total) == total_counts(results@.take(i as int)),
        decreases results.len() - i,
    {
        assert(results@.take(i + 1).drop_last() =~= results@.take(i as int));
        let ghost t = total_counts(results@.take(i + 1));
        assert(t.0 <= usize::MAX && t.1 <= usize::MAX && t.2 <= usize::MAX && t.3 <= usize::MAX);
        total.merge(&results[i]);
        i += 1;
    }
    assert(results@.take(results.len() as int) =~= results@);
    total
}


/// Index of the last stored document with id `id`, or -1 (a later entry
/// shadows an earlier one, as when rows are collected into a map).
pub open spec fn last_with_id(docs: Seq<Document>, id: Seq<char>) -> int
    decreases docs.len(),
{
    if docs.len() == 0 {
        -1
    } else if docs.last().id@ == id {
        docs.len() - 1
    } else {
        last_with_id(docs.drop_last(), id)
    }
}

proof fn lemma_last_with_id_range(docs: Seq<Document>, id: Seq<char>)
    ensures
        -1 <= last_with_id(docs, id) < docs.len(),
        last_with_id(docs, id) >= 0 ==> docs[last_with_id(docs, id)].id@ == id,
        last_with_id(docs, id) == -1 ==> forall|i: int| 0 <= i < docs.len() ==> #[trigger] docs[i].id@ != id,
    decreases docs.len(),
{
    if docs.len() > 0 {
        lemma_last_with_id_range(docs.drop_last(), id);
        if docs.last().id@ != id {
            assert forall|i: int| 0 <= i < docs.len() - 1 implies #[trigger] docs[i] == docs.drop_last()[i] by {}
        }
    }
}

/// How a file relates to what is stored.
#[derive(Debug, Clone, Copy, PartialEq, Eq, Structural)]
pub enum FileChange {
    /// No document with this id is stored.
    New,
    /// A document is stored but its content hash differs.
    Changed,
    /// A document with the same content hash is stored.
    Unchanged,
}

/// The change status of document `doc_id` whose content hashes to `content_hash`.
pub open spec fn file_change(docs: Seq<Document>, doc_id: Seq<char>, content_hash: Seq<char>) -> FileChange {
    let k = last_with_id(docs, doc_id);
    if k < 0 {
        FileChange::New
    } else if docs[k].content_hash@ == content_hash {
        FileChange::Unchanged
    } else {
        FileChange::Changed
    }
}

/// Classify a file against the stored documents.
pub fn classify(docs: &Vec<Document>, doc_id: &String, content_hash: &String) -> (c: FileChange)
    ensures
        c == file_change(docs@, doc_id@, content_hash@),
{
    proof {
        lemma_last_with_id_range(docs@, doc_id@);
    }
    let mut i = docs.len();
    assert(docs@.take(i as int) =~= docs@);
    while i > 0
        invariant
            i <= docs.len(),
            last_with_id(docs@, doc_id@) == last_with_id(docs@.take(i as int), doc_id@),
        decreases i,
    {
        let ghost t = docs@.take(i as int);
        assert(t.drop_last() =~= docs@.take(i - 1));
        assert(t.last() == docs@[i - 1]);
        if docs[i - 1].id == *doc_id {
            if docs[i - 1].content_hash == *content_hash {
                return FileChange::Unchanged;
            } else {
                return FileChange::Changed;
            }
        }
        i -= 1;
    }
    FileChange::New
}

/// A file that changed, ready to be embedded and written.
#[derive(Debug)]
pub struct PendingFile {
    pub path: String,
    pub doc: Document,
    pub chunks: Vec<Chunk>,
    pub chunk_texts: Vec<String>,
    pub tokenized_texts: Vec<String>,
    /// Whether an older version is stored and its chunks must go first.
    pub is_update: bool,
}

/// `chunks` are `cands`, addressed by the hash of their text and tagged with `doc_id`.
pub open spec fn chunks_addressed(chunks: Seq<Chunk>, cands: Seq<ChunkCandidate>, doc_id: Seq<char>) -> bool {
    &&& chunks.len() == cands.len()
    &&& forall|i: int|
        0 <= i < chunks.len() ==> {
            &&& (#[trigger] chunks[i]).id@ == sha256_hex_of(cands[i].text@)
            &&& chunks[i].doc_id@ == doc_id
            &&& chunks[i].text@ == cands[i].text@
            &&& chunks[i].byte_range.start == cands[i].byte_range.start
            &&& chunks[i].byte_range.end == cands[i].byte_range.end
        }
}

/// `pf` is what a file at `path` with `content` becomes, given the chunker's
/// candidates and the segmenter's output for each candidate.
pub open spec fn pending_built(
    pf: PendingFile,
    path: Seq<char>,
    content: Seq<char>,
    cands: Seq<ChunkCandidate>,
    tokenized: Seq<String>,
    is_update: bool,
) -> bool {
    let doc_id = sha256_hex_of(path);
    &&& pf.path@ == path
    &&& pf.doc.id@ == doc_id
    &&& pf.doc.file_path@ == path
    &&& pf.doc.content_hash@ == sha256_hex_of(content)
    &&& pf.doc.content_size == text_bytes(content)
    &&& chunks_addressed(pf.chunks@, cands, doc_id)
    &&& pf.chunk_texts@.len() == cands.len()
    &&& forall|i: int| 0 <= i < cands.len() ==> (#[trigger] pf.chunk_texts@[i])@ == cands[i].text@
    &&& pf.tokenized_texts@ == tokenized
    &&& pf.is_update == is_update
}

/// Assemble the pending file for `path`/`content` from its chunk candidates,
/// their segmented texts and the index timestamp.
pub fn build_pending(
    path: &str,
    content: &str,
    cands: &Vec<ChunkCandidate>,
    tokenized: Vec<String>,
    is_update: bool,
    indexed_at: String,
) -> (pf: PendingFile)
    requires
        tokenized@.len() == cands@.len(),
    ensures
        pending_built(pf, path@, content@, cands@, tokenized@, is_update),
        pf.doc.indexed_at@ == indexed_at@,
{
    let doc_id = sha256_hex(path);
    let content_hash = sha256_hex(content);
    let mut chunks: Vec<Chunk> = Vec::new();
    let mut chunk_texts: Vec<String> = Vec::new();
    let mut i: usize = 0;
    while i < cands.len()
        invariant
            i <= cands.len(),
            doc_id@ == sha256_hex_of(path@),
            chunks@.len() == i,
            chunk_texts@.len() == i,
            chunks_addressed(chunks@, cands@.take(i as int), doc_id@),
            forall|j: int| 0 <= j < i ==> (#[trigger] chunk_texts@[j])@ == cands@[j].text@,
        decreases cands.len() - i,
    {
        let c = &cands[i];
        let id = sha256_hex(c.text.as_str());
        let chunk = Chunk {
            id,
            doc_id: doc_id.clone(),
            text: c.text.clone(),
            byte_range: c.byte_range.start..c.byte_range.end,
        };
        chunks.push(chunk);
        chunk_texts.push(c.text.clone());
        proof {
            assert forall|j: int| 0 <= j < i + 1 implies #[trigger] cands@.take(i + 1)[j] == cands@[j] by {}
        }
        i += 1;
    }
    assert(cands@.take(cands.len() as int) =~= cands@);
    let content_size = utf8_len(content);
    let doc = Document {
        id: doc_id,
        file_path: path.to_string(),
        content_hash,
        content_size,
        indexed_at,
    };
    PendingFile {
        path: path.to_string(),
        doc,
        chunks,
        chunk_texts,
        tokenized_texts: tokenized,
        is_update,
    }
}


/// A different version of the file at `path` is stored.
pub open spec fn stored_changed(docs: Seq<Document>, path: Seq<char>, content: Seq<char>) -> bool {
    file_change(docs, sha256_hex_of(path), sha256_hex_of(content)) == FileChange::Changed
}

/// Calls `chrono::Utc::now` and renders it with `to_rfc3339`. Nothing is
/// claimed of the result: it is the wall-clock time.
#[verifier::external_body]
fn utc_now_rfc3339() -> String {
    chrono::Utc::now().to_rfc3339()
}

/// `out` is what `segmenter` may give for the text `text`.
pub open spec fn segment_gives<S: WordSegmenter + ?Sized>(segmenter: &S, text: Seq<char>, out: String) -> bool {
    exists|t: &str| t@ == text && #[trigger] call_ensures(S::segment, (segmenter, t), out)
}

/// `tok` holds what `segmenter` gave for the text of each candidate.
pub open spec fn segmented<S: WordSegmenter + ?Sized>(
    segmenter: &S,
    cands: Seq<ChunkCandidate>,
    tok: Seq<String>,
) -> bool {
    &&& tok.len() == cands.len()
    &&& forall|i: int|
        0 <= i < cands.len() ==> #[trigger] segment_gives(segmenter, cands[i].text@, tok[i])
}

/// Hash the file, skip it when its stored version has the same content,
/// chunk it, skip it when it yields no chunk, and otherwise build the
/// pending file (stamped with the current time).
pub fn prepare_file<C: Chunker + ?Sized, S: WordSegmenter + ?Sized>(
    chunker: &C,
    segmenter: &S,
    path: &str,
    content: &str,
    existing: &Vec<Document>,
) -> (r: Option<PendingFile>)
    ensures
        file_change(existing@, sha256_hex_of(path@), sha256_hex_of(content@))
            == FileChange::Unchanged ==> r is None,
        r is None ==> file_change(existing@, sha256_hex_of(path@), sha256_hex_of(content@))
            == FileChange::Unchanged || exists|cs: Vec<ChunkCandidate>|
            #[trigger] call_ensures(C::chunk, (chunker, content), cs) && cs@.len() == 0,
        r is Some ==> exists|cs: Vec<ChunkCandidate>, tok: Seq<String>|
            call_ensures(C::chunk, (chunker, content), cs) && cs@.len() > 0 && segmented(
                segmenter,
                cs@,
                tok,
            ) && #[trigger] pending_built(
                r->0,
                path@,
                content@,
                cs@,
                tok,
                stored_changed(existing@, path@, content@),
            ),
{
    let content_hash = sha256_hex(content);
    let doc_id = sha256_hex(path);
    let change = classify(existing, &doc_id, &content_hash);
    if change == FileChange::Unchanged {
        return None;
    }
    let cands = chunker.chunk(content);
    assert(call_ensures(C::chunk, (chunker, content), cands));
    let is_update = change == FileChange::Changed;
    assert(is_update == stored_changed(existing@, path@, content@));
    pending_from_chunks(segmenter, path, content, &cands, is_update)
}

/// The pending file for `path`/`content` chunked into `cands`: none when
/// there is no chunk; otherwise each chunk text is segmented and the file is
/// stamped with the current time.
pub fn pending_from_chunks<S: WordSegmenter + ?Sized>(
    segmenter: &S,
    path: &str,
    content: &str,
    cands: &Vec<ChunkCandidate>,
    is_update: bool,
) -> (r: Option<PendingFile>)
    ensures
        r is None <==> cands@.len() == 0,
        r is Some ==> exists|tok: Seq<String>|
            segmented(segmenter, cands@, tok) && #[trigger] pending_built(
                r->0,
                path@,
                content@,
                cands@,
                tok,
                is_update,
            ),
{
    if cands.len() == 0 {
        return None;
    }
    let mut tokenized: Vec<String> = Vec::new();
    let mut i: usize = 0;
    while i < cands.len()
        invariant
            i <= cands.len(),
            segmented(segmenter, cands@.take(i as int), tokenized@),
        decreases cands.len() - i,
    {
        let t = cands[i].text.as_str();
        let seg = segmenter.segment(t);
        assert(call_ensures(S::segment, (segmenter, t), seg));
        assert(segment_gives(segmenter, cands@[i as int].text@, seg));
        let ghost before = tokenized@;
        tokenized.push(seg);
        proof {
            let c2 = cands@.take(i + 1);
            assert forall|j: int| 0 <= j < c2.len() implies #[trigger] segment_gives(
                segmenter,
                c2[j].text@,
                tokenized@[j],
            ) by {
                if j < i {
                    assert(c2[j] == cands@.take(i as int)[j]);
                    assert(tokenized@[j] == before[j]);
                } else {
                    assert(c2[j] == cands@[i as int]);
                    assert(tokenized@[j] == seg);
                }
            }
        }
        i += 1;
    }
    assert(cands@.take(cands.len() as int) =~= cands@);
    let indexed_at = utc_now_rfc3339();
    let ghost tok = tokenized@;
    let pf = build_pending(path, content, cands, tokenized, is_update, indexed_at);
    assert(pending_built(pf, path@, content@, cands@, tok, is_update));
    let r = Some(pf);
    assert(r->0 == pf);
    r
}

/// The ids under which the read files are stored.
pub open spec fn source_ids(sources: Seq<DocumentSource>) -> Seq<Seq<char>> {
    Seq::new(sources.len(), |i: int| sha256_hex_of(sources[i].path@))
}

/// The document ids of the files just read.
pub fn current_doc_ids(sources: &Vec<DocumentSource>) -> (ids: Vec<String>)
    ensures
        ids@.len() == sources@.len(),
        forall|i: int| 0 <= i < ids@.len() ==> (#[trigger] ids@[i])@ == source_ids(sources@)[i],
{
    let mut ids: Vec<String> = Vec::new();
    let mut i: usize = 0;
    while i < sources.len()
        invariant
            i <= sources.len(),
            ids@.len() == i,
            forall|j: int| 0 <= j < i ==> (#[trigger] ids@[j])@ == source_ids(sources@)[j],
        decreases sources.len() - i,
    {
        ids.push(sha256_hex(sources[i].path.as_str()));
        i += 1;
    }
    ids
}


/// Ids of the stored documents under `prefix` that are no longer among the
/// files just read, in stored order.
pub open spec fn removed_ids(docs: Seq<Document>, current: Seq<String>, prefix: Seq<char>) -> Seq<
    Seq<char>,
>
    decreases docs.len(),
{
    if docs.len() == 0 {
        Seq::empty()
    } else {
        let rest = removed_ids(docs.drop_last(), current, prefix);
        let d = docs.last();
        if !strings_contain(current, d.id@) && prefix.is_prefix_of(d.file_path@) {
            rest.push(d.id@)
        } else {
            rest
        }
    }
}

/// The stored documents to delete after a directory under `dir_prefix` was
/// read: those whose path lies under it and whose id is not in `current_ids`.
pub fn select_removed(dir_prefix: &str, current_ids: &Vec<String>, docs: &Vec<Document>) -> (gone:
    Vec<String>)
    ensures
        string_views(gone@) == removed_ids(docs@, current_ids@, dir_prefix@),
{
    let mut gone: Vec<String> = Vec::new();
    let mut i: usize = 0;
    while i < docs.len()
        invariant
            i <= docs.len(),
            string_views(gone@) == removed_ids(docs@.take(i as int), current_ids@, dir_prefix@),
        decreases docs.len() - i,
    {
        let d = &docs[i];
        assert(docs@.take(i + 1).drop_last() =~= docs@.take(i as int));
        assert(docs@.take(i + 1).last() == docs@[i as int]);
        if !contains_string(current_ids, &d.id) && has_prefix(d.file_path.as_str(), dir_prefix) {
            gone.push(d.id.clone());
        }
        assert(string_views(gone@) =~= removed_ids(docs@.take(i + 1), current_ids@, dir_prefix@));
        i += 1;
    }
    assert(docs@.take(docs.len() as int) =~= docs@);
    gone
}


/// Prepared files waiting for one embedding call, with the run's counters.
pub struct Batcher {
    pub pending: Vec<PendingFile>,
    /// Chunks held by `pending`.
    pub pending_chunks: usize,
    pub stats: IndexStats,
}

impl Batcher {
    /// An empty batch and zero counters.
    pub fn new() -> (b: Batcher)
        ensures
            b.pending@.len() == 0,
            b.pending_chunks == 0,
            counts(b.stats) == (0int, 0int, 0int, 0int),
    {
        Batcher { pending: Vec::new(), pending_chunks: 0, stats: IndexStats::zero() }
    }

    /// Record how many stored documents were removed.
    pub fn record_removed(&mut self, removed: usize)
        ensures
            final(self).pending@ == old(self).pending@,
            final(self).pending_chunks == old(self).pending_chunks,
            counts(final(self).stats) == (
                old(self).stats.files_indexed as int,
                old(self).stats.files_skipped as int,
                removed as int,
                old(self).stats.chunks_indexed as int,
            ),
    {
        self.stats.files_removed = removed;
    }

    /// Take in the outcome of preparing one file: a skipped file is counted,
    /// a prepared one joins the batch. Returns whether the batch has reached
    /// `EMBED_BATCH_SIZE` chunks and must be flushed now.
    pub fn offer(&mut self, prepared: Option<PendingFile>) -> (flush_now: bool)
        requires
            prepared is None ==> old(self).stats.files_skipped < usize::MAX,
            prepared is Some ==> old(self).pending_chunks + prepared->0.chunks@.len() <= usize::MAX,
        ensures
            prepared is None ==> {
                &&& final(self).pending@ == old(self).pending@
                &&& final(self).pending_chunks == old(self).pending_chunks
                &&& counts(final(self).stats) == add_counts(
                    counts(old(self).stats),
                    (0int, 1int, 0int, 0int),
                )
                &&& !flush_now
            },
            prepared is Some ==> {
                &&& final(self).pending@ == old(self).pending@.push(prepared->0)
                &&& final(self).pending_chunks == old(self).pending_chunks + prepared->0.chunks@.len()
                &&& final(self).stats == old(self).stats
                &&& flush_now == (final(self).pending_chunks >= EMBED_BATCH_SIZE)
            },
    {
        match prepared {
            Some(pf) => {
                self.pending_chunks = self.pending_chunks + pf.chunks.len();
                self.pending.push(pf);
                self.pending_chunks >= EMBED_BATCH_SIZE
            },
            None => {
                self.stats.files_skipped = self.stats.files_skipped + 1;
                false
            },
        }
    }

    /// Hand the batch over for flushing and start an empty one.
    pub fn take_batch(&mut self) -> (batch: Vec<PendingFile>)
        ensures
            batch@ == old(self).pending@,
            final(self).pending@.len() == 0,
            final(self).pending_chunks == 0,
            final(self).stats == old(self).stats,
    {
        let mut batch: Vec<PendingFile> = Vec::new();
        std::mem::swap(&mut batch, &mut self.pending);
        self.pending_chunks = 0;
        batch
    }

    /// Count the files and chunks a flush wrote.
    pub fn record_flush(&mut self, flushed: &IndexStats)
        requires
            old(self).stats.files_indexed + flushed.files_indexed <= usize::MAX,
            old(self).stats.chunks_indexed + flushed.chunks_indexed <= usize::MAX,
        ensures
            final(self).pending@ == old(self).pending@,
            final(self).pending_chunks == old(self).pending_chunks,
            counts(final(self).stats) == add_counts(
                counts(old(self).stats),
                (flushed.files_indexed as int, 0int, 0int, flushed.chunks_indexed as int),
            ),
    {
        self.stats.files_indexed = self.stats.files_indexed + flushed.files_indexed;
        self.stats.chunks_indexed = self.stats.chunks_indexed + flushed.chunks_indexed;
    }
}

/// Total number of chunks of the pending files.
pub open spec fn chunk_total(p: Seq<PendingFile>) -> int
    decreases p.len(),
{
    if p.len() == 0 {
        0
    } else {
        chunk_total(p.drop_last()) + p.last().chunks@.len()
    }
}

proof fn lemma_chunk_total_prefix(p: Seq<PendingFile>, k: int)
    requires
        0 <= k <= p.len(),
    ensures
        0 <= chunk_total(p.take(k)) <= chunk_total(p),
    decreases p.len(),
{
    if p.len() > 0 {
        if k == p.len() {
            assert(p.take(k) =~= p);
            lemma_chunk_total_prefix(p.drop_last(), p.len() - 1);
            assert(p.drop_last().take(p.len() - 1) =~= p.drop_last());
        } else {
            lemma_chunk_total_prefix(p.drop_last(), k);
            assert(p.drop_last().take(k) =~= p.take(k));
        }
    }
}

/// The chunk texts of all pending files, file after file.
pub open spec fn all_chunk_texts(p: Seq<PendingFile>) -> Seq<Seq<char>>
    decreases p.len(),
{
    if p.len() == 0 {
        Seq::empty()
    } else {
        all_chunk_texts(p.drop_last()) + string_views(p.last().chunk_texts@)
    }
}

/// The storage writes for one file of a flushed batch.
pub struct FileWrite {
    pub path: String,
    pub doc: Document,
    /// Whether the file's old chunks are deleted before the new ones are added.
    pub delete_old_chunks: bool,
    pub chunks: Vec<Chunk>,
    pub chunk_ids: Vec<String>,
    pub tokenized_texts: Vec<String>,
    /// Index of this file's first embedding in the batch's embeddings.
    pub first: usize,
    /// Number of embeddings (and chunks) of this file.
    pub count: usize,
}

/// What one embedding call and the per-file transactions of a batch use.
pub struct FlushPlan {
    /// Every chunk text of the batch, in order: the input of the embedding call.
    pub texts: Vec<String>,
    pub writes: Vec<FileWrite>,
    /// Files and chunks written once every transaction commits.
    pub stats: IndexStats,
}

/// `w` writes `pf`, whose embeddings start at `first`.
pub open spec fn write_of(w: FileWrite, pf: PendingFile, first: int) -> bool {
    &&& w.path == pf.path
    &&& w.doc == pf.doc
    &&& w.delete_old_chunks == pf.is_update
    &&& w.chunks@ == pf.chunks@
    &&& w.chunk_ids@.len() == pf.chunks@.len()
    &&& forall|k: int| 0 <= k < pf.chunks@.len() ==> (#[trigger] w.chunk_ids@[k])@ == pf.chunks@[k].id@
    &&& w.tokenized_texts@ == pf.tokenized_texts@
    &&& w.first == first
    &&& w.count == pf.chunks@.len()
}

/// Lay out a batch: the texts to embed in one call and, for each file in
/// order, its writes and the slice of embeddings that belongs to it.
pub fn plan_flush(pending: Vec<PendingFile>) -> (plan: FlushPlan)
    requires
        chunk_total(pending@) <= usize::MAX,
    ensures
        string_views(plan.texts@) == all_chunk_texts(pending@),
        plan.writes@.len() == pending@.len(),
        forall|i: int|
            0 <= i < pending@.len() ==> write_of(
                #[trigger] plan.writes@[i],
                pending@[i],
                chunk_total(pending@.take(i)),
            ),
        counts(plan.stats) == (pending@.len() as int, 0int, 0int, chunk_total(pending@)),
{
    let ghost orig = pending@;
    let n = pending.len();
    let mut pending = pending;
    let mut texts: Vec<String> = Vec::new();
    let mut writes: Vec<FileWrite> = Vec::new();
    let mut offset: usize = 0;
    let mut i: usize = 0;
    assert(orig.take(0) =~= Seq::<PendingFile>::empty());
    assert(string_views(texts@) =~= all_chunk_texts(orig.take(0)));
    while i < n
        invariant
            i <= n,
            n == orig.len(),
            pending@ == orig.skip(i as int),
            chunk_total(orig) <= usize::MAX,
            offset == chunk_total(orig.take(i as int)),
            string_views(texts@) == all_chunk_texts(orig.take(i as int)),
            writes@.len() == i,
            forall|j: int|
                0 <= j < i ==> write_of(#[trigger] writes@[j], orig[j], chunk_total(orig.take(j))),
        decreases n - i,
    {
        let pf = pending.remove(0);
        assert(pf == orig[i as int]);
        assert(pending@ =~= orig.skip(i + 1));
        let ghost before = orig.take(i as int);
        assert(orig.take(i + 1).drop_last() =~= before);
        assert(orig.take(i + 1).last() == pf);
        proof {
            lemma_chunk_total_prefix(orig, i + 1);
        }
        let mut k: usize = 0;
        while k < pf.chunk_texts.len()
            invariant
                k <= pf.chunk_texts@.len(),
                string_views(texts@) == all_chunk_texts(before) + string_views(
                    pf.chunk_texts@,
                ).take(k as int),
            decreases pf.chunk_texts@.len() - k,
        {
            let ghost old_t = texts@;
            let c = pf.chunk_texts[k].clone();
            assert(c@ == pf.chunk_texts@[k as int]@);
            texts.push(c);
            proof {
                let a = all_chunk_texts(before);
                let b = string_views(pf.chunk_texts@);
                assert(string_views(old_t).len() == old_t.len());
                assert(old_t.len() == a.len() + k);
                assert(texts@.len() == (a + b.take(k + 1)).len());
                assert forall|j: int| 0 <= j < texts@.len() implies #[trigger] string_views(texts@)[j]
                    == (a + b.take(k + 1))[j] by {
                    if j < old_t.len() {
                        assert(string_views(old_t)[j] == (a + b.take(k as int))[j]);
                        assert(texts@[j] == old_t[j]);
                    } else {
                        assert(j == a.len() + k);
                        assert(texts@[j] == c);
                        assert(b.take(k + 1)[k as int] == b[k as int]);
                    }
                }
                assert(string_views(texts@) =~= a + b.take(k + 1));
            }
            k += 1;
        }
        assert(string_views(pf.chunk_texts@).take(pf.chunk_texts@.len() as int) =~= string_views(
            pf.chunk_texts@,
        ));
        let mut ids: Vec<String> = Vec::new();
        let mut m: usize = 0;
        while m < pf.chunks.len()
            invariant
                m <= pf.chunks@.len(),
                ids@.len() == m,
                forall|q: int| 0 <= q < m ==> (#[trigger] ids@[q])@ == pf.chunks@[q].id@,
            decreases pf.chunks@.len() - m,
        {
            ids.push(pf.chunks[m].id.clone());
            m += 1;
        }
        let count = pf.chunks.len();
        let PendingFile { path, doc, chunks, chunk_texts, tokenized_texts, is_update } = pf;
        let w = FileWrite {
            path,
            doc,
            delete_old_chunks: is_update,
            chunks,
            chunk_ids: ids,
            tokenized_texts,
            first: offset,
            count,
        };
        writes.push(w);
        offset = offset + count;
        i += 1;
    }
    assert(orig.take(n as int) =~= orig);
    FlushPlan {
        texts,
        writes,
        stats: IndexStats {
            files_indexed: n,
            files_skipped: 0,
            files_removed: 0,
            chunks_indexed: offset,
        },
    }
}


// ---------------------------------------------------------------------------
// Laws of incremental indexing.

/// Once a prepared file's document is the latest stored under its id,
/// preparing the same path with the same content finds it unchanged.
pub proof fn lemma_written_file_is_unchanged(
    stored: Seq<Document>,
    pf: PendingFile,
    path: Seq<char>,
    content: Seq<char>,
    cands: Seq<ChunkCandidate>,
    tokenized: Seq<String>,
    is_update: bool,
)
    requires
        pending_built(pf, path, content, cands, tokenized, is_update),
    ensures
        file_change(stored.push(pf.doc), sha256_hex_of(path), sha256_hex_of(content))
            == FileChange::Unchanged,
{
    let docs = stored.push(pf.doc);
    assert(docs.drop_last() =~= stored);
    assert(last_with_id(docs, sha256_hex_of(path)) == docs.len() - 1);
}

/// A stored file whose content changed is prepared as an update.
pub proof fn lemma_changed_content_is_update(
    stored: Seq<Document>,
    old_doc: Document,
    path: Seq<char>,
    content: Seq<char>,
)
    requires
        old_doc.id@ == sha256_hex_of(path),
        old_doc.content_hash@ != sha256_hex_of(content),
    ensures
        stored_changed(stored.push(old_doc), path, content),
{
    let docs = stored.push(old_doc);
    assert(docs.drop_last() =~= stored);
    assert(last_with_id(docs, sha256_hex_of(path)) == docs.len() - 1);
}

/// The sweep misses nothing: every stored document under the directory
/// whose id is not among the files just read has its id removed.
pub proof fn lemma_sweep_complete(docs: Seq<Document>, current: Seq<String>, prefix: Seq<char>)
    ensures
        forall|j: int|
            0 <= j < docs.len() && prefix.is_prefix_of((#[trigger] docs[j]).file_path@)
                && !strings_contain(current, docs[j].id@) ==> removed_ids(docs, current, prefix).contains(
                docs[j].id@,
            ),
    decreases docs.len(),
{
    if docs.len() > 0 {
        let t = docs.drop_last();
        lemma_sweep_complete(t, current, prefix);
        let r = removed_ids(docs, current, prefix);
        let rt = removed_ids(t, current, prefix);
        assert forall|j: int|
            0 <= j < docs.len() && prefix.is_prefix_of((#[trigger] docs[j]).file_path@)
                && !strings_contain(current, docs[j].id@) implies r.contains(docs[j].id@) by {
            if j < t.len() {
                assert(docs[j] == t[j]);
                assert(rt.contains(t[j].id@));
                let q = choose|q: int| 0 <= q < rt.len() && rt[q] == t[j].id@;
                assert(r[q] == rt[q]);
            } else {
                assert(docs[j] == docs.last());
                assert(r[r.len() - 1] == docs.last().id@);
            }
        }
    }
}

/// The sweep never removes a file that was just read, nor a document
/// outside the swept directory; every removed id is a stored document's.
pub proof fn lemma_sweep_keeps_current(docs: Seq<Document>, current: Seq<String>, prefix: Seq<char>)
    ensures
        forall|i: int|
            0 <= i < removed_ids(docs, current, prefix).len() ==> {
                let id = #[trigger] removed_ids(docs, current, prefix)[i];
                &&& !strings_contain(current, id)
                &&& exists|j: int|
                    0 <= j < docs.len() && docs[j].id@ == id && prefix.is_prefix_of(
                        (#[trigger] docs[j]).file_path@,
                    )
            },
    decreases docs.len(),
{
    if docs.len() > 0 {
        let t = docs.drop_last();
        lemma_sweep_keeps_current(t, current, prefix);
        let r = removed_ids(docs, current, prefix);
        let rt = removed_ids(t, current, prefix);
        assert forall|i: int| 0 <= i < r.len() implies {
            let id = #[trigger] r[i];
            &&& !strings_contain(current, id)
            &&& exists|j: int|
                0 <= j < docs.len() && docs[j].id@ == id && prefix.is_prefix_of(
                    (#[trigger] docs[j]).file_path@,
                )
        } by {
            if i < rt.len() {
                assert(r[i] == rt[i]);
                let j = choose|j: int|
                    0 <= j < t.len() && t[j].id@ == rt[i] && prefix.is_prefix_of(
                        (#[trigger] t[j]).file_path@,
                    );
                assert(docs[j] == t[j]);
            } else {
                assert(r[i] == docs.last().id@);
                assert(docs[docs.len() - 1] == docs.last());
            }
        }
    }
}

/// The embedding slices of a flush plan tile the batch: each file's slice
/// starts where the previous file's ends, and the last ends at the batch's
/// chunk total.
pub proof fn lemma_flush_slices_tile(pending: Seq<PendingFile>, i: int)
    requires
        0 <= i < pending.len(),
    ensures
        chunk_total(pending.take(i + 1)) == chunk_total(pending.take(i)) + pending[i].chunks@.len(),
        i + 1 == pending.len() ==> chunk_total(pending.take(i + 1)) == chunk_total(pending),
{
    assert(pending.take(i + 1).drop_last() =~= pending.take(i));
    if i + 1 == pending.len() {
        assert(pending.take(i + 1) =~= pending);
    }
}

/// When every file has one text per chunk, the texts handed to the embedder
/// number exactly the chunks of the batch.
pub proof fn lemma_texts_match_chunks(pending: Seq<PendingFile>)
    requires
        forall|i: int|
            0 <= i < pending.len() ==> (#[trigger] pending[i]).chunk_texts@.len()
                == pending[i].chunks@.len(),
    ensures
        all_chunk_texts(pending).len() == chunk_total(pending),
    decreases pending.len(),
{
    if pending.len() > 0 {
        let t = pending.drop_last();
        assert forall|i: int| 0 <= i < t.len() implies (#[trigger] t[i]).chunk_texts@.len()
            == t[i].chunks@.len() by {
            assert(t[i] == pending[i]);
        }
        lemma_texts_match_chunks(t);
        assert(pending[pending.len() - 1] == pending.last());
    }
}

} // verus!
