//! The parts of the SQLite store that are plain computation: error values,
//! statement text, argument checks and the decoding of rows.
use vstd::prelude::*;
use vstd::string::*;
use crate::error::{DocqError, StoreError};
use crate::models::{Chunk, Document, ModelSpec};

verus! {

/// The error reported when the connection lock is poisoned.
pub fn poisoned() -> (e: StoreError)
    ensures
        e matches StoreError::Other(m) && m@ == "mutex poisoned"@,
{
    StoreError::Other(String::from_str("mutex poisoned"))
}

/// `?,?,…,?` with `n` placeholders.
pub open spec fn placeholders(n: nat) -> Seq<char>
    decreases n,
{
    if n == 0 {
        Seq::empty()
    } else if n == 1 {
        seq!['?']
    } else {
        placeholders((n - 1) as nat) + seq![',', '?']
    }
}

/// The comma-separated placeholder list for `n` bound values.
pub fn sql_placeholders(n: usize) -> (s: String)
    ensures
        s@ == placeholders(n as nat),
{
    let mut s = String::new();
    let mut i: usize = 0;
    while i < n
        invariant
            i <= n,
            s@ == placeholders(i as nat),
        decreases n - i,
    {
        if i > 0 {
            s.push(',');
        }
        s.push('?');
        i += 1;
    }
    s
}

/// The statement that fetches the chunks with `n` given ids.
pub open spec fn chunks_by_id_sql(n: nat) -> Seq<char> {
    "SELECT chunk_id, doc_id, text, start_byte, end_byte FROM chunks WHERE chunk_id IN ("@
        + placeholders(n) + ")"@
}

/// The statement that fetches the chunks with `n` given ids.
pub fn chunks_by_id_query(n: usize) -> (q: String)
    ensures
        q@ == chunks_by_id_sql(n as nat),
{
    let mut q = String::from_str(
        "SELECT chunk_id, doc_id, text, start_byte, end_byte FROM chunks WHERE chunk_id IN (",
    );
    q.append(sql_placeholders(n).as_str());
    q.append(")");
    q
}

/// Per-chunk values must come one per chunk id: `chunk_ids and <what>
/// length mismatch` (a store error) otherwise.
pub fn check_per_chunk(n_ids: usize, n_values: usize, what: &str) -> (r: Result<(), DocqError>)
    ensures
        r is Ok <==> n_ids == n_values,
        r is Err ==> r->Err_0 is Store && r->Err_0.detail() == "chunk_ids and "@ + what@
            + " length mismatch"@,
{
    if n_ids == n_values {
        Ok(())
    } else {
        let mut m = String::from_str("chunk_ids and ");
        m.append(what);
        m.append(" length mismatch");
        Err(DocqError::Store(StoreError::Other(m)))
    }
}

/// A chunk row: id, document id, text and the stored byte offsets.
pub fn chunk_from_row(id: String, doc_id: String, text: String, start: i64, end: i64) -> (c: Chunk)
    ensures
        c.id == id,
        c.doc_id == doc_id,
        c.text == text,
        c.byte_range.start == start as usize,
        c.byte_range.end == end as usize,
{
    Chunk { id, doc_id, text, byte_range: (start as usize)..(end as usize) }
}

/// What `chrono` makes of an RFC 3339 timestamp: the same instant rendered
/// in UTC, or the text of the parse error.
pub uninterp spec fn rfc3339_to_utc(ts: Seq<char>) -> Result<Seq<char>, Seq<char>>;

/// Calls `chrono::DateTime::parse_from_rfc3339`; an accepted stamp is
/// converted with `with_timezone(&Utc)` and rendered with `to_rfc3339`, a
/// rejected one gives the error's `to_string`. Trusted to give what
/// `rfc3339_to_utc` names.
#[verifier::external_body]
fn parse_rfc3339_utc(ts: &str) -> (r: Result<String, String>)
    ensures
        r is Ok <==> rfc3339_to_utc(ts@) is Ok,
        r is Ok ==> rfc3339_to_utc(ts@)->Ok_0 == r->Ok_0@,
        r is Err ==> rfc3339_to_utc(ts@)->Err_0 == r->Err_0@,
{
    match chrono::DateTime::parse_from_rfc3339(ts) {
        Ok(d) => Ok(d.with_timezone(&chrono::Utc).to_rfc3339()),
        Err(e) => Err(e.to_string()),
    }
}

/// A document row. The stored timestamp must parse as RFC 3339 (it is kept
/// in UTC); otherwise the parse error is reported as a store error.
pub fn document_from_row(
    id: String,
    file_path: String,
    content_hash: String,
    content_size: i64,
    indexed_at: &str,
) -> (r: Result<Document, DocqError>)
    ensures
        r is Ok <==> rfc3339_to_utc(indexed_at@) is Ok,
        r is Ok ==> {
            &&& r->Ok_0.id == id
            &&& r->Ok_0.file_path == file_path
            &&& r->Ok_0.content_hash == content_hash
            &&& r->Ok_0.content_size == content_size as usize
            &&& r->Ok_0.indexed_at@ == rfc3339_to_utc(indexed_at@)->Ok_0
        },
        r is Err ==> r->Err_0 is Store && r->Err_0.detail() == rfc3339_to_utc(indexed_at@)->Err_0,
{
    match parse_rfc3339_utc(indexed_at) {
        Ok(ts) => Ok(
            Document { id, file_path, content_hash, content_size: content_size as usize, indexed_at: ts },
        ),
        Err(e) => Err(DocqError::Store(StoreError::Other(e))),
    }
}

/// A stored model version for `role`.
pub fn model_spec_from_row(
    role: &str,
    repo_id: String,
    filename: String,
    revision: String,
    checksum: Option<String>,
) -> (m: ModelSpec)
    ensures
        m.role@ == role@,
        m.repo_id == repo_id,
        m.filename == filename,
        m.revision == revision,
        m.checksum == checksum,
{
    ModelSpec { role: role.to_string(), repo_id, filename, revision, checksum }
}

} // verus!
