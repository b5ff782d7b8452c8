//! Decisions of the engine facade: choosing a collection, reporting status,
//! refusing to answer without a language model, and summarising a run.
use vstd::prelude::*;
use vstd::string::*;
use crate::error::{DocqError, LlmError, StoreError};
use crate::indexer::IndexStats;
use crate::models::{Collection, EngineStatus};
use crate::text::{decimal, decimal_string};
use crate::verbose::Verbose;
use std::path::PathBuf;

verus! {

/// Index of the first collection named `name`, or -1.
pub open spec fn first_named(cols: Seq<Collection>, name: Seq<char>) -> int
    decreases cols.len(),
{
    if cols.len() == 0 {
        -1
    } else {
        let k = first_named(cols.drop_last(), name);
        if k >= 0 {
            k
        } else if cols.last().name@ == name {
            cols.len() - 1
        } else {
            -1
        }
    }
}

proof fn lemma_first_named(cols: Seq<Collection>, name: Seq<char>)
    ensures
        -1 <= first_named(cols, name) < cols.len(),
        first_named(cols, name) >= 0 ==> cols[first_named(cols, name)].name@ == name,
        forall|i: int| 0 <= i < first_named(cols, name) ==> (#[trigger] cols[i]).name@ != name,
        first_named(cols, name) == -1 ==> forall|i: int|
            0 <= i < cols.len() ==> (#[trigger] cols[i]).name@ != name,
    decreases cols.len(),
{
    if cols.len() > 0 {
        let t = cols.drop_last();
        lemma_first_named(t, name);
        let k = first_named(t, name);
        assert forall|i: int| 0 <= i < first_named(cols, name) implies (#[trigger] cols[i]).name@
            != name by {
            assert(t[i] == cols[i]);
        }
        if first_named(cols, name) == -1 {
            assert forall|i: int| 0 <= i < cols.len() implies (#[trigger] cols[i]).name@ != name by {
                if i < t.len() {
                    assert(t[i] == cols[i]);
                }
            }
        }
    }
}

/// A field-by-field copy of a collection.
pub fn copy_collection(c: &Collection) -> (r: Collection)
    ensures
        r == *c,
{
    Collection { name: c.name.clone(), path: c.path.clone() }
}

/// The collection named `name`; `collection not found: <name>` (a store
/// error) when there is none.
pub fn select_collection(collections: &Vec<Collection>, name: &str) -> (r: Result<
    Collection,
    DocqError,
>)
    ensures
        r is Ok <==> first_named(collections@, name@) >= 0,
        r is Ok ==> r->Ok_0 == collections@[first_named(collections@, name@)],
        r is Err ==> r->Err_0 is Store && r->Err_0.detail() == "collection not found: "@ + name@,
{
    proof {
        lemma_first_named(collections@, name@);
    }
    let wanted = String::from_str(name);
    let mut i: usize = 0;
    while i < collections.len()
        invariant
            i <= collections.len(),
            wanted@ == name@,
            forall|j: int| 0 <= j < i ==> (#[trigger] collections@[j]).name@ != name@,
        decreases collections.len() - i,
    {
        if collections[i].name == wanted {
            proof {
                lemma_first_named(collections@, name@);
                let k = first_named(collections@, name@);
                if k != i {
                    assert(k >= 0) by {
                        if k == -1 {
                            assert(collections@[i as int].name@ != name@);
                        }
                    }
                    if k < i {
                        assert(collections@[k].name@ != name@);
                    } else {
                        assert(collections@[i as int].name@ != name@);
                    }
                }
            }
            return Ok(copy_collection(&collections[i]));
        }
        i += 1;
    }
    let mut m = String::from_str("collection not found: ");
    m.append(name);
    Err(DocqError::Store(StoreError::Other(m)))
}

/// The error returned when an answer is asked of an engine opened without a
/// language model.
pub fn llm_not_loaded() -> (e: DocqError)
    ensures
        e is Llm,
        e.detail() == "LLM not loaded — use open_for_ask"@,
{
    DocqError::Llm(LlmError::Other(String::from_str("LLM not loaded — use open_for_ask")))
}

/// The status report from the number of documents, the number of chunks and
/// the collections.
pub fn status_of(documents: usize, chunks: usize, collections: Vec<Collection>) -> (s: EngineStatus)
    ensures
        s.documents == documents,
        s.chunks == chunks,
        s.collections@ == collections@,
{
    EngineStatus { documents, chunks, collections }
}

/// `Indexed <files> files (<chunks> chunks, <skipped> skipped)`.
pub open spec fn index_summary_text(s: IndexStats) -> Seq<char> {
    "Indexed "@ + decimal(s.files_indexed as nat) + " files ("@ + decimal(s.chunks_indexed as nat)
        + " chunks, "@ + decimal(s.files_skipped as nat) + " skipped)"@
}

/// The one-line report of an indexing run.
pub fn index_summary(s: &IndexStats) -> (line: String)
    ensures
        line@ == index_summary_text(*s),
{
    let mut line = String::from_str("Indexed ");
    line.append(decimal_string(s.files_indexed as u128).as_str());
    line.append(" files (");
    line.append(decimal_string(s.chunks_indexed as u128).as_str());
    line.append(" chunks, ");
    line.append(decimal_string(s.files_skipped as u128).as_str());
    line.append(" skipped)");
    line
}


/// What opening an engine needs: the workspace and model-cache directories,
/// the settings (of the caller's configuration type) and the verbosity.
pub struct EngineConfig<C> {
    pub workspace_path: PathBuf,
    pub model_cache_dir: PathBuf,
    pub config: C,
    pub verbose: Verbose,
}

/// Bundle the directories, settings and verbosity for opening an engine.
pub fn engine_config<C>(workspace: PathBuf, model_cache: PathBuf, config: C, verbose: Verbose) -> (e:
    EngineConfig<C>)
    ensures
        e.workspace_path == workspace,
        e.model_cache_dir == model_cache,
        e.config == config,
        e.verbose == verbose,
{
    EngineConfig { workspace_path: workspace, model_cache_dir: model_cache, config, verbose }
}

} // verus!
