//! Error taxonomy: one error enum per pipeline stage, wrapped by [`DocqError`].
use vstd::prelude::*;
use vstd::string::*;

verus! {

/// Failure while reading or extracting a source document.
#[derive(Debug, Clone)]
pub enum ParseError {
    Other(String),
}

/// Failure of the document/chunk/vector store.
#[derive(Debug, Clone)]
pub enum StoreError {
    Other(String),
}

/// Failure while computing embeddings.
#[derive(Debug, Clone)]
pub enum EmbedError {
    Other(String),
}

/// Failure during hybrid retrieval.
#[derive(Debug, Clone)]
pub enum RetrieveError {
    Other(String),
}

/// Failure while synthesising an answer.
#[derive(Debug, Clone)]
pub enum SynthError {
    Other(String),
}

/// Failure of the language-model backend.
#[derive(Debug, Clone)]
pub enum LlmError {
    Other(String),
}

/// Failure while locating, downloading or loading a model.
#[derive(Debug, Clone)]
pub enum ModelError {
    Other(String),
}

/// Any error the library reports, tagged with the stage it came from.
#[derive(Debug, Clone)]
pub enum DocqError {
    Parse(ParseError),
    Store(StoreError),
    Embed(EmbedError),
    Retrieve(RetrieveError),
    Synth(SynthError),
    Llm(LlmError),
    Model(ModelError),
}

impl DocqError {
    /// The detail text carried by the wrapped stage error.
    pub open spec fn detail(self) -> Seq<char> {
        match self {
            DocqError::Parse(ParseError::Other(m)) => m@,
            DocqError::Store(StoreError::Other(m)) => m@,
            DocqError::Embed(EmbedError::Other(m)) => m@,
            DocqError::Retrieve(RetrieveError::Other(m)) => m@,
            DocqError::Synth(SynthError::Other(m)) => m@,
            DocqError::Llm(LlmError::Other(m)) => m@,
            DocqError::Model(ModelError::Other(m)) => m@,
        }
    }

    /// The stage label that prefixes the rendered message.
    pub open spec fn stage_prefix(self) -> Seq<char> {
        match self {
            DocqError::Parse(_) => "parse error: "@,
            DocqError::Store(_) => "store error: "@,
            DocqError::Embed(_) => "embed error: "@,
            DocqError::Retrieve(_) => "retrieve error: "@,
            DocqError::Synth(_) => "synth error: "@,
            DocqError::Llm(_) => "llm error: "@,
            DocqError::Model(_) => "model error: "@,
        }
    }

    /// Human-readable rendering: the stage label followed by the detail text,
    /// e.g. `store error: mutex poisoned`.
    pub fn message(&self) -> (r: String)
        ensures
            r@ == self.stage_prefix() + self.detail(),
    {
        let (prefix, detail): (&str, &String) = match self {
            DocqError::Parse(ParseError::Other(m)) => ("parse error: ", m),
            DocqError::Store(StoreError::Other(m)) => ("store error: ", m),
            DocqError::Embed(EmbedError::Other(m)) => ("embed error: ", m),
            DocqError::Retrieve(RetrieveError::Other(m)) => ("retrieve error: ", m),
            DocqError::Synth(SynthError::Other(m)) => ("synth error: ", m),
            DocqError::Llm(LlmError::Other(m)) => ("llm error: ", m),
            DocqError::Model(ModelError::Other(m)) => ("model error: ", m),
        };
        let mut r = String::from_str(prefix);
        r.append(detail.as_str());
        r
    }
}

impl From<ParseError> for DocqError {
    fn from(e: ParseError) -> (r: DocqError) {
        DocqError::Parse(e)
    }
}

impl vstd::std_specs::convert::FromSpecImpl<ParseError> for DocqError {
    open spec fn obeys_from_spec() -> bool {
        true
    }

    open spec fn from_spec(e: ParseError) -> DocqError {
        DocqError::Parse(e)
    }
}

impl From<StoreError> for DocqError {
    fn from(e: StoreError) -> (r: DocqError) {
        DocqError::Store(e)
    }
}

impl vstd::std_specs::convert::FromSpecImpl<StoreError> for DocqError {
    open spec fn obeys_from_spec() -> bool {
        true
    }

    open spec fn from_spec(e: StoreError) -> DocqError {
        DocqError::Store(e)
    }
}

impl From<EmbedError> for DocqError {
    fn from(e: EmbedError) -> (r: DocqError) {
        DocqError::Embed(e)
    }
}

impl vstd::std_specs::convert::FromSpecImpl<EmbedError> for DocqError {
    open spec fn obeys_from_spec() -> bool {
        true
    }

    open spec fn from_spec(e: EmbedError) -> DocqError {
        DocqError::Embed(e)
    }
}

impl From<RetrieveError> for DocqError {
    fn from(e: RetrieveError) -> (r: DocqError) {
        DocqError::Retrieve(e)
    }
}

impl vstd::std_specs::convert::FromSpecImpl<RetrieveError> for DocqError {
    open spec fn obeys_from_spec() -> bool {
        true
    }

    open spec fn from_spec(e: RetrieveError) -> DocqError {
        DocqError::Retrieve(e)
    }
}

impl From<SynthError> for DocqError {
    fn from(e: SynthError) -> (r: DocqError) {
        DocqError::Synth(e)
    }
}

impl vstd::std_specs::convert::FromSpecImpl<SynthError> for DocqError {
    open spec fn obeys_from_spec() -> bool {
        true
    }

    open spec fn from_spec(e: SynthError) -> DocqError {
        DocqError::Synth(e)
    }
}

impl From<LlmError> for DocqError {
    fn from(e: LlmError) -> (r: DocqError) {
        DocqError::Llm(e)
    }
}

impl vstd::std_specs::convert::FromSpecImpl<LlmError> for DocqError {
    open spec fn obeys_from_spec() -> bool {
        true
    }

    open spec fn from_spec(e: LlmError) -> DocqError {
        DocqError::Llm(e)
    }
}

impl From<ModelError> for DocqError {
    fn from(e: ModelError) -> (r: DocqError) {
        DocqError::Model(e)
    }
}

impl vstd::std_specs::convert::FromSpecImpl<ModelError> for DocqError {
    open spec fn obeys_from_spec() -> bool {
        true
    }

    open spec fn from_spec(e: ModelError) -> DocqError {
        DocqError::Model(e)
    }
}

} // verus!
