//! Where downloaded models are cached.
use vstd::prelude::*;
use std::path::PathBuf;

verus! {

/// `std::path::PathBuf`, carried through unchanged.
#[verifier::external_type_specification]
#[verifier::external_body]
pub struct ExPathBuf(PathBuf);

/// `Clone::clone` of `std::path::PathBuf` (used by the derived `Clone` of
/// `ModelHub`): a copy of the path.
pub assume_specification[ <PathBuf as Clone>::clone ](p: &PathBuf) -> (c: PathBuf)
    ensures
        c == *p,
;

/// Downloads models into, and resolves them from, a cache directory.
#[derive(Clone)]
pub struct ModelHub {
    pub cache_dir: PathBuf,
}

impl ModelHub {
    /// A hub caching under `cache_dir`.
    pub fn new(cache_dir: PathBuf) -> (h: ModelHub)
        ensures
            h.cache_dir == cache_dir,
    {
        ModelHub { cache_dir }
    }

    /// The cache directory.
    pub fn cache_dir(&self) -> (d: &PathBuf)
        ensures
            *d == self.cache_dir,
    {
        &self.cache_dir
    }
}

} // verus!
