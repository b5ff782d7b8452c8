//! Which files of a directory are read: the extension filter and the
//! ignore rules for hidden and build directories.
use vstd::prelude::*;
use vstd::string::*;
use crate::text::strings_contain;

verus! {

/// The extension `std::path::Path::extension` finds in a path (text after
/// the last `.` of the file name, for names that are not dot-files).
pub uninterp spec fn path_extension(path: Seq<char>) -> Option<Seq<char>>;

/// Calls `std::path::Path::extension` on `path` and converts the result
/// back to a string (always possible: the path is UTF-8). Trusted to give
/// what `path_extension` names.
#[verifier::external_body]
fn extension_of(path: &str) -> (e: Option<String>)
    ensures
        e is Some <==> path_extension(path@) is Some,
        e is Some ==> e->0@ == path_extension(path@)->0,
{
    std::path::Path::new(path).extension().and_then(|x| x.to_str()).map(|x| x.to_string())
}

/// The last component `std::path::Path::file_name` finds in a path.
pub uninterp spec fn path_file_name(path: Seq<char>) -> Option<Seq<char>>;

/// Calls `std::path::Path::file_name` on `path` and converts the result
/// back to a string. Trusted to give what `path_file_name` names.
#[verifier::external_body]
fn file_name_of(path: &str) -> (n: Option<String>)
    ensures
        n is Some <==> path_file_name(path@) is Some,
        n is Some ==> n->0@ == path_file_name(path@)->0,
{
    std::path::Path::new(path).file_name().and_then(|x| x.to_str()).map(|x| x.to_string())
}

/// `pattern` compiles as a glob (`glob::Pattern::new`) and matches `name`.
pub uninterp spec fn glob_matches(pattern: Seq<char>, name: Seq<char>) -> bool;

/// Calls `glob::Pattern::new(pattern)` and, when it compiles,
/// `Pattern::matches(name)`; a pattern that does not compile matches
/// nothing. Trusted to give what `glob_matches` names.
#[verifier::external_body]
fn glob_pattern_matches(pattern: &str, name: &str) -> (b: bool)
    ensures
        b == glob_matches(pattern@, name@),
{
    match glob::Pattern::new(pattern) {
        Ok(p) => p.matches(name),
        Err(_) => false,
    }
}

/// Reads plain-text files with chosen extensions, skipping hidden entries
/// and common build or VCS directories.
pub struct TextReader {
    pub extensions: Vec<String>,
    /// Glob patterns of entry names that are not descended into or read.
    pub ignore_patterns: Vec<String>,
}

/// The views of a list of `&str`.
pub open spec fn str_views(v: Seq<&str>) -> Seq<Seq<char>> {
    Seq::new(v.len(), |i: int| v[i]@)
}

/// The views of a list of strings.
pub open spec fn owned_views(v: Seq<String>) -> Seq<Seq<char>> {
    Seq::new(v.len(), |i: int| v[i]@)
}

/// The name of the entry a path points at, `""` when it has none.
pub open spec fn entry_name(path: Seq<char>) -> Seq<char> {
    match path_file_name(path) {
        Some(n) => n,
        None => Seq::empty(),
    }
}

fn default_ignore_patterns() -> (v: Vec<String>)
    ensures
        owned_views(v@) == seq![".git"@, "target"@, "node_modules"@],
{
    let mut v: Vec<String> = Vec::new();
    v.push(String::from_str(".git"));
    v.push(String::from_str("target"));
    v.push(String::from_str("node_modules"));
    assert(owned_views(v@) =~= seq![".git"@, "target"@, "node_modules"@]);
    v
}

impl TextReader {
    /// A reader of `.txt` and `.md` files.
    pub fn new() -> (r: TextReader)
        ensures
            owned_views(r.extensions@) == seq!["txt"@, "md"@],
            owned_views(r.ignore_patterns@) == seq![".git"@, "target"@, "node_modules"@],
    {
        let mut extensions: Vec<String> = Vec::new();
        extensions.push(String::from_str("txt"));
        extensions.push(String::from_str("md"));
        assert(owned_views(extensions@) =~= seq!["txt"@, "md"@]);
        TextReader { extensions, ignore_patterns: default_ignore_patterns() }
    }

    /// A reader of files with the given extensions (without the dot).
    pub fn with_extensions(extensions: &[&str]) -> (r: TextReader)
        ensures
            owned_views(r.extensions@) == str_views(extensions@),
            owned_views(r.ignore_patterns@) == seq![".git"@, "target"@, "node_modules"@],
    {
        let mut exts: Vec<String> = Vec::new();
        let mut i: usize = 0;
        while i < extensions.len()
            invariant
                i <= extensions@.len(),
                exts@.len() == i,
                forall|j: int| 0 <= j < i ==> (#[trigger] exts@[j])@ == extensions@[j]@,
            decreases extensions@.len() - i,
        {
            exts.push(extensions[i].to_string());
            i += 1;
        }
        assert(owned_views(exts@) =~= str_views(extensions@));
        TextReader { extensions: exts, ignore_patterns: default_ignore_patterns() }
    }

    /// Whether the file's extension is one this reader reads.
    pub fn has_valid_extension(&self, path: &str) -> (b: bool)
        ensures
            b == (path_extension(path@) is Some && strings_contain(
                self.extensions@,
                path_extension(path@)->0,
            )),
    {
        let e = extension_of(path);
        match e {
            Some(ext) => {
                assert(ext@ == path_extension(path@)->0);
                let mut i: usize = 0;
                while i < self.extensions.len()
                    invariant
                        i <= self.extensions@.len(),
                        ext@ == path_extension(path@)->0,
                        path_extension(path@) is Some,
                        forall|j: int| 0 <= j < i ==> (#[trigger] self.extensions@[j])@ != ext@,
                    decreases self.extensions@.len() - i,
                {
                    if self.extensions[i] == ext {
                        assert(self.extensions@[i as int]@ == ext@);
                        assert(strings_contain(self.extensions@, ext@));
                        return true;
                    }
                    i += 1;
                }
                false
            },
            None => false,
        }
    }

    /// Whether an entry is skipped: its name starts with `.` or matches an
    /// ignore pattern.
    pub fn is_ignored(&self, path: &str) -> (b: bool)
        ensures
            b == ((entry_name(path@).len() > 0 && entry_name(path@)[0] == '.') || exists|i: int|
                0 <= i < self.ignore_patterns@.len() && glob_matches(
                    (#[trigger] self.ignore_patterns@[i])@,
                    entry_name(path@),
                )),
    {
        let name = match file_name_of(path) {
            Some(n) => n,
            None => String::new(),
        };
        assert(name@ == entry_name(path@));
        if name.as_str().unicode_len() > 0 && name.as_str().get_char(0) == '.' {
            return true;
        }
        let mut i: usize = 0;
        while i < self.ignore_patterns.len()
            invariant
                i <= self.ignore_patterns@.len(),
                name@ == entry_name(path@),
                forall|j: int|
                    0 <= j < i ==> !glob_matches((#[trigger] self.ignore_patterns@[j])@, name@),
            decreases self.ignore_patterns@.len() - i,
        {
            if glob_pattern_matches(self.ignore_patterns[i].as_str(), name.as_str()) {
                return true;
            }
            i += 1;
        }
        false
    }
}

impl Default for TextReader {
    /// The reader of `.txt` and `.md` files.
    fn default() -> (r: TextReader)
        ensures
            owned_views(r.extensions@) == seq!["txt"@, "md"@],
            owned_views(r.ignore_patterns@) == seq![".git"@, "target"@, "node_modules"@],
    {
        TextReader::new()
    }
}

/// Reads `.docx` files (Office Open XML word-processing documents).
#[derive(Debug, Clone, Copy)]
pub struct DocxReader;

impl Default for DocxReader {
    fn default() -> (r: DocxReader)
        ensures
            r == DocxReader,
    {
        DocxReader
    }
}

impl DocxReader {
    pub fn new() -> (r: DocxReader)
        ensures
            r == DocxReader,
    {
        DocxReader
    }

    /// The extensions this reader reads.
    pub fn extensions(&self) -> (e: Vec<String>)
        ensures
            owned_views(e@) == seq!["docx"@],
    {
        let mut e: Vec<String> = Vec::new();
        e.push(String::from_str("docx"));
        assert(owned_views(e@) =~= seq!["docx"@]);
        e
    }
}

} // verus!
