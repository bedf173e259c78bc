//! File-system paths as text, through `std::path::Path`.
use vstd::prelude::*;

verus! {

/// The path that `Path::join` makes of `dir` and `file`.
pub uninterp spec fn path_join(dir: Seq<char>, file: Seq<char>) -> Seq<char>;

/// What `Path::parent` gives for `path`.
pub uninterp spec fn path_parent(path: Seq<char>) -> Option<Seq<char>>;

/// What `Path::file_name` gives for `path`.
pub uninterp spec fn path_file_name(path: Seq<char>) -> Option<Seq<char>>;

/// Joins a file name to a directory (`std::path::Path::join`).  Trusted:
/// the result is `path_join` of the two texts, and it ends with the file
/// name (a relative name is appended after a separator, an absolute one
/// replaces the directory); the separator depends on the platform and is
/// not stated.
#[verifier::external_body]
pub(crate) fn join_path(dir: &str, file: &String) -> (r: String)
    ensures
        r@ == path_join(dir@, file@),
        r@.len() >= file@.len(),
        r@.subrange(r@.len() - file@.len(), r@.len() as int) == file@,
{
    std::path::Path::new(dir).join(file.as_str()).to_string_lossy().into_owned()
}

/// The directory part of a path (`std::path::Path::parent`).  Trusted: the
/// result is `path_parent` of the text; which paths have a parent is not
/// stated.
#[verifier::external_body]
pub(crate) fn parent_of(path: &str) -> (r: Option<String>)
    ensures
        match r {
            Some(p) => path_parent(path@) == Some(p@),
            None => path_parent(path@) is None,
        },
{
    std::path::Path::new(path).parent().map(|p| p.to_string_lossy().into_owned())
}

/// The last component of a path (`std::path::Path::file_name`).  Trusted:
/// the result is `path_file_name` of the text; which paths have one is not
/// stated.
#[verifier::external_body]
pub(crate) fn file_name_of(path: &str) -> (r: Option<String>)
    ensures
        match r {
            Some(n) => path_file_name(path@) == Some(n@),
            None => path_file_name(path@) is None,
        },
{
    std::path::Path::new(path).file_name().map(|n| n.to_string_lossy().into_owned())
}

} // verus!
