//! File-system paths: `std::path` operations behind named contracts, and
//! queries of the file system whose answers depend on the disk.
use vstd::prelude::*;

verus! {

/// The parent of a path as `std::path::Path::parent` computes it.
pub uninterp spec fn path_parent_of(p: Seq<char>) -> Option<Seq<char>>;

/// `p` relative to `base` as `std::path::Path::strip_prefix` computes it
/// (component-wise).
pub uninterp spec fn path_strip_prefix_of(p: Seq<char>, base: Seq<char>) -> Option<Seq<char>>;

/// `base` joined with `rel` as `std::path::Path::join` computes it.
pub uninterp spec fn path_join_of(base: Seq<char>, rel: Seq<char>) -> Seq<char>;

/// The final component of a path as `std::path::Path::file_name` computes it.
pub uninterp spec fn path_file_name_of(p: Seq<char>) -> Option<Seq<char>>;

/// The file name without extension as `std::path::Path::file_stem` computes it.
pub uninterp spec fn path_file_stem_of(p: Seq<char>) -> Option<Seq<char>>;

/// `std::path::Path::parent`, rendered as a string.  The result is only
/// named: `Path`'s component rules are not restated.
#[verifier::external_body]
pub(crate) fn path_parent(p: &str) -> (r: Option<String>)
    ensures
        match r {
            Some(s) => path_parent_of(p@) == Some(s@),
            None => path_parent_of(p@) is None,
        },
{
    std::path::Path::new(p).parent().map(|q| q.to_string_lossy().into_owned())
}

/// `std::path::Path::strip_prefix`, rendered as a string.  The result is
/// only named: `Path`'s component rules are not restated.
#[verifier::external_body]
pub(crate) fn path_strip_prefix(p: &str, base: &str) -> (r: Option<String>)
    ensures
        match r {
            Some(s) => path_strip_prefix_of(p@, base@) == Some(s@),
            None => path_strip_prefix_of(p@, base@) is None,
        },
{
    std::path::Path::new(p).strip_prefix(base).ok().map(|q| q.to_string_lossy().into_owned())
}

/// `std::path::Path::join`, rendered as a string.  The result is only named.
#[verifier::external_body]
pub(crate) fn path_join(base: &str, rel: &str) -> (r: String)
    ensures
        r@ == path_join_of(base@, rel@),
{
    std::path::Path::new(base).join(rel).to_string_lossy().into_owned()
}

/// `std::path::Path::file_name`, rendered as a string.  The result is only
/// named.
#[verifier::external_body]
pub(crate) fn path_file_name(p: &str) -> (r: Option<String>)
    ensures
        match r {
            Some(s) => path_file_name_of(p@) == Some(s@),
            None => path_file_name_of(p@) is None,
        },
{
    std::path::Path::new(p).file_name().map(|q| q.to_string_lossy().into_owned())
}

/// `std::path::Path::file_stem`, rendered as a string.  The result is only
/// named.
#[verifier::external_body]
pub(crate) fn path_file_stem(p: &str) -> (r: Option<String>)
    ensures
        match r {
            Some(s) => path_file_stem_of(p@) == Some(s@),
            None => path_file_stem_of(p@) is None,
        },
{
    std::path::Path::new(p).file_stem().map(|q| q.to_string_lossy().into_owned())
}

/// `std::path::Path::exists`: whether something exists at `p`.  The answer
/// depends on the disk, so nothing is stated of it.
#[verifier::external_body]
pub(crate) fn path_exists(p: &str) -> bool {
    std::path::Path::new(p).exists()
}

/// `std::path::Path::is_dir`: whether `p` is a directory.  The answer
/// depends on the disk, so nothing is stated of it.
#[verifier::external_body]
pub(crate) fn path_is_dir(p: &str) -> bool {
    std::path::Path::new(p).is_dir()
}

/// `std::path::Path::metadata`: the size in bytes of the file at `p`, or
/// `None` when it cannot be read.  Depends on the disk: nothing is stated.
#[verifier::external_body]
pub(crate) fn file_size(p: &str) -> Option<u64> {
    std::path::Path::new(p).metadata().ok().map(|m| m.len())
}

/// `std::path::Path::canonicalize`: the absolute path with symbolic links
/// resolved, or `None`.  Depends on the disk: nothing is stated.
#[verifier::external_body]
pub(crate) fn canonicalize(p: &str) -> Option<String> {
    std::path::Path::new(p).canonicalize().ok().map(|q| q.to_string_lossy().into_owned())
}

/// `std::path::Path::read_dir`: the names of the entries of directory `p`
/// that could be read, or `None` when the directory cannot be read.
/// Depends on the disk: nothing is stated.
#[verifier::external_body]
pub(crate) fn dir_entry_names(p: &str) -> Option<Vec<String>> {
    std::path::Path::new(p).read_dir().ok().map(
        |entries| entries.filter_map(|e| e.ok()).map(|e| e.file_name().to_string_lossy().into_owned()).collect(),
    )
}

/// Two paths are equal as `std::path::Path` compares them (component by
/// component).
pub uninterp spec fn paths_equal(a: Seq<char>, b: Seq<char>) -> bool;

/// `==` on `std::path::Path`.  The comparison is only named: `Path`'s
/// component rules are not restated.
#[verifier::external_body]
pub(crate) fn same_path(a: &str, b: &str) -> (r: bool)
    ensures
        r == paths_equal(a@, b@),
{
    std::path::Path::new(a) == std::path::Path::new(b)
}

} // verus!
