//! The few `std::path` operations the analyses use, on paths held as text.
use vstd::prelude::*;

verus! {

/// What `Path::new(path).strip_prefix(base)` gives, or `path` itself when
/// `base` is not a prefix of it (component-wise), as text.
pub uninterp spec fn path_relative_to(path: Seq<char>, base: Seq<char>) -> Seq<char>;

/// `Path::file_name`, as text.
pub uninterp spec fn path_file_name(path: Seq<char>) -> Option<Seq<char>>;

/// `Path::parent`, as text.
pub uninterp spec fn path_parent(path: Seq<char>) -> Option<Seq<char>>;

/// `Path::strip_prefix`, falling back to the path itself. The result is
/// named, not stated: it is whatever `std` returns for these two strings.
#[verifier::external_body]
pub fn rel_path(path: &str, base: &str) -> (r: String)
    ensures
        r@ == path_relative_to(path@, base@),
{
    let p = std::path::Path::new(path);
    p.strip_prefix(base).unwrap_or(p).to_string_lossy().into_owned()
}

/// `Path::file_name`. The result is named, not stated.
#[verifier::external_body]
pub fn file_name(path: &str) -> (r: Option<String>)
    ensures
        r is Some <==> path_file_name(path@) is Some,
        r matches Some(s) ==> path_file_name(path@) == Some(s@),
{
    std::path::Path::new(path).file_name().map(|n| n.to_string_lossy().into_owned())
}

/// `Path::parent`. The result is named, not stated.
#[verifier::external_body]
pub fn parent(path: &str) -> (r: Option<String>)
    ensures
        r is Some <==> path_parent(path@) is Some,
        r matches Some(s) ==> path_parent(path@) == Some(s@),
{
    std::path::Path::new(path).parent().map(|n| n.to_string_lossy().into_owned())
}

} // verus!
