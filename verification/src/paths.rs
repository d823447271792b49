//! Paths, as the standard library takes them apart.
use vstd::prelude::*;
use crate::text;

verus! {

/// The directory of a path, as `Path::parent` gives it.
pub uninterp spec fn parent_path(path: Seq<char>) -> Option<Seq<char>>;

/// `Path::parent`: the path without its last component, `None` where it has
/// none or is a root.
#[verifier::external_body]
pub(crate) fn parent_of(path: &str) -> (r: Option<String>)
    ensures
        text::text_in(r) == parent_path(path@),
{
    std::path::Path::new(path).parent().map(|d| d.to_string_lossy().into_owned())
}

/// Whether the components of a path begin with those of another, as
/// `Path::starts_with` says.
pub uninterp spec fn path_under(path: Seq<char>, base: Seq<char>) -> bool;

/// `Path::starts_with`: whether `base` is a prefix of `path`, whole components
/// being compared.
#[verifier::external_body]
pub(crate) fn is_under(path: &str, base: &str) -> (r: bool)
    ensures
        r == path_under(path@, base@),
{
    std::path::Path::new(path).starts_with(base)
}

/// Whether two paths have the same components, as `Path::eq` says.
pub uninterp spec fn path_same(a: Seq<char>, b: Seq<char>) -> bool;

/// `Path::eq`: whether two paths have the same components.
#[verifier::external_body]
pub(crate) fn is_same(a: &str, b: &str) -> (r: bool)
    ensures
        r == path_same(a@, b@),
{
    std::path::Path::new(a) == std::path::Path::new(b)
}

} // verus!
