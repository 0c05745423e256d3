//! Path queries on `/`-separated path strings, answered by `std::path::Path`.
use vstd::prelude::*;
use std::path::Path;

verus! {

/// What `Path::parent` returns for the path spelled by `p`.
pub uninterp spec fn spec_path_parent(p: Seq<char>) -> Option<Seq<char>>;

/// What `Path::file_name` returns for the path spelled by `p`.
pub uninterp spec fn spec_path_file_name(p: Seq<char>) -> Option<Seq<char>>;

/// What `Path::file_stem` returns for the path spelled by `p`.
pub uninterp spec fn spec_path_file_stem(p: Seq<char>) -> Option<Seq<char>>;

/// What `Path::extension` returns for the path spelled by `p`.
pub uninterp spec fn spec_path_extension(p: Seq<char>) -> Option<Seq<char>>;

/// What `Path::starts_with` answers for paths spelled `p` and `base`
/// (a component-wise prefix test).
pub uninterp spec fn spec_path_starts_with(p: Seq<char>, base: Seq<char>) -> bool;

/// `Path::parent`: the path without its final component, which is shorter
/// than the path itself.
#[verifier::external_body]
pub(crate) fn path_parent(p: &str) -> (r: Option<String>)
    ensures
        r matches Some(q) ==> q@ == spec_path_parent(p@)->0 && q@.len() < p@.len(),
        r is Some <==> spec_path_parent(p@) is Some,
{
    Path::new(p).parent().map(|q| q.to_string_lossy().to_string())
}

/// `Path::file_name`: the final component, when it is a normal component.
#[verifier::external_body]
pub(crate) fn path_file_name(p: &str) -> (r: Option<String>)
    ensures
        r matches Some(q) ==> q@ == spec_path_file_name(p@)->0,
        r is Some <==> spec_path_file_name(p@) is Some,
{
    Path::new(p).file_name().map(|n| n.to_string_lossy().to_string())
}

/// `Path::file_stem`: the file name without its extension.
#[verifier::external_body]
pub(crate) fn path_file_stem(p: &str) -> (r: Option<String>)
    ensures
        r matches Some(q) ==> q@ == spec_path_file_stem(p@)->0,
        r is Some <==> spec_path_file_stem(p@) is Some,
{
    Path::new(p).file_stem().map(|n| n.to_string_lossy().to_string())
}

/// `Path::extension`: the extension of the file name, if any.
#[verifier::external_body]
pub(crate) fn path_extension(p: &str) -> (r: Option<String>)
    ensures
        r matches Some(q) ==> q@ == spec_path_extension(p@)->0,
        r is Some <==> spec_path_extension(p@) is Some,
{
    Path::new(p).extension().map(|n| n.to_string_lossy().to_string())
}

/// `Path::starts_with`: whether `base` is a component-wise prefix of `p`.
#[verifier::external_body]
pub(crate) fn path_starts_with(p: &str, base: &str) -> (r: bool)
    ensures
        r == spec_path_starts_with(p@, base@),
{
    Path::new(p).starts_with(base)
}

} // verus!
