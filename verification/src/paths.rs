//! The two path operations the stores' file names are made with.
//!
//! What a path's stem is, and what replacing its final component gives,
//! follow the platform's path rules; both are read from std here rather
//! than restated.

use vstd::prelude::*;

verus! {

/// What `Path::file_stem` gives for a path of this text, as text (empty
/// where there is no file name).
pub uninterp spec fn file_stem_of(path: Seq<char>) -> Seq<char>;

/// What `Path::with_file_name` gives for a path of this text and a new
/// final component, as text.
pub uninterp spec fn with_file_name_of(path: Seq<char>, name: Seq<char>) -> Seq<char>;

/// `Path::file_stem` of the path, or the empty string where the path has
/// no file name. The contract names the result and says nothing more of
/// it.
#[verifier::external_body]
pub(crate) fn file_stem(path: &str) -> (s: String)
    ensures
        s@ == file_stem_of(path@),
{
    std::path::Path::new(path).file_stem().unwrap_or_default().to_string_lossy().into_owned()
}

/// `Path::with_file_name`: the path with its final component replaced by
/// `name`. The contract names the result and says nothing more of it.
#[verifier::external_body]
pub(crate) fn with_file_name(path: &str, name: &str) -> (s: String)
    ensures
        s@ == with_file_name_of(path@, name@),
{
    std::path::Path::new(path).with_file_name(name).to_string_lossy().into_owned()
}

} // verus!
