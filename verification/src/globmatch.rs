//! Trusted boundary around the `globset` crate.
//!
//! The walker needs exactly two things from `globset`: compiling one pattern
//! into a matcher, and asking that matcher about a path. Both are pure
//! functions of their string arguments, so each gets a name here and every
//! contract upstream speaks of those names.

use vstd::prelude::*;

verus! {

#[verifier::external_type_specification]
#[verifier::external_body]
pub struct ExGlobSet(globset::GlobSet);

#[verifier::external_type_specification]
#[verifier::external_body]
pub struct ExGlobsetError(globset::Error);

/// The one pattern a compiled matcher holds: every matcher this crate builds
/// carries a single glob.
pub uninterp spec fn glob_set_pattern(g: globset::GlobSet) -> Seq<char>;

/// Whether a glob pattern matches a path. Glob matching depends on the
/// pattern and the path alone, so the same arguments always give the same
/// answer. (For a pattern or path holding backslashes, globset's handling is
/// platform-conditional, so this names the build platform's matching
/// function; the walk normalizes backslashes away first on such platforms.)
pub uninterp spec fn glob_match(pattern: Seq<char>, path: Seq<char>) -> bool;

/// Whether a glob pattern is accepted by the compiler. Which patterns parse
/// is globset's own rule, but it is a deterministic function of the pattern
/// alone, so acceptance deserves a name.
pub uninterp spec fn glob_compiles(pattern: Seq<char>) -> bool;

/// Relies on globset's `Glob::new`, `GlobSetBuilder::add` and
/// `GlobSetBuilder::build`: parsing one pattern and building a matcher that
/// holds exactly that pattern. Parsing and building are deterministic, so
/// success is exactly [`glob_compiles`] of the pattern.
#[verifier::external_body]
pub fn compile_glob_set(pattern: &str) -> (r: Result<globset::GlobSet, globset::Error>)
    ensures
        r is Ok <==> glob_compiles(pattern@),
        r matches Ok(g) ==> glob_set_pattern(g) == pattern@,
{
    let glob = match globset::Glob::new(pattern) {
        Ok(g) => g,
        Err(e) => return Err(e),
    };
    let mut builder = globset::GlobSetBuilder::new();
    builder.add(glob);
    builder.build()
}

/// Relies on globset's `GlobSet::is_match`: whether any glob of the set
/// matches the path; the sets built here hold one pattern, so this is exactly
/// that pattern's verdict on the path.
#[verifier::external_body]
pub fn glob_set_is_match(set: &globset::GlobSet, path: &str) -> (r: bool)
    ensures
        r == glob_match(glob_set_pattern(*set), path@),
{
    set.is_match(path)
}

/// Relies on globset's `Error` `Display` implementation for a human-readable
/// description of why a pattern was rejected.
#[verifier::external_body]
pub fn glob_error_message(e: &globset::Error) -> String {
    e.to_string()
}

} // verus!
