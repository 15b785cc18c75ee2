//! Glob pattern matching, delegated to the `globset` crate.
//!
//! Whether a pattern is usable, and whether a usable pattern matches a
//! slash-separated path, are functions of the two strings alone once
//! both are free of backslashes (globset treats `\` differently by
//! platform), so both are given names that the exclusion contracts
//! speak of.  Matching goes through a one-pattern `GlobSet` built by
//! the fallible builder, so a pattern that parses but whose matcher
//! cannot be compiled is reported as unusable rather than failing the
//! run.

use vstd::prelude::*;

verus! {

/// Whether the pattern parses and compiles to a usable matcher.
pub uninterp spec fn glob_ok(pattern: Seq<char>) -> bool;

/// Whether the usable pattern matches the path, both backslash-free.
pub uninterp spec fn glob_match_of(pattern: Seq<char>, path: Seq<char>) -> bool;

/// Relies on `globset::Glob::new` and `globset::GlobSetBuilder::build`:
/// a pattern either parses and compiles into a matcher, or is rejected,
/// depending for backslash-free patterns on the pattern text alone.
#[verifier::external_body]
pub fn glob_is_valid(pattern: &str) -> (r: bool)
    requires
        forall|i: int| 0 <= i < pattern@.len() ==> pattern@[i] != '\\',
    ensures
        r == glob_ok(pattern@),
{
    match globset::Glob::new(pattern) {
        Ok(g) => {
            let mut builder = globset::GlobSetBuilder::new();
            builder.add(g);
            builder.build().is_ok()
        }
        Err(_) => false,
    }
}

/// Relies on `globset::Glob::new`, `globset::GlobSetBuilder::build` and
/// `globset::GlobSet::is_match`: for a backslash-free pattern and path
/// the match outcome depends on the two strings alone.  `None` is
/// returned exactly when the pattern does not parse or its matcher
/// cannot be compiled.
#[verifier::external_body]
pub fn glob_match_path(pattern: &str, path: &str) -> (r: Option<bool>)
    requires
        forall|i: int| 0 <= i < pattern@.len() ==> pattern@[i] != '\\',
        forall|i: int| 0 <= i < path@.len() ==> path@[i] != '\\',
    ensures
        r.is_some() == glob_ok(pattern@),
        r.is_some() ==> r.unwrap() == glob_match_of(pattern@, path@),
{
    match globset::Glob::new(pattern) {
        Ok(g) => {
            let mut builder = globset::GlobSetBuilder::new();
            builder.add(g);
            match builder.build() {
                Ok(set) => Some(set.is_match(path)),
                Err(_) => None,
            }
        }
        Err(_) => None,
    }
}

} // verus!
