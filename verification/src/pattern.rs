//! Glob matching, delegated to the `glob` crate.

use vstd::prelude::*;

verus! {

/// Whether `glob::Pattern::new` accepts `pattern` (it rejects, among others,
/// `***`, a `**` that is not a whole path component and an unclosed `[`).
/// The separator set that `glob` uses is the one of the target the crate is
/// compiled for.
pub uninterp spec fn glob_compiles(pattern: Seq<char>) -> bool;

/// What `glob::Pattern::matches` answers, with the default match options,
/// for the pattern compiled from `pattern` and the text `path`.
pub uninterp spec fn glob_matches(pattern: Seq<char>, path: Seq<char>) -> bool;

/// A pattern "hits" a path when it compiles and the compiled pattern
/// matches the path.
pub open spec fn pattern_hits(pattern: Seq<char>, path: Seq<char>) -> bool {
    glob_compiles(pattern) && glob_matches(pattern, path)
}

/// Compiles `pattern` with `glob::Pattern::new` and, when that succeeds,
/// matches `path` against it with `glob::Pattern::matches`.
/// Trusted: `None` exactly when the pattern does not compile, and otherwise
/// the answer of `matches`, both as named above; nothing else is claimed of
/// glob's grammar.
#[verifier::external_body]
pub(crate) fn glob_match(pattern: &str, path: &str) -> (r: Option<bool>)
    ensures
        r is Some <==> glob_compiles(pattern@),
        r matches Some(b) ==> b == glob_matches(pattern@, path@),
{
    match glob::Pattern::new(pattern) {
        Ok(compiled) => Some(compiled.matches(path)),
        Err(_) => None,
    }
}

} // verus!
