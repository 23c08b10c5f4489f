//! Compiled glob patterns, from the `glob` crate. A `GlobPattern` is made only by
//! `compile_glob` below, so its compiled form is always the one of its source.

use vstd::prelude::*;

verus! {

#[verifier::external_type_specification]
#[verifier::external_body]
pub struct ExPattern(glob::Pattern);

/// What `glob::Pattern::new` reports for `pattern`: `None` where it accepts it,
/// else the `Display` text of its error.
pub uninterp spec fn glob_compile_error(pattern: Seq<char>) -> Option<Seq<char>>;

/// Whether `glob::Pattern::new` accepts `pattern`.
pub open spec fn glob_accepts(pattern: Seq<char>) -> bool {
    glob_compile_error(pattern) is None
}

/// Whether the pattern compiled from `pattern` matches `path`, as
/// `glob::Pattern::matches` decides it (default options).
pub uninterp spec fn glob_matches(pattern: Seq<char>, path: Seq<char>) -> bool;

/// A compiled glob pattern together with the text it was compiled from.
pub struct GlobPattern {
    source: String,
    compiled: glob::Pattern,
}

impl GlobPattern {
    /// The text the pattern was compiled from.
    pub closed spec fn source(&self) -> Seq<char> {
        self.source@
    }
}

/// `glob::Pattern::new`, its error given as its `Display` text. Claimed: it
/// succeeds exactly when `glob_compile_error(pattern@)` is `None`, keeping
/// `pattern` as the source, and otherwise fails with that text.
#[verifier::external_body]
pub(crate) fn compile_glob(pattern: &str) -> (r: Result<GlobPattern, String>)
    ensures
        match r {
            Ok(g) => glob_compile_error(pattern@) is None && g.source() == pattern@,
            Err(t) => glob_compile_error(pattern@) == Some(t@),
        },
{
    match glob::Pattern::new(pattern) {
        Ok(compiled) => Ok(GlobPattern { source: pattern.to_string(), compiled }),
        Err(e) => Err(e.to_string()),
    }
}

/// `glob::Pattern::matches`. Claimed: the answer is `glob_matches` of the
/// pattern's source and `path`.
#[verifier::external_body]
pub(crate) fn glob_pattern_matches(pattern: &GlobPattern, path: &str) -> (b: bool)
    ensures
        b == glob_matches(pattern.source(), path@),
{
    pattern.compiled.matches(path)
}

} // verus!
