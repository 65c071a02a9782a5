//! Gitignore-style ignore rules, compiled once from the pattern text found at
//! the root and consulted by the path classifier.
//!
//! The pattern semantics (globbing, negation, the directory/file distinction)
//! belong to the `ignore` crate; this module holds the pattern text and names
//! the crate's verdicts, so that contracts can speak about them.

use vstd::prelude::*;

verus! {

/// Whether the `ignore` crate builds a matcher from this pattern text.
pub uninterp spec fn gitignore_accepts(rules: Seq<char>) -> bool;

/// The verdict of the matcher built from `rules` on a root-relative path:
/// true when the path is ignored.
pub uninterp spec fn gitignore_matches(rules: Seq<char>, rel_path: Seq<char>, is_dir: bool) -> bool;

/// Relies on `ignore::gitignore::GitignoreBuilder::build`: whether a matcher
/// can be built from the given pattern lines. Lines the builder refuses are
/// skipped, as `GitignoreBuilder::add` skips them; only a failure of `build`
/// itself counts. The outcome depends on the pattern text alone.
#[verifier::external_body]
fn gitignore_compile_check(rules: &str) -> (r: bool)
    ensures
        r == gitignore_accepts(rules@),
{
    let mut builder = ignore::gitignore::GitignoreBuilder::new("");
    for line in rules.lines() {
        let _ = builder.add_line(None, line);
    }
    builder.build().is_ok()
}

/// Relies on `ignore::gitignore::Gitignore::matched`: whether the matcher
/// built from `rules` ignores `rel_path`. Matching is by pattern alone, so
/// the verdict depends only on the arguments.
#[verifier::external_body]
fn gitignore_query(rules: &str, rel_path: &str, is_dir: bool) -> (r: bool)
    requires
        gitignore_accepts(rules@),
    ensures
        r == gitignore_matches(rules@, rel_path@, is_dir),
{
    let mut builder = ignore::gitignore::GitignoreBuilder::new("");
    for line in rules.lines() {
        let _ = builder.add_line(None, line);
    }
    match builder.build() {
        Ok(matcher) => matcher.matched(std::path::Path::new(rel_path), is_dir).is_ignore(),
        Err(_) => false,
    }
}

/// A compiled set of ignore rules: either the pattern text of one gitignore
/// file, or nothing, in which case no path is ever ignored.
pub struct IgnoreMatcher {
    rules: Option<String>,
}

impl IgnoreMatcher {
    /// The pattern text this matcher was built from, if any.
    pub closed spec fn spec_rules(self) -> Option<Seq<char>> {
        match self.rules {
            Some(s) => Some(s@),
            None => None,
        }
    }

    #[verifier::type_invariant]
    spec fn inv(self) -> bool {
        match self.spec_rules() {
            Some(t) => gitignore_accepts(t),
            None => true,
        }
    }

    /// A matcher that never ignores anything.
    pub fn empty() -> (r: IgnoreMatcher)
        ensures
            r.spec_rules() is None,
    {
        IgnoreMatcher { rules: None }
    }

    /// Compiles gitignore pattern text. Fails exactly when the `ignore`
    /// crate refuses to build a matcher from it.
    pub fn from_rules(rules: String) -> (r: Option<IgnoreMatcher>)
        ensures
            r is Some <==> gitignore_accepts(rules@),
            r is Some ==> r->0.spec_rules() == Some(rules@),
    {
        if gitignore_compile_check(rules.as_str()) {
            Some(IgnoreMatcher { rules: Some(rules) })
        } else {
            None
        }
    }

    /// Whether this matcher ignores `rel_path`: the verdict of its rules on
    /// the path, and never ignored when it holds no rules.
    pub open spec fn spec_ignored(self, rel_path: Seq<char>, is_dir: bool) -> bool {
        match self.spec_rules() {
            Some(t) => gitignore_matches(t, rel_path, is_dir),
            None => false,
        }
    }

    /// Asks the rules about a path relative to the root, `/`-separated.
    pub fn is_ignored(&self, rel_path: &str, is_dir: bool) -> (r: bool)
        ensures
            r == self.spec_ignored(rel_path@, is_dir),
    {
        proof {
            use_type_invariant(&*self);
        }
        match &self.rules {
            None => false,
            Some(t) => gitignore_query(t.as_str(), rel_path, is_dir),
        }
    }
}

} // verus!
