//! The compiled message filters that decide which message lines are dropped.
use vstd::prelude::*;
use crate::text::views;

verus! {

#[verifier::external_type_specification]
#[verifier::external_body]
pub struct ExRegexSet(regex::RegexSet);

#[verifier::external_type_specification]
#[verifier::external_body]
pub struct ExRegexError(regex::Error);

/// Whether `RegexSet::new` accepts these patterns.
pub uninterp spec fn set_compiles(patterns: Seq<Seq<char>>) -> bool;

/// Whether some pattern of a set that `RegexSet::new` built from `patterns`
/// matches somewhere in `haystack`.
pub uninterp spec fn set_matches(patterns: Seq<Seq<char>>, haystack: Seq<char>) -> bool;

/// Relies on `regex::RegexSet::new`: it fails exactly when the patterns do
/// not compile under its fixed default settings; an empty list always
/// compiles.
#[verifier::external_body]
pub(crate) fn compile_set(patterns: &Vec<String>) -> (r: Result<regex::RegexSet, regex::Error>)
    ensures
        r is Ok <==> set_compiles(views(patterns@)),
        patterns@.len() == 0 ==> r is Ok,
{
    regex::RegexSet::new(patterns)
}

/// A set of patterns compiled by `RegexSet::new` with its default settings,
/// with the patterns it was compiled from. Only `Filters::compile` makes one.
pub struct Filters {
    set: regex::RegexSet,
    patterns: Vec<String>,
}

impl Filters {
    /// The patterns, in the order given.
    pub closed spec fn patterns(&self) -> Seq<Seq<char>> {
        views(self.patterns@)
    }

    /// Compiles `patterns`; fails exactly when they do not compile.
    pub fn compile(patterns: Vec<String>) -> (r: Result<Filters, regex::Error>)
        ensures
            r is Ok <==> set_compiles(views(patterns@)),
            r matches Ok(f) ==> f.patterns() == views(patterns@),
            patterns@.len() == 0 ==> r is Ok,
    {
        match compile_set(&patterns) {
            Ok(set) => Ok(Filters { set, patterns }),
            Err(e) => Err(e),
        }
    }

    /// Relies on `regex::RegexSet::is_match` over `self.set`, which
    /// `Filters::compile` built with `RegexSet::new` from `self.patterns`:
    /// whether any of those patterns matches `haystack`.
    #[verifier::external_body]
    pub(crate) fn is_match(&self, haystack: &str) -> (r: bool)
        ensures
            r == set_matches(self.patterns(), haystack@),
    {
        self.set.is_match(haystack)
    }
}

} // verus!
