//! Regular expressions, as the `regex` crate provides them.
//!
//! The two calls into the crate stand behind `compile` and `captures`, whose
//! contracts state what the crate's documentation says and are not proved.
//! The rest of the library reaches them through `Expression` alone.

use vstd::prelude::*;
use regex::Regex;

verus! {

/// `regex::Regex`, a compiled expression. Nothing is known of what is inside.
#[verifier::external_type_specification]
#[verifier::external_body]
pub struct ExRegex(regex::Regex);

/// `regex::Error`, the reason why a pattern was not compiled. Nothing is
/// known of what is inside.
#[verifier::external_type_specification]
#[verifier::external_body]
pub struct ExRegexError(regex::Error);

/// Whether `Regex::new` compiles `pattern`: it does unless the pattern is
/// invalid or the compiled expression would be larger than the crate's
/// default limit.
pub uninterp spec fn regex_compiles(pattern: Seq<char>) -> bool;

/// The pattern that an expression was compiled from by `Regex::new`: what
/// `Regex::as_str` returns. It is known of an expression only through
/// `compile`.
pub uninterp spec fn regex_source(re: &Regex) -> Seq<char>;

/// What `Regex::captures` finds for an expression that `Regex::new`
/// compiled from `pattern` in `haystack`: nothing where the pattern matches
/// nowhere, else the groups of the first match. Group 0 is the whole
/// match, and a group that took no part in the match is `None`.
pub uninterp spec fn regex_captures(pattern: Seq<char>, haystack: Seq<char>) -> Option<
    Seq<Option<Seq<char>>>,
>;

/// The groups of a match as sequences of characters.
pub open spec fn groups_view(groups: Option<Vec<Option<String>>>) -> Option<
    Seq<Option<Seq<char>>>,
> {
    match groups {
        Some(list) => Some(
            Seq::new(
                list@.len(),
                |i: int|
                    match list@[i] {
                        Some(text) => Some(text@),
                        None => None,
                    },
            ),
        ),
        None => None,
    }
}

/// Calls `Regex::new`. It succeeds on the patterns that the crate compiles,
/// and the expression it gives is the one compiled from `pattern`.
#[verifier::external_body]
fn compile(pattern: &str) -> (compiled: Result<Regex, regex::Error>)
    ensures
        compiled is Ok <==> regex_compiles(pattern@),
        compiled matches Ok(re) ==> regex_source(&re) == pattern@,
{
    Regex::new(pattern)
}

/// Calls `Regex::captures` on an expression that `compile` gave, and hands
/// out the text of each group of the first match.
#[verifier::external_body]
fn captures(re: &Regex, haystack: &str) -> (groups: Option<Vec<Option<String>>>)
    ensures
        groups_view(groups) == regex_captures(regex_source(re), haystack@),
{
    re.captures(haystack).map(
        |found| found.iter().map(|group| group.map(|m| m.as_str().to_string())).collect(),
    )
}

/// An expression compiled from a pattern. `Expression::new` is the only way
/// to make one, so every expression is one that `Regex::new` compiled.
#[derive(Debug)]
pub struct Expression {
    re: Regex,
}

impl Expression {
    /// The pattern that the expression was compiled from.
    pub closed spec fn source(&self) -> Seq<char> {
        regex_source(&self.re)
    }

    /// Compiles `pattern`. The result is an expression for `pattern` where
    /// the `regex` crate compiles it, and the crate's error where it does not.
    pub fn new(pattern: &str) -> (made: Result<Expression, regex::Error>)
        ensures
            made is Ok <==> regex_compiles(pattern@),
            made matches Ok(expression) ==> expression.source() == pattern@,
    {
        match compile(pattern) {
            Ok(re) => Ok(Expression { re }),
            Err(e) => Err(e),
        }
    }

    /// Searches `haystack` for the first match of the expression and
    /// returns the text of each of its groups, or nothing without a match.
    pub fn captures(&self, haystack: &str) -> (groups: Option<Vec<Option<String>>>)
        ensures
            groups_view(groups) == regex_captures(self.source(), haystack@),
    {
        captures(&self.re, haystack)
    }
}

} // verus!
