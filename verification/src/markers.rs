//! Marker lines are recognised by regular expressions of the `regex` crate.
use vstd::prelude::*;
use regex::Regex;

verus! {

/// `regex::Regex`, opaque to the verifier.
#[verifier::external_type_specification]
#[verifier::external_body]
pub struct ExRegex(regex::Regex);

/// `regex::Error`, opaque to the verifier.
#[verifier::external_type_specification]
#[verifier::external_body]
pub struct ExRegexError(regex::Error);

/// Whether a compiled expression matches somewhere in a text.
pub uninterp spec fn regex_is_match(re: Regex, text: Seq<char>) -> bool;

/// Whether the expression that a pattern compiles to matches somewhere in a text.
pub uninterp spec fn pattern_matches(pattern: Seq<char>, text: Seq<char>) -> bool;

/// Whether a pattern can be compiled to an expression.
pub uninterp spec fn pattern_compiles(pattern: Seq<char>) -> bool;

/// Whether `re` matches the texts that `pattern` stands for.
pub open spec fn compiled_from(re: Regex, pattern: Seq<char>) -> bool {
    forall|text: Seq<char>| #[trigger] regex_is_match(re, text) == pattern_matches(pattern, text)
}

/// `Regex::new`: compiles a pattern, or reports why it cannot be compiled.
/// Whether a pattern compiles, and what the compiled expression matches,
/// depend on the pattern alone.
#[verifier::external_body]
pub(crate) fn compile(pattern: &str) -> (r: Result<Regex, regex::Error>)
    ensures
        r is Ok <==> pattern_compiles(pattern@),
        r matches Ok(re) ==> (forall|text: Seq<char>| #[trigger]
            regex_is_match(re, text) == pattern_matches(pattern@, text)),
{
    Regex::new(pattern)
}

/// `Regex::is_match`: whether the expression matches anywhere in the text.
#[verifier::external_body]
pub(crate) fn is_match(re: &Regex, text: &str) -> (hit: bool)
    ensures
        hit == regex_is_match(*re, text@),
{
    re.is_match(text)
}

} // verus!
