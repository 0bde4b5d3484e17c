//! The class of characters sequences that may form one token, given by a
//! regular expression of the `regex` crate.

use vstd::prelude::*;
use regex::Regex;

verus! {

#[verifier::external_type_specification]
#[verifier::external_body]
pub struct ExRegex(regex::Regex);

#[verifier::external_type_specification]
#[verifier::external_body]
pub struct ExRegexError(regex::Error);

/// Whether `regex::Regex::new` accepts `pattern`.
pub uninterp spec fn regex_compiles(pattern: Seq<char>) -> bool;

/// What `is_match` of the regex compiled from `pattern` answers for `text`.
pub uninterp spec fn regex_is_match(pattern: Seq<char>, text: Seq<char>) -> bool;

/// Calls `regex::Regex::new`. Claimed: it succeeds exactly when `pattern`
/// compiles, which depends on the pattern alone (the default size limits
/// are fixed).
#[verifier::external_body]
fn compile_regex(pattern: &str) -> (r: Result<Regex, regex::Error>)
    ensures
        r is Ok <==> regex_compiles(pattern@),
{
    Regex::new(pattern)
}

/// The pattern given could not be compiled to a regular expression.
#[derive(Debug, PartialEq, Eq, Clone, Copy)]
pub enum PatternError {
    Invalid,
}

/// The tokens of a language: the texts that the regular expression
/// `pattern` matches.
pub struct Tokenable {
    pattern: String,
    regex: Regex,
}

impl View for Tokenable {
    type V = Seq<char>;

    /// The pattern that the regular expression was compiled from.
    closed spec fn view(&self) -> Seq<char> {
        self.pattern@
    }
}

impl Tokenable {
    /// Compiles `pattern`; fails exactly when the `regex` crate refuses it.
    pub fn new(pattern: &str) -> (r: Result<Tokenable, PatternError>)
        ensures
            r is Ok <==> regex_compiles(pattern@),
            r matches Ok(t) ==> t@ == pattern@,
    {
        match compile_regex(pattern) {
            Ok(regex) => Ok(Tokenable { pattern: pattern.to_owned(), regex }),
            Err(_) => Err(PatternError::Invalid),
        }
    }

    /// The pattern this class was compiled from.
    pub fn pattern(&self) -> (r: &str)
        ensures
            r@ == self@,
    {
        self.pattern.as_str()
    }

    /// Calls `regex::Regex::is_match` on the text of `text`. Claimed: the
    /// answer is that of the regex compiled from `self@` for `text@`, a
    /// function of the two alone.
    #[verifier::external_body]
    pub(crate) fn matches(&self, text: &[char]) -> (b: bool)
        ensures
            b == regex_is_match(self@, text@),
    {
        let s: String = text.iter().collect();
        self.regex.is_match(&s)
    }
}

} // verus!
