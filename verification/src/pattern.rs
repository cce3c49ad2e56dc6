//! Regular expressions, compiled and applied by the `regex` crate.
//!
//! A [`CompiledPattern`] can only be made by [`compile`], which records the
//! pattern text it compiled; the operations below are stated over that text.
use vstd::prelude::*;

verus! {

#[verifier::external_type_specification]
#[verifier::external_body]
pub struct ExRegex(regex::Regex);

#[verifier::external_type_specification]
#[verifier::external_body]
pub struct ExRegexError(regex::Error);

/// Whether `regex::Regex::new` accepts a pattern (its syntax is valid and the
/// compiled program stays within the default size limit).
pub uninterp spec fn regex_compiles(pattern: Seq<char>) -> bool;

/// The text that `regex::Regex::replace_all` returns for the regex of
/// `pattern`, a haystack and a replacement string (`$1`, `${name}` and `$$`
/// expanded).
pub uninterp spec fn regex_replace_all(pattern: Seq<char>, text: Seq<char>, replacement: Seq<char>) -> Seq<char>;

/// The number of non-overlapping matches that `regex::Regex::find_iter`
/// yields for the regex of `pattern` in a haystack.
pub uninterp spec fn regex_match_count(pattern: Seq<char>, text: Seq<char>) -> nat;

/// A compiled regular expression and the pattern text it was compiled from.
pub struct CompiledPattern {
    regex: regex::Regex,
    source: Ghost<Seq<char>>,
}

impl CompiledPattern {
    /// The pattern text this regex was compiled from.
    pub closed spec fn source(&self) -> Seq<char> {
        self.source@
    }
}

/// Why a pattern was refused: the `regex` crate's error.
#[derive(Debug)]
pub enum PatternError {
    /// The pattern is not a valid regular expression, or compiles too big.
    Invalid(regex::Error),
}

/// `regex::Regex::new`: succeeds exactly for the patterns it accepts (a
/// function of the pattern alone, named here), and the compiled regex
/// remembers its pattern.
#[verifier::external_body]
pub(crate) fn compile(pattern: &str) -> (r: Result<CompiledPattern, regex::Error>)
    ensures
        r is Ok <==> regex_compiles(pattern@),
        r matches Ok(p) ==> p.source() == pattern@,
{
    match regex::Regex::new(pattern) {
        Ok(regex) => Ok(CompiledPattern { regex, source: Ghost(pattern@) }),
        Err(e) => Err(e),
    }
}

/// `regex::Regex::replace_all` with a replacement string, made owned; its
/// result is named, not spelled out.
#[verifier::external_body]
pub(crate) fn replace_all(p: &CompiledPattern, text: &str, replacement: &str) -> (s: String)
    ensures
        s@ == regex_replace_all(p.source(), text@, replacement@),
{
    p.regex.replace_all(text, replacement).into_owned()
}

/// `regex::Regex::find_iter`, counted; the count is named, not spelled out.
#[verifier::external_body]
pub(crate) fn count_matches(p: &CompiledPattern, text: &str) -> (n: usize)
    ensures
        n == regex_match_count(p.source(), text@),
{
    p.regex.find_iter(text).count()
}

} // verus!
