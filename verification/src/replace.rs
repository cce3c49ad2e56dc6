//! Regex search-and-replace over the whole input.
use vstd::prelude::*;
use crate::pattern::{compile, replace_all, regex_compiles, regex_replace_all, PatternError};

verus! {

/// Replace all non-overlapping matches of `pattern` in `text` with
/// `replacement`, returning the new string.
///
/// The replacement string supports the `regex` crate's substitution syntax:
/// `$1` / `${name}` reference capture groups, and `$$` is a literal `$`. The
/// pattern is applied across the entire input including newlines.
///
/// Returns an error exactly when `pattern` is not a valid regular expression
/// (or compiles too big).
pub fn replace(text: &str, pattern: &str, replacement: &str) -> (r: Result<String, PatternError>)
    ensures
        r is Ok <==> regex_compiles(pattern@),
        r matches Ok(s) ==> s@ == regex_replace_all(pattern@, text@, replacement@),
{
    match compile(pattern) {
        Ok(p) => Ok(replace_all(&p, text, replacement)),
        Err(e) => Err(PatternError::Invalid(e)),
    }
}

} // verus!
