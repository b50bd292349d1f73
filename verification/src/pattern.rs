//! Regular expressions, compiled and matched by the `regex` crate.

use vstd::prelude::*;

verus! {

#[verifier::external_type_specification]
#[verifier::external_body]
pub struct ExRegex(regex::Regex);

/// Whether `regex::Regex::new` accepts the pattern (its syntax is valid and
/// the compiled form fits the default size limits).
pub uninterp spec fn regex_compiles(pattern: Seq<char>) -> bool;

/// Whether the regular expression `pattern` matches somewhere in `haystack`
/// (what `regex::Regex::is_match` returns).
pub uninterp spec fn regex_finds(pattern: Seq<char>, haystack: Seq<char>) -> bool;

/// A compiled regular expression, with the pattern it was compiled from.
pub struct Pattern {
    re: regex::Regex,
    source: String,
}

impl View for Pattern {
    type V = Seq<char>;

    /// The pattern's source text.
    closed spec fn view(&self) -> Seq<char> {
        self.source@
    }
}

impl Pattern {
    /// Compiles `pattern` with `regex::Regex::new`; `None` when it is refused.
    #[verifier::external_body]
    pub fn new(pattern: &str) -> (r: Option<Pattern>)
        ensures
            r is Some <==> regex_compiles(pattern@),
            r matches Some(p) ==> p@ == pattern@,
    {
        match regex::Regex::new(pattern) {
            Ok(re) => Some(Pattern { re, source: pattern.to_string() }),
            Err(_) => None,
        }
    }

    /// Calls `regex::Regex::is_match`: whether the pattern matches somewhere in `haystack`.
    #[verifier::external_body]
    pub fn is_match(&self, haystack: &str) -> (r: bool)
        ensures
            r == regex_finds(self@, haystack@),
    {
        self.re.is_match(haystack)
    }
}

} // verus!
