//! Compiled regular expressions, each held together with the pattern and case
//! setting that it was built from. Only the builder below pairs the two.
use vstd::prelude::*;

verus! {

/// A compiled regular expression (`regex::Regex`), carried as it is.
#[verifier::external_type_specification]
#[verifier::external_body]
pub struct ExRegex(regex::Regex);

/// What `regex::RegexBuilder::new(pattern).case_insensitive(ignore_case)
/// .size_limit(1 << 20).build()` gives: `Ok` when the pattern compiles, else the
/// text of the error.
pub uninterp spec fn regex_build(pattern: Seq<char>, ignore_case: bool) -> Result<(), Seq<char>>;

/// What `Regex::is_match` answers for the expression built from `pattern` and
/// `ignore_case`, on `text`.
pub uninterp spec fn regex_is_match(pattern: Seq<char>, ignore_case: bool, text: Seq<char>) -> bool;

/// A compiled regular expression, and the pattern and case setting it was built from.
/// Its fields are private to this module, where only [`regex_new`] makes one.
pub struct Pattern {
    re: regex::Regex,
    source: String,
    ignore_case: bool,
}

impl View for Pattern {
    type V = (Seq<char>, bool);

    closed spec fn view(&self) -> (Seq<char>, bool) {
        (self.source@, self.ignore_case)
    }
}

/// Builds the expression (`RegexBuilder::new(pattern).case_insensitive(ignore_case)
/// .size_limit(1 << 20).build()`), kept with the pattern and the case setting it was
/// built from; the text of the error (`regex_build`) when it does not build.
#[verifier::external_body]
fn regex_new(pattern: &str, ignore_case: bool) -> (r: Result<Pattern, String>)
    ensures
        match (r, regex_build(pattern@, ignore_case)) {
            (Ok(p), Ok(())) => p@ == (pattern@, ignore_case),
            (Err(e), Err(m)) => e@ == m,
            _ => false,
        },
{
    match regex::RegexBuilder::new(pattern).case_insensitive(ignore_case).size_limit(1 << 20).build() {
        Ok(re) => Ok(Pattern { re, source: pattern.to_string(), ignore_case }),
        Err(e) => Err(e.to_string()),
    }
}

/// `Regex::is_match` on the expression held by `p`, which [`regex_new`] built from
/// `p@`; the answer is named [`regex_is_match`].
#[verifier::external_body]
fn pattern_matches(p: &Pattern, text: &str) -> (r: bool)
    ensures
        r == regex_is_match(p@.0, p@.1, text@),
{
    p.re.is_match(text)
}

impl Pattern {
    /// Compiles `pattern`; the text of the error when it is not a valid expression.
    pub fn compile(pattern: &str, ignore_case: bool) -> (r: Result<Pattern, String>)
        ensures
            match (r, regex_build(pattern@, ignore_case)) {
                (Ok(p), Ok(())) => p@ == (pattern@, ignore_case),
                (Err(e), Err(m)) => e@ == m,
                _ => false,
            },
    {
        regex_new(pattern, ignore_case)
    }

    /// Whether the expression matches somewhere in `text`.
    pub fn is_match(&self, text: &str) -> (r: bool)
        ensures
            r == regex_is_match(self@.0, self@.1, text@),
    {
        pattern_matches(self, text)
    }
}

} // verus!
