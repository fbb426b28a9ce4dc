//! Regular expressions.
//!
//! The `regex` crate compiles a pattern and searches a text for it. A
//! `Pattern` is an expression that this crate has compiled itself, from the
//! pattern alone: of such an expression the pattern says everything.

use vstd::prelude::*;

verus! {

/// `regex::Regex`, a compiled expression. A `Pattern` holds it and hands it
/// back to the `regex` crate; nothing here looks into it.
#[verifier::external_type_specification]
#[verifier::external_body]
pub struct ExRegex(regex::Regex);

/// The pattern that a compiled expression was made from, as
/// `regex::Regex::as_str` gives it back.
pub uninterp spec fn regex_source(re: regex::Regex) -> Seq<char>;

/// Whether `re` is what `regex::Regex::new` makes of its pattern, with no
/// option set that the pattern does not spell out.
pub uninterp spec fn made_by_new(re: regex::Regex) -> bool;

/// Whether `regex::Regex::new` accepts `pattern`.
pub uninterp spec fn regex_compiles(pattern: Seq<char>) -> bool;

/// Whether the expression that `regex::Regex::new` makes of `pattern` has a
/// match anywhere in `text`, as `regex::Regex::is_match` reports it.
pub uninterp spec fn regex_finds(pattern: Seq<char>, text: Seq<char>) -> bool;

/// Calls `regex::Regex::new`. Whether it succeeds depends on the pattern
/// alone, and the expression it returns remembers the pattern.
#[verifier::external_body]
fn compile(pattern: &str) -> (r: Option<regex::Regex>)
    ensures
        r is Some <==> regex_compiles(pattern@),
        r matches Some(re) ==> regex_source(re) == pattern@ && made_by_new(re),
{
    regex::Regex::new(pattern).ok()
}

/// Calls `regex::Regex::is_match`. For an expression that `Regex::new` made
/// the answer depends on its pattern and on the text alone.
#[verifier::external_body]
fn finds(re: &regex::Regex, text: &str) -> (r: bool)
    requires
        made_by_new(*re),
    ensures
        r == regex_finds(regex_source(*re), text@),
{
    re.is_match(text)
}

/// A compiled regular expression.
#[derive(Debug)]
pub struct Pattern {
    re: regex::Regex,
}

impl View for Pattern {
    type V = Seq<char>;

    /// The pattern that was compiled.
    closed spec fn view(&self) -> Seq<char> {
        regex_source(self.re)
    }
}

impl Pattern {
    #[verifier::type_invariant]
    spec fn compiled_here(self) -> bool {
        made_by_new(self.re)
    }

    /// Compiles `pattern`.
    pub fn compile(pattern: &str) -> (r: Option<Pattern>)
        ensures
            r is Some <==> regex_compiles(pattern@),
            r matches Some(p) ==> p@ == pattern@,
    {
        match compile(pattern) {
            Some(re) => Some(Pattern { re }),
            None => None,
        }
    }

    /// Whether the expression has a match anywhere in `text`.
    pub fn finds(&self, text: &str) -> (r: bool)
        ensures
            r == regex_finds(self@, text@),
    {
        proof {
            use_type_invariant(self);
        }
        finds(&self.re, text)
    }
}

} // verus!
