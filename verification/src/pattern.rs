//! Regular expressions, matched by the `regex` crate.
use vstd::prelude::*;

verus! {

#[verifier::external_type_specification]
#[verifier::external_body]
pub struct ExRegex(regex::Regex);

/// Whether `regex::Regex::new` accepts `source` (a valid pattern, within
/// the default size limit).
pub uninterp spec fn regex_compiles(source: Seq<char>) -> bool;

/// Whether the regex compiled from `source` matches somewhere in `text`
/// (`regex::Regex::is_match`).
pub uninterp spec fn regex_is_match(source: Seq<char>, text: Seq<char>) -> bool;

/// The capture groups of the first match in `text` of the regex compiled
/// from `source` (`regex::Regex::captures`), group 0 (the whole match)
/// first; `None` where it does not match. A group that took no part in the
/// match is `None`.
pub uninterp spec fn regex_captures(source: Seq<char>, text: Seq<char>) -> Option<Seq<Option<Seq<char>>>>;

/// A compiled regular expression, with the text it was compiled from.
/// A `Pattern` is only made by `Pattern::compile`, so `regex` is always
/// the compiled form of `source`.
pub struct Pattern {
    source: String,
    regex: regex::Regex,
}

/// The characters of optional string slices.
pub open spec fn opt_str_view(o: Option<&str>) -> Option<Seq<char>> {
    match o {
        Some(s) => Some(s@),
        None => None,
    }
}

/// The characters of the groups that `Pattern::captures` returns.
pub open spec fn captures_view(res: Option<Vec<Option<&str>>>) -> Option<Seq<Option<Seq<char>>>> {
    match res {
        Some(groups) => Some(groups@.map_values(|g: Option<&str>| opt_str_view(g))),
        None => None,
    }
}

impl Pattern {
    /// The text of the regular expression.
    pub closed spec fn source(&self) -> Seq<char> {
        self.source@
    }

    /// `regex::Regex::new` on `source`, keeping `source` beside the result.
    /// Trusted: it claims that the result is `Some` exactly when the crate
    /// compiles `source` (named by `regex_compiles`), and that the pattern
    /// keeps `source`.
    #[verifier::external_body]
    fn build(source: &str) -> (res: Option<Pattern>)
        ensures
            res is Some <==> regex_compiles(source@),
            res matches Some(p) ==> p.source() == source@,
    {
        regex::Regex::new(source).ok().map(|regex| Pattern { source: source.to_string(), regex })
    }

    /// Compiles `source`; `None` where the `regex` crate refuses it.
    pub fn compile(source: &str) -> (res: Option<Pattern>)
        ensures
            res is Some <==> regex_compiles(source@),
            res matches Some(p) ==> p.source() == source@,
    {
        Self::build(source)
    }

    /// `regex::Regex::is_match`. Trusted: it claims that the result is
    /// `regex_is_match` of the pattern's source and `text`, which holds
    /// because the regex was compiled from that source.
    #[verifier::external_body]
    pub(crate) fn is_match(&self, text: &str) -> (r: bool)
        ensures
            r == regex_is_match(self.source(), text@),
    {
        self.regex.is_match(text)
    }

    /// `regex::Regex::captures`, each group turned into the slice of `text`
    /// that it matched. Trusted: it claims that the groups are
    /// `regex_captures` of the pattern's source and `text`, and that there
    /// are groups exactly where `is_match` holds, as the crate documents
    /// (`captures` searches for the first match and returns `None` where
    /// there is none).
    #[verifier::external_body]
    pub(crate) fn captures<'t>(&self, text: &'t str) -> (res: Option<Vec<Option<&'t str>>>)
        ensures
            captures_view(res) == regex_captures(self.source(), text@),
            res is Some <==> regex_is_match(self.source(), text@),
    {
        self.regex.captures(text).map(|caps| caps.iter().map(|m| m.map(|m| m.as_str())).collect())
    }
}

} // verus!
