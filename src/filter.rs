use vstd::prelude::*;

verus! {

#[verifier::external_type_specification]
#[verifier::external_body]
pub struct ExRegex(regex::Regex);

#[verifier::external_type_specification]
#[verifier::external_body]
pub struct ExRegexError(regex::Error);

/// Whether a pattern is accepted by the regular-expression compiler.
pub uninterp spec fn pattern_compiles(pattern: Seq<char>) -> bool;

/// Whether a compiled pattern matches somewhere in a text.
pub uninterp spec fn pattern_matches(pattern: Seq<char>, text: Seq<char>) -> bool;

/// Relies on `regex::Regex::new`: `Ok` exactly when the pattern compiles.
#[verifier::external_body]
fn compile_pattern(pattern: &str) -> (r: Result<regex::Regex, regex::Error>)
    ensures
        r is Ok <==> pattern_compiles(pattern@),
{
    regex::Regex::new(pattern)
}

/// Relies on `regex::Regex::is_match`, on a regex that `Filter::new` compiled
/// from the filter's own pattern: whether the pattern matches within the text.
#[verifier::external_body]
fn regex_is_match(filter: &Filter, text: &str) -> (r: bool)
    ensures
        r == pattern_matches(filter.pattern(), text@),
{
    filter.regex.is_match(text)
}

/// Why a filter could not be built.
#[derive(Clone, Copy, Debug, PartialEq, Eq, Structural)]
pub enum FilterError {
    InvalidPattern,
}

/// A compiled name filter; the regex is always the one compiled from `pattern`.
pub struct Filter {
    pattern: String,
    regex: regex::Regex,
}

impl Filter {
    pub closed spec fn pattern(&self) -> Seq<char> {
        self.pattern@
    }

    /// Compiles a filter pattern.
    pub fn new(pattern: &str) -> (r: Result<Filter, FilterError>)
        ensures
            r is Ok <==> pattern_compiles(pattern@),
            r matches Ok(f) ==> f.pattern() == pattern@,
            r matches Err(e) ==> e == FilterError::InvalidPattern,
    {
        match compile_pattern(pattern) {
            Ok(regex) => Ok(Filter { pattern: pattern.to_owned(), regex }),
            Err(_) => Err(FilterError::InvalidPattern),
        }
    }

    /// Whether the pattern matches somewhere in `name`.
    pub fn is_match(&self, name: &str) -> (r: bool)
        ensures
            r == pattern_matches(self.pattern(), name@),
    {
        regex_is_match(self, name)
    }
}

/// Rendering options shared by both breakdowns.
pub struct ReportOptions {
    pub condensed: bool,
    pub filter: Option<Filter>,
}

/// Whether a group name is shown: an unset filter shows every name.
pub open spec fn selected(filter: Option<Filter>, name: Seq<char>) -> bool {
    match filter {
        None => true,
        Some(f) => pattern_matches(f.pattern(), name),
    }
}

impl ReportOptions {
    /// Whether the group called `name` is shown under these options.
    pub fn selects(&self, name: &str) -> (r: bool)
        ensures
            r == selected(self.filter, name@),
    {
        match &self.filter {
            None => true,
            Some(f) => f.is_match(name),
        }
    }
}

} // verus!
