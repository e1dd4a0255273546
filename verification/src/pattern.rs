use vstd::prelude::*;

use crate::text::{owned, push_str};

verus! {

/// The compiled regular expression type of the `regex` crate.
#[verifier::external_type_specification]
#[verifier::external_body]
pub struct ExRegex(regex::Regex);

/// The error type of the `regex` crate.
#[verifier::external_type_specification]
#[verifier::external_body]
pub struct ExRegexError(regex::Error);

/// Whether `regex::Regex::new` accepts `pattern`: it is valid syntax and its
/// compiled form stays under the default size limit.
pub uninterp spec fn regex_compiles(pattern: Seq<char>) -> bool;

/// Whether the regex compiled from `pattern` matches anywhere in `haystack`,
/// as `regex::Regex::is_match` answers.
pub uninterp spec fn regex_finds(pattern: Seq<char>, haystack: Seq<char>) -> bool;

/// Compiles a regular expression with `regex::Regex::new`. The contract claims
/// that it succeeds exactly when `regex_compiles` holds of the pattern.
#[verifier::external_body]
fn regex_new(pattern: &str) -> (r: Result<regex::Regex, regex::Error>)
    ensures
        r is Ok <==> regex_compiles(pattern@),
{
    regex::Regex::new(pattern)
}

/// The message that `regex::Regex::new` gives for a pattern it refuses, as the
/// `Display` of its `regex::Error` writes it.
pub uninterp spec fn regex_error_text(pattern: Seq<char>) -> Seq<char>;

/// Compiles a refused pattern again with `regex::Regex::new` and writes its
/// error with `Display`. The contract claims that the text is
/// `regex_error_text` of the pattern; the `Ok` arm cannot be reached under
/// the `requires`.
#[verifier::external_body]
fn regex_error_message(pattern: &str) -> (m: String)
    requires
        !regex_compiles(pattern@),
    ensures
        m@ == regex_error_text(pattern@),
{
    match regex::Regex::new(pattern) {
        Ok(_) => String::new(),
        Err(e) => format!("{}", e),
    }
}

/// A fixture-path pattern: its source text and the regex compiled from it.
/// `Pattern::compile` is the only way to make one, so `compiled` is always the
/// result of compiling `source`.
pub struct Pattern {
    source: String,
    compiled: regex::Regex,
}

/// A pattern that does not compile.
pub struct PatternError {
    /// The pattern's source text.
    pub pattern: String,
    /// What the regex compiler said of it.
    pub message: String,
}

/// Asks the regex compiled from `p.source` whether it matches `haystack`, with
/// `regex::Regex::is_match`. The contract claims the answer is
/// `regex_finds(p.source@, haystack@)`, which rests on `p.compiled` having been
/// compiled from `p.source`.
#[verifier::external_body]
fn regex_is_match(p: &Pattern, haystack: &str) -> (found: bool)
    ensures
        found == regex_finds(p.source@, haystack@),
{
    p.compiled.is_match(haystack)
}

impl Pattern {
    /// The pattern's source text.
    pub closed spec fn source_view(&self) -> Seq<char> {
        self.source@
    }

    /// Compiles `source`, or says why it does not compile.
    pub fn compile(source: &str) -> (r: Result<Pattern, PatternError>)
        ensures
            r is Ok <==> regex_compiles(source@),
            r matches Ok(p) ==> p.source_view() == source@,
            r matches Err(e) ==> e.pattern@ == source@ && e.message@ == regex_error_text(source@),
    {
        match regex_new(source) {
            Ok(compiled) => Ok(Pattern { source: owned(source), compiled }),
            Err(_) => Err(PatternError { pattern: owned(source), message: regex_error_message(source) }),
        }
    }

    /// The pattern's source text.
    pub fn source(&self) -> (s: &str)
        ensures
            s@ == self.source_view(),
    {
        self.source.as_str()
    }

    /// Whether the pattern matches anywhere in `haystack`.
    pub fn is_match(&self, haystack: &str) -> (found: bool)
        ensures
            found == regex_finds(self.source_view(), haystack@),
    {
        regex_is_match(self, haystack)
    }
}

impl PatternError {
    /// The panic message of an invalid pattern: `invalid pattern '<pattern>': <message>`.
    pub fn describe(&self) -> (s: String)
        ensures
            s@ == "invalid pattern '"@ + self.pattern@ + "': "@ + self.message@,
    {
        let mut s = owned("invalid pattern '");
        push_str(&mut s, self.pattern.as_str());
        push_str(&mut s, "': ");
        push_str(&mut s, self.message.as_str());
        s
    }
}

} // verus!
