//! Regular expressions, as the `regex` crate compiles and runs them.
use vstd::prelude::*;
use crate::text::{has_infix, split_on_any, string_views};

verus! {

#[verifier::external_type_specification]
#[verifier::external_body]
pub struct ExRegex(regex::Regex);

#[verifier::external_type_specification]
#[verifier::external_body]
pub struct ExRegexError(regex::Error);

/// Whether `pattern` is a regular expression that the `regex` crate accepts.
pub uninterp spec fn regex_compiles(pattern: Seq<char>) -> bool;

/// Whether the regular expression `pattern` matches somewhere in `haystack`.
pub uninterp spec fn regex_finds(pattern: Seq<char>, haystack: Seq<char>) -> bool;

/// The pieces of `haystack` between the matches of the regular expression `pattern`.
pub uninterp spec fn regex_pieces(pattern: Seq<char>, haystack: Seq<char>) -> Seq<Seq<char>>;

/// A pattern made only of ASCII letters, digits and `-`: none of these is special
/// in a regular expression, so such a pattern stands for itself.
pub open spec fn is_plain_literal(pattern: Seq<char>) -> bool {
    forall|i: int|
        0 <= i < pattern.len() ==> {
            let c = #[trigger] pattern[i];
            ('a' <= c && c <= 'z') || ('A' <= c && c <= 'Z') || ('0' <= c && c <= '9') || c == '-'
        }
}

/// A character class pattern `[...]` whose members are ASCII letters, digits, `#`,
/// `:` and `@`: none of these is special inside a class, so it matches exactly one
/// of its members.
pub open spec fn is_plain_class(pattern: Seq<char>) -> bool {
    &&& pattern.len() >= 3
    &&& pattern[0] == '['
    &&& pattern[pattern.len() - 1] == ']'
    &&& forall|i: int|
        1 <= i < pattern.len() - 1 ==> {
            let c = #[trigger] pattern[i];
            ('a' <= c && c <= 'z') || ('A' <= c && c <= 'Z') || ('0' <= c && c <= '9') || c == '#'
                || c == ':' || c == '@'
        }
}

/// The members of a class pattern `[...]`.
pub open spec fn class_members(pattern: Seq<char>) -> Seq<char> {
    pattern.subrange(1, pattern.len() - 1)
}

/// The longest plain pattern whose compilation the contracts promise: far below
/// the size the `regex` crate allows for a compiled expression by default.
pub open spec fn plain_pattern_limit() -> nat {
    1000
}

/// A compiled regular expression, with the pattern it was compiled from.
pub struct CompiledPattern {
    regex: regex::Regex,
    source: Ghost<Seq<char>>,
}

impl CompiledPattern {
    /// The pattern this expression was compiled from.
    pub closed spec fn source(&self) -> Seq<char> {
        self.source@
    }
}

/// Compiles `pattern`.
///
/// Trusted: calls `regex::Regex::new`. Whether a pattern compiles is named
/// `regex_compiles`; the contract states in addition only that a short pattern of
/// plain letters, digits and `-` (the empty pattern among them), or a short class
/// of letters, digits, `#`, `:` and `@`, compiles, which the crate's syntax
/// documentation shows. Long patterns can exceed the crate's size limit, so nothing
/// is said of patterns longer than `plain_pattern_limit()`.
#[verifier::external_body]
fn compile(pattern: &str) -> (r: Result<CompiledPattern, regex::Error>)
    ensures
        r is Ok <==> regex_compiles(pattern@),
        r matches Ok(c) ==> c.source() == pattern@,
        (is_plain_literal(pattern@) || is_plain_class(pattern@)) && pattern@.len()
            <= plain_pattern_limit() ==> r is Ok,
{
    match regex::Regex::new(pattern) {
        Ok(regex) => Ok(CompiledPattern { regex, source: Ghost(pattern@) }),
        Err(e) => Err(e),
    }
}

/// Compiles `pattern`; `None` where the `regex` crate rejects it.
pub fn compile_pattern(pattern: &str) -> (r: Option<CompiledPattern>)
    ensures
        r is Some <==> regex_compiles(pattern@),
        r matches Some(c) ==> c.source() == pattern@,
        (is_plain_literal(pattern@) || is_plain_class(pattern@)) && pattern@.len()
            <= plain_pattern_limit() ==> r is Some,
{
    match compile(pattern) {
        Ok(c) => Some(c),
        Err(_) => None,
    }
}

/// Whether the expression matches somewhere in `haystack`.
///
/// Trusted: calls `regex::Regex::is_match`. Its result is named `regex_finds`; the
/// contract states in addition only that a plain literal pattern matches exactly
/// where it occurs in the haystack (the empty pattern matching everywhere), as the
/// crate documents for literals and unanchored searches.
#[verifier::external_body]
pub(crate) fn is_match(c: &CompiledPattern, haystack: &str) -> (b: bool)
    ensures
        b == regex_finds(c.source(), haystack@),
        is_plain_literal(c.source()) ==> (b <==> has_infix(haystack@, c.source())),
{
    c.regex.is_match(haystack)
}

/// The pieces of `haystack` between the matches of the expression.
///
/// Trusted: calls `regex::Regex::split` and collects the pieces. The pieces are
/// named `regex_pieces`; the contract states in addition that there is at least
/// one, which the crate's source shows (the text after the last match is always
/// yielded), and that for a plain class the pieces are the text between
/// occurrences of its members, as the crate documents for `split`: each match of
/// a class is one member character, and empty pieces are kept.
#[verifier::external_body]
pub(crate) fn split(c: &CompiledPattern, haystack: &str) -> (parts: Vec<String>)
    ensures
        string_views(parts@) == regex_pieces(c.source(), haystack@),
        parts@.len() >= 1,
        is_plain_class(c.source()) ==> string_views(parts@) == split_on_any(
            haystack@,
            class_members(c.source()),
        ),
{
    c.regex.split(haystack).map(String::from).collect()
}

} // verus!
