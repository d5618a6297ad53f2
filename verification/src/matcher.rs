//! The regular-expression engine behind route matching.
//!
//! Everything in this file is trusted: the functions call the `regex` crate,
//! and Verus takes their contracts on faith. What a search returns is not
//! modelled; it is only given a name, as a function of the pattern and of the
//! text searched.

use vstd::prelude::*;

verus! {

/// `regex::Regex`, a compiled expression. Verus sees nothing inside it.
#[verifier::external_type_specification]
#[verifier::external_body]
pub struct ExRegex(regex::Regex);

/// `regex::Error`, why a pattern did not compile. Verus sees nothing inside it.
#[verifier::external_type_specification]
#[verifier::external_body]
pub struct ExRegexError(regex::Error);

/// The pattern text that a compiled expression holds: the text it was built
/// from, which `regex::Regex::as_str` gives back. What this file says of an
/// expression through this name is said of an expression made by
/// `regex::Regex::new`, with the engine's default settings; `compile` is the
/// only place where the library makes one.
pub uninterp spec fn regex_source(re: regex::Regex) -> Seq<char>;

/// Whether `regex::Regex::new` accepts the pattern: it is well formed and
/// compiles within the size limit that the engine sets by default.
pub uninterp spec fn regex_accepts(pattern: Seq<char>) -> bool;

/// Whether the expression that `regex::Regex::new` compiles from `pattern`
/// matches somewhere in `text` (`regex::Regex::is_match`).
pub uninterp spec fn regex_is_match(pattern: Seq<char>, text: Seq<char>) -> bool;

/// The text that the capture group `name` took part with in the leftmost match
/// in `text` of the expression that `regex::Regex::new` compiles from
/// `pattern`; `None` where there is no match, no such group, or the group
/// stayed out of the match (`regex::Regex::captures`, then
/// `regex::Captures::name`).
pub uninterp spec fn regex_capture(pattern: Seq<char>, text: Seq<char>, name: Seq<char>) -> Option<
    Seq<char>,
>;

/// The characters that `regex::escape` puts a backslash before.
pub open spec fn is_meta(c: char) -> bool {
    c == '\\' || c == '.' || c == '+' || c == '*' || c == '?' || c == '(' || c == ')' || c == '|'
        || c == '[' || c == ']' || c == '{' || c == '}' || c == '^' || c == '$' || c == '#'
        || c == '&' || c == '-' || c == '~'
}

/// `s` with a backslash before each meta character.
pub open spec fn escaped(s: Seq<char>) -> Seq<char>
    decreases s.len(),
{
    if s.len() == 0 {
        Seq::empty()
    } else if is_meta(s.last()) {
        escaped(s.drop_last()).push('\\').push(s.last())
    } else {
        escaped(s.drop_last()).push(s.last())
    }
}

/// `regex::Regex::new`: compiles a pattern. The contract names the patterns
/// that compile, and says that the compiled expression remembers the pattern
/// it came from.
#[verifier::external_body]
pub(crate) fn compile(pattern: &str) -> (r: Result<regex::Regex, regex::Error>)
    ensures
        r is Ok <==> regex_accepts(pattern@),
        r matches Ok(re) ==> regex_source(re) == pattern@,
{
    regex::Regex::new(pattern)
}

/// `regex::Regex::is_match`: whether the expression matches somewhere in the
/// text. The contract only names the answer, and is meant for an expression
/// made by `regex::Regex::new`.
#[verifier::external_body]
pub(crate) fn is_match(re: &regex::Regex, text: &str) -> (r: bool)
    ensures
        r == regex_is_match(regex_source(*re), text@),
{
    re.is_match(text)
}

/// `regex::Regex::captures` followed by `regex::Captures::name`: the text of
/// one named group in the leftmost match. The contract only names the answer,
/// and is meant for an expression made by `regex::Regex::new`.
#[verifier::external_body]
pub(crate) fn capture(re: &regex::Regex, text: &str, name: &str) -> (r: Option<String>)
    ensures
        match r {
            Some(s) => regex_capture(regex_source(*re), text@, name@) == Some(s@),
            None => regex_capture(regex_source(*re), text@, name@) is None,
        },
{
    match re.captures(text) {
        Some(caps) => match caps.name(name) {
            Some(m) => Some(m.as_str().to_string()),
            None => None,
        },
        None => None,
    }
}

/// `regex::escape`: the text with a backslash before each character that has
/// a meaning in a pattern, so that the result matches the text itself.
#[verifier::external_body]
pub(crate) fn escape(text: &str) -> (r: String)
    ensures
        r@ == escaped(text@),
{
    regex::escape(text)
}

} // verus!
