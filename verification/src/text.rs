//! Text conversions that the library leaves to std, `quick_xml` and `regex`.

use vstd::prelude::*;
use vstd::utf8::{decode_utf8, valid_utf8};

verus! {

/// What unescaping makes of `text`: the text with each `&...;` reference
/// replaced by the character it stands for, or `None` where a reference is
/// unterminated, unknown or names no character.
pub uninterp spec fn unescaped(text: Seq<char>) -> Option<Seq<char>>;

/// Whether `text` matches the regular expression `pattern`, or `None` where
/// `pattern` is no regular expression.
pub uninterp spec fn pattern_matches(pattern: Seq<char>, text: Seq<char>) -> Option<bool>;

/// What escaping makes of one character: the five characters that markup
/// reserves become references, every other character stays.
pub open spec fn escaped_char(c: char) -> Seq<char> {
    if c == '<' {
        seq!['&', 'l', 't', ';']
    } else if c == '>' {
        seq!['&', 'g', 't', ';']
    } else if c == '&' {
        seq!['&', 'a', 'm', 'p', ';']
    } else if c == '\'' {
        seq!['&', 'a', 'p', 'o', 's', ';']
    } else if c == '"' {
        seq!['&', 'q', 'u', 'o', 't', ';']
    } else {
        seq![c]
    }
}

/// What escaping makes of `text`: each character escaped, in order.
pub open spec fn escaped(text: Seq<char>) -> Seq<char>
    decreases text.len(),
{
    if text.len() == 0 {
        Seq::empty()
    } else {
        escaped(text.drop_last()) + escaped_char(text.last())
    }
}

/// `std::str::from_utf8`: the text that `bytes` encode, where they are
/// valid UTF-8, and `None` where they are not.
#[verifier::external_body]
pub(crate) fn decode_text(bytes: &[u8]) -> (r: Option<String>)
    ensures
        r is Some <==> valid_utf8(bytes@),
        r matches Some(s) ==> s@ == decode_utf8(bytes@),
{
    match std::str::from_utf8(bytes) {
        Ok(text) => Some(text.to_string()),
        Err(_) => None,
    }
}

/// `quick_xml::escape::unescape`, with its error turned into `None`. The
/// contract only names the result.
#[verifier::external_body]
pub(crate) fn unescape(text: &str) -> (r: Option<String>)
    ensures
        r is Some <==> unescaped(text@) is Some,
        r matches Some(s) ==> unescaped(text@) == Some(s@),
{
    match quick_xml::escape::unescape(text) {
        Ok(plain) => Some(plain.into_owned()),
        Err(_) => None,
    }
}

/// `quick_xml::escape::escape`: the contract claims that the call replaces
/// `<`, `>`, `&`, `'` and `"` by `&lt;`, `&gt;`, `&amp;`, `&apos;` and
/// `&quot;`, and nothing else.
#[verifier::external_body]
pub(crate) fn escape(text: &str) -> (r: String)
    ensures
        r@ == escaped(text@),
{
    quick_xml::escape::escape(text).into_owned()
}

/// `regex::Regex::new` on `pattern` and, where that succeeds,
/// `regex::Regex::is_match` on `text`. The contract only names the result.
#[verifier::external_body]
pub(crate) fn match_pattern(pattern: &str, text: &str) -> (r: Option<bool>)
    ensures
        r == pattern_matches(pattern@, text@),
{
    match regex::Regex::new(pattern) {
        Ok(regex) => Some(regex.is_match(text)),
        Err(_) => None,
    }
}

} // verus!
