//! The matching engine: what this library takes on trust from the `regex`
//! crate.
//!
//! Nothing in this file is proved. Each item says in its comment which
//! function of `regex` it stands for and what it claims of it.

use vstd::prelude::*;
use regex::Regex;

verus! {

/// The type `regex::Regex`, a compiled expression. Nothing is known of what
/// is inside a value of it.
#[verifier::external_type_specification]
#[verifier::external_body]
pub struct ExRegex(regex::Regex);

/// The type `regex::Error`, with which `Regex::new` refuses an expression.
#[verifier::external_type_specification]
#[verifier::external_body]
pub struct ExRegexError(regex::Error);

/// The text of the expression that `re` was compiled from: what
/// `Regex::as_str` returns.
pub uninterp spec fn regex_pattern(re: Regex) -> Seq<char>;

/// Whether `re` is as `Regex::new` makes it: compiled with every option
/// that `RegexBuilder` offers left as it is set at the start. Only of such
/// an expression does the text fix what it matches.
pub uninterp spec fn regex_is_plain(re: Regex) -> bool;

/// Whether `Regex::new` compiles `expression`, rather than refusing it as
/// ill formed or as too big for the size limit that it sets.
pub uninterp spec fn regex_accepts(expression: Seq<char>) -> bool;

/// What `Regex::captures` finds in `haystack` for an expression that
/// `Regex::new` compiled from `pattern`: `None` where the expression does
/// not match; else the groups of the leftmost match, the whole match first
/// and then one entry for each group of the expression in the order of
/// their opening parentheses, `None` for a group that took no part in the
/// match and else the text that it captured.
pub uninterp spec fn regex_captures(pattern: Seq<char>, haystack: Seq<char>) -> Option<
    Seq<Option<Seq<char>>>,
>;

/// Whether `c` has a meaning of its own in an expression, so that it must be
/// escaped to stand for itself: the characters for which
/// `regex_syntax::is_meta_character` returns true.
pub open spec fn is_meta_character(c: char) -> bool {
    ||| c == '\\'
    ||| c == '.'
    ||| c == '+'
    ||| c == '*'
    ||| c == '?'
    ||| c == '('
    ||| c == ')'
    ||| c == '|'
    ||| c == '['
    ||| c == ']'
    ||| c == '{'
    ||| c == '}'
    ||| c == '^'
    ||| c == '$'
    ||| c == '#'
    ||| c == '&'
    ||| c == '-'
    ||| c == '~'
}

/// One character as it is written in an expression to stand for itself.
pub open spec fn escaped_char(c: char) -> Seq<char> {
    if is_meta_character(c) {
        seq!['\\', c]
    } else {
        seq![c]
    }
}

/// `text` as it is written in an expression to stand for itself: each
/// character with a meaning of its own has a backslash put in front of it.
pub open spec fn escaped(text: Seq<char>) -> Seq<char>
    decreases text.len(),
{
    if text.len() == 0 {
        Seq::empty()
    } else {
        escaped_char(text[0]) + escaped(text.skip(1))
    }
}

/// The groups of a match as mathematical values.
pub open spec fn group_views(groups: Seq<Option<String>>) -> Seq<Option<Seq<char>>> {
    groups.map_values(
        |group: Option<String>|
            match group {
                Some(text) => Some(text@),
                None => None,
            },
    )
}

/// What a search found, as a mathematical value.
pub open spec fn captures_view(found: Option<Vec<Option<String>>>) -> Option<
    Seq<Option<Seq<char>>>,
> {
    match found {
        Some(groups) => Some(group_views(groups@)),
        None => None,
    }
}

/// Calls `regex::escape`. The claim: the result is `text` with a backslash
/// put in front of each character that `regex_syntax::is_meta_character`
/// accepts, and nothing else changed.
#[verifier::external_body]
pub(crate) fn regex_escape(text: &str) -> (quoted: String)
    ensures
        quoted@ == escaped(text@),
{
    regex::escape(text)
}

/// Calls `Regex::new`. The claims: whether the text is compiled or refused
/// depends on the text alone; an expression that was compiled keeps the
/// text it was compiled from, and no option of it was changed.
#[verifier::external_body]
pub(crate) fn regex_new(expression: &str) -> (built: Result<Regex, regex::Error>)
    ensures
        built is Ok <==> regex_accepts(expression@),
        built matches Ok(re) ==> regex_is_plain(re) && regex_pattern(re) == expression@,
{
    Regex::new(expression)
}

/// Calls `Regex::as_str`. The claim: the result is the text that the
/// expression was compiled from.
#[verifier::external_body]
pub(crate) fn regex_text(re: &Regex) -> (text: String)
    ensures
        text@ == regex_pattern(*re),
{
    re.as_str().to_string()
}

/// Calls `Regex::captures` and copies each group out with `Captures::iter`
/// and `Match::as_str`. The claim: with no option changed, what is found
/// depends on the text of the expression and on the haystack alone.
#[verifier::external_body]
pub(crate) fn regex_find(re: &Regex, haystack: &str) -> (found: Option<Vec<Option<String>>>)
    requires
        regex_is_plain(*re),
    ensures
        captures_view(found) == regex_captures(regex_pattern(*re), haystack@),
{
    match re.captures(haystack) {
        Some(caps) => {
            Some(caps.iter().map(|group| group.map(|m| m.as_str().to_string())).collect())
        },
        None => None,
    }
}

} // verus!
