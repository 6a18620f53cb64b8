//! API keys: the shape that a key must have.
use crate::text::{is_trimmed, trim_whitespace};
use vstd::prelude::*;

verus! {

/// Whether the regular expression `pattern` matches somewhere in
/// `haystack`, or `None` where `pattern` is no regular expression that can
/// be built.
pub uninterp spec fn regex_match(pattern: Seq<char>, haystack: Seq<char>) -> Option<bool>;

/// The regular expression that an API key must match from end to end: the
/// kind of the key, and two parts of 1 to 63 characters without a colon,
/// with colons between the three.
pub open spec fn key_pattern() -> Seq<char> {
    "^(user|service|internal):([^:]{1,63}):([^:]{1,63})$"@
}

/// `Regex::new` and `Regex::is_match` of the crate `regex`: builds the
/// regular expression `pattern` and says whether it matches somewhere in
/// `haystack`. A pattern that cannot be built gives `None`. The answer
/// depends on the two texts and on nothing else.
#[verifier::external_body]
fn regex_is_match(pattern: &str, haystack: &str) -> (matched: Option<bool>)
    ensures
        matched == regex_match(pattern@, haystack@),
{
    match regex::Regex::new(pattern) {
        Ok(built) => Some(built.is_match(haystack)),
        Err(_) => None,
    }
}

/// What is made of a key once it is known whether it matches the pattern
/// of keys: a key that matches is accepted as it is, and any other is
/// refused with a message that shows the pattern.
pub fn accept_key(key: String, matched: Option<bool>) -> (result: Result<String, String>)
    ensures
        match result {
            Ok(accepted) => matched == Some(true) && accepted == key,
            Err(message) => matched != Some(true) && message@
                == "key must match regex \"^(user|service|internal):([^:]{1,63}):([^:]{1,63})$\""@,
        },
{
    match matched {
        Some(true) => Ok(key),
        _ => Err(
            "key must match regex \"^(user|service|internal):([^:]{1,63}):([^:]{1,63})$\"".to_owned(),
        ),
    }
}

/// Checks what was read as an API key: white space at its end is dropped,
/// and what is left must match the pattern of keys.
pub fn check_auth_key(contents: String) -> (result: Result<String, String>)
    ensures
        match result {
            Ok(key) => is_trimmed(contents@, key@) && regex_match(key_pattern(), key@) == Some(
                true,
            ),
            Err(_) => exists|key: Seq<char>|
                is_trimmed(contents@, key) && regex_match(key_pattern(), key) != Some(true),
        },
{
    let key = trim_whitespace(contents);
    let ghost kept = key@;
    let matched = regex_is_match(
        "^(user|service|internal):([^:]{1,63}):([^:]{1,63})$",
        key.as_str(),
    );
    accept_key(key, matched)
}

} // verus!
