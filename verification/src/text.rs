//! Text: what the standard library does with strings where the verifier has
//! no account of it.
use vstd::prelude::*;

verus! {

/// The views of a list of strings.
pub open spec fn texts_of(parts: Seq<String>) -> Seq<Seq<char>> {
    Seq::new(parts.len(), |i: int| parts[i]@)
}

/// The parts one after the other, with the separator between each two.
pub open spec fn joined(parts: Seq<Seq<char>>, separator: Seq<char>) -> Seq<char>
    decreases parts.len(),
{
    if parts.len() == 0 {
        Seq::empty()
    } else if parts.len() == 1 {
        parts[0]
    } else {
        joined(parts.drop_last(), separator) + separator + parts.last()
    }
}

/// Whether a character is white space, as Unicode has it.
pub uninterp spec fn is_white_space(c: char) -> bool;

/// Whether `kept` is `text` without the white space at its end.
pub open spec fn is_trimmed(text: Seq<char>, kept: Seq<char>) -> bool {
    &&& kept.len() <= text.len()
    &&& kept == text.subrange(0, kept.len() as int)
    &&& forall|i: int| kept.len() <= i < text.len() ==> is_white_space(#[trigger] text[i])
    &&& kept.len() > 0 ==> !is_white_space(kept.last())
}

/// `[String]::join` of the standard library: the parts in order with the
/// separator between each two, and nothing else.
#[verifier::external_body]
pub(crate) fn join(parts: &Vec<String>, separator: &str) -> (text: String)
    ensures
        text@ == joined(texts_of(parts@), separator@),
{
    parts.join(separator)
}

/// `str::trim_end` of the standard library: the text up to its last
/// character that is no white space. What it cuts off is white space, by
/// the Unicode property of that name, and what it keeps does not end in
/// white space.
#[verifier::external_body]
pub(crate) fn trim_end(text: &str) -> (kept: &str)
    ensures
        kept@.len() <= text@.len(),
        kept@ == text@.subrange(0, kept@.len() as int),
        forall|i: int| kept@.len() <= i < text@.len() ==> is_white_space(#[trigger] text@[i]),
        kept@.len() > 0 ==> !is_white_space(kept@.last()),
{
    text.trim_end()
}

/// The text without the white space at its end.
pub fn trim_whitespace(input: String) -> (trimmed: String)
    ensures
        is_trimmed(input@, trimmed@),
{
    trim_end(input.as_str()).to_owned()
}

} // verus!
