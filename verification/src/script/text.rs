//! Comparing and folding the names of a script.

use vstd::prelude::*;

verus! {

/// The lower-case letter of an upper-case ASCII letter; any other character
/// as it is.
pub open spec fn lower_char(c: char) -> char {
    if 'A' <= c && c <= 'Z' {
        ((c as u8) + 32) as char
    } else {
        c
    }
}

/// The text with its ASCII letters in lower case.
pub open spec fn lower_ascii(s: Seq<char>) -> Seq<char> {
    Seq::new(s.len(), |i: int| lower_char(s[i]))
}

/// `str::to_ascii_lowercase`: a copy of the text in which the ASCII letters
/// `A` to `Z` are `a` to `z`, and every other character is as it was.
#[verifier::external_body]
pub(crate) fn ascii_lowercase(s: &str) -> (r: String)
    ensures
        r@ == lower_ascii(s@),
{
    s.to_ascii_lowercase()
}

/// Tells whether a name is the given word.
pub fn is_word(name: &str, word: &str) -> (r: bool)
    ensures
        r == (name@ == word@),
{
    name.to_owned() == word.to_owned()
}

} // verus!
