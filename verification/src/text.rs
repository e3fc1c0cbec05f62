//! Text handling shared by the stages of the calculator.

use vstd::prelude::*;

verus! {

/// Appends one character to `text`.
///
/// Trusted: this is `String::push` of the standard library, which is
/// documented to append the given character to the end of the string. The
/// contract claims exactly that of the string's characters, and nothing else.
#[verifier::external_body]
pub(crate) fn push_char(text: &mut String, c: char)
    ensures
        final(text)@ == old(text)@.push(c),
{
    text.push(c);
}

/// The characters of `text`, in order.
pub(crate) fn characters(text: &str) -> (chars: Vec<char>)
    ensures
        chars@ == text@,
{
    let mut chars: Vec<char> = Vec::new();
    let iter = text.chars();
    for c in it: iter
        invariant
            it.seq() == text@,
            chars@ == it.seq().take(it.index()),
    {
        chars.push(c);
    }
    chars
}

} // verus!
