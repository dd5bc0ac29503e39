//! Strings: the few operations on `String` and `char` that the launcher takes from the standard
//! library, and the helpers that are built from them.

use vstd::prelude::*;

verus! {

/// `char::from_u32` gives the character with the given scalar value, and nothing for a number
/// that is no Unicode scalar value: a surrogate, or one above `0x10FFFF`.
pub assume_specification[ char::from_u32 ](i: u32) -> (r: Option<char>)
    ensures
        r == (if i < 0xD800 || 0xDFFF < i <= 0x10FFFF {
            Some(i as char)
        } else {
            None
        }),
;

/// `String::push` appends one character at the end of the string.
pub assume_specification[ String::push ](s: &mut String, ch: char)
    ensures
        final(s)@ == old(s)@.push(ch),
;

/// What `str::to_lowercase` makes of a text: its lower case by the Unicode mapping, which does not
/// depend on a locale.
pub uninterp spec fn lowercase(text: Seq<char>) -> Seq<char>;

/// The lower case of an ASCII character.
pub open spec fn ascii_lower(c: char) -> char {
    if 'A' <= c <= 'Z' {
        ((c as u32) + 32) as char
    } else {
        c
    }
}

/// The characters of a text are all ASCII.
pub open spec fn all_ascii(text: Seq<char>) -> bool {
    forall|i: int| 0 <= i < text.len() ==> #[trigger] text[i] as u32 <= 0x7F
}

/// Calls `str::to_lowercase`. Beside naming the result, the contract says what becomes of a text
/// that is all ASCII: the letters `A` to `Z` turn into `a` to `z`, and every other character stays.
#[verifier::external_body]
pub(crate) fn to_lowercase(text: &str) -> (r: String)
    ensures
        r@ == lowercase(text@),
        all_ascii(text@) ==> r@ == text@.map_values(|c: char| ascii_lower(c)),
{
    text.to_lowercase()
}

/// The two texts are the same.
pub(crate) fn same_text(a: &str, b: &str) -> (r: bool)
    ensures
        r == (a@ == b@),
{
    a.to_owned() == b.to_owned()
}

} // verus!
