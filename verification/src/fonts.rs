//! Which fonts to ask fontconfig for.
//!
//! A terminal font almost never covers everything on screen: powerline
//! separators, Nerd Font icons and emoji live in other faces. So a character
//! the primary face cannot draw is looked up by codepoint
//! (`fc-match ":charset=e0b0"`). Running `fc-match` and loading faces is the
//! caller's part.

use vstd::prelude::*;

use crate::number::{hex, hex_chars, zero_pad, zero_padded};
use crate::text::{push_chars, push_str, string_of};

verus! {

/// A codepoint as fontconfig's `charset` wants it: lower-case hex, at least
/// four digits.
pub open spec fn charset_code(ch: char) -> Seq<char> {
    zero_pad(hex(ch as nat, false), 4)
}

/// fontconfig patterns to try for a character, most desirable first.
///
/// A monospace answer is preferred so an icon lands on the cell grid; plain
/// `:charset=` is the catch-all, since fontconfig always substitutes something
/// and the caller has to verify the glyph is really there.
pub fn fallback_patterns(ch: char) -> (res: [String; 2])
    ensures
        res[0]@ == "monospace:charset="@ + charset_code(ch),
        res[1]@ == ":charset="@ + charset_code(ch),
{
    let code = zero_padded(&hex_chars(ch as u32 as u64, false), 4);
    let mut first: Vec<char> = Vec::new();
    push_str(&mut first, "monospace:charset=");
    push_chars(&mut first, &code);
    let mut second: Vec<char> = Vec::new();
    push_str(&mut second, ":charset=");
    push_chars(&mut second, &code);
    [string_of(&first), string_of(&second)]
}

} // verus!
