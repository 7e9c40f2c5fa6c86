//! Command-line values that need more than a flag.

use vstd::prelude::*;

use crate::number::{parse_radix, parse_usize};
use crate::text::{chars_of, debug_of, debug_str, find_char, lower_chars, lower_of, position, push_str, slice, string_of};

verus! {

/// The port the HTTP server listens on unless told otherwise.
pub const DEFAULT_PORT: u16 = 8009;

/// What `parse_size` answers for a `WIDTHxHEIGHT` text, with `lowered` its
/// lower-case form: the numbers either side of the first `x`, or the error
/// that names the text.
pub open spec fn size_of(text: Seq<char>, lowered: Seq<char>) -> Result<(usize, usize), Seq<char>> {
    match find_char(lowered, 'x', 0) {
        None => Err("expected WIDTHxHEIGHT, got "@ + debug_of(text)),
        Some(k) => match parse_radix(lowered.take(k), 10, usize::MAX as nat) {
            None => Err("bad width in "@ + debug_of(text)),
            Some(w) => match parse_radix(lowered.skip(k + 1), 10, usize::MAX as nat) {
                None => Err("bad height in "@ + debug_of(text)),
                Some(h) => Ok((w as usize, h as usize)),
            },
        },
    }
}

fn complaint(prefix: &str, text: &str) -> (res: String)
    ensures
        res@ == prefix@ + debug_of(text@),
{
    let mut e: Vec<char> = Vec::new();
    push_str(&mut e, prefix);
    push_str(&mut e, debug_str(text).as_str());
    string_of(&e)
}

/// `--size 1280x720`; the `x` may be upper case.
pub fn parse_size(text: &str) -> (res: Result<(usize, usize), String>)
    ensures
        match res {
            Ok(s) => size_of(text@, lower_of(text@)) == Ok::<(usize, usize), Seq<char>>(s),
            Err(e) => size_of(text@, lower_of(text@)) == Err::<(usize, usize), Seq<char>>(e@),
        },
{
    let lowered = lower_chars(&chars_of(text));
    proof {
        crate::text::lemma_find_char(lowered@, 'x', 0);
    }
    let k = match position(&lowered, 'x', 0) {
        Some(k) => k,
        None => return Err(complaint("expected WIDTHxHEIGHT, got ", text)),
    };
    let n = lowered.len();
    let w = slice(&lowered, 0, k);
    let h = slice(&lowered, k + 1, n);
    assert(w@ =~= lowered@.take(k as int));
    assert(h@ =~= lowered@.skip(k + 1));
    let width = match parse_usize(&w) {
        Some(v) => v,
        None => return Err(complaint("bad width in ", text)),
    };
    let height = match parse_usize(&h) {
        Some(v) => v,
        None => return Err(complaint("bad height in ", text)),
    };
    Ok((width, height))
}

} // verus!
