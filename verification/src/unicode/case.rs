//! Single-valued lower-case folding.
use vstd::prelude::*;
use crate::unicode::utf8::string_push;

verus! {

/// The first character of the lower-case mapping that Unicode gives `c`.
pub uninterp spec fn unicode_lowercase(c: char) -> char;

/// The lower-case form of an ASCII character.
pub open spec fn ascii_lowercase(c: char) -> char {
    if 'A' <= c && c <= 'Z' {
        ((c as u8) + 32) as char
    } else {
        c
    }
}

/// The single-valued lower-case fold: ASCII letters fold by the ASCII rule,
/// every other character by the first character of its Unicode mapping.
pub open spec fn mono_lowercase(c: char) -> char {
    if (c as u32) < 128 {
        ascii_lowercase(c)
    } else {
        unicode_lowercase(c)
    }
}

/// The fold applied to every character of `s`.
pub open spec fn mono_lowercase_seq(s: Seq<char>) -> Seq<char> {
    Seq::new(s.len(), |i: int| mono_lowercase(s[i]))
}

/// Calls `char::to_lowercase` and takes the first character it yields.
/// The mapping always yields at least one character; for `'İ'` it yields
/// two, and the combining dot that follows is dropped.
#[verifier::external_body]
fn first_of_lowercase(c: char) -> (r: char)
    ensures
        r == unicode_lowercase(c),
{
    c.to_lowercase().next().unwrap()
}

/// The single-valued fold to lower case of a character.
pub trait CharToMonoLowercase: Sized {
    /// The only lower-case mapping of more than one character is
    /// `'İ'` to `"i\u{307}"`; its second character is ignored.
    fn to_mono_lowercase(self) -> char;
}

impl CharToMonoLowercase for char {
    fn to_mono_lowercase(self) -> (r: char)
        ensures
            r == mono_lowercase(self),
    {
        if (self as u32) < 128 {
            if 'A' <= self && self <= 'Z' {
                ((self as u8) + 32) as char
            } else {
                self
            }
        } else {
            first_of_lowercase(self)
        }
    }
}

/// The single-valued fold to lower case of every character of a string.
pub trait StrToMonoLowercase {
    fn to_mono_lowercase(&self) -> String;
}

impl StrToMonoLowercase for str {
    fn to_mono_lowercase(&self) -> (r: String)
        ensures
            r@ == mono_lowercase_seq(self@),
    {
        let mut out = String::new();
        for c in it: self.chars()
            invariant
                it.seq() == self@,
                out@ == mono_lowercase_seq(self@).take(it.index() as int),
        {
            string_push(&mut out, c.to_mono_lowercase());
        }
        out
    }
}

} // verus!
