//! Character boundaries in a string.
use vstd::prelude::*;
use vstd::string::StringSliceAdditionalSpecFns;
use vstd::utf8::{
    encode_utf8_valid_utf8, is_char_boundary, is_char_boundary_iff_not_is_continuation_byte,
    is_char_boundary_start_end_of_seq,
};

verus! {

/// The closest place not after `index` at which a character starts or
/// the string ends; the length of the string for an `index` beyond it.
pub fn floor_char_boundary(s: &str, index: usize) -> (r: usize)
    ensures
        r <= s.spec_bytes().len(),
        is_char_boundary(s.spec_bytes(), r as int),
        index >= s.spec_bytes().len() ==> r == s.spec_bytes().len(),
        index < s.spec_bytes().len() ==> r <= index && forall|j: int|
            r < j <= index ==> !is_char_boundary(s.spec_bytes(), j),
{
    let bytes = s.as_bytes();
    proof {
        encode_utf8_valid_utf8(s@);
        is_char_boundary_start_end_of_seq(bytes@);
    }
    if index >= bytes.len() {
        bytes.len()
    } else {
        let mut i: usize = index;
        while i > 0 && 0x80 <= bytes[i] && bytes[i] <= 0xbf
            invariant
                i <= index < bytes@.len(),
                vstd::utf8::valid_utf8(bytes@),
                forall|j: int| i < j <= index ==> !is_char_boundary(bytes@, j),
            decreases i,
        {
            proof {
                is_char_boundary_iff_not_is_continuation_byte(bytes@, i as int);
            }
            i = i - 1;
        }
        proof {
            if i > 0 {
                is_char_boundary_iff_not_is_continuation_byte(bytes@, i as int);
            }
        }
        i
    }
}

/// The closest place not before `index` at which a character starts or
/// the string ends; the length of the string for an `index` beyond it.
pub fn ceil_char_boundary(s: &str, index: usize) -> (r: usize)
    ensures
        r <= s.spec_bytes().len(),
        is_char_boundary(s.spec_bytes(), r as int),
        index > s.spec_bytes().len() ==> r == s.spec_bytes().len(),
        index <= s.spec_bytes().len() ==> index <= r && forall|j: int|
            index <= j < r ==> !is_char_boundary(s.spec_bytes(), j),
{
    let bytes = s.as_bytes();
    proof {
        encode_utf8_valid_utf8(s@);
        is_char_boundary_start_end_of_seq(bytes@);
    }
    if index > bytes.len() {
        bytes.len()
    } else {
        let mut i: usize = index;
        while i < bytes.len() && 0x80 <= bytes[i] && bytes[i] <= 0xbf
            invariant
                index <= i <= bytes@.len(),
                vstd::utf8::valid_utf8(bytes@),
                forall|j: int| index <= j < i ==> !is_char_boundary(bytes@, j),
            decreases bytes.len() - i,
        {
            proof {
                is_char_boundary_iff_not_is_continuation_byte(bytes@, i as int);
            }
            i = i + 1;
        }
        proof {
            if i < bytes.len() {
                is_char_boundary_iff_not_is_continuation_byte(bytes@, i as int);
            }
        }
        i
    }
}

/// The places of a string at which a character starts, next to a place
/// that is given.
pub trait RoundCharBoundaryExt {
    /// The closest place not after `index` at which a character starts or
    /// the string ends.
    fn floor_char_boundary_ib(&self, index: usize) -> usize;

    /// The closest place not before `index` at which a character starts
    /// or the string ends.
    fn ceil_char_boundary_ib(&self, index: usize) -> usize;
}

impl RoundCharBoundaryExt for str {
    fn floor_char_boundary_ib(&self, index: usize) -> (r: usize)
        ensures
            r <= self.spec_bytes().len(),
            is_char_boundary(self.spec_bytes(), r as int),
            index >= self.spec_bytes().len() ==> r == self.spec_bytes().len(),
            index < self.spec_bytes().len() ==> r <= index && forall|j: int|
                r < j <= index ==> !is_char_boundary(self.spec_bytes(), j),
    {
        floor_char_boundary(self, index)
    }

    fn ceil_char_boundary_ib(&self, index: usize) -> (r: usize)
        ensures
            r <= self.spec_bytes().len(),
            is_char_boundary(self.spec_bytes(), r as int),
            index > self.spec_bytes().len() ==> r == self.spec_bytes().len(),
            index <= self.spec_bytes().len() ==> index <= r && forall|j: int|
                index <= j < r ==> !is_char_boundary(self.spec_bytes(), j),
    {
        ceil_char_boundary(self, index)
    }
}

} // verus!
