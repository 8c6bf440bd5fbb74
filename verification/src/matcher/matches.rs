//! The result of a search.
use vstd::prelude::*;

verus! {

/// A match in a haystack: offsets in the haystack's units (bytes for
/// UTF-8), and whether the end of the pattern was consumed only partially.
#[derive(Clone, Copy, Debug)]
pub struct Match {
    start: usize,
    end: usize,
    is_pattern_partial: bool,
}

impl Match {
    #[verifier::type_invariant]
    spec fn ordered(&self) -> bool {
        self.start <= self.end
    }

    pub closed spec fn spec_start(&self) -> usize {
        self.start
    }

    pub closed spec fn spec_end(&self) -> usize {
        self.end
    }

    pub closed spec fn spec_is_pattern_partial(&self) -> bool {
        self.is_pattern_partial
    }

    /// The match from `start` to `end`.
    pub fn new(start: usize, end: usize, is_pattern_partial: bool) -> (m: Match)
        requires
            start <= end,
        ensures
            m.spec_start() == start,
            m.spec_end() == end,
            m.spec_is_pattern_partial() == is_pattern_partial,
    {
        Match { start, end, is_pattern_partial }
    }

    #[verifier::when_used_as_spec(spec_start)]
    pub fn start(&self) -> (r: usize)
        ensures
            r == self.spec_start(),
            r <= self.spec_end(),
    {
        proof {
            use_type_invariant(self);
        }
        self.start
    }

    #[verifier::when_used_as_spec(spec_end)]
    pub fn end(&self) -> (r: usize)
        ensures
            r == self.spec_end(),
    {
        self.end
    }

    pub fn range(&self) -> (r: core::ops::Range<usize>)
        ensures
            r.start == self.spec_start(),
            r.end == self.spec_end(),
    {
        self.start..self.end
    }

    pub fn len(&self) -> (r: usize)
        ensures
            r == self.spec_end() - self.spec_start(),
    {
        proof {
            use_type_invariant(self);
        }
        self.end - self.start
    }

    pub fn is_empty(&self) -> (r: bool)
        ensures
            r == (self.spec_start() == self.spec_end()),
    {
        proof {
            use_type_invariant(self);
        }
        self.start >= self.end
    }

    #[verifier::when_used_as_spec(spec_is_pattern_partial)]
    pub fn is_pattern_partial(&self) -> (r: bool)
        ensures
            r == self.spec_is_pattern_partial(),
    {
        self.is_pattern_partial
    }

    /// The match with both offsets divided by `rhs`: from bytes to the
    /// units of an encoding whose elements take `rhs` bytes.
    pub fn div(self, rhs: usize) -> (m: Match)
        requires
            rhs != 0,
        ensures
            m.spec_start() == self.spec_start() / rhs,
            m.spec_end() == self.spec_end() / rhs,
            m.spec_is_pattern_partial() == self.spec_is_pattern_partial(),
    {
        proof {
            use_type_invariant(&self);
            lemma_div_monotonic(self.start as int, self.end as int, rhs as int);
        }
        Match {
            start: self.start / rhs,
            end: self.end / rhs,
            is_pattern_partial: self.is_pattern_partial,
        }
    }
}

proof fn lemma_div_monotonic(a: int, b: int, d: int)
    requires
        0 <= a <= b,
        d > 0,
    ensures
        a / d <= b / d,
{
    vstd::arithmetic::div_mod::lemma_div_is_ordered(a, b, d);
}

/// `Match::div` on a match that may be none.
pub trait OptionMatchExt: Sized {
    /// `Match::div` under the `Option`.
    fn div(self, rhs: usize) -> Option<Match>
        requires
            rhs != 0,
    ;
}

impl OptionMatchExt for Option<Match> {
    fn div(self, rhs: usize) -> (r: Option<Match>)
        ensures
            r is Some == self is Some,
            self is Some ==> {
                &&& r->0.spec_start() == self->0.spec_start() / rhs
                &&& r->0.spec_end() == self->0.spec_end() / rhs
                &&& r->0.spec_is_pattern_partial() == self->0.spec_is_pattern_partial()
            },
    {
        match self {
            Some(m) => Some(m.div(rhs)),
            None => None,
        }
    }
}

/// The part of a match that follows a given position: its length so far
/// and whether the pattern's end was consumed only partially.
#[derive(Clone, Copy)]
pub struct SubMatch {
    pub len: usize,
    pub is_pattern_partial: bool,
}

impl SubMatch {
    pub fn new(len: usize, is_pattern_partial: bool) -> (m: SubMatch)
        ensures
            m.len == len,
            m.is_pattern_partial == is_pattern_partial,
    {
        SubMatch { len, is_pattern_partial }
    }
}

} // verus!
