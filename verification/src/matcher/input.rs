//! What a search is given.
use vstd::prelude::*;

verus! {

/// A haystack, and what is known of it.
#[derive(Clone, Copy)]
pub struct Input<'h> {
    pub haystack: &'h str,
    /// Set where the start of the haystack is known not to be a place at
    /// which a match that has to start at the start may start.
    pub no_start: bool,
}

/// Sets the options of an `Input`.
pub struct InputBuilder<'h> {
    pub input: Input<'h>,
}

impl<'h> InputBuilder<'h> {
    /// Default: `false`.
    pub fn no_start(self, no_start: bool) -> (r: Self)
        ensures
            r.input == (Input { haystack: self.input.haystack, no_start }),
    {
        InputBuilder { input: Input { haystack: self.input.haystack, no_start } }
    }

    pub fn build(self) -> (r: Input<'h>)
        ensures
            r == self.input,
    {
        self.input
    }
}

impl<'h> Input<'h> {
    /// The input that is the haystack alone.
    pub fn new(haystack: &'h str) -> (r: Input<'h>)
        ensures
            r == (Input { haystack, no_start: false }),
    {
        Input { haystack, no_start: false }
    }

    pub fn builder(haystack: &'h str) -> (r: InputBuilder<'h>)
        ensures
            r.input == (Input { haystack, no_start: false }),
    {
        InputBuilder { input: Input { haystack, no_start: false } }
    }
}

} // verus!
