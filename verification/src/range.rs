//! Codepoints and inclusive ranges of them.

use vstd::prelude::*;

verus! {

/// The largest Unicode scalar value.
pub const MAX_CODEPOINT: u32 = 0x10FFFF;

/// The first codepoint of the surrogate block.
pub const FIRST_SURROGATE: u32 = 0xD800;

/// The last codepoint of the surrogate block.
pub const LAST_SURROGATE: u32 = 0xDFFF;

/// A codepoint is valid when it is a Unicode scalar value: at most
/// `MAX_CODEPOINT` and outside the surrogate block.
pub open spec fn valid_codepoint(cp: u32) -> bool {
    cp <= MAX_CODEPOINT && !(FIRST_SURROGATE <= cp <= LAST_SURROGATE)
}

/// Tells whether `cp` is a Unicode scalar value.
#[verifier::when_used_as_spec(valid_codepoint)]
pub fn is_valid_codepoint(cp: u32) -> (valid: bool)
    ensures
        valid == valid_codepoint(cp),
{
    cp <= MAX_CODEPOINT && !(FIRST_SURROGATE <= cp && cp <= LAST_SURROGATE)
}

/// An inclusive run of codepoints, from `start()` to `end()`.
///
/// Every value satisfies `start() <= end()`; the fields cannot be changed
/// after construction.
#[derive(Clone, Copy, Debug, PartialEq, Eq)]
pub struct CharacterRange {
    start: u32,
    end: u32,
}

impl CharacterRange {
    #[verifier::type_invariant]
    spec fn ordered(self) -> bool {
        self.start <= self.end
    }

    /// The first codepoint of the range.
    pub closed spec fn spec_start(&self) -> u32 {
        self.start
    }

    /// The last codepoint of the range.
    pub closed spec fn spec_end(&self) -> u32 {
        self.end
    }

    /// Whether `cp` lies between the two ends of the range.
    pub open spec fn spans(self, cp: u32) -> bool {
        self.start() <= cp <= self.end()
    }

    /// The range from `start` to `end`, or `None` when `start > end`.
    pub fn new(start: u32, end: u32) -> (range: Option<CharacterRange>)
        ensures
            start <= end <==> range is Some,
            range matches Some(r) ==> r.start() == start && r.end() == end,
    {
        if start <= end {
            Some(CharacterRange { start, end })
        } else {
            None
        }
    }

    /// The range from `start` to `end`.
    pub(crate) fn from_bounds(start: u32, end: u32) -> (range: CharacterRange)
        requires
            start <= end,
        ensures
            range.start() == start,
            range.end() == end,
    {
        CharacterRange { start, end }
    }

    /// The first codepoint of the range.
    #[verifier::when_used_as_spec(spec_start)]
    pub fn start(&self) -> (start: u32)
        ensures
            start == self.start(),
            start <= self.end(),
    {
        proof {
            use_type_invariant(self);
        }
        self.start
    }

    /// The last codepoint of the range.
    #[verifier::when_used_as_spec(spec_end)]
    pub fn end(&self) -> (end: u32)
        ensures
            end == self.end(),
            self.start() <= end,
    {
        proof {
            use_type_invariant(self);
        }
        self.end
    }

    /// A range is determined by its two ends.
    pub proof fn lemma_equal_by_ends(self, other: CharacterRange)
        requires
            self.start() == other.start(),
            self.end() == other.end(),
        ensures
            self == other,
    {
    }
}

} // verus!
