//! The `CharacterRegions` document: the ranges with their ends as text.

use crate::decimal::{decimal, decimal_string};
use crate::range::CharacterRange;
use vstd::prelude::*;

verus! {

/// The text of a `Start` element.
#[derive(Debug, PartialEq, Eq)]
pub struct Start {
    pub value: String,
}

/// The text of an `End` element.
#[derive(Debug, PartialEq, Eq)]
pub struct End {
    pub value: String,
}

/// One `CharacterRegion` element: a `Start` and an `End`.
#[derive(Debug, PartialEq, Eq)]
pub struct CharacterRegion {
    pub start: Start,
    pub end: End,
}

/// The root element: one `CharacterRegion` for each range, in order.
#[derive(Debug, PartialEq, Eq)]
pub struct CharacterRegions {
    pub character_ranges: Vec<CharacterRegion>,
}

impl View for CharacterRegion {
    type V = (Seq<char>, Seq<char>);

    /// The texts of the two child elements, `Start` first.
    open spec fn view(&self) -> (Seq<char>, Seq<char>) {
        (self.start.value@, self.end.value@)
    }
}

impl View for CharacterRegions {
    type V = Seq<(Seq<char>, Seq<char>)>;

    /// The texts of the regions, in document order.
    open spec fn view(&self) -> Seq<(Seq<char>, Seq<char>)> {
        self.character_ranges@.map_values(|region: CharacterRegion| region@)
    }
}

/// The texts that stand for one range: its two ends in decimal.
pub open spec fn region_texts(range: CharacterRange) -> (Seq<char>, Seq<char>) {
    (decimal(range.start() as nat), decimal(range.end() as nat))
}

/// The texts that stand for the ranges, in their order.
pub open spec fn document_texts(ranges: Seq<CharacterRange>) -> Seq<(Seq<char>, Seq<char>)> {
    ranges.map_values(|range: CharacterRange| region_texts(range))
}

impl CharacterRegions {
    /// The document of `ranges`: region `i` holds the start and the end of
    /// range `i`, each written in decimal.
    pub fn new(ranges: &[CharacterRange]) -> (document: Self)
        ensures
            document@ == document_texts(ranges@),
    {
        let mut regions: Vec<CharacterRegion> = Vec::new();
        let mut i: usize = 0;
        while i < ranges.len()
            invariant
                i <= ranges.len(),
                regions@.len() == i,
                forall|k: int| 0 <= k < i ==> (#[trigger] regions@[k])@ == region_texts(ranges@[k]),
            decreases ranges.len() - i,
        {
            let range = &ranges[i];
            regions.push(
                CharacterRegion {
                    start: Start { value: decimal_string(range.start()) },
                    end: End { value: decimal_string(range.end()) },
                },
            );
            i += 1;
        }
        let document = CharacterRegions { character_ranges: regions };
        assert(document@ =~= document_texts(ranges@));
        document
    }
}

} // verus!
