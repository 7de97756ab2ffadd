//! What can go wrong while a font is read.

use vstd::prelude::*;

verus! {

/// Why the bytes of a font could not be decoded.
#[derive(Clone, Copy, Debug, PartialEq, Eq)]
pub enum ParseFailure {
    /// A read went beyond the end of the data.
    MalformedFont,
    /// The data does not start with the magic number of a font.
    UnknownMagic,
    /// The data is a collection that holds no first face.
    FaceIndexOutOfBounds,
    /// The `head` table is missing or malformed.
    NoHeadTable,
    /// The `hhea` table is missing or malformed.
    NoHheaTable,
    /// The `maxp` table is missing or malformed.
    NoMaxpTable,
}

/// An error of the library. Each one ends the run.
#[derive(Clone, Copy, Debug, PartialEq, Eq)]
pub enum FontError {
    /// The bytes do not decode as a font.
    Parse(ParseFailure),
    /// The font has no character map.
    MissingTable,
    /// The character map defines no codepoint for the Windows platform.
    EmptyResult,
}

impl ParseFailure {
    /// The description of the failure.
    pub open spec fn description(self) -> Seq<char> {
        match self {
            ParseFailure::MalformedFont => "malformed font"@,
            ParseFailure::UnknownMagic => "unknown magic"@,
            ParseFailure::FaceIndexOutOfBounds => "face index is out of bounds"@,
            ParseFailure::NoHeadTable => "the head table is missing or malformed"@,
            ParseFailure::NoHheaTable => "the hhea table is missing or malformed"@,
            ParseFailure::NoMaxpTable => "the maxp table is missing or malformed"@,
        }
    }

    /// Describes the failure in words.
    pub fn message(&self) -> (text: String)
        ensures
            text@ == self.description(),
    {
        match self {
            ParseFailure::MalformedFont => String::from_str("malformed font"),
            ParseFailure::UnknownMagic => String::from_str("unknown magic"),
            ParseFailure::FaceIndexOutOfBounds => String::from_str("face index is out of bounds"),
            ParseFailure::NoHeadTable => String::from_str("the head table is missing or malformed"),
            ParseFailure::NoHheaTable => String::from_str("the hhea table is missing or malformed"),
            ParseFailure::NoMaxpTable => String::from_str("the maxp table is missing or malformed"),
        }
    }
}

impl FontError {
    /// The one-line description of the error.
    pub open spec fn description(self) -> Seq<char> {
        match self {
            FontError::Parse(failure) => failure.description(),
            FontError::MissingTable => "cmap table not found"@,
            FontError::EmptyResult => "No characters found"@,
        }
    }

    /// Describes the error in one line.
    pub fn message(&self) -> (text: String)
        ensures
            text@ == self.description(),
    {
        match self {
            FontError::Parse(failure) => failure.message(),
            FontError::MissingTable => String::from_str("cmap table not found"),
            FontError::EmptyResult => String::from_str("No characters found"),
        }
    }
}

} // verus!
