//! Unicode coverage of a font, as a minimal list of inclusive codepoint ranges.
//!
//! The crate collects the codepoints that the Windows character-map subtables
//! of a font define, merges them into maximal contiguous ranges, and prepares
//! the text values of the `CharacterRegions` document that lists them.
//!
//! - `font` decodes the bytes of a font and collects its codepoints;
//! - `compress` merges codepoints into ranges, and `laws` proves what holds
//!   of every result;
//! - `xml` and `decimal` write the ranges as the texts of the document;
//! - `range` and `error` hold the types that the others share.

pub mod compress;
pub mod decimal;
pub mod error;
pub mod font;
pub mod laws;
pub mod range;
pub mod xml;

pub use compress::{compress, compress_sorted};
pub use error::{FontError, ParseFailure};
pub use font::{collect_codepoints, decode_font, CmapSubtable, Font, Platform};
pub use range::{is_valid_codepoint, CharacterRange};
pub use xml::{CharacterRegion, CharacterRegions, End, Start};
