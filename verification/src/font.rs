//! Fonts: what the collector reads of one, and how it is read from bytes.

use crate::error::{FontError, ParseFailure};
use vstd::prelude::*;

verus! {

/// The platform that a character-map subtable is written for.
#[derive(Clone, Copy, Debug, PartialEq, Eq)]
pub enum Platform {
    Unicode,
    Macintosh,
    Iso,
    Windows,
    Custom,
}

/// One subtable of a character map: its platform and the codepoints that it
/// defines, in the order in which the subtable lists them.
#[derive(Debug, PartialEq, Eq)]
pub struct CmapSubtable {
    pub platform: Platform,
    pub codepoints: Vec<u32>,
}

/// What the library reads of a font: the number of its glyphs and, where the
/// font has a character map, the subtables of that map.
#[derive(Debug, PartialEq, Eq)]
pub struct Font {
    pub glyph_count: u16,
    pub cmap: Option<Vec<CmapSubtable>>,
}

/// The mathematical value of a `CmapSubtable`.
pub struct SubtableView {
    pub platform: Platform,
    pub codepoints: Seq<u32>,
}

/// The mathematical value of a `Font`.
pub struct FontView {
    pub glyph_count: u16,
    pub cmap: Option<Seq<SubtableView>>,
}

impl View for CmapSubtable {
    type V = SubtableView;

    open spec fn view(&self) -> SubtableView {
        SubtableView { platform: self.platform, codepoints: self.codepoints@ }
    }
}

impl View for Font {
    type V = FontView;

    open spec fn view(&self) -> FontView {
        FontView {
            glyph_count: self.glyph_count,
            cmap: match self.cmap {
                Some(subtables) => Some(subtables@.map_values(|s: CmapSubtable| s@)),
                None => None,
            },
        }
    }
}

/// Declares `ttf_parser::Face`, a decoded face, as a type whose inside
/// stays hidden.
#[verifier::external_type_specification]
#[verifier::external_body]
pub struct ExFace<'a>(ttf_parser::Face<'a>);

/// Declares `ttf_parser::cmap::Subtable`, a subtable of a character map,
/// as a type whose inside stays hidden.
#[verifier::external_type_specification]
#[verifier::external_body]
pub struct ExSubtable<'a>(ttf_parser::cmap::Subtable<'a>);

/// What decoding `data` as a font gives: the contents of its first face, or
/// the reason why it has none.
pub uninterp spec fn decoded_font(data: Seq<u8>) -> Result<FontView, ParseFailure>;

/// The contents of a decoded face: the number of its glyphs and, where it
/// has a character map, the subtables that walking the map yields, in order.
pub uninterp spec fn face_contents(face: &ttf_parser::Face) -> FontView;

/// The contents of a subtable of a character map: its platform and the
/// codepoints that it defines, in the order in which it reports them.
pub uninterp spec fn subtable_contents(subtable: &ttf_parser::cmap::Subtable) -> SubtableView;

/// Decodes the first face of `data`.
///
/// Trusted: the body is `ttf_parser::Face::from_slice` with face index 0,
/// its six error variants mapped one to one. The contract only names the
/// outcome: it is `decoded_font` of the bytes.
#[verifier::external_body]
fn parse_face<'a>(data: &'a [u8]) -> (parsed: Result<ttf_parser::Face<'a>, ParseFailure>)
    ensures
        match parsed {
            Ok(face) => decoded_font(data@) == Ok::<FontView, ParseFailure>(face_contents(&face)),
            Err(failure) => decoded_font(data@) == Err::<FontView, ParseFailure>(failure),
        },
{
    match ttf_parser::Face::from_slice(data, 0) {
        Ok(face) => Ok(face),
        Err(ttf_parser::FaceParsingError::MalformedFont) => Err(ParseFailure::MalformedFont),
        Err(ttf_parser::FaceParsingError::UnknownMagic) => Err(ParseFailure::UnknownMagic),
        Err(ttf_parser::FaceParsingError::FaceIndexOutOfBounds) => Err(
            ParseFailure::FaceIndexOutOfBounds,
        ),
        Err(ttf_parser::FaceParsingError::NoHeadTable) => Err(ParseFailure::NoHeadTable),
        Err(ttf_parser::FaceParsingError::NoHheaTable) => Err(ParseFailure::NoHheaTable),
        Err(ttf_parser::FaceParsingError::NoMaxpTable) => Err(ParseFailure::NoMaxpTable),
    }
}

/// The number of glyphs of the face.
///
/// Trusted: the body is `ttf_parser::Face::number_of_glyphs`, which hands
/// out the number that decoding read. The contract claims that this is the
/// number of glyphs of the face.
#[verifier::external_body]
fn count_glyphs(face: &ttf_parser::Face) -> (count: u16)
    ensures
        count == face_contents(face).glyph_count,
{
    face.number_of_glyphs()
}

/// The number of entries in the character map of the face, or `None`
/// where the face has no character map.
///
/// Trusted: the body reads the field `cmap` of `ttf_parser::Face::tables`
/// and calls `ttf_parser::cmap::Subtables::len`. Walking the map yields at
/// most one subtable for each entry, so the contract claims that the
/// subtables are no more than the entries.
#[verifier::external_body]
fn subtable_slots(face: &ttf_parser::Face) -> (slots: Option<u16>)
    ensures
        slots is Some <==> face_contents(face).cmap is Some,
        slots matches Some(count) ==> face_contents(face).cmap->0.len() <= count,
{
    Some(face.tables().cmap?.subtables.len())
}

/// Subtable `index` of the character map of the face.
///
/// Trusted: the body reads the field `cmap` of `ttf_parser::Face::tables`
/// and calls `ttf_parser::cmap::Subtables::get`. Walking the map yields
/// `get(0)`, `get(1)` and so on, and stops at the first index for which
/// `get` has nothing. So the contract claims each subtable that the walk
/// yields, and `None` at the index where the walk stops and where there is
/// no map.
#[verifier::external_body]
fn subtable_at<'a>(
    face: &ttf_parser::Face<'a>,
    index: u16,
) -> (found: Option<ttf_parser::cmap::Subtable<'a>>)
    ensures
        face_contents(face).cmap is None ==> found is None,
        face_contents(face).cmap matches Some(subtables) ==> {
            &&& index < subtables.len() ==> found is Some && subtable_contents(&found->0)
                == subtables[index as int]
            &&& index == subtables.len() ==> found is None
        },
{
    face.tables().cmap?.subtables.get(index)
}

/// The platform of the subtable.
///
/// Trusted: the body reads the field `platform_id` of the subtable, its
/// five variants mapped one to one. The contract claims that this is the
/// platform of the subtable.
#[verifier::external_body]
fn platform_of(subtable: &ttf_parser::cmap::Subtable) -> (platform: Platform)
    ensures
        platform == subtable_contents(subtable).platform,
{
    match subtable.platform_id {
        ttf_parser::PlatformId::Unicode => Platform::Unicode,
        ttf_parser::PlatformId::Macintosh => Platform::Macintosh,
        ttf_parser::PlatformId::Iso => Platform::Iso,
        ttf_parser::PlatformId::Windows => Platform::Windows,
        ttf_parser::PlatformId::Custom => Platform::Custom,
    }
}

/// Appends one codepoint to the list.
fn push_codepoint(codepoints: &mut Vec<u32>, codepoint: u32)
    ensures
        final(codepoints)@ == old(codepoints)@.push(codepoint),
{
    codepoints.push(codepoint);
}

/// The codepoints that the subtable defines.
///
/// Trusted: the body is `ttf_parser::cmap::Subtable::codepoints`, which
/// calls the closure it is given once for each codepoint that the subtable
/// defines; the closure appends the codepoint to the result. The contract
/// only names the outcome: the codepoints of the subtable, in the order of
/// those calls.
#[verifier::external_body]
fn codepoints_of(subtable: &ttf_parser::cmap::Subtable) -> (codepoints: Vec<u32>)
    ensures
        codepoints@ == subtable_contents(subtable).codepoints,
{
    let mut codepoints = Vec::new();
    subtable.codepoints(|codepoint| push_codepoint(&mut codepoints, codepoint));
    codepoints
}

/// Reads the subtables of the character map of the face, of which `slots`
/// bounds the number.
fn read_subtables(face: &ttf_parser::Face, slots: u16) -> (subtables: Vec<CmapSubtable>)
    requires
        face_contents(face).cmap matches Some(model) && model.len() <= slots,
    ensures
        face_contents(face).cmap == Some(subtables@.map_values(|s: CmapSubtable| s@)),
{
    let ghost model = face_contents(face).cmap->0;
    let mut subtables: Vec<CmapSubtable> = Vec::new();
    let mut index: u16 = 0;
    let mut more = true;
    while more && index < slots
        invariant
            face_contents(face).cmap == Some(model),
            index <= model.len() <= slots,
            subtables@.len() == index,
            forall|k: int| 0 <= k < index ==> (#[trigger] subtables@[k])@ == model[k],
            !more ==> index == model.len(),
        decreases (slots - index) + (if more { 1int } else { 0int }),
    {
        match subtable_at(face, index) {
            None => {
                more = false;
            },
            Some(subtable) => {
                let platform = platform_of(&subtable);
                let codepoints = codepoints_of(&subtable);
                subtables.push(CmapSubtable { platform, codepoints });
                index += 1;
            },
        }
    }
    assert(subtables@.map_values(|s: CmapSubtable| s@) =~= model);
    subtables
}

/// What `decode_font` makes of `data`: the decoded font, or the failure as
/// an error of the library.
pub open spec fn font_of(data: Seq<u8>) -> Result<FontView, FontError> {
    match decoded_font(data) {
        Ok(font) => Ok(font),
        Err(failure) => Err(FontError::Parse(failure)),
    }
}

/// Decodes the first face of the font in `data` and reads from it what the
/// library needs: the number of glyphs and the subtables of the character
/// map, each with its codepoints.
///
/// Fails with `FontError::Parse` exactly when the bytes do not decode.
pub fn decode_font(data: &[u8]) -> (decoded: Result<Font, FontError>)
    ensures
        match decoded {
            Ok(font) => font_of(data@) == Ok::<FontView, FontError>(font@),
            Err(error) => font_of(data@) == Err::<FontView, FontError>(error),
        },
{
    let face = match parse_face(data) {
        Ok(face) => face,
        Err(failure) => {
            return Err(FontError::Parse(failure));
        },
    };
    let glyph_count = count_glyphs(&face);
    let cmap = match subtable_slots(&face) {
        None => None,
        Some(slots) => Some(read_subtables(&face, slots)),
    };
    Ok(Font { glyph_count, cmap })
}

/// The codepoints of the subtables for the Windows platform, subtable after
/// subtable, each subtable's codepoints in its own order.
pub open spec fn windows_codepoints(subtables: Seq<SubtableView>) -> Seq<u32>
    decreases subtables.len(),
{
    if subtables.len() == 0 {
        Seq::empty()
    } else if subtables.last().platform is Windows {
        windows_codepoints(subtables.drop_last()) + subtables.last().codepoints
    } else {
        windows_codepoints(subtables.drop_last())
    }
}

/// What the collector makes of a font: the codepoints of its Windows
/// subtables; an error where the font has no character map, and another
/// where those subtables define no codepoint at all.
pub open spec fn collected(font: FontView) -> Result<Seq<u32>, FontError> {
    match font.cmap {
        None => Err(FontError::MissingTable),
        Some(subtables) => if windows_codepoints(subtables).len() == 0 {
            Err(FontError::EmptyResult)
        } else {
            Ok(windows_codepoints(subtables))
        },
    }
}

/// Collects the codepoints that the font defines for the Windows platform.
///
/// Codepoints that several subtables define occur several times.
pub fn collect_codepoints(font: &Font) -> (found: Result<Vec<u32>, FontError>)
    ensures
        match found {
            Ok(codepoints) => collected(font@) == Ok::<Seq<u32>, FontError>(codepoints@),
            Err(error) => collected(font@) == Err::<Seq<u32>, FontError>(error),
        },
{
    let subtables = match &font.cmap {
        None => {
            return Err(FontError::MissingTable);
        },
        Some(subtables) => subtables,
    };
    let ghost model = subtables@.map_values(|s: CmapSubtable| s@);
    let mut codepoints: Vec<u32> = Vec::new();
    let mut i: usize = 0;
    while i < subtables.len()
        invariant
            i <= subtables.len(),
            model == subtables@.map_values(|s: CmapSubtable| s@),
            codepoints@ == windows_codepoints(model.take(i as int)),
        decreases subtables.len() - i,
    {
        let subtable = &subtables[i];
        proof {
            assert(model.take(i + 1).drop_last() =~= model.take(i as int));
            assert(model.take(i + 1).last() == subtable@);
        }
        match subtable.platform {
            Platform::Windows => {
                codepoints.extend_from_slice(subtable.codepoints.as_slice());
                assert(codepoints@ =~= windows_codepoints(model.take(i as int))
                    + subtable.codepoints@);
            },
            _ => {},
        }
        i += 1;
    }
    assert(model.take(i as int) =~= model);
    if codepoints.len() == 0 {
        Err(FontError::EmptyResult)
    } else {
        Ok(codepoints)
    }
}

} // verus!
