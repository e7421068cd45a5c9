//! Font programs and the question whether any of them has a glyph for a
//! character.
use ab_glyph::Font;
use vstd::prelude::*;

verus! {

#[verifier::external_type_specification]
#[verifier::external_body]
pub struct ExFontVec(ab_glyph::FontVec);

#[verifier::external_type_specification]
#[verifier::external_body]
pub struct ExInvalidFont(ab_glyph::InvalidFont);

/// Whether the bytes parse as a font program (the first face of the data).
pub uninterp spec fn font_parses(data: Seq<u8>) -> bool;

/// The glyph index that the font program parsed from `data` gives to `c`;
/// index 0 is the "missing glyph".
pub uninterp spec fn glyph_index(data: Seq<u8>, c: char) -> u16;

/// Relies on ab_glyph's `FontVec::try_from_vec`: it parses the first face of
/// the data and fails exactly when that parse fails.
#[verifier::external_body]
fn parse_font_vec(data: Vec<u8>) -> (r: Result<ab_glyph::FontVec, ab_glyph::InvalidFont>)
    ensures
        r is Ok <==> font_parses(data@),
{
    ab_glyph::FontVec::try_from_vec(data)
}

/// A font program that parsed, with the bytes it was parsed from: `font`
/// was parsed from `data`, and `from_vec` is the only way to make one.
pub struct FontProgram {
    font: ab_glyph::FontVec,
    data: Ghost<Seq<u8>>,
}

/// The font data did not parse as a font program.
#[derive(Debug, Clone, Copy, PartialEq, Eq)]
pub struct InvalidFontData;

impl View for FontProgram {
    type V = Seq<u8>;

    closed spec fn view(&self) -> Seq<u8> {
        self.data@
    }
}

/// Relies on ab_glyph's `Font::glyph_id` for a `FontVec`, which looks the
/// character up in the font's character map and gives 0 where it has none:
/// the index depends only on the font data and the character.
#[verifier::external_body]
fn font_glyph_id(font: &FontProgram, c: char) -> (r: u16)
    ensures
        r == glyph_index(font@, c),
{
    font.font.glyph_id(c).0
}

impl FontProgram {
    /// Parses owned font data.
    pub fn from_vec(data: Vec<u8>) -> (r: Result<FontProgram, InvalidFontData>)
        ensures
            r is Ok <==> font_parses(data@),
            r matches Ok(p) ==> p@ == data@,
    {
        let ghost bytes = data@;
        match parse_font_vec(data) {
            Ok(font) => Ok(FontProgram { font, data: Ghost(bytes) }),
            Err(_) => Err(InvalidFontData),
        }
    }

    /// Whether this font maps `c` to a glyph other than the missing glyph.
    pub fn has_glyph(&self, c: char) -> (r: bool)
        ensures
            r == (glyph_index(self@, c) != 0),
    {
        font_glyph_id(self, c) != 0
    }
}

/// Whether some font of the sequence has a glyph for `c`.
pub open spec fn glyph_in_fonts(fonts: Seq<FontProgram>, c: char) -> bool {
    exists|i: int| 0 <= i < fonts.len() && glyph_index(#[trigger] fonts[i]@, c) != 0
}

/// Whether any of the fonts has a glyph for `c`; asks the fonts in order and
/// stops at the first that has one.
pub fn is_char_in_fonts(fonts: &[FontProgram], c: char) -> (r: bool)
    ensures
        r == glyph_in_fonts(fonts@, c),
{
    let mut i: usize = 0;
    while i < fonts.len()
        invariant
            i <= fonts@.len(),
            forall|j: int| 0 <= j < i ==> glyph_index(#[trigger] fonts@[j]@, c) == 0,
        decreases fonts@.len() - i,
    {
        if fonts[i].has_glyph(c) {
            return true;
        }
        i += 1;
    }
    false
}

} // verus!
