use glyph_escape::escape::Formatter;
use glyph_escape::fonts::{is_char_in_fonts, FontProgram};

fn be16(v: &mut Vec<u8>, x: u16) {
    v.extend_from_slice(&x.to_be_bytes());
}

fn be32(v: &mut Vec<u8>, x: u32) {
    v.extend_from_slice(&x.to_be_bytes());
}

/// A minimal TrueType font whose character map (a byte encoding table) gives
/// glyph 1 to each of `mapped`, all below U+0100.
fn tiny_font(mapped: &[char]) -> Vec<u8> {
    let mut cmap = Vec::new();
    be16(&mut cmap, 0); // version
    be16(&mut cmap, 1); // one encoding record
    be16(&mut cmap, 0); // Unicode platform
    be16(&mut cmap, 3); // BMP
    be32(&mut cmap, 12); // subtable offset
    be16(&mut cmap, 0); // format 0
    be16(&mut cmap, 262); // length
    be16(&mut cmap, 0); // language
    let mut glyphs = [0u8; 256];
    for c in mapped {
        glyphs[*c as usize] = 1;
    }
    cmap.extend_from_slice(&glyphs);

    let mut head = vec![0u8; 54];
    head[18..20].copy_from_slice(&1000u16.to_be_bytes()); // units per em
    let mut hhea = vec![0u8; 36];
    hhea[34..36].copy_from_slice(&1u16.to_be_bytes()); // number of metrics
    let mut maxp = Vec::new();
    be32(&mut maxp, 0x0000_5000);
    be16(&mut maxp, 2); // number of glyphs

    let tables: [(&[u8; 4], &Vec<u8>); 4] =
        [(b"cmap", &cmap), (b"head", &head), (b"hhea", &hhea), (b"maxp", &maxp)];
    let mut font = Vec::new();
    be32(&mut font, 0x0001_0000);
    be16(&mut font, tables.len() as u16);
    be16(&mut font, 0);
    be16(&mut font, 0);
    be16(&mut font, 0);
    let mut offset = 12 + 16 * tables.len() as u32;
    for (tag, data) in &tables {
        font.extend_from_slice(&tag[..]);
        be32(&mut font, 0);
        be32(&mut font, offset);
        be32(&mut font, data.len() as u32);
        offset += data.len() as u32;
    }
    for (_, data) in &tables {
        font.extend_from_slice(data);
    }
    font
}

#[test]
fn font_answers_for_its_mapped_characters() {
    let font = FontProgram::from_vec(tiny_font(&['A', 'é'])).unwrap();
    assert!(font.has_glyph('é'));
    assert!(font.has_glyph('A'));
    assert!(!font.has_glyph('ü'));
    assert!(!font.has_glyph('\u{1f600}'));
}

#[test]
fn any_font_of_the_set_may_have_the_glyph() {
    let fonts = vec![
        FontProgram::from_vec(tiny_font(&['A'])).unwrap(),
        FontProgram::from_vec(tiny_font(&['ü'])).unwrap(),
    ];
    assert!(is_char_in_fonts(&fonts, 'ü'));
    assert!(!is_char_in_fonts(&fonts, 'é'));
    assert_eq!(is_char_in_fonts(&fonts, 'ü'), is_char_in_fonts(&fonts, 'ü'));
}

#[test]
fn characters_with_a_glyph_pass_through() {
    let fonts = vec![FontProgram::from_vec(tiny_font(&['é'])).unwrap()];
    let f = Formatter::new(false, false, false, false, false, false, false, false, false);
    let mut out = Vec::new();
    f.process(&fonts, "aéü".as_bytes(), &mut out);
    assert_eq!(out, "aé\\u{fc}".as_bytes().to_vec());
    let mut all = Vec::new();
    let g = Formatter::new(false, true, false, false, false, false, false, false, false);
    g.process(&fonts, "é".as_bytes(), &mut all);
    assert_eq!(all, b"\\u{e9}".to_vec());
}

#[test]
fn font_without_required_tables_is_rejected() {
    let mut font = tiny_font(&['A']);
    font.truncate(60);
    assert!(FontProgram::from_vec(font).is_err());
}
