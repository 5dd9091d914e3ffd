use rusty_sdf::fonts::FontRegistry;
use rusty_sdf::rich_parse::char_is_ws;
use rusty_sdf::shaper::RtlScript;
use rusty_sdf::shaping::{
    byte_positions, char_is_control, lang_of, resolve_shaped_glyphs, shape_text_int, ShapedGlyphInt,
};

fn be16(v: &mut Vec<u8>, x: u16) {
    v.extend_from_slice(&x.to_be_bytes());
}

fn be32(v: &mut Vec<u8>, x: u32) {
    v.extend_from_slice(&x.to_be_bytes());
}

/// A minimal TrueType font: `head`, `hhea`, `maxp` with `glyphs` glyphs,
/// and a `cmap` mapping `first..=last` to glyphs from `first_glyph` on.
fn tiny_font(glyphs: u16, first: u32, last: u32, first_glyph: u32) -> Vec<u8> {
    let mut cmap = Vec::new();
    be16(&mut cmap, 0);
    be16(&mut cmap, 1);
    be16(&mut cmap, 0);
    be16(&mut cmap, 4);
    be32(&mut cmap, 12);
    be16(&mut cmap, 12);
    be16(&mut cmap, 0);
    be32(&mut cmap, 28);
    be32(&mut cmap, 0);
    be32(&mut cmap, 1);
    be32(&mut cmap, first);
    be32(&mut cmap, last);
    be32(&mut cmap, first_glyph);
    let mut head = Vec::new();
    be32(&mut head, 0x0001_0000);
    be32(&mut head, 0x0001_0000);
    be32(&mut head, 0);
    be32(&mut head, 0x5F0F_3CF5);
    be16(&mut head, 0);
    be16(&mut head, 1000);
    head.extend_from_slice(&[0u8; 16]);
    head.extend_from_slice(&[0u8; 8]);
    be16(&mut head, 0);
    be16(&mut head, 8);
    be16(&mut head, 2);
    be16(&mut head, 0);
    be16(&mut head, 0);
    let mut hhea = Vec::new();
    be32(&mut hhea, 0x0001_0000);
    be16(&mut hhea, 800);
    be16(&mut hhea, 0xFF38);
    be16(&mut hhea, 0);
    hhea.extend_from_slice(&[0u8; 24]);
    be16(&mut hhea, 1);
    let mut maxp = Vec::new();
    be32(&mut maxp, 0x0000_5000);
    be16(&mut maxp, glyphs);
    let tables: [(&[u8; 4], Vec<u8>); 4] =
        [(b"cmap", cmap), (b"head", head), (b"hhea", hhea), (b"maxp", maxp)];
    let mut font = Vec::new();
    be32(&mut font, 0x0001_0000);
    be16(&mut font, 4);
    be16(&mut font, 64);
    be16(&mut font, 2);
    be16(&mut font, 0);
    let mut offset = 12 + 16 * tables.len() as u32;
    for (tag, data) in tables.iter() {
        font.extend_from_slice(&tag[..]);
        be32(&mut font, 0);
        be32(&mut font, offset);
        be32(&mut font, data.len() as u32);
        offset += data.len() as u32;
    }
    for (_, data) in tables.iter() {
        font.extend_from_slice(data);
    }
    font
}

fn sample_font() -> Vec<u8> {
    tiny_font(40, 0x41, 0x5A, 3)
}

#[test]
fn byte_offsets_follow_utf8_widths() {
    let chars: Vec<char> = "a\u{e9}\u{20ac}\u{1F600}".chars().collect();
    assert_eq!(byte_positions(&chars), vec![0, 1, 3, 6, 10]);
    assert!(char_is_control('\u{7}'));
    assert!(char_is_control('\u{85}'));
    assert!(!char_is_control(' '));
    assert!(char_is_ws(' ') && char_is_ws('\u{3000}') && char_is_ws('\n'));
    assert!(!char_is_ws('a') && !char_is_ws('\u{200B}'));
    assert_eq!(lang_of(RtlScript::Arabic), "ar");
    assert_eq!(lang_of(RtlScript::Other), "");
}

#[test]
fn shapes_left_to_right_in_font_units() {
    let mut reg = FontRegistry::new();
    let h = reg.load_font(tiny_font(40, 0x41, 0x5A, 3));
    let g = shape_text_int(&reg, h, "AB", 1);
    assert_eq!(g.len(), 2);
    assert_eq!((g[0].glyph_id, g[0].cluster, g[0].char_code, g[0].font_handle), (3, 0, 0x41, h));
    assert_eq!((g[1].glyph_id, g[1].cluster, g[1].char_code, g[1].units_font), (4, 1, 0x42, h));
    // Forced right-to-left: the shaper gives the glyphs in visual order.
    let r = shape_text_int(&reg, h, "AB", 2);
    assert_eq!(r.len(), 2);
    assert_eq!((r[0].glyph_id, r[0].cluster), (4, 1));
    assert_eq!((r[1].glyph_id, r[1].cluster), (3, 0));
    // An unknown font shapes nothing.
    assert!(shape_text_int(&reg, 99, "AB", 1).is_empty());
}

#[test]
fn pieces_take_the_font_each_character_resolves_to() {
    let mut reg = FontRegistry::new();
    let upper = reg.load_font(tiny_font(40, 0x41, 0x5A, 3));
    let lower = reg.load_font(tiny_font(40, 0x61, 0x7A, 5));
    assert_eq!(reg.add_fallback(upper, lower), Ok(()));
    let g = shape_text_int(&reg, upper, "Ab", 1);
    assert_eq!(g.len(), 2);
    assert_eq!((g[0].font_handle, g[0].glyph_id), (upper, 3));
    assert_eq!((g[1].font_handle, g[1].glyph_id, g[1].units_font), (lower, 6, lower));
    assert_eq!((g[1].cluster, g[1].char_code), (1, 0x62));
}

#[test]
fn notdef_glyphs_resolve_through_the_chain() {
    let mut reg = FontRegistry::new();
    let notdef = reg.load_font(tiny_font(40, 0x41, 0x41, 0));
    let upper = reg.load_font(tiny_font(40, 0x41, 0x5A, 3));
    assert_eq!(reg.add_fallback(notdef, upper), Ok(()));
    let chars: Vec<char> = "xA".chars().collect();
    let pos = byte_positions(&chars);
    let raw = [(0u32, 0u32, 1i32, 2i32, 3i32, 4i32), (7, 0, 0, 0, 0, 0)];
    let g = resolve_shaped_glyphs(&reg, notdef, &chars, &pos, 1, notdef, &raw);
    assert_eq!(
        g[0],
        ShapedGlyphInt {
            font_handle: upper,
            glyph_id: 3,
            x_offset: 1,
            y_offset: 2,
            x_advance: 3,
            y_advance: 4,
            units_font: notdef,
            advance_font: notdef,
            cluster: 1,
            char_code: 0x41,
        }
    );
    // A glyph other than .notdef is kept in the piece's font.
    assert_eq!((g[1].font_handle, g[1].glyph_id), (notdef, 7));
}
