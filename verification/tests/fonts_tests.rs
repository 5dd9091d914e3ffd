use rusty_sdf::fonts::{pick_first_glyph, FontError, FontRegistry, ResolvedGlyph};
use rusty_sdf::render::{resolve_render_char, RenderError};

fn be16(v: &mut Vec<u8>, x: u16) {
    v.extend_from_slice(&x.to_be_bytes());
}

fn be32(v: &mut Vec<u8>, x: u32) {
    v.extend_from_slice(&x.to_be_bytes());
}

/// A minimal TrueType font: `head`, `hhea`, `maxp` with `glyphs` glyphs,
/// and a `cmap` mapping `first..=last` to glyphs from `first_glyph` on.
fn tiny_font(glyphs: u16, first: u32, last: u32, first_glyph: u32) -> Vec<u8> {
    let mut cmap = Vec::new();
    be16(&mut cmap, 0);
    be16(&mut cmap, 1);
    be16(&mut cmap, 0);
    be16(&mut cmap, 4);
    be32(&mut cmap, 12);
    be16(&mut cmap, 12);
    be16(&mut cmap, 0);
    be32(&mut cmap, 28);
    be32(&mut cmap, 0);
    be32(&mut cmap, 1);
    be32(&mut cmap, first);
    be32(&mut cmap, last);
    be32(&mut cmap, first_glyph);
    let mut head = Vec::new();
    be32(&mut head, 0x0001_0000);
    be32(&mut head, 0x0001_0000);
    be32(&mut head, 0);
    be32(&mut head, 0x5F0F_3CF5);
    be16(&mut head, 0);
    be16(&mut head, 1000);
    head.extend_from_slice(&[0u8; 16]);
    head.extend_from_slice(&[0u8; 8]);
    be16(&mut head, 0);
    be16(&mut head, 8);
    be16(&mut head, 2);
    be16(&mut head, 0);
    be16(&mut head, 0);
    let mut hhea = Vec::new();
    be32(&mut hhea, 0x0001_0000);
    be16(&mut hhea, 800);
    be16(&mut hhea, 0xFF38);
    be16(&mut hhea, 0);
    hhea.extend_from_slice(&[0u8; 24]);
    be16(&mut hhea, 1);
    let mut maxp = Vec::new();
    be32(&mut maxp, 0x0000_5000);
    be16(&mut maxp, glyphs);
    let tables: [(&[u8; 4], Vec<u8>); 4] =
        [(b"cmap", cmap), (b"head", head), (b"hhea", hhea), (b"maxp", maxp)];
    let mut font = Vec::new();
    be32(&mut font, 0x0001_0000);
    be16(&mut font, 4);
    be16(&mut font, 64);
    be16(&mut font, 2);
    be16(&mut font, 0);
    let mut offset = 12 + 16 * tables.len() as u32;
    for (tag, data) in tables.iter() {
        font.extend_from_slice(&tag[..]);
        be32(&mut font, 0);
        be32(&mut font, offset);
        be32(&mut font, data.len() as u32);
        offset += data.len() as u32;
    }
    for (_, data) in tables.iter() {
        font.extend_from_slice(data);
    }
    font
}

fn sample_font() -> Vec<u8> {
    tiny_font(40, 0x41, 0x5A, 3)
}

#[test]
fn garbage_is_not_a_font() {
    let mut reg = FontRegistry::new();
    assert_eq!(reg.load_font(vec![1, 2, 3]), 0);
    assert!(reg.get_font(1).is_none());
    assert_eq!(reg.get_font_glyph_count(1), None);
}

#[test]
fn load_free_and_handles_are_not_reused() {
    let data = sample_font();
    let mut reg = FontRegistry::new();
    let h1 = reg.load_font(data.clone());
    assert_eq!(h1, 1);
    let h2 = reg.load_font(data.clone());
    assert_eq!(h2, 2);
    assert_eq!(reg.get_font(h1).unwrap().font_data.len(), data.len());
    assert!(reg.get_font_glyph_count(h1).unwrap() > 0);
    assert!(reg.free_font(h1));
    assert!(!reg.free_font(h1));
    assert!(reg.get_font(h1).is_none());
    let h3 = reg.load_font(data);
    assert_eq!(h3, 3);
}

#[test]
fn fallback_errors_in_order() {
    let data = sample_font();
    let mut reg = FontRegistry::new();
    let h = reg.load_font(data);
    assert_eq!(reg.add_fallback(h, 99), Err(FontError::InvalidFallback));
    assert_eq!(reg.add_fallback(99, h), Err(FontError::InvalidFont));
    assert_eq!(reg.add_fallback(99, 98), Err(FontError::InvalidFallback));
    assert_eq!(reg.add_fallback(h, h), Ok(()));
    assert_eq!(reg.get_font(h).unwrap().fallbacks, vec![h]);
    assert_eq!(FontError::InvalidFont.message(), "invalid font handle");
}

#[test]
fn resolve_through_fallbacks() {
    let data = sample_font();
    let mut reg = FontRegistry::new();
    let h = reg.load_font(data);
    // A fallback that has 'a' where the primary font has nothing, and a
    // font whose 'A' is .notdef.
    let lower = reg.load_font(tiny_font(40, 0x61, 0x7A, 5));
    let notdef = reg.load_font(tiny_font(40, 0x41, 0x41, 0));
    assert_eq!(reg.add_fallback(notdef, lower), Ok(()));
    assert_eq!(reg.add_fallback(notdef, h), Ok(()));
    assert_eq!(
        reg.resolve_char_with_fallback(notdef, 'A'),
        Some(ResolvedGlyph { font_handle: h, glyph_id: 3 })
    );
    assert_eq!(
        reg.resolve_char_with_fallback(notdef, 'b'),
        Some(ResolvedGlyph { font_handle: lower, glyph_id: 6 })
    );
    assert!(reg.free_font(lower));
    assert_eq!(reg.resolve_char_with_fallback(notdef, 'b'), None);
    let a = reg.resolve_char_with_fallback(h, 'A').unwrap();
    assert_eq!(a.font_handle, h);
    assert_eq!(a.glyph_id, 3);
    assert_eq!(reg.get_font_glyph_count(h), Some(40));
    // A character the font lacks is not found (.notdef is skipped).
    assert_eq!(reg.resolve_char_with_fallback(h, '\u{10FFFD}'), None);
    assert_eq!(reg.resolve_char_with_fallback(77, 'A'), None);
    assert_eq!(resolve_render_char(&reg, h, 0x41), Ok(a));
    assert_eq!(resolve_render_char(&reg, h, 0xD800), Err(RenderError::InvalidCharCode));
    assert_eq!(resolve_render_char(&reg, h, 0x10FFFD), Err(RenderError::GlyphNotFound));
}

#[test]
fn first_glyph_skips_missing_and_notdef() {
    let chain = [5u64, 6, 7, 8];
    assert_eq!(
        pick_first_glyph(&chain, &[None, Some(0), Some(12), Some(3)]),
        Some(ResolvedGlyph { font_handle: 7, glyph_id: 12 })
    );
    assert_eq!(pick_first_glyph(&chain, &[None, Some(0), None, None]), None);
    assert_eq!(pick_first_glyph(&chain, &[]), None);
}

#[test]
fn glyph_boxes_and_text_metrics_read_the_face() {
    let mut reg = FontRegistry::new();
    let h = reg.load_font(sample_font());
    // The sample font has no outlines and no horizontal metrics.
    assert_eq!(reg.glyph_box(h, 3), Some((None, 1000)));
    assert_eq!(reg.glyph_box(h, 70000), None);
    assert_eq!(reg.glyph_box(99, 3), None);
    let (advances, ascender, descender, units_per_em) = reg.text_metrics(h, "AB").unwrap();
    assert_eq!(advances, vec![None, None]);
    assert_eq!((ascender, descender, units_per_em), (800, -200, 1000));
    assert!(reg.text_metrics(99, "AB").is_none());
    assert_eq!(reg.hor_advance(h, 3), None);
    assert_eq!(reg.units_per_em(h), Some(1000));
    assert_eq!(reg.units_per_em(99), None);
}
