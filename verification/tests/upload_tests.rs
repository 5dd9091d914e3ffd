use rusty_sdf::upload::{
    poll_glyph_pixels, poll_glyph_pixels_strided, rusty_sdf_ping, PixelResult, UploadError,
};

fn glyph(w: u32, h: u32) -> Option<PixelResult> {
    let pixels: Vec<u8> = (0..(w * h * 4)).map(|i| (i + 1) as u8).collect();
    Some(PixelResult { width: w, height: h, pixels })
}

#[test]
fn ping_names_the_library() {
    assert_eq!(rusty_sdf_ping(), "RustySDF v0.1.0");
}

#[test]
fn plain_poll_copies_what_fits() {
    let mut slot = glyph(1, 2);
    let mut dst = vec![0u8; 5];
    assert_eq!(poll_glyph_pixels(&mut slot, &mut dst), Ok(5));
    assert_eq!(dst, vec![1, 2, 3, 4, 5]);
    assert!(slot.is_none());
    assert_eq!(poll_glyph_pixels(&mut slot, &mut dst), Err(UploadError::NoResult));
    let mut empty: Vec<u8> = Vec::new();
    let mut held = glyph(1, 1);
    assert_eq!(poll_glyph_pixels(&mut held, &mut empty), Err(UploadError::EmptyDestination));
    assert!(held.is_some());
}

#[test]
fn strided_poll_lays_rows_out() {
    let mut slot = glyph(1, 2);
    let mut dst = vec![9u8; 2 * 2 * 4 + 3];
    assert_eq!(poll_glyph_pixels_strided(&mut slot, &mut dst, 2, 2), Ok(16));
    assert_eq!(
        dst,
        vec![1, 2, 3, 4, 0, 0, 0, 0, 5, 6, 7, 8, 0, 0, 0, 0, 9, 9, 9]
    );
    assert!(slot.is_none());
}

#[test]
fn strided_poll_refusals() {
    let mut dst = vec![0u8; 16];
    let mut slot = glyph(3, 1);
    assert_eq!(
        poll_glyph_pixels_strided(&mut slot, &mut dst, 2, 2),
        Err(UploadError::GlyphTooLarge)
    );
    assert!(slot.is_some());
    assert_eq!(UploadError::GlyphTooLarge.code(), -2);
    assert_eq!(
        poll_glyph_pixels_strided(&mut slot, &mut dst, 3, 3),
        Err(UploadError::BufferTooSmall)
    );
    assert_eq!(
        poll_glyph_pixels_strided(&mut slot, &mut dst, 0, 3),
        Err(UploadError::BufferTooSmall)
    );
    let mut none: Option<PixelResult> = None;
    assert_eq!(poll_glyph_pixels_strided(&mut none, &mut dst, 2, 2), Err(UploadError::NoResult));
    let mut short = Some(PixelResult { width: 2, height: 2, pixels: vec![1, 2, 3] });
    assert_eq!(
        poll_glyph_pixels_strided(&mut short, &mut dst, 2, 2),
        Err(UploadError::ShortPixels)
    );
    assert!(short.is_none());
    let mut blank = Some(PixelResult { width: 0, height: 2, pixels: vec![] });
    let mut d2 = vec![5u8; 16];
    assert_eq!(poll_glyph_pixels_strided(&mut blank, &mut d2, 2, 2), Ok(0));
    assert_eq!(d2, vec![0u8; 16]);
}
