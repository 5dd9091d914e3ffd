use rusty_sdf::render::{
    clear_render_buffer, get_render_bytes_per_pixel, get_render_mode, invalidate_ttf_face_cache,
    render_extent, render_preflight, set_render_buffer, set_render_mode, set_render_params,
    FreedFaces, RenderError, RenderMode, RenderState,
};

#[test]
fn mode_numbers() {
    let mut s = RenderState::new();
    assert_eq!(get_render_mode(&s), 0);
    assert!(set_render_mode(&mut s, 3));
    assert_eq!(s.mode, RenderMode::Mtsdf);
    assert_eq!(get_render_mode(&s), 3);
    assert!(!set_render_mode(&mut s, 4));
    assert_eq!(s.mode, RenderMode::Mtsdf);
    assert_eq!(get_render_bytes_per_pixel(&s), 4);
    assert_eq!(RenderMode::from_u32(1), Some(RenderMode::Psdf));
    assert_eq!(RenderMode::Msdf.number(), 2);
}

#[test]
fn buffer_and_params() {
    let mut s = RenderState::new();
    set_render_buffer(&mut s, 0x1000, 32, 16);
    set_render_params(&mut s, 4, 8);
    assert_eq!((s.buffer.addr, s.buffer.width, s.buffer.height), (0x1000, 32, 16));
    assert_eq!((s.params.padding, s.params.spread), (4, 8));
    clear_render_buffer(&mut s);
    assert_eq!((s.buffer.addr, s.buffer.width, s.buffer.height), (0, 0, 0));
    assert_eq!(s.params.padding, 4);
}

#[test]
fn preflight_errors_in_order() {
    let mut s = RenderState::new();
    assert_eq!(render_preflight(&s, 1).unwrap_err(), RenderError::BufferNotSet);
    set_render_buffer(&mut s, 8, 0, 5);
    assert_eq!(render_preflight(&s, 1).unwrap_err(), RenderError::ZeroDimensions);
    set_render_buffer(&mut s, 8, 5, 5);
    assert_eq!(render_preflight(&s, 70000).unwrap_err(), RenderError::GlyphIdOutOfRange);
    let job = render_preflight(&s, 65535).unwrap();
    assert_eq!(job.glyph, 65535);
    assert_eq!(job.total_bytes, 100);
    assert_eq!(RenderError::ZeroDimensions.message(), "zero buffer dimensions");
}

#[test]
fn extents_clip_to_the_buffer() {
    assert_eq!(render_extent(10, 2, 100), 14);
    assert_eq!(render_extent(10, 2, 12), 12);
    assert_eq!(render_extent(0, 0, 0), 1);
}

#[test]
fn freed_faces() {
    let mut f = FreedFaces::new();
    assert!(!f.is_freed(3));
    invalidate_ttf_face_cache(&mut f, 3);
    assert!(f.is_freed(3));
    assert!(!f.is_freed(4));
}
