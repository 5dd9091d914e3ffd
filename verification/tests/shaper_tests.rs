use rusty_sdf::shaper::{
    invalidate_face_cache, plan_runs, rtl_script, set_bidi_mode, split_font_runs, text_needs_bidi,
    FontRun, RtlScript, RunPlan, ShapeCache, ShapeCacheKey, ShapeRegistry, ShaperSettings,
    SHAPE_CACHE_MAX_ENTRIES, SHAPE_CACHE_MAX_GLYPHS,
};

fn key(font: u64, text: &str) -> ShapeCacheKey {
    ShapeCacheKey { font_handle: font, size_bits: 32f64.to_bits(), bidi_mode: 0, text: text.to_string() }
}

#[test]
fn bidi_detection() {
    assert!(!text_needs_bidi("hello"));
    assert!(text_needs_bidi("abc \u{05D0}"));
    assert!(text_needs_bidi("\u{0627}"));
    assert!(text_needs_bidi("\u{FB1D}"));
    assert!(!text_needs_bidi(""));
}

#[test]
fn run_plans() {
    assert_eq!(plan_runs(0, "abc"), RunPlan::Single { rtl: false });
    assert_eq!(plan_runs(0, "\u{05D0}"), RunPlan::Bidi);
    assert_eq!(plan_runs(1, "\u{05D0}"), RunPlan::Single { rtl: false });
    assert_eq!(plan_runs(2, "abc"), RunPlan::Single { rtl: true });
    let mut s = ShaperSettings::new();
    assert_eq!(s.bidi_mode, 0);
    set_bidi_mode(&mut s, 2);
    assert_eq!(s.bidi_mode, 2);
}

#[test]
fn rtl_scripts() {
    assert_eq!(rtl_script("ab\u{0627}"), RtlScript::Arabic);
    assert_eq!(rtl_script("\u{05D0}\u{0627}"), RtlScript::Hebrew);
    assert_eq!(rtl_script("abc"), RtlScript::Other);
}

#[test]
fn font_runs_follow_resolved_fonts() {
    // "ab c" with 'c' from font 9: the space stays with the font before it.
    let runs = split_font_runs(&[Some(1), Some(1), None, Some(9)], &[0, 1, 2, 3], 1, 4);
    assert_eq!(
        runs,
        vec![FontRun { font: 1, start: 0, end: 3 }, FontRun { font: 9, start: 3, end: 4 }]
    );
    // A leading unresolved character takes the base font.
    let lead = split_font_runs(&[None, Some(4)], &[0, 2], 7, 5);
    assert_eq!(lead, vec![FontRun { font: 7, start: 0, end: 2 }, FontRun { font: 4, start: 2, end: 5 }]);
    assert!(split_font_runs(&[], &[], 1, 0).is_empty());
}

#[test]
fn cache_hit_moves_to_back() {
    let mut c: ShapeCache<u32> = ShapeCache::new();
    c.insert(key(1, "a"), 10, 1);
    c.insert(key(1, "b"), 20, 1);
    assert_eq!(c.get(&key(1, "a")), Some(&10));
    assert_eq!(c.get(&key(2, "a")), None);
    assert_eq!(c.len(), 2);
    assert_eq!(c.total_glyphs(), 2);
}

#[test]
fn cache_replaces_same_key() {
    let mut c: ShapeCache<u32> = ShapeCache::new();
    c.insert(key(1, "a"), 10, 5);
    c.insert(key(1, "a"), 11, 7);
    assert_eq!(c.len(), 1);
    assert_eq!(c.total_glyphs(), 7);
    assert_eq!(c.get(&key(1, "a")), Some(&11));
}

#[test]
fn cache_evicts_oldest_by_count() {
    let mut c: ShapeCache<usize> = ShapeCache::new();
    for i in 0..(SHAPE_CACHE_MAX_ENTRIES + 3) {
        c.insert(key(1, &i.to_string()), i, 1);
    }
    assert_eq!(c.len(), SHAPE_CACHE_MAX_ENTRIES);
    assert_eq!(c.get(&key(1, "0")), None);
    assert_eq!(c.get(&key(1, "2")), None);
    assert_eq!(c.get(&key(1, "3")), Some(&3));
}

#[test]
fn cache_evicts_by_glyphs() {
    let mut c: ShapeCache<u32> = ShapeCache::new();
    c.insert(key(1, "a"), 1, SHAPE_CACHE_MAX_GLYPHS - 10);
    c.insert(key(1, "b"), 2, 20);
    assert_eq!(c.len(), 1);
    assert_eq!(c.get(&key(1, "b")), Some(&2));
    // A run larger than the whole bound does not stay either.
    c.insert(key(1, "huge"), 3, SHAPE_CACHE_MAX_GLYPHS + 1);
    assert_eq!(c.len(), 0);
    assert_eq!(c.total_glyphs(), 0);
}

#[test]
fn invalidate_drops_font_entries() {
    let mut c: ShapeCache<u32> = ShapeCache::new();
    c.insert(key(1, "a"), 1, 1);
    c.insert(key(2, "a"), 2, 2);
    c.insert(key(1, "b"), 3, 3);
    invalidate_face_cache(&mut c, 1);
    assert_eq!(c.len(), 1);
    assert_eq!(c.total_glyphs(), 2);
    assert_eq!(c.get(&key(2, "a")), Some(&2));
}

#[test]
fn shape_handles() {
    let mut r: ShapeRegistry<&str> = ShapeRegistry::new();
    let h = r.add_shape("x", 3);
    assert_eq!(h, 1);
    assert_eq!(r.get_shape_glyph_count(h), Some(3));
    assert_eq!(r.get_shape(h), Some(&"x"));
    assert!(r.free_shape(h));
    assert!(!r.free_shape(h));
    assert_eq!(r.get_shape_glyph_count(h), None);
    assert_eq!(r.add_shape("y", 0), 2);
}

#[test]
fn oversize_run_is_not_cached() {
    let mut c: ShapeCache<u32> = ShapeCache::new();
    c.insert(key(1, "a"), 1, 3);
    c.insert(key(1, "huge"), 2, SHAPE_CACHE_MAX_GLYPHS + 1);
    assert!(c.get(&key(1, "huge")).is_none());
    assert!(c.get(&key(1, "a")).is_none());
}
