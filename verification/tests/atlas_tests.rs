use rusty_sdf::atlas::{
    atlas_key, clear_pages, commit_glyph, ensure_glyph_sync, get_padding, get_version, init,
    lookup, mark_pending, page_count, poll_dirty_meta, poll_dirty_pixels, render_mode_from_u32,
    reset, AtlasState,
};
use rusty_sdf::render::RenderMode;

#[test]
fn default_atlas() {
    let a = AtlasState::default();
    assert_eq!(a.width, 1024);
    assert_eq!(a.height, 1024);
    assert_eq!(get_padding(&a), 4);
    assert_eq!(page_count(&a), 1);
    assert_eq!(get_version(&a), 0);
}

#[test]
fn key_packs_fields() {
    assert_eq!(atlas_key(1, 65, 32, 8), 8_589_934_592 + 65 * 131_072 + 32 * 256 + 8);
    assert_eq!(atlas_key(0, 0, 0, 0), 0);
    // Wraps modulo 2^64.
    assert_eq!(atlas_key(1u64 << 31, 0, 0, 0), 0);
}

#[test]
fn init_clamps_and_bumps_version() {
    let mut a = AtlasState::default();
    init(&mut a, 0, 0, 2);
    assert_eq!(a.width, 1);
    assert_eq!(a.height, 1);
    assert_eq!(get_padding(&a), 2);
    assert_eq!(get_version(&a), 1);
    assert_eq!(page_count(&a), 1);
}

#[test]
fn commit_then_lookup() {
    let mut a = AtlasState::default();
    init(&mut a, 64, 64, 0);
    let e = commit_glyph(&mut a, 1, 65, 32, 8, 10, 12, 8, 10, 3, 4).unwrap();
    assert_eq!((e.page_index, e.atlas_x, e.atlas_y, e.w, e.h), (0, 0, 0, 10, 12));
    assert_eq!((e.raw_w, e.raw_h, e.x_min_bits, e.y_max_bits), (8, 10, 3, 4));
    assert!(!e.async_pending);
    let found = lookup(&a, 1, 65, 32, 8).unwrap();
    assert_eq!(found, e);
    // The next tile goes to the right of the first, one pixel of gap apart.
    let e2 = commit_glyph(&mut a, 1, 66, 32, 8, 5, 5, 5, 5, 0, 0).unwrap();
    assert_eq!((e2.page_index, e2.atlas_x, e2.atlas_y), (0, 11, 0));
    assert_eq!(get_version(&a), 3);
    assert!(lookup(&a, 1, 67, 32, 8).is_none());
}

#[test]
fn full_shelf_opens_new_shelf_and_page() {
    let mut a = AtlasState::default();
    init(&mut a, 16, 16, 0);
    let e1 = commit_glyph(&mut a, 1, 1, 10, 0, 15, 7, 0, 0, 0, 0).unwrap();
    assert_eq!((e1.page_index, e1.atlas_x, e1.atlas_y), (0, 0, 0));
    let e2 = commit_glyph(&mut a, 1, 2, 10, 0, 15, 7, 0, 0, 0, 0).unwrap();
    assert_eq!((e2.page_index, e2.atlas_x, e2.atlas_y), (0, 0, 8));
    let e3 = commit_glyph(&mut a, 1, 3, 10, 0, 15, 7, 0, 0, 0, 0).unwrap();
    assert_eq!((e3.page_index, e3.atlas_x, e3.atlas_y), (1, 0, 0));
    assert_eq!(page_count(&a), 2);
}

#[test]
fn oversized_or_empty_glyph_gets_empty_entry() {
    let mut a = AtlasState::default();
    init(&mut a, 8, 8, 0);
    let e = commit_glyph(&mut a, 1, 1, 10, 0, 9, 2, 9, 2, 0, 0).unwrap();
    assert_eq!((e.w, e.h), (0, 0));
    let z = commit_glyph(&mut a, 1, 2, 10, 0, 0, 2, 0, 2, 0, 0).unwrap();
    assert_eq!((z.w, z.h), (0, 0));
    assert!(lookup(&a, 1, 1, 10, 0).is_some());
}

#[test]
fn pending_marks() {
    let mut a = AtlasState::default();
    assert!(mark_pending(&mut a, 2, 3, 48, 8));
    let e = lookup(&a, 2, 3, 48, 8).unwrap();
    assert!(e.async_pending);
    assert_eq!((e.w, e.h), (0, 0));
    // Already cached: not newly marked, nothing changes.
    assert!(!mark_pending(&mut a, 2, 3, 48, 8));
    assert!(lookup(&a, 2, 3, 48, 8).unwrap().async_pending);
    commit_glyph(&mut a, 2, 3, 48, 8, 4, 4, 4, 4, 0, 0);
    assert!(!mark_pending(&mut a, 2, 3, 48, 8));
}

#[test]
fn reset_and_clear_forget_glyphs() {
    let mut a = AtlasState::default();
    commit_glyph(&mut a, 1, 1, 10, 0, 4, 4, 4, 4, 0, 0);
    reset(&mut a);
    assert!(lookup(&a, 1, 1, 10, 0).is_none());
    assert_eq!(page_count(&a), 1);
    commit_glyph(&mut a, 1, 1, 10, 0, 4, 4, 4, 4, 0, 0);
    let v = get_version(&a);
    clear_pages(&mut a);
    assert!(lookup(&a, 1, 1, 10, 0).is_none());
    assert_eq!(get_version(&a), v + 1);
}

#[test]
fn sync_ensure_packs_and_queues_upload() {
    let mut a = AtlasState::default();
    init(&mut a, 256, 256, 2);
    // Padding is max(atlas padding, spread + 1) = 5; raw sides 5 + 10 and
    // 6 + 10, both rounded up to 16.
    let code = ensure_glyph_sync(
        &mut a,
        3,
        40,
        32,
        4,
        || Some((5u32, 6u32, 7u64, 9u64)),
        |pad: u32, w: u32, h: u32| {
            assert_eq!(pad, 5);
            assert_eq!((w, h), (16, 16));
            Some(vec![7u8; (w * h * 4) as usize])
        },
    );
    assert_eq!(code, 2);
    let e = lookup(&a, 3, 40, 32, 4).unwrap();
    assert_eq!((e.w, e.h, e.raw_w, e.raw_h), (16, 16, 15, 16));
    assert_eq!((e.x_min_bits, e.y_max_bits), (7, 9));
    // Already there: nothing to do.
    let again = ensure_glyph_sync(&mut a, 3, 40, 32, 4, || None, |_p: u32, _w: u32, _h: u32| None);
    assert_eq!(again, 1);
    let meta = poll_dirty_meta(&mut a).unwrap();
    assert_eq!(meta, (0, 0, 0, 16, 16));
    let mut dst = vec![0u8; 10];
    assert_eq!(poll_dirty_pixels(&mut a, &mut dst), Some(10));
    assert_eq!(dst, vec![7u8; 10]);
    assert_eq!(poll_dirty_pixels(&mut a, &mut dst), None);
    assert!(poll_dirty_meta(&mut a).is_none());
}

#[test]
fn sync_ensure_failures() {
    let mut a = AtlasState::default();
    let code = ensure_glyph_sync(&mut a, 1, 2, 10, 1, || None, |_p: u32, _w: u32, _h: u32| None);
    assert_eq!(code, -1);
    let empty = ensure_glyph_sync(
        &mut a,
        1,
        3,
        10,
        1,
        || Some((0u32, 0u32, 0u64, 0u64)),
        |_p: u32, _w: u32, _h: u32| None,
    );
    assert_eq!(empty, 0);
    assert!(lookup(&a, 1, 3, 10, 1).is_some());
    let failed = ensure_glyph_sync(
        &mut a,
        1,
        4,
        10,
        1,
        || Some((3u32, 3u32, 0u64, 0u64)),
        |_p: u32, _w: u32, _h: u32| None,
    );
    assert_eq!(failed, -1);
}

#[test]
fn render_modes_by_number() {
    assert_eq!(render_mode_from_u32(0), Some(RenderMode::Sdf));
    assert_eq!(render_mode_from_u32(1), Some(RenderMode::Psdf));
    assert_eq!(render_mode_from_u32(2), Some(RenderMode::Msdf));
    assert_eq!(render_mode_from_u32(3), Some(RenderMode::Mtsdf));
    assert_eq!(render_mode_from_u32(4), None);
}

#[test]
fn committed_tiles_never_overlap() {
    let mut a = AtlasState::default();
    init(&mut a, 32, 32, 0);
    let mut tiles = Vec::new();
    for g in 0..20u32 {
        let e = commit_glyph(&mut a, 1, g, 10, 0, 3 + g % 5, 2 + g % 7, 0, 0, 0, 0).unwrap();
        tiles.push(e);
    }
    for i in 0..tiles.len() {
        for j in (i + 1)..tiles.len() {
            let (p, q) = (tiles[i], tiles[j]);
            if p.w == 0 || q.w == 0 {
                continue;
            }
            let apart = p.page_index != q.page_index
                || p.atlas_x + p.w <= q.atlas_x
                || q.atlas_x + q.w <= p.atlas_x
                || p.atlas_y + p.h <= q.atlas_y
                || q.atlas_y + q.h <= p.atlas_y;
            assert!(apart, "tiles {} and {} overlap", i, j);
            assert!(p.atlas_x + p.w <= 32 && p.atlas_y + p.h <= 32);
        }
    }
}

#[test]
fn uploads_come_out_in_queue_order_and_versions_count_bumps() {
    let mut a = AtlasState::default();
    init(&mut a, 256, 256, 0);
    let v = get_version(&a);
    let first = ensure_glyph_sync(
        &mut a,
        1,
        1,
        10,
        0,
        || Some((2u32, 2u32, 0u64, 0u64)),
        |_p: u32, w: u32, h: u32| Some(vec![1u8; (w * h * 4) as usize]),
    );
    let second = ensure_glyph_sync(
        &mut a,
        1,
        2,
        10,
        0,
        || Some((3u32, 3u32, 0u64, 0u64)),
        |_p: u32, w: u32, h: u32| Some(vec![2u8; (w * h * 4) as usize]),
    );
    assert_eq!((first, second), (2, 2));
    let e1 = lookup(&a, 1, 1, 10, 0).unwrap();
    let e2 = lookup(&a, 1, 2, 10, 0).unwrap();
    assert_eq!(poll_dirty_meta(&mut a), Some((e1.page_index, e1.atlas_x, e1.atlas_y, e1.w, e1.h)));
    assert_eq!(poll_dirty_meta(&mut a), Some((e2.page_index, e2.atlas_x, e2.atlas_y, e2.w, e2.h)));
    assert_eq!(poll_dirty_meta(&mut a), None);
    // Syncs, lookups and polls keep the version; a commit and a clear bump it.
    assert_eq!(get_version(&a), v);
    commit_glyph(&mut a, 1, 3, 10, 0, 4, 4, 4, 4, 0, 0);
    clear_pages(&mut a);
    assert_eq!(get_version(&a), v + 2);
}
