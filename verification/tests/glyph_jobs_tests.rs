use rusty_sdf::atlas::AtlasEntry;
use rusty_sdf::glyph_jobs::{async_tile, ensure_step, AsyncTile, EnsureStep};

fn entry(pending: bool) -> AtlasEntry {
    AtlasEntry {
        page_index: 0,
        atlas_x: 1,
        atlas_y: 2,
        w: 3,
        h: 4,
        raw_w: 3,
        raw_h: 4,
        x_min_bits: 0,
        y_max_bits: 0,
        async_pending: pending,
    }
}

#[test]
fn ensure_steps() {
    assert_eq!(ensure_step(Some(entry(false)), true, 4, 8), EnsureStep::Ready(entry(false)));
    assert_eq!(ensure_step(Some(entry(true)), false, 4, 8), EnsureStep::Pending);
    assert_eq!(ensure_step(None, true, 4, 8), EnsureStep::RequestAsync { padding: 9, spread: 8 });
    assert_eq!(ensure_step(None, true, 12, 8), EnsureStep::RequestAsync { padding: 12, spread: 8 });
    assert_eq!(ensure_step(None, false, 4, 8), EnsureStep::RenderSync);
}

#[test]
fn async_tiles() {
    assert_eq!(
        async_tile(5, 6, 2),
        Some(AsyncTile { raw_w: 9, raw_h: 10, align_w: 12, align_h: 12, buf_size: 576 })
    );
    assert_eq!(async_tile(8, 4, 0).unwrap().align_w, 8);
    assert_eq!(async_tile(0, 4, 2), None);
}
