//! Deciding how a glyph gets into the atlas (already there, waiting for a
//! worker, to be requested from a worker, or to be rendered now), and the
//! tile a worker renders a glyph into.

use vstd::prelude::*;
use crate::atlas::{AtlasEntry, sat_add};

verus! {

/// What to do for a glyph a layout needs.
#[derive(Debug, Clone, Copy, PartialEq, Eq, Structural)]
pub enum EnsureStep {
    /// The glyph is in the atlas.
    Ready(AtlasEntry),
    /// A worker is still rendering it.
    Pending,
    /// Ask a worker to render it with this padding and spread, and mark it
    /// as waiting.
    RequestAsync { padding: u32, spread: u32 },
    /// Render it now and pack it.
    RenderSync,
}

/// The next step for a glyph, given what the atlas holds for it, whether
/// workers may be used, the atlas padding and the rounded spread. A worker
/// renders with the atlas padding, or one more than the spread when that
/// is larger.
pub fn ensure_step(entry: Option<AtlasEntry>, async_enabled: bool, atlas_padding: u32, spread: u32) -> (s:
    EnsureStep)
    ensures
        s == (match entry {
            Some(e) => if e.async_pending {
                EnsureStep::Pending
            } else {
                EnsureStep::Ready(e)
            },
            None => if async_enabled {
                EnsureStep::RequestAsync {
                    padding: if atlas_padding >= sat_add(spread, 1) {
                        atlas_padding
                    } else {
                        sat_add(spread, 1)
                    },
                    spread,
                }
            } else {
                EnsureStep::RenderSync
            },
        }),
{
    match entry {
        Some(e) => {
            if e.async_pending {
                EnsureStep::Pending
            } else {
                EnsureStep::Ready(e)
            }
        },
        None => {
            if async_enabled {
                let t = if spread == u32::MAX { u32::MAX } else { spread + 1 };
                let padding = if atlas_padding >= t { atlas_padding } else { t };
                EnsureStep::RequestAsync { padding, spread }
            } else {
                EnsureStep::RenderSync
            }
        },
    }
}

/// The tile of an asynchronously rendered glyph: the glyph plus padding on
/// every side, rounded up to multiples of 4, and the bytes of its RGBA
/// pixels.
#[derive(Debug, Clone, Copy, PartialEq, Eq, Structural)]
pub struct AsyncTile {
    pub raw_w: u32,
    pub raw_h: u32,
    pub align_w: u32,
    pub align_h: u32,
    pub buf_size: usize,
}

/// `v` rounded up to a multiple of 4.
pub open spec fn round_up4(v: int) -> int {
    v + (4 - v % 4) % 4
}

/// The tile for a `gw` by `gh` glyph with `padding`; `None` for a glyph
/// without pixels (the worker then returns an empty result).
pub fn async_tile(gw: u32, gh: u32, padding: u32) -> (r: Option<AsyncTile>)
    requires
        gw == 0 || gh == 0 || round_up4(gw + 2 * padding) * round_up4(gh + 2 * padding) * 4
            <= u32::MAX,
        gw == 0 || gh == 0 || round_up4(gw + 2 * padding) <= u32::MAX,
        gw == 0 || gh == 0 || round_up4(gh + 2 * padding) <= u32::MAX,
    ensures
        gw == 0 || gh == 0 <==> r is None,
        r matches Some(t) ==> {
            &&& t.raw_w == gw + 2 * padding
            &&& t.raw_h == gh + 2 * padding
            &&& t.align_w == round_up4(t.raw_w as int)
            &&& t.align_h == round_up4(t.raw_h as int)
            &&& t.buf_size == t.align_w * t.align_h * 4
        },
{
    if gw == 0 || gh == 0 {
        return None;
    }
    let raw_w = gw + padding * 2;
    let raw_h = gh + padding * 2;
    let align_w = raw_w + ((4 - (raw_w % 4)) % 4);
    let align_h = raw_h + ((4 - (raw_h % 4)) % 4);
    assert(align_w * align_h <= align_w * align_h * 4) by (nonlinear_arith);
    let buf = align_w * align_h * 4;
    Some(AsyncTile { raw_w, raw_h, align_w, align_h, buf_size: buf as usize })
}

} // verus!
