//! Multi-page shelf-packed glyph atlas (CPU side).
//!
//! Glyph tiles are packed into pages of a fixed size. Each page holds
//! horizontal shelves; a tile goes into the first shelf (in page order)
//! that is tall enough and has room left on its right, and otherwise onto
//! a new shelf at the bottom of the last page, or onto a new page.

use vstd::prelude::*;
use std::collections::{HashMap, VecDeque};
use crate::render::{RenderMode, mode_of_number};

verus! {

broadcast use vstd::std_specs::hash::group_hash_axioms;

/// Where a glyph tile lives in the atlas.
///
/// `x_min_bits` and `y_max_bits` carry the glyph's horizontal bearing and
/// top edge (64-bit floating-point values) as raw bits: the atlas stores
/// them and hands them back unchanged.
#[derive(Clone, Copy, Debug, PartialEq, Eq, Structural)]
pub struct AtlasEntry {
    pub page_index: u32,
    pub atlas_x: u32,
    pub atlas_y: u32,
    pub w: u32,
    pub h: u32,
    pub raw_w: u32,
    pub raw_h: u32,
    pub x_min_bits: u64,
    pub y_max_bits: u64,
    pub async_pending: bool,
}

/// A freshly packed tile whose pixels still have to be uploaded.
#[derive(Clone, Debug)]
pub struct DirtyGlyph {
    pub page: u32,
    pub x: u32,
    pub y: u32,
    pub w: u32,
    pub h: u32,
    pub pixels: Vec<u8>,
}

/// A horizontal band of a page: tiles sit in `[0, x)` between `y` and `y + h`.
#[derive(Clone, Copy, Debug, PartialEq, Eq, Structural)]
pub struct Shelf {
    pub y: u32,
    pub h: u32,
    pub x: u32,
}

/// One atlas page.
#[derive(Clone, Debug)]
pub struct Page {
    pub shelves: Vec<Shelf>,
}

/// The whole atlas: page size, padding, pages, the glyph cache, a version
/// counter and the queue of tiles waiting for upload.
pub struct AtlasState {
    pub width: u32,
    pub height: u32,
    pub padding: u32,
    pub pages: Vec<Page>,
    pub cache: HashMap<u64, AtlasEntry>,
    pub version: u64,
    pub dirty: VecDeque<DirtyGlyph>,
    pub last_dirty: Option<DirtyGlyph>,
}

/// `a + b` clamped to the `u32` range.
pub open spec fn sat_add(a: u32, b: u32) -> u32 {
    if a + b > u32::MAX { u32::MAX } else { (a + b) as u32 }
}

/// `a - b` clamped at zero.
pub open spec fn sat_sub(a: u32, b: u32) -> u32 {
    if a >= b { (a - b) as u32 } else { 0 }
}

/// `v + 1` modulo 2^64.
pub open spec fn next_version(v: u64) -> u64 {
    if v == u64::MAX { 0 } else { (v + 1) as u64 }
}

/// The cache key of a glyph: font handle, glyph id, rounded base size and
/// rounded spread packed as `fh * 2^33 + gid * 2^17 + size * 2^8 + spread`
/// modulo 2^64.
pub open spec fn key_spec(font_handle: u64, glyph_id: u32, size: u64, spread: u64) -> u64 {
    ((font_handle * 8589934592 + glyph_id * 131072 + size * 256 + spread) % 18446744073709551616int) as u64
}

/// An entry that marks a glyph as known but without pixels in the atlas.
pub open spec fn empty_entry(pending: bool) -> AtlasEntry {
    AtlasEntry {
        page_index: 0,
        atlas_x: 0,
        atlas_y: 0,
        w: 0,
        h: 0,
        raw_w: 0,
        raw_h: 0,
        x_min_bits: 0,
        y_max_bits: 0,
        async_pending: pending,
    }
}

/// True when the entry occupies pixels of a page.
pub open spec fn is_placed(e: AtlasEntry) -> bool {
    e.w > 0 && e.h > 0
}

/// Two tiles share no pixel and keep the one-pixel gap the packer leaves
/// to the right of and below every tile: each tile, grown by one pixel to
/// the right and below, misses the other.
pub open spec fn tiles_apart(a: AtlasEntry, b: AtlasEntry) -> bool {
    ||| a.page_index != b.page_index
    ||| a.atlas_x + a.w + 1 <= b.atlas_x
    ||| b.atlas_x + b.w + 1 <= a.atlas_x
    ||| a.atlas_y + a.h + 1 <= b.atlas_y
    ||| b.atlas_y + b.h + 1 <= a.atlas_y
}

/// The tile `e`, grown by its one-pixel gap, misses the `w` by `h`
/// rectangle at `(x, y)` on page `p`.
pub open spec fn clear_of(e: AtlasEntry, p: u32, x: u32, y: u32, w: u32, h: u32) -> bool {
    ||| e.page_index != p
    ||| e.atlas_x + e.w + 1 <= x
    ||| x + w <= e.atlas_x
    ||| e.atlas_y + e.h + 1 <= y
    ||| y + h <= e.atlas_y
}

/// A `w` by `h` tile at `(x, y)` lies in the used part of the shelf.
pub open spec fn in_shelf(sh: Shelf, x: u32, y: u32, w: u32, h: u32) -> bool {
    &&& sh.y <= y
    &&& y + h <= sh.y + sh.h
    &&& x + w <= sh.x
}

/// A `w` by `h` tile at `(x, y)`, with its one-pixel gap to the right and
/// below, lies in the used part of the shelf.
pub open spec fn in_shelf_gap(sh: Shelf, x: u32, y: u32, w: u32, h: u32) -> bool {
    &&& sh.y <= y
    &&& y + h + 1 <= sh.y + sh.h
    &&& x + w + 1 <= sh.x
}

/// The shelf has room for a `pw` by `ph` tile.
pub open spec fn shelf_fits(width: u32, sh: Shelf, pw: u32, ph: u32) -> bool {
    sh.h >= ph && sat_sub(width, sh.x) >= pw
}

/// The first shelf, scanning pages in order and shelves within a page in
/// order from `(p, i)` on, that fits a `pw` by `ph` tile.
pub open spec fn find_fit(layout: Seq<Seq<Shelf>>, width: u32, pw: u32, ph: u32, p: int, i: int) -> Option<(int, int)>
    decreases layout.len() - p, (if 0 <= p < layout.len() { layout[p].len() - i } else { 0int }),
{
    if p < 0 || p >= layout.len() || i < 0 {
        None
    } else if i >= layout[p].len() {
        find_fit(layout, width, pw, ph, p + 1, 0)
    } else if shelf_fits(width, layout[p][i], pw, ph) {
        Some((p, i))
    } else {
        find_fit(layout, width, pw, ph, p, i + 1)
    }
}

/// The lowest free row under the shelves of a page.
pub open spec fn shelves_bottom(shelves: Seq<Shelf>) -> u32
    decreases shelves.len(),
{
    if shelves.len() == 0 {
        0
    } else {
        let rest = shelves_bottom(shelves.drop_last());
        let last = sat_add(shelves.last().y, shelves.last().h);
        if rest >= last { rest } else { last }
    }
}

/// The shelves of every page of `pages`.
pub open spec fn layout_of(pages: Seq<Page>) -> Seq<Seq<Shelf>> {
    pages.map_values(|pg: Page| pg.shelves@)
}

/// The shelves with one empty page added when there is no page at all.
pub open spec fn with_page(layout: Seq<Seq<Shelf>>) -> Seq<Seq<Shelf>> {
    if layout.len() == 0 { seq![Seq::<Shelf>::empty()] } else { layout }
}

/// Where a `pw` by `ph` tile goes: `(page, x, y)`, or `None` when it is
/// larger than a page.
pub open spec fn pack_spec(layout: Seq<Seq<Shelf>>, width: u32, height: u32, pw: u32, ph: u32) -> Option<(u32, u32, u32)> {
    if pw > width || ph > height {
        None
    } else {
        match find_fit(layout, width, pw, ph, 0, 0) {
            Some((p, i)) => Some((p as u32, layout[p][i].x, layout[p][i].y)),
            None => {
                let l0 = with_page(layout);
                let last = l0.len() - 1;
                let bottom = shelves_bottom(l0[last]);
                if sat_add(bottom, ph) > height {
                    Some((l0.len() as u32, 0u32, 0u32))
                } else {
                    Some((last as u32, 0u32, bottom))
                }
            },
        }
    }
}

/// The shelves after packing a `pw` by `ph` tile.
pub open spec fn pack_layout(layout: Seq<Seq<Shelf>>, width: u32, height: u32, pw: u32, ph: u32) -> Seq<Seq<Shelf>> {
    if pw > width || ph > height {
        layout
    } else {
        match find_fit(layout, width, pw, ph, 0, 0) {
            Some((p, i)) => {
                let sh = layout[p][i];
                layout.update(p, layout[p].update(i, Shelf { x: sat_add(sh.x, pw), ..sh }))
            },
            None => {
                let l0 = with_page(layout);
                let last = l0.len() - 1;
                let bottom = shelves_bottom(l0[last]);
                if sat_add(bottom, ph) > height {
                    l0.push(seq![Shelf { y: 0, h: ph, x: pw }])
                } else {
                    l0.update(last, l0[last].push(Shelf { y: bottom, h: ph, x: pw }))
                }
            },
        }
    }
}

/// The tile `e`, with its gap, lies in a shelf of its page.
pub open spec fn entry_in(layout: Seq<Seq<Shelf>>, e: AtlasEntry) -> bool {
    &&& e.page_index < layout.len()
    &&& exists|i: int|
        0 <= i < layout[e.page_index as int].len() && #[trigger] in_shelf_gap(
            layout[e.page_index as int][i],
            e.atlas_x,
            e.atlas_y,
            e.w,
            e.h,
        )
}

/// A `w` by `h` tile at `(x, y)` on page `p` lies in a shelf of that page.
pub open spec fn rect_in(layout: Seq<Seq<Shelf>>, p: u32, x: u32, y: u32, w: u32, h: u32) -> bool {
    &&& p < layout.len()
    &&& exists|i: int| 0 <= i < layout[p as int].len() && #[trigger] in_shelf(layout[p as int][i], x, y, w, h)
}

/// The packing invariant: every shelf lies within its page, the shelves of
/// a page do not overlap, every placed tile of the cache lies with its gap
/// in a shelf of its page, and any two placed tiles of the cache are apart.
pub open spec fn packing_inv(layout: Seq<Seq<Shelf>>, width: u32, height: u32, cache: Map<u64, AtlasEntry>) -> bool {
    &&& forall|p: int, i: int|
        #![trigger layout[p][i]]
        0 <= p < layout.len() && 0 <= i < layout[p].len() ==> {
            let sh = layout[p][i];
            sh.y + sh.h <= height && sh.x <= width
        }
    &&& forall|p: int, i: int, j: int|
        #![trigger layout[p][i], layout[p][j]]
        0 <= p < layout.len() && 0 <= i < layout[p].len() && 0 <= j < layout[p].len() && i != j
            ==> {
            let a = layout[p][i];
            let b = layout[p][j];
            a.y + a.h <= b.y || b.y + b.h <= a.y
        }
    &&& forall|k: u64|
        #![trigger cache[k]]
        cache.contains_key(k) && is_placed(cache[k]) ==> entry_in(layout, cache[k])
    &&& forall|k1: u64, k2: u64|
        #![trigger cache[k1], cache[k2]]
        cache.contains_key(k1) && cache.contains_key(k2) && k1 != k2 && is_placed(cache[k1])
            && is_placed(cache[k2]) ==> tiles_apart(cache[k1], cache[k2])
}

/// A `w` by `h` tile at `(x, y)` on page `p` is missed by every placed tile
/// of the cache grown by its gap.
pub open spec fn fresh_tile(cache: Map<u64, AtlasEntry>, p: u32, x: u32, y: u32, w: u32, h: u32) -> bool {
    forall|k: u64|
        #![trigger cache[k]]
        cache.contains_key(k) && is_placed(cache[k]) ==> clear_of(cache[k], p, x, y, w, h)
}

impl AtlasState {
    /// The shelves of every page.
    pub open spec fn layout(&self) -> Seq<Seq<Shelf>> {
        layout_of(self.pages@)
    }

    /// The packing invariant of this atlas (see `packing_inv`).
    pub open spec fn packing_ok(&self) -> bool {
        packing_inv(self.layout(), self.width, self.height, self.cache@)
    }
}

/// Every shelf ends at or above the bottom row computed for its page.
proof fn lemma_bottom_above(s: Seq<Shelf>)
    ensures
        forall|j: int| 0 <= j < s.len() ==> sat_add(#[trigger] s[j].y, s[j].h) <= shelves_bottom(s),
    decreases s.len(),
{
    if s.len() > 0 {
        lemma_bottom_above(s.drop_last());
        assert forall|j: int| 0 <= j < s.len() implies sat_add(#[trigger] s[j].y, s[j].h)
            <= shelves_bottom(s) by {
            if j < s.len() - 1 {
                assert(s[j] == s.drop_last()[j]);
            }
        }
    }
}

/// Moving a shelf's right end further right keeps the invariant and leaves
/// room for the new tile at its old right end.
proof fn lemma_place_in_shelf(
    l: Seq<Seq<Shelf>>,
    width: u32,
    height: u32,
    cache: Map<u64, AtlasEntry>,
    p: int,
    i: int,
    pw: u32,
    ph: u32,
)
    requires
        packing_inv(l, width, height, cache),
        l.len() < u32::MAX,
        0 <= p < l.len(),
        0 <= i < l[p].len(),
        shelf_fits(width, l[p][i], pw, ph),
    ensures
        ({
            let sh = l[p][i];
            let l2 = l.update(p, l[p].update(i, Shelf { x: sat_add(sh.x, pw), ..sh }));
            &&& packing_inv(l2, width, height, cache)
            &&& fresh_tile(cache, p as u32, sh.x, sh.y, pw, ph)
            &&& in_shelf(l2[p][i], sh.x, sh.y, pw, ph)
        }),
{
    let sh = l[p][i];
    let l2 = l.update(p, l[p].update(i, Shelf { x: sat_add(sh.x, pw), ..sh }));
    assert(sh.x <= width);
    assert forall|k: u64| #[trigger] cache.contains_key(k) && is_placed(cache[k]) implies entry_in(
        l2,
        cache[k],
    ) by {
        let e = cache[k];
        let j = choose|j: int|
            0 <= j < l[e.page_index as int].len() && #[trigger] in_shelf_gap(
                l[e.page_index as int][j],
                e.atlas_x,
                e.atlas_y,
                e.w,
                e.h,
            );
        assert(in_shelf_gap(l2[e.page_index as int][j], e.atlas_x, e.atlas_y, e.w, e.h));
    }
    assert forall|k: u64| #[trigger] cache.contains_key(k) && is_placed(cache[k]) implies clear_of(
        cache[k],
        p as u32,
        sh.x,
        sh.y,
        pw,
        ph,
    ) by {
        let e = cache[k];
        assert(entry_in(l, e));
        let j = choose|j: int|
            0 <= j < l[e.page_index as int].len() && #[trigger] in_shelf_gap(
                l[e.page_index as int][j],
                e.atlas_x,
                e.atlas_y,
                e.w,
                e.h,
            );
        if e.page_index as int == p && j != i {
            assert(l[p][i] == sh);
            let shj = l[p][j];
            assert(sh.y + sh.h <= shj.y || shj.y + shj.h <= sh.y);
        }
    }
    assert forall|pp: int, ii: int|
        #![trigger l2[pp][ii]]
        0 <= pp < l2.len() && 0 <= ii < l2[pp].len() implies {
        let s2 = l2[pp][ii];
        s2.y + s2.h <= height && s2.x <= width
    } by {
        if pp == p && ii == i {
        } else {
            assert(l2[pp][ii] == l[pp][ii]);
        }
    }
    assert forall|pp: int, ii: int, jj: int|
        #![trigger l2[pp][ii], l2[pp][jj]]
        0 <= pp < l2.len() && 0 <= ii < l2[pp].len() && 0 <= jj < l2[pp].len() && ii != jj implies {
        let a = l2[pp][ii];
        let b = l2[pp][jj];
        a.y + a.h <= b.y || b.y + b.h <= a.y
    } by {
        assert(l[pp][ii].y == l2[pp][ii].y && l[pp][ii].h == l2[pp][ii].h);
        assert(l[pp][jj].y == l2[pp][jj].y && l[pp][jj].h == l2[pp][jj].h);
    }
}

/// Adding a shelf under all shelves of a page keeps the invariant, and the
/// new tile at the shelf's left end is fresh.
proof fn lemma_new_shelf(
    l: Seq<Seq<Shelf>>,
    width: u32,
    height: u32,
    cache: Map<u64, AtlasEntry>,
    p: int,
    pw: u32,
    ph: u32,
)
    requires
        packing_inv(l, width, height, cache),
        l.len() < u32::MAX,
        0 <= p < l.len(),
        pw <= width,
        shelves_bottom(l[p]) + ph <= height,
    ensures
        ({
            let b = shelves_bottom(l[p]);
            let l2 = l.update(p, l[p].push(Shelf { y: b, h: ph, x: pw }));
            &&& packing_inv(l2, width, height, cache)
            &&& fresh_tile(cache, p as u32, 0, b, pw, ph)
            &&& in_shelf(l2[p][l[p].len() as int], 0, b, pw, ph)
        }),
{
    let b = shelves_bottom(l[p]);
    let ns = Shelf { y: b, h: ph, x: pw };
    let l2 = l.update(p, l[p].push(ns));
    lemma_bottom_above(l[p]);
    assert forall|j: int| 0 <= j < l[p].len() implies l[p][j].y + l[p][j].h <= b by {
        assert(sat_add(l[p][j].y, l[p][j].h) <= b);
    }
    assert forall|k: u64| #[trigger] cache.contains_key(k) && is_placed(cache[k]) implies entry_in(
        l2,
        cache[k],
    ) by {
        let e = cache[k];
        let j = choose|j: int|
            0 <= j < l[e.page_index as int].len() && #[trigger] in_shelf_gap(
                l[e.page_index as int][j],
                e.atlas_x,
                e.atlas_y,
                e.w,
                e.h,
            );
        assert(l2[e.page_index as int][j] == l[e.page_index as int][j]);
        assert(in_shelf_gap(l2[e.page_index as int][j], e.atlas_x, e.atlas_y, e.w, e.h));
    }
    assert forall|k: u64| #[trigger] cache.contains_key(k) && is_placed(cache[k]) implies clear_of(
        cache[k],
        p as u32,
        0,
        b,
        pw,
        ph,
    ) by {
        let e = cache[k];
        assert(entry_in(l, e));
        let j = choose|j: int|
            0 <= j < l[e.page_index as int].len() && #[trigger] in_shelf_gap(
                l[e.page_index as int][j],
                e.atlas_x,
                e.atlas_y,
                e.w,
                e.h,
            );
        if e.page_index as int == p {
            assert(l[p][j].y + l[p][j].h <= b);
        }
    }
    assert forall|pp: int, ii: int|
        #![trigger l2[pp][ii]]
        0 <= pp < l2.len() && 0 <= ii < l2[pp].len() implies {
        let s2 = l2[pp][ii];
        s2.y + s2.h <= height && s2.x <= width
    } by {
        if pp == p && ii == l[p].len() {
        } else {
            assert(l2[pp][ii] == l[pp][ii]);
        }
    }
    assert forall|pp: int, ii: int, jj: int|
        #![trigger l2[pp][ii], l2[pp][jj]]
        0 <= pp < l2.len() && 0 <= ii < l2[pp].len() && 0 <= jj < l2[pp].len() && ii != jj implies {
        let a = l2[pp][ii];
        let c = l2[pp][jj];
        a.y + a.h <= c.y || c.y + c.h <= a.y
    } by {
        if pp == p && ii == l[p].len() {
            assert(l[p][jj].y + l[p][jj].h <= b);
        } else if pp == p && jj == l[p].len() {
            assert(l[p][ii].y + l[p][ii].h <= b);
        } else {
            assert(l2[pp][ii] == l[pp][ii]);
            assert(l2[pp][jj] == l[pp][jj]);
        }
    }
}

/// Adding a page with one shelf keeps the invariant, and the new tile is
/// fresh.
proof fn lemma_new_page(
    l: Seq<Seq<Shelf>>,
    width: u32,
    height: u32,
    cache: Map<u64, AtlasEntry>,
    pw: u32,
    ph: u32,
)
    requires
        packing_inv(l, width, height, cache),
        l.len() < u32::MAX,
        pw <= width,
        ph <= height,
    ensures
        ({
            let l2 = l.push(seq![Shelf { y: 0, h: ph, x: pw }]);
            &&& packing_inv(l2, width, height, cache)
            &&& fresh_tile(cache, l.len() as u32, 0, 0, pw, ph)
            &&& in_shelf(l2[l.len() as int][0], 0, 0, pw, ph)
        }),
{
    let l2 = l.push(seq![Shelf { y: 0, h: ph, x: pw }]);
    assert forall|k: u64| #[trigger] cache.contains_key(k) && is_placed(cache[k]) implies entry_in(
        l2,
        cache[k],
    ) by {
        let e = cache[k];
        let j = choose|j: int|
            0 <= j < l[e.page_index as int].len() && #[trigger] in_shelf_gap(
                l[e.page_index as int][j],
                e.atlas_x,
                e.atlas_y,
                e.w,
                e.h,
            );
        assert(l2[e.page_index as int] == l[e.page_index as int]);
        assert(in_shelf_gap(l2[e.page_index as int][j], e.atlas_x, e.atlas_y, e.w, e.h));
    }
    assert forall|pp: int, ii: int|
        #![trigger l2[pp][ii]]
        0 <= pp < l2.len() && 0 <= ii < l2[pp].len() implies {
        let s2 = l2[pp][ii];
        s2.y + s2.h <= height && s2.x <= width
    } by {
        if pp < l.len() {
            assert(l2[pp] == l[pp]);
        }
    }
    assert forall|pp: int, ii: int, jj: int|
        #![trigger l2[pp][ii], l2[pp][jj]]
        0 <= pp < l2.len() && 0 <= ii < l2[pp].len() && 0 <= jj < l2[pp].len() && ii != jj implies {
        let a = l2[pp][ii];
        let c = l2[pp][jj];
        a.y + a.h <= c.y || c.y + c.h <= a.y
    } by {
        if pp < l.len() {
            assert(l2[pp] == l[pp]);
        }
    }
}

/// With no page at all, adding an empty page keeps the invariant.
proof fn lemma_with_page(l: Seq<Seq<Shelf>>, width: u32, height: u32, cache: Map<u64, AtlasEntry>)
    requires
        packing_inv(l, width, height, cache),
    ensures
        packing_inv(with_page(l), width, height, cache),
{
    if l.len() == 0 {
        let l0 = with_page(l);
        assert forall|k: u64| #[trigger] cache.contains_key(k) && is_placed(cache[k]) implies entry_in(
            l0,
            cache[k],
        ) by {
            assert(entry_in(l, cache[k]));
        }
    }
}

/// Scans the pages in order, and the shelves of each page in order, for
/// the first shelf that fits a `pw` by `ph` tile.
fn find_fit_exec(pages: &Vec<Page>, width: u32, pw: u32, ph: u32) -> (r: Option<(usize, usize)>)
    ensures
        r matches Some((p, i)) ==> {
            &&& p < pages@.len()
            &&& i < layout_of(pages@)[p as int].len()
            &&& shelf_fits(width, layout_of(pages@)[p as int][i as int], pw, ph)
        },
        match r {
            Some((p, i)) => find_fit(layout_of(pages@), width, pw, ph, 0, 0) == Some((p as int, i as int)),
            None => find_fit(layout_of(pages@), width, pw, ph, 0, 0) is None,
        },
{
    let ghost l = layout_of(pages@);
    let np = pages.len();
    let mut p: usize = 0;
    while p < np
        invariant
            np == pages@.len(),
            l == layout_of(pages@),
            p <= np,
            find_fit(l, width, pw, ph, 0, 0) == find_fit(l, width, pw, ph, p as int, 0),
        decreases np - p,
    {
        let ns = pages[p].shelves.len();
        let mut i: usize = 0;
        while i < ns
            invariant
                np == pages@.len(),
                l == layout_of(pages@),
                p < np,
                i <= ns,
                ns == l[p as int].len(),
                find_fit(l, width, pw, ph, 0, 0) == find_fit(l, width, pw, ph, p as int, i as int),
            decreases ns - i,
        {
            let sh = pages[p].shelves[i];
            assert(sh == l[p as int][i as int]);
            if sh.h >= ph && width.saturating_sub(sh.x) >= pw {
                return Some((p, i));
            }
            i += 1;
        }
        p += 1;
    }
    None
}

/// The lowest free row under the given shelves.
fn bottom_of(shelves: &Vec<Shelf>) -> (b: u32)
    ensures
        b == shelves_bottom(shelves@),
{
    let n = shelves.len();
    let mut b: u32 = 0;
    let mut i: usize = 0;
    while i < n
        invariant
            n == shelves@.len(),
            i <= n,
            b == shelves_bottom(shelves@.take(i as int)),
        decreases n - i,
    {
        assert(shelves@.take(i as int + 1).drop_last() =~= shelves@.take(i as int));
        let e = shelves[i].y.saturating_add(shelves[i].h);
        if e > b {
            b = e;
        }
        i += 1;
    }
    assert(shelves@.take(n as int) =~= shelves@);
    b
}

impl Default for AtlasState {
    /// A 1024 by 1024 atlas with padding 4 and one empty page.
    fn default() -> (a: Self)
        ensures
            a.width == 1024,
            a.height == 1024,
            a.padding == 4,
            a.layout() == seq![Seq::<Shelf>::empty()],
            a.cache@ == Map::<u64, AtlasEntry>::empty(),
            a.version == 0,
            a.dirty@ == Seq::<DirtyGlyph>::empty(),
            a.last_dirty is None,
            a.packing_ok(),
    {
        let a = AtlasState {
            width: 1024,
            height: 1024,
            padding: 4,
            pages: vec![Page { shelves: Vec::new() }],
            cache: HashMap::new(),
            version: 0,
            dirty: VecDeque::new(),
            last_dirty: None,
        };
        assert(a.layout() =~= seq![Seq::<Shelf>::empty()]);
        a
    }
}

/// Appends an empty page and returns its index.
fn add_page(a: &mut AtlasState) -> (p: u32)
    requires
        old(a).pages@.len() < u32::MAX,
    ensures
        p == old(a).pages@.len(),
        final(a).pages@.len() == old(a).pages@.len() + 1,
        final(a).layout() == old(a).layout().push(Seq::<Shelf>::empty()),
        final(a).width == old(a).width,
        final(a).height == old(a).height,
        final(a).padding == old(a).padding,
        final(a).cache@ == old(a).cache@,
        final(a).version == old(a).version,
        final(a).dirty@ == old(a).dirty@,
        final(a).last_dirty == old(a).last_dirty,
{
    a.pages.push(Page { shelves: Vec::new() });
    assert(a.layout() =~= old(a).layout().push(Seq::<Shelf>::empty()));
    (a.pages.len() - 1) as u32
}

/// Finds room for a `pack_w` by `pack_h` tile and reserves it; returns the
/// page and the top-left corner of the tile.
fn pack_rect(a: &mut AtlasState, pack_w: u32, pack_h: u32) -> (r: Option<(u32, u32, u32)>)
    requires
        old(a).pages@.len() < u32::MAX,
    ensures
        r == pack_spec(old(a).layout(), old(a).width, old(a).height, pack_w, pack_h),
        final(a).layout() == pack_layout(old(a).layout(), old(a).width, old(a).height, pack_w, pack_h),
        final(a).width == old(a).width,
        final(a).height == old(a).height,
        final(a).padding == old(a).padding,
        final(a).cache@ == old(a).cache@,
        final(a).version == old(a).version,
        final(a).dirty@ == old(a).dirty@,
        final(a).last_dirty == old(a).last_dirty,
        old(a).packing_ok() && old(a).width < u32::MAX && old(a).height < u32::MAX ==> {
            &&& final(a).packing_ok()
            &&& (r matches Some((p, x, y)) ==> {
                &&& fresh_tile(old(a).cache@, p, x, y, pack_w, pack_h)
                &&& rect_in(final(a).layout(), p, x, y, pack_w, pack_h)
            })
        },
{
    let ghost l = old(a).layout();
    if pack_w > a.width || pack_h > a.height {
        return None;
    }
    match find_fit_exec(&a.pages, a.width, pack_w, pack_h) {
        Some((p, i)) => {
            let sh = a.pages[p].shelves[i];
            assert(sh == l[p as int][i as int]);
            a.pages[p].shelves[i].x = sh.x.saturating_add(pack_w);
            assert(a.layout() =~= l.update(
                p as int,
                l[p as int].update(i as int, Shelf { x: sat_add(sh.x, pack_w), ..sh }),
            ));
            proof {
                if old(a).packing_ok() && old(a).width < u32::MAX && old(a).height < u32::MAX {
                    lemma_place_in_shelf(l, a.width, a.height, a.cache@, p as int, i as int, pack_w, pack_h);
                    assert(in_shelf(a.layout()[p as int][i as int], sh.x, sh.y, pack_w, pack_h));
                }
            }
            return Some((p as u32, sh.x, sh.y));
        },
        None => {},
    }
    proof {
        if old(a).packing_ok() {
            lemma_with_page(l, a.width, a.height, a.cache@);
        }
    }
    if a.pages.len() == 0 {
        add_page(a);
    }
    let ghost l0 = a.layout();
    assert(l0 == with_page(l));
    let last = a.pages.len() - 1;
    let bottom_y = bottom_of(&a.pages[last].shelves);
    if bottom_y.saturating_add(pack_h) > a.height {
        let np = add_page(a);
        let ghost l1 = a.layout();
        a.pages[np as usize].shelves.push(Shelf { y: 0, h: pack_h, x: pack_w });
        assert(a.layout() =~= l1.update(np as int, l1[np as int].push(Shelf { y: 0, h: pack_h, x: pack_w })));
        assert(l1[np as int].push(Shelf { y: 0, h: pack_h, x: pack_w }) =~= seq![Shelf { y: 0, h: pack_h, x: pack_w }]);
        assert(a.layout() =~= l0.push(seq![Shelf { y: 0, h: pack_h, x: pack_w }]));
        proof {
            if old(a).packing_ok() && old(a).width < u32::MAX && old(a).height < u32::MAX {
                lemma_new_page(l0, a.width, a.height, a.cache@, pack_w, pack_h);
                assert(in_shelf(a.layout()[np as int][0], 0, 0, pack_w, pack_h));
            }
        }
        Some((np, 0, 0))
    } else {
        a.pages[last].shelves.push(Shelf { y: bottom_y, h: pack_h, x: pack_w });
        assert(a.layout() =~= l0.update(
            last as int,
            l0[last as int].push(Shelf { y: bottom_y, h: pack_h, x: pack_w }),
        ));
        proof {
            if old(a).packing_ok() && old(a).width < u32::MAX && old(a).height < u32::MAX {
                lemma_new_shelf(l0, a.width, a.height, a.cache@, last as int, pack_w, pack_h);
                assert(in_shelf(a.layout()[last as int][l0[last as int].len() as int], 0, bottom_y, pack_w, pack_h));
            }
        }
        Some((last as u32, 0, bottom_y))
    }
}

/// The invariant is kept when the cache entry of `k` is replaced by `e`,
/// provided that `e`, if it is placed, lies within a fresh tile reserved in
/// a shelf.
proof fn lemma_insert_entry(
    l: Seq<Seq<Shelf>>,
    width: u32,
    height: u32,
    cache: Map<u64, AtlasEntry>,
    k: u64,
    e: AtlasEntry,
    pw: u32,
    ph: u32,
)
    requires
        packing_inv(l, width, height, cache),
        is_placed(e) ==> {
            &&& e.w + 1 <= pw
            &&& e.h + 1 <= ph
            &&& rect_in(l, e.page_index, e.atlas_x, e.atlas_y, pw, ph)
            &&& fresh_tile(cache, e.page_index, e.atlas_x, e.atlas_y, pw, ph)
        },
    ensures
        packing_inv(l, width, height, cache.insert(k, e)),
{
    let c2 = cache.insert(k, e);
    if is_placed(e) {
        let i = choose|i: int|
            0 <= i < l[e.page_index as int].len() && #[trigger] in_shelf(
                l[e.page_index as int][i],
                e.atlas_x,
                e.atlas_y,
                pw,
                ph,
            );
        assert(in_shelf_gap(l[e.page_index as int][i], e.atlas_x, e.atlas_y, e.w, e.h));
        assert(entry_in(l, e));
    }
    assert forall|k1: u64, k2: u64|
        #![trigger c2[k1], c2[k2]]
        c2.contains_key(k1) && c2.contains_key(k2) && k1 != k2 && is_placed(c2[k1]) && is_placed(
            c2[k2],
        ) implies tiles_apart(c2[k1], c2[k2]) by {
        if k1 == k {
            assert(cache.contains_key(k2) && is_placed(cache[k2]));
            assert(clear_of(cache[k2], e.page_index, e.atlas_x, e.atlas_y, pw, ph));
        } else if k2 == k {
            assert(cache.contains_key(k1) && is_placed(cache[k1]));
            assert(clear_of(cache[k1], e.page_index, e.atlas_x, e.atlas_y, pw, ph));
        } else {
            assert(c2[k1] == cache[k1] && c2[k2] == cache[k2]);
        }
    }
    assert forall|k1: u64| #[trigger] c2.contains_key(k1) && is_placed(c2[k1]) implies entry_in(
        l,
        c2[k1],
    ) by {
        if k1 != k {
            assert(c2[k1] == cache[k1]);
        }
    }
}

/// The packed cache key of a glyph (see `key_spec`); `size` and `spread`
/// are the base font size and the spread, already rounded.
pub fn atlas_key(font_handle: u64, glyph_id: u32, size: u64, spread: u64) -> (k: u64)
    ensures
        k == key_spec(font_handle, glyph_id, size, spread),
{
    let a = font_handle.wrapping_mul(8_589_934_592);
    let b = (glyph_id as u64).wrapping_mul(131_072);
    let c = size.wrapping_mul(256);
    let ab = a.wrapping_add(b);
    let abc = ab.wrapping_add(c);
    let k = abc.wrapping_add(spread);
    proof {
        let m: int = 18446744073709551616int;
        let x: int = font_handle * 8589934592;
        let y: int = glyph_id * 131072;
        let z: int = size * 256;
        assert(a == x % m);
        assert(b == y % m);
        assert(c == z % m);
        assert(ab == (a + b) % m);
        assert(abc == (ab + c) % m);
        assert(k == (abc + spread) % m);
        vstd::arithmetic::div_mod::lemma_add_mod_noop(x, y, m);
        vstd::arithmetic::div_mod::lemma_add_mod_noop(x + y, z, m);
        vstd::arithmetic::div_mod::lemma_add_mod_noop(x + y + z, spread as int, m);
        vstd::arithmetic::div_mod::lemma_mod_twice(x + y, m);
        vstd::arithmetic::div_mod::lemma_mod_twice(x + y + z, m);
        vstd::arithmetic::div_mod::lemma_small_mod(spread as nat, m as nat);
        vstd::arithmetic::div_mod::lemma_small_mod(c as nat, m as nat);
        assert(abc == (x + y + z) % m) by {
            vstd::arithmetic::div_mod::lemma_add_mod_noop(x + y, z, m);
        }
    }
    k
}

/// Rounds `v` up to a multiple of 4.
fn align4(v: u32) -> (r: u32)
    requires
        v <= u32::MAX - 3,
    ensures
        r == align4_spec(v),
{
    let rem = v % 4;
    if rem == 0 {
        v
    } else {
        v + (4 - rem)
    }
}

/// `v` rounded up to a multiple of 4.
pub open spec fn align4_spec(v: u32) -> u32 {
    if v % 4 == 0 { v } else { (v + (4 - v % 4)) as u32 }
}

/// The two atlases agree in everything.
pub open spec fn same_atlas(x: AtlasState, y: AtlasState) -> bool {
    &&& x.width == y.width
    &&& x.height == y.height
    &&& x.padding == y.padding
    &&& x.layout() == y.layout()
    &&& x.cache@ == y.cache@
    &&& x.version == y.version
    &&& x.dirty@ == y.dirty@
    &&& x.last_dirty == y.last_dirty
}

/// Resizes the atlas (sizes below 1 become 1), sets the padding and
/// empties it: one empty page, no cached glyph, nothing queued. Bumps the
/// version.
pub fn init(a: &mut AtlasState, width: u32, height: u32, padding: u32)
    ensures
        final(a).width == (if width >= 1 { width } else { 1 }),
        final(a).height == (if height >= 1 { height } else { 1 }),
        final(a).padding == padding,
        final(a).layout() == seq![Seq::<Shelf>::empty()],
        final(a).cache@ == Map::<u64, AtlasEntry>::empty(),
        final(a).dirty@ == Seq::<DirtyGlyph>::empty(),
        final(a).last_dirty is None,
        final(a).version == next_version(old(a).version),
        final(a).packing_ok(),
{
    a.width = if width >= 1 { width } else { 1 };
    a.height = if height >= 1 { height } else { 1 };
    a.padding = padding;
    a.pages.clear();
    a.pages.push(Page { shelves: Vec::new() });
    a.cache.clear();
    a.dirty.clear();
    a.last_dirty = None;
    a.version = a.version.wrapping_add(1);
    assert(a.layout() =~= seq![Seq::<Shelf>::empty()]);
}

/// Empties every page (keeping the page count, at least one), forgets all
/// cached glyphs and queued uploads, and bumps the version.
pub fn reset(a: &mut AtlasState)
    ensures
        final(a).layout() == Seq::new(
            if old(a).pages@.len() == 0 { 1 } else { old(a).pages@.len() },
            |i: int| Seq::<Shelf>::empty(),
        ),
        final(a).width == old(a).width,
        final(a).height == old(a).height,
        final(a).padding == old(a).padding,
        final(a).cache@ == Map::<u64, AtlasEntry>::empty(),
        final(a).dirty@ == Seq::<DirtyGlyph>::empty(),
        final(a).last_dirty is None,
        final(a).version == next_version(old(a).version),
        final(a).packing_ok(),
{
    let n = a.pages.len();
    let mut i: usize = 0;
    while i < n
        invariant
            n == a.pages@.len(),
            i <= n,
            a.width == old(a).width,
            a.height == old(a).height,
            a.padding == old(a).padding,
            a.version == old(a).version,
            forall|j: int| 0 <= j < i ==> a.layout()[j].len() == 0,
        decreases n - i,
    {
        let ghost before = a.layout();
        a.pages[i].shelves.clear();
        assert forall|j: int| 0 <= j < i + 1 implies a.layout()[j].len() == 0 by {
            if j < i {
                assert(a.layout()[j] == before[j]);
            }
        }
        i += 1;
    }
    let ghost after = a.layout();
    assert(after.len() == n);
    if a.pages.len() == 0 {
        a.pages.push(Page { shelves: Vec::new() });
    }
    a.cache.clear();
    a.dirty.clear();
    a.last_dirty = None;
    a.version = a.version.wrapping_add(1);
    assert forall|j: int| 0 <= j < a.layout().len() implies a.layout()[j] =~= Seq::<Shelf>::empty() by {
        if n > 0 {
            assert(a.layout()[j] == after[j]);
        }
    }
    assert(a.layout() =~= Seq::new(
        if old(a).pages@.len() == 0 { 1 } else { old(a).pages@.len() },
        |i: int| Seq::<Shelf>::empty(),
    ));
}

/// Drops every page but one (empty), forgets all cached glyphs and queued
/// uploads, and bumps the version.
pub fn clear_pages(a: &mut AtlasState)
    ensures
        final(a).layout() == seq![Seq::<Shelf>::empty()],
        final(a).width == old(a).width,
        final(a).height == old(a).height,
        final(a).padding == old(a).padding,
        final(a).cache@ == Map::<u64, AtlasEntry>::empty(),
        final(a).dirty@ == Seq::<DirtyGlyph>::empty(),
        final(a).last_dirty is None,
        final(a).version == next_version(old(a).version),
        final(a).packing_ok(),
{
    a.pages.clear();
    a.pages.push(Page { shelves: Vec::new() });
    a.cache.clear();
    a.dirty.clear();
    a.last_dirty = None;
    a.version = a.version.wrapping_add(1);
    assert(a.layout() =~= seq![Seq::<Shelf>::empty()]);
}

/// The atlas version.
pub fn get_version(a: &AtlasState) -> (v: u64)
    ensures
        v == a.version,
{
    a.version
}

/// The number of pages, as a `u32`.
pub fn page_count(a: &AtlasState) -> (n: u32)
    ensures
        n == a.pages@.len() as u32,
{
    a.pages.len() as u32
}

/// The padding around each glyph tile.
pub fn get_padding(a: &AtlasState) -> (p: u32)
    ensures
        p == a.padding,
{
    a.padding
}

/// The cached entry of a glyph, if any.
pub fn lookup(a: &AtlasState, font_handle: u64, glyph_id: u32, size: u64, spread: u64) -> (r: Option<AtlasEntry>)
    ensures
        ({
            let k = key_spec(font_handle, glyph_id, size, spread);
            r == (if a.cache@.contains_key(k) { Some(a.cache@[k]) } else { None })
        }),
{
    let key = atlas_key(font_handle, glyph_id, size, spread);
    match a.cache.get(&key) {
        Some(e) => Some(*e),
        None => None,
    }
}

/// An entry that marks a glyph as known but without pixels in the atlas.
fn make_empty_entry(pending: bool) -> (e: AtlasEntry)
    ensures
        e == empty_entry(pending),
{
    AtlasEntry {
        page_index: 0,
        atlas_x: 0,
        atlas_y: 0,
        w: 0,
        h: 0,
        raw_w: 0,
        raw_h: 0,
        x_min_bits: 0,
        y_max_bits: 0,
        async_pending: pending,
    }
}

/// Stores `entry` under `key`.
fn insert_entry(a: &mut AtlasState, key: u64, entry: AtlasEntry)
    ensures
        final(a).cache@ == old(a).cache@.insert(key, entry),
        final(a).width == old(a).width,
        final(a).height == old(a).height,
        final(a).padding == old(a).padding,
        final(a).layout() == old(a).layout(),
        final(a).version == old(a).version,
        final(a).dirty@ == old(a).dirty@,
        final(a).last_dirty == old(a).last_dirty,
{
    a.cache.insert(key, entry);
}

/// Marks a glyph as waiting for an asynchronous render; true only when it
/// is newly marked. When the glyph is already cached, nothing changes and
/// the result is false; otherwise an empty waiting entry is stored and the
/// result is true.
pub fn mark_pending(a: &mut AtlasState, font_handle: u64, glyph_id: u32, size: u64, spread: u64) -> (r: bool)
    ensures
        ({
            let k = key_spec(font_handle, glyph_id, size, spread);
            if old(a).cache@.contains_key(k) {
                &&& !r
                &&& final(a).cache@ == old(a).cache@
            } else {
                &&& r
                &&& final(a).cache@ == old(a).cache@.insert(k, empty_entry(true))
            }
        }),
        final(a).width == old(a).width,
        final(a).height == old(a).height,
        final(a).padding == old(a).padding,
        final(a).layout() == old(a).layout(),
        final(a).version == old(a).version,
        final(a).dirty@ == old(a).dirty@,
        final(a).last_dirty == old(a).last_dirty,
        old(a).packing_ok() ==> final(a).packing_ok(),
{
    let key = atlas_key(font_handle, glyph_id, size, spread);
    match a.cache.get(&key) {
        Some(_) => {
            return false;
        },
        None => {},
    }
    let e = make_empty_entry(true);
    proof {
        if old(a).packing_ok() {
            lemma_insert_entry(a.layout(), a.width, a.height, a.cache@, key, e, 0, 0);
        }
    }
    insert_entry(a, key, e);
    true
}

/// The tile a committed glyph gets: empty when it has no pixels, does not
/// fit a page, or finds no room; otherwise placed where `pack_spec` says.
pub open spec fn commit_spec(
    layout: Seq<Seq<Shelf>>,
    aw: u32,
    ah: u32,
    w: u32,
    h: u32,
    raw_w: u32,
    raw_h: u32,
    x_min_bits: u64,
    y_max_bits: u64,
) -> AtlasEntry {
    if w == 0 || h == 0 || w > aw || h > ah {
        empty_entry(false)
    } else {
        match pack_spec(layout, aw, ah, sat_add(w, 1), sat_add(h, 1)) {
            None => empty_entry(false),
            Some((p, x, y)) => AtlasEntry {
                page_index: p,
                atlas_x: x,
                atlas_y: y,
                w,
                h,
                raw_w,
                raw_h,
                x_min_bits,
                y_max_bits,
                async_pending: false,
            },
        }
    }
}

/// The shelves after committing a `w` by `h` glyph.
pub open spec fn commit_layout(layout: Seq<Seq<Shelf>>, aw: u32, ah: u32, w: u32, h: u32) -> Seq<Seq<Shelf>> {
    if w == 0 || h == 0 || w > aw || h > ah {
        layout
    } else {
        pack_layout(layout, aw, ah, sat_add(w, 1), sat_add(h, 1))
    }
}

/// Stores a glyph rendered elsewhere: packs a `width` by `height` tile (plus
/// one pixel of gap on the right and below) and caches its entry; glyphs
/// without pixels, larger than a page or without room get an empty entry.
/// Always bumps the version and returns the stored entry.
pub fn commit_glyph(
    a: &mut AtlasState,
    font_handle: u64,
    glyph_id: u32,
    size: u64,
    spread: u64,
    width: u32,
    height: u32,
    raw_w: u32,
    raw_h: u32,
    x_min_bits: u64,
    y_max_bits: u64,
) -> (r: Option<AtlasEntry>)
    requires
        old(a).pages@.len() < u32::MAX,
    ensures
        ({
            let k = key_spec(font_handle, glyph_id, size, spread);
            let e = commit_spec(
                old(a).layout(),
                old(a).width,
                old(a).height,
                width,
                height,
                raw_w,
                raw_h,
                x_min_bits,
                y_max_bits,
            );
            &&& r == Some(e)
            &&& final(a).cache@ == old(a).cache@.insert(k, e)
        }),
        final(a).layout() == commit_layout(old(a).layout(), old(a).width, old(a).height, width, height),
        final(a).version == next_version(old(a).version),
        final(a).width == old(a).width,
        final(a).height == old(a).height,
        final(a).padding == old(a).padding,
        final(a).dirty@ == old(a).dirty@,
        final(a).last_dirty == old(a).last_dirty,
        old(a).packing_ok() && old(a).width < u32::MAX && old(a).height < u32::MAX ==> final(a).packing_ok(),
        old(a).packing_ok() && old(a).width < u32::MAX && old(a).height < u32::MAX ==> forall|k1: u64|
            #![trigger old(a).cache@[k1]]
            old(a).cache@.contains_key(k1) && k1 != key_spec(font_handle, glyph_id, size, spread)
                && is_placed(old(a).cache@[k1]) && is_placed(
                final(a).cache@[key_spec(font_handle, glyph_id, size, spread)],
            ) ==> tiles_apart(
                old(a).cache@[k1],
                final(a).cache@[key_spec(font_handle, glyph_id, size, spread)],
            ),
{
    let key = atlas_key(font_handle, glyph_id, size, spread);
    if width == 0 || height == 0 || width > a.width || height > a.height {
        let entry = make_empty_entry(false);
        proof {
            if old(a).packing_ok() {
                lemma_insert_entry(a.layout(), a.width, a.height, a.cache@, key, entry, 0, 0);
            }
        }
        insert_entry(a, key, entry);
        a.version = a.version.wrapping_add(1);
        return Some(entry);
    }
    let pack_w = width.saturating_add(1);
    let pack_h = height.saturating_add(1);
    match pack_rect(a, pack_w, pack_h) {
        None => {
            let entry = make_empty_entry(false);
            proof {
                if old(a).packing_ok() && old(a).width < u32::MAX && old(a).height < u32::MAX {
                    lemma_insert_entry(a.layout(), a.width, a.height, a.cache@, key, entry, 0, 0);
                }
            }
            insert_entry(a, key, entry);
            a.version = a.version.wrapping_add(1);
            Some(entry)
        },
        Some((page, px, py)) => {
            let entry = AtlasEntry {
                page_index: page,
                atlas_x: px,
                atlas_y: py,
                w: width,
                h: height,
                raw_w,
                raw_h,
                x_min_bits,
                y_max_bits,
                async_pending: false,
            };
            proof {
                if old(a).packing_ok() && old(a).width < u32::MAX && old(a).height < u32::MAX {
                    lemma_insert_entry(a.layout(), a.width, a.height, a.cache@, key, entry, pack_w, pack_h);
                }
            }
            insert_entry(a, key, entry);
            a.version = a.version.wrapping_add(1);
            Some(entry)
        },
    }
}

/// `spread` as a `u32` pixel count, clamped to the `u32` range.
pub open spec fn spread_px(spread: u64) -> u32 {
    if spread > u32::MAX { u32::MAX } else { spread as u32 }
}

/// The padding used for a synchronously rendered glyph: the atlas padding,
/// or one more than the spread when that is larger.
pub open spec fn sync_pad(padding: u32, spread: u64) -> u32 {
    let t = sat_add(spread_px(spread), 1);
    if padding >= t { padding } else { t }
}

/// `2 * p` clamped to the `u32` range.
pub open spec fn sat_double(p: u32) -> u32 {
    if 2 * p > u32::MAX { u32::MAX } else { (2 * p) as u32 }
}

/// A glyph side plus padding on both ends, clamped to the `u32` range.
pub open spec fn tile_raw(g: u32, pad: u32) -> u32 {
    sat_add(g, sat_double(pad))
}

/// The bounds of a glyph leave room to round its padded tile up to a
/// multiple of 4 within the `u32` range.
pub open spec fn bounds_fit(b: Option<(u32, u32, u64, u64)>, pad: u32) -> bool {
    match b {
        Some((gw, gh, _, _)) => tile_raw(gw, pad) <= u32::MAX - 3 && tile_raw(gh, pad) <= u32::MAX - 3,
        None => true,
    }
}

/// The glyph is cached and not waiting for an asynchronous render.
pub open spec fn is_ready(cache: Map<u64, AtlasEntry>, k: u64) -> bool {
    cache.contains_key(k) && !cache[k].async_pending
}

/// Only the cache changed, to `cache`.
pub open spec fn only_cache_changed(x: AtlasState, y: AtlasState, cache: Map<u64, AtlasEntry>) -> bool {
    &&& y.cache@ == cache
    &&& x.width == y.width
    &&& x.height == y.height
    &&& x.padding == y.padding
    &&& x.layout() == y.layout()
    &&& x.version == y.version
    &&& x.dirty@ == y.dirty@
    &&& x.last_dirty == y.last_dirty
}

/// The size `(total_w, total_h)` of the pixel buffer of a glyph with the
/// given bounds: the padded tile rounded up to multiples of 4.
pub open spec fn sync_tile(gw: u32, gh: u32, pad: u32) -> (u32, u32) {
    (align4_spec(tile_raw(gw, pad)), align4_spec(tile_raw(gh, pad)))
}

/// What `ensure_glyph_sync` did, given the glyph's bounds `b` and the
/// rendered pixels `px`: the result code and the new atlas `y`.
pub open spec fn sync_outcome(
    x: AtlasState,
    y: AtlasState,
    k: u64,
    pad: u32,
    b: Option<(u32, u32, u64, u64)>,
    px: Option<Vec<u8>>,
    code: i32,
) -> bool {
    match b {
        None => code == -1 && same_atlas(x, y),
        Some((gw, gh, xm, ym)) => {
            if gw == 0 || gh == 0 {
                code == 0 && only_cache_changed(x, y, x.cache@.insert(k, empty_entry(false)))
            } else {
                let rw = tile_raw(gw, pad);
                let rh = tile_raw(gh, pad);
                let (tw, th) = sync_tile(gw, gh, pad);
                match px {
                    None => code == -1 && same_atlas(x, y),
                    Some(pixels) => match pack_spec(x.layout(), x.width, x.height, sat_add(tw, 1), sat_add(th, 1)) {
                        None => code == 0 && only_cache_changed(x, y, x.cache@.insert(k, empty_entry(false))),
                        Some((p, px0, py0)) => {
                            &&& code == 2
                            &&& y.cache@ == x.cache@.insert(
                                k,
                                AtlasEntry {
                                    page_index: p,
                                    atlas_x: px0,
                                    atlas_y: py0,
                                    w: tw,
                                    h: th,
                                    raw_w: rw,
                                    raw_h: rh,
                                    x_min_bits: xm,
                                    y_max_bits: ym,
                                    async_pending: false,
                                },
                            )
                            &&& y.layout() == pack_layout(x.layout(), x.width, x.height, sat_add(tw, 1), sat_add(th, 1))
                            &&& y.dirty@ == x.dirty@.push(DirtyGlyph { page: p, x: px0, y: py0, w: tw, h: th, pixels })
                            &&& y.width == x.width
                            &&& y.height == x.height
                            &&& y.padding == x.padding
                            &&& y.version == x.version
                            &&& y.last_dirty == x.last_dirty
                        },
                    },
                }
            }
        },
    }
}

/// Renders a glyph into the atlas right away unless it is already there.
///
/// Returns 1 when the glyph was already cached (and not waiting for an
/// asynchronous render), -1 when `bounds` gives no bounds or `render` fails,
/// 0 when the glyph has no pixels or finds no room (it is then cached as
/// empty), and 2 when its tile was packed, cached and queued for upload.
/// `bounds` yields the glyph's width, height and the bits of its left
/// bearing and top edge; `render` is handed the padding and the size of the
/// pixel buffer and yields the RGBA pixels. The version is not bumped.
pub fn ensure_glyph_sync<B, R>(
    a: &mut AtlasState,
    font_handle: u64,
    glyph_id: u32,
    size: u64,
    spread: u64,
    bounds: B,
    render: R,
) -> (code: i32) where B: FnOnce() -> Option<(u32, u32, u64, u64)>, R: FnOnce(u32, u32, u32) -> Option<Vec<u8>>
    requires
        old(a).pages@.len() < u32::MAX,
        bounds.requires(()),
        forall|p: u32, w: u32, h: u32| render.requires((p, w, h)),
        forall|b: Option<(u32, u32, u64, u64)>|
            bounds.ensures((), b) ==> bounds_fit(b, sync_pad(old(a).padding, spread)),
        forall|p: u32, w: u32, h: u32, r: Option<Vec<u8>>|
            render.ensures((p, w, h), r) ==> (r matches Some(v) ==> v@.len() == w * h * 4),
    ensures
        ({
            let k = key_spec(font_handle, glyph_id, size, spread);
            let pad = sync_pad(old(a).padding, spread);
            if is_ready(old(a).cache@, k) {
                code == 1 && same_atlas(*old(a), *final(a))
            } else {
                exists|b: Option<(u32, u32, u64, u64)>, px: Option<Vec<u8>>|
                    #![trigger sync_outcome(*old(a), *final(a), k, pad, b, px, code)]
                    {
                        &&& bounds.ensures((), b)
                        &&& match b {
                            Some((gw, gh, _, _)) => gw > 0 && gh > 0 ==> render.ensures(
                                (pad, sync_tile(gw, gh, pad).0, sync_tile(gw, gh, pad).1),
                                px,
                            ),
                            None => true,
                        }
                        &&& sync_outcome(*old(a), *final(a), k, pad, b, px, code)
                    }
            }
        }),
        old(a).packing_ok() && old(a).width < u32::MAX && old(a).height < u32::MAX ==> final(a).packing_ok(),
        code == 2 ==> {
            &&& final(a).dirty@.len() == old(a).dirty@.len() + 1
            &&& final(a).dirty@.last().pixels@.len() == final(a).dirty@.last().w
                * final(a).dirty@.last().h * 4
        },
{
    let key = atlas_key(font_handle, glyph_id, size, spread);
    match a.cache.get(&key) {
        Some(e) => {
            if !e.async_pending {
                return 1;
            }
        },
        None => {},
    }
    let spread_u32: u32 = if spread > 4294967295u64 { u32::MAX } else { spread as u32 };
    let t = spread_u32.saturating_add(1);
    let pad = if a.padding >= t { a.padding } else { t };
    let ghost k = key_spec(font_handle, glyph_id, size, spread);
    let ghost spad = sync_pad(old(a).padding, spread);
    assert(pad == spad && key == k);
    let b = bounds();
    let (gw, gh, x_min_bits, y_max_bits) = match b {
        Some(v) => v,
        None => {
            let ghost nopx: Option<Vec<u8>> = None;
            assert(sync_outcome(*old(a), *a, k, spad, b, nopx, -1i32));
            assert(bounds.ensures((), b));
            return -1;
        },
    };
    if gw == 0 || gh == 0 {
        let e = make_empty_entry(false);
        proof {
            if old(a).packing_ok() {
                lemma_insert_entry(a.layout(), a.width, a.height, a.cache@, key, e, 0, 0);
            }
        }
        insert_entry(a, key, e);
        assert(sync_outcome(*old(a), *a, k, spad, b, None, 0i32));
        return 0;
    }
    let pad2: u32 = if pad > u32::MAX / 2 { u32::MAX } else { pad * 2 };
    let raw_w = gw.saturating_add(pad2);
    let raw_h = gh.saturating_add(pad2);
    assert(bounds_fit(b, spad));
    assert(raw_w == tile_raw(gw, pad) && raw_h == tile_raw(gh, pad));
    let total_w = align4(raw_w);
    let total_h = align4(raw_h);
    let rendered = render(pad, total_w, total_h);
    let pixels = match rendered {
        Some(v) => v,
        None => {
            assert(sync_outcome(*old(a), *a, k, spad, b, rendered, -1i32));
            return -1;
        },
    };
    let pack_w = total_w.saturating_add(1);
    let pack_h = total_h.saturating_add(1);
    match pack_rect(a, pack_w, pack_h) {
        None => {
            let e = make_empty_entry(false);
            proof {
                if old(a).packing_ok() && old(a).width < u32::MAX && old(a).height < u32::MAX {
                    lemma_insert_entry(a.layout(), a.width, a.height, a.cache@, key, e, 0, 0);
                }
            }
            insert_entry(a, key, e);
            assert(sync_outcome(*old(a), *a, k, spad, b, rendered, 0i32));
            0
        },
        Some((page, px, py)) => {
            let entry = AtlasEntry {
                page_index: page,
                atlas_x: px,
                atlas_y: py,
                w: total_w,
                h: total_h,
                raw_w,
                raw_h,
                x_min_bits,
                y_max_bits,
                async_pending: false,
            };
            proof {
                if old(a).packing_ok() && old(a).width < u32::MAX && old(a).height < u32::MAX {
                    lemma_insert_entry(a.layout(), a.width, a.height, a.cache@, key, entry, pack_w, pack_h);
                }
            }
            insert_entry(a, key, entry);
            let ghost pix = pixels;
            a.dirty.push_back(DirtyGlyph { page, x: px, y: py, w: total_w, h: total_h, pixels });
            assert(sync_outcome(*old(a), *a, k, spad, b, Some(pix), 2i32));
            2
        },
    }
}

/// Takes the oldest queued upload, keeps it for `poll_dirty_pixels`, and
/// returns its page and rectangle.
pub fn poll_dirty_meta(a: &mut AtlasState) -> (r: Option<(u32, u32, u32, u32, u32)>)
    ensures
        old(a).dirty@.len() == 0 ==> r is None && same_atlas(*old(a), *final(a)),
        old(a).dirty@.len() > 0 ==> {
            let d = old(a).dirty@[0];
            &&& r == Some((d.page, d.x, d.y, d.w, d.h))
            &&& final(a).dirty@ == old(a).dirty@.drop_first()
            &&& final(a).last_dirty == Some(d)
            &&& final(a).width == old(a).width
            &&& final(a).height == old(a).height
            &&& final(a).padding == old(a).padding
            &&& final(a).layout() == old(a).layout()
            &&& final(a).cache@ == old(a).cache@
            &&& final(a).version == old(a).version
        },
{
    match a.dirty.pop_front() {
        Some(item) => {
            let meta = (item.page, item.x, item.y, item.w, item.h);
            a.last_dirty = Some(item);
            Some(meta)
        },
        None => None,
    }
}

/// Copies the pixels of the upload taken by `poll_dirty_meta` into `dst`
/// (as many bytes as both hold) and forgets it; returns the byte count, or
/// `None` when no upload was taken.
pub fn poll_dirty_pixels(a: &mut AtlasState, dst: &mut [u8]) -> (r: Option<usize>)
    ensures
        old(a).last_dirty is None ==> r is None && same_atlas(*old(a), *final(a)) && final(dst)@ == old(dst)@,
        old(a).last_dirty matches Some(d) ==> {
            let n = if d.pixels@.len() <= old(dst)@.len() { d.pixels@.len() } else { old(dst)@.len() };
            &&& r == Some(n as usize)
            &&& final(dst)@ == d.pixels@.take(n as int) + old(dst)@.skip(n as int)
            &&& final(a).last_dirty is None
            &&& final(a).width == old(a).width
            &&& final(a).height == old(a).height
            &&& final(a).padding == old(a).padding
            &&& final(a).layout() == old(a).layout()
            &&& final(a).cache@ == old(a).cache@
            &&& final(a).version == old(a).version
            &&& final(a).dirty@ == old(a).dirty@
        },
{
    let item = match a.last_dirty.take() {
        Some(item) => item,
        None => {
            return None;
        },
    };
    let n = if item.pixels.len() <= dst.len() { item.pixels.len() } else { dst.len() };
    let mut i: usize = 0;
    while i < n
        invariant
            n <= item.pixels@.len(),
            n <= dst@.len(),
            dst@.len() == old(dst)@.len(),
            i <= n,
            forall|j: int| 0 <= j < i ==> dst@[j] == item.pixels@[j],
            forall|j: int| n <= j < dst@.len() ==> dst@[j] == old(dst)@[j],
        decreases n - i,
    {
        dst[i] = item.pixels[i];
        i += 1;
    }
    assert(dst@ =~= item.pixels@.take(n as int) + old(dst)@.skip(n as int));
    Some(n)
}

/// Two numbers written with the same base-`m` low digit are equal digit by digit.
proof fn lemma_unique_digits(a1: int, b1: int, a2: int, b2: int, m: int)
    requires
        m > 0,
        0 <= b1 < m,
        0 <= b2 < m,
        a1 * m + b1 == a2 * m + b2,
    ensures
        a1 == a2,
        b1 == b2,
{
    vstd::arithmetic::div_mod::lemma_fundamental_div_mod_converse(a1 * m + b1, m, a1, b1);
    vstd::arithmetic::div_mod::lemma_fundamental_div_mod_converse(a2 * m + b2, m, a2, b2);
}

/// Glyph keys do not collide while the font handle is below 2^31, the
/// glyph id below 2^16, the rounded base size below 2^9 and the rounded
/// spread below 2^8.
pub proof fn law_key_injective(f1: u64, g1: u32, s1: u64, p1: u64, f2: u64, g2: u32, s2: u64, p2: u64)
    requires
        f1 < 0x8000_0000,
        f2 < 0x8000_0000,
        g1 < 0x1_0000,
        g2 < 0x1_0000,
        s1 < 512,
        s2 < 512,
        p1 < 256,
        p2 < 256,
        key_spec(f1, g1, s1, p1) == key_spec(f2, g2, s2, p2),
    ensures
        f1 == f2 && g1 == g2 && s1 == s2 && p1 == p2,
{
    let m: int = 18446744073709551616int;
    let v1: int = f1 * 8589934592 + g1 * 131072 + s1 * 256 + p1;
    let v2: int = f2 * 8589934592 + g2 * 131072 + s2 * 256 + p2;
    assert(0 <= v1 < m);
    assert(0 <= v2 < m);
    vstd::arithmetic::div_mod::lemma_small_mod(v1 as nat, m as nat);
    vstd::arithmetic::div_mod::lemma_small_mod(v2 as nat, m as nat);
    assert(v1 == v2);
    let r1: int = g1 * 131072 + s1 * 256 + p1;
    let r2: int = g2 * 131072 + s2 * 256 + p2;
    lemma_unique_digits(f1 as int, r1, f2 as int, r2, 8589934592);
    lemma_unique_digits(g1 as int, s1 * 256 + p1, g2 as int, s2 * 256 + p2, 131072);
    lemma_unique_digits(s1 as int, p1 as int, s2 as int, p2 as int, 256);
}

/// In an atlas that keeps its packing invariant, every placed tile lies
/// within its page together with the one-pixel gap to its right and below,
/// and two different glyphs never share a pixel nor each other's gap.
pub proof fn law_tiles_in_page_and_apart(a: AtlasState, k1: u64, k2: u64)
    requires
        a.packing_ok(),
        a.cache@.contains_key(k1),
        is_placed(a.cache@[k1]),
    ensures
        a.cache@[k1].page_index < a.pages@.len(),
        a.cache@[k1].atlas_x + a.cache@[k1].w + 1 <= a.width,
        a.cache@[k1].atlas_y + a.cache@[k1].h + 1 <= a.height,
        a.cache@.contains_key(k2) && k2 != k1 && is_placed(a.cache@[k2]) ==> tiles_apart(
            a.cache@[k1],
            a.cache@[k2],
        ),
{
    let e = a.cache@[k1];
    let l = a.layout();
    assert(entry_in(l, e));
    let i = choose|i: int|
        0 <= i < l[e.page_index as int].len() && #[trigger] in_shelf_gap(
            l[e.page_index as int][i],
            e.atlas_x,
            e.atlas_y,
            e.w,
            e.h,
        );
    assert(l[e.page_index as int][i].x <= a.width);
}

/// A committed glyph is found again by `lookup` under the same key, and
/// every glyph committed before under another key is found unchanged.
pub proof fn law_commit_then_lookup(
    before: Map<u64, AtlasEntry>,
    after: Map<u64, AtlasEntry>,
    k: u64,
    e: AtlasEntry,
    other: u64,
)
    requires
        after == before.insert(k, e),
    ensures
        after.contains_key(k) && after[k] == e,
        other != k ==> (after.contains_key(other) == before.contains_key(other) && (before.contains_key(
            other,
        ) ==> after[other] == before[other])),
{
}

/// The version after a sequence of atlas calls: each entry tells whether
/// the call bumps the version (`init`, `reset`, `clear_pages`,
/// `commit_glyph`) or keeps it (`lookup`, `mark_pending`,
/// `ensure_glyph_sync`, the two polls).
pub open spec fn version_after(v: u64, bumps: Seq<bool>) -> u64
    decreases bumps.len(),
{
    if bumps.len() == 0 {
        v
    } else {
        let w = version_after(v, bumps.drop_last());
        if bumps.last() { next_version(w) } else { w }
    }
}

/// The number of calls that bump the version.
pub open spec fn bump_count(bumps: Seq<bool>) -> int
    decreases bumps.len(),
{
    if bumps.len() == 0 {
        0
    } else {
        bump_count(bumps.drop_last()) + if bumps.last() { 1int } else { 0int }
    }
}

/// The version counts the calls that bump it, wrapping at 2^64: after any
/// sequence of calls it is the starting version plus the number of bumping
/// calls, modulo 2^64.
pub proof fn law_version_counts_bumps(v: u64, bumps: Seq<bool>)
    ensures
        version_after(v, bumps) as int == (v + bump_count(bumps)) % 18446744073709551616int,
    decreases bumps.len(),
{
    if bumps.len() == 0 {
        vstd::arithmetic::div_mod::lemma_small_mod(v as nat, 18446744073709551616nat);
    } else {
        law_version_counts_bumps(v, bumps.drop_last());
        let w = version_after(v, bumps.drop_last());
        let c = bump_count(bumps.drop_last());
        assert(c >= 0) by {
            lemma_bump_count_nonneg(bumps.drop_last());
        }
        if bumps.last() {
            vstd::arithmetic::div_mod::lemma_add_mod_noop(v + c, 1, 18446744073709551616int);
            vstd::arithmetic::div_mod::lemma_small_mod(1nat, 18446744073709551616nat);
            if w == u64::MAX {
                vstd::arithmetic::div_mod::lemma_mod_self_0(18446744073709551616int);
            } else {
                vstd::arithmetic::div_mod::lemma_small_mod((w + 1) as nat, 18446744073709551616nat);
            }
        }
    }
}

proof fn lemma_bump_count_nonneg(bumps: Seq<bool>)
    ensures
        bump_count(bumps) >= 0,
    decreases bumps.len(),
{
    if bumps.len() > 0 {
        lemma_bump_count_nonneg(bumps.drop_last());
    }
}

/// The queue after `pushed` is appended to `q` one upload at a time.
pub open spec fn queued_after(q: Seq<DirtyGlyph>, pushed: Seq<DirtyGlyph>) -> Seq<DirtyGlyph>
    decreases pushed.len(),
{
    if pushed.len() == 0 {
        q
    } else {
        queued_after(q, pushed.drop_last()).push(pushed.last())
    }
}

/// The queue after `m` uploads are taken from its front.
pub open spec fn polled_after(q: Seq<DirtyGlyph>, m: nat) -> Seq<DirtyGlyph>
    decreases m,
{
    if m == 0 || q.len() == 0 {
        q
    } else {
        polled_after(q.drop_first(), (m - 1) as nat)
    }
}

proof fn lemma_queued_after(q: Seq<DirtyGlyph>, pushed: Seq<DirtyGlyph>)
    ensures
        queued_after(q, pushed) == q + pushed,
    decreases pushed.len(),
{
    if pushed.len() > 0 {
        lemma_queued_after(q, pushed.drop_last());
        assert((q + pushed.drop_last()).push(pushed.last()) =~= q + pushed);
    } else {
        assert(q + pushed =~= q);
    }
}

proof fn lemma_polled_after(q: Seq<DirtyGlyph>, m: nat)
    requires
        m <= q.len(),
    ensures
        polled_after(q, m) == q.skip(m as int),
    decreases m,
{
    if m > 0 {
        lemma_polled_after(q.drop_first(), (m - 1) as nat);
        assert(q.drop_first().skip(m - 1) =~= q.skip(m as int));
    } else {
        assert(q.skip(0) =~= q);
    }
}

/// Uploads come out in the order they were queued: from the empty queue
/// that `init`, `reset` and `clear_pages` leave, after the uploads
/// `pushed` were queued in order by `ensure_glyph_sync` and `m` of them
/// were taken by `poll_dirty_meta`, the next poll gives `pushed[m]`; once
/// all were taken, the queue is empty.
pub proof fn law_dirty_fifo(pushed: Seq<DirtyGlyph>, m: nat)
    requires
        m <= pushed.len(),
    ensures
        m < pushed.len() ==> polled_after(queued_after(Seq::empty(), pushed), m)[0] == pushed[m as int],
        m == pushed.len() ==> polled_after(queued_after(Seq::empty(), pushed), m).len() == 0,
{
    lemma_queued_after(Seq::empty(), pushed);
    assert(Seq::<DirtyGlyph>::empty() + pushed =~= pushed);
    lemma_polled_after(pushed, m);
}

/// The render mode with number `mode`, if any.
pub fn render_mode_from_u32(mode: u32) -> (r: Option<RenderMode>)
    ensures
        r == mode_of_number(mode),
{
    match mode {
        0 => Some(RenderMode::Sdf),
        1 => Some(RenderMode::Psdf),
        2 => Some(RenderMode::Msdf),
        3 => Some(RenderMode::Mtsdf),
        _ => None,
    }
}

} // verus!
