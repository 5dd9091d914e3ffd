//! The font registry: fonts loaded from bytes under numeric handles, each
//! with a chain of fallback fonts, and the lookup of a character through
//! that chain.

use vstd::prelude::*;
use std::collections::HashMap;

verus! {

broadcast use vstd::std_specs::hash::group_hash_axioms;

/// A font or shape handle; 0 is never a valid handle.
pub type Handle = u64;

/// True when `ttf_parser` accepts `data` as a font face (face index 0).
pub uninterp spec fn ttf_parses(data: Seq<u8>) -> bool;

/// The number of glyphs `ttf_parser` reads from the face in `data`.
pub uninterp spec fn ttf_glyph_count(data: Seq<u8>) -> u16;

/// The glyph `rustybuzz` maps character `c` to in the face in `data`.
pub uninterp spec fn face_glyph_index(data: Seq<u8>, c: char) -> Option<u16>;

/// Calls `ttf_parser::Face::parse(data, 0)` and, when it succeeds,
/// `number_of_glyphs`, which the crate documents as never zero.
#[verifier::external_body]
fn face_glyph_count(data: &[u8]) -> (r: Option<u16>)
    ensures
        r is Some <==> ttf_parses(data@),
        r matches Some(n) ==> n == ttf_glyph_count(data@) && n > 0,
{
    match ttf_parser::Face::parse(data, 0) {
        Ok(face) => Some(face.number_of_glyphs()),
        Err(_) => None,
    }
}

/// Calls `rustybuzz::Face::from_slice(data, 0)`, which parses with
/// `ttf_parser::Face::parse` and fails exactly when it does, then
/// `glyph_index(c)` on the face.
#[verifier::external_body]
fn face_glyph_index_of(data: &[u8], c: char) -> (r: Option<u16>)
    ensures
        r == face_glyph_index(data@, c),
        !ttf_parses(data@) ==> r is None,
{
    match rustybuzz::Face::from_slice(data, 0) {
        Some(face) => face.glyph_index(c).map(|g| g.0),
        None => None,
    }
}

/// The horizontal advance, in font units, that `ttf_parser` reads for
/// glyph `gid` from the face in `data`.
pub uninterp spec fn face_hor_advance(data: Seq<u8>, gid: u16) -> Option<u16>;

/// Calls `ttf_parser::Face::parse(data, 0)` and, when it succeeds,
/// `glyph_hor_advance` for glyph `gid`.
#[verifier::external_body]
fn face_hor_advance_of(data: &[u8], gid: u16) -> (r: Option<u16>)
    ensures
        r == face_hor_advance(data@, gid),
        !ttf_parses(data@) ==> r is None,
{
    match ttf_parser::Face::parse(data, 0) {
        Ok(face) => face.glyph_hor_advance(ttf_parser::GlyphId(gid)),
        Err(_) => None,
    }
}

/// The units per em `ttf_parser` reads from the face in `data`.
pub uninterp spec fn face_units_per_em(data: Seq<u8>) -> u16;

/// Calls `ttf_parser::Face::parse(data, 0)` and, when it succeeds,
/// `units_per_em`.
#[verifier::external_body]
fn face_units_per_em_of(data: &[u8]) -> (r: Option<u16>)
    ensures
        r is Some <==> ttf_parses(data@),
        r matches Some(u) ==> u == face_units_per_em(data@),
{
    ttf_parser::Face::parse(data, 0).ok().map(|f| f.units_per_em())
}

/// The bounding box (x min, y min, x max, y max, in font units) that
/// `ttf_parser` gives glyph `gid` of the face in `data`; `None` for a glyph
/// without an outline.
pub uninterp spec fn face_glyph_box(data: Seq<u8>, gid: u16) -> Option<(i16, i16, i16, i16)>;

/// Calls `ttf_parser::Face::parse(data, 0)` and, when it succeeds,
/// `glyph_bounding_box` for glyph `gid`.
#[verifier::external_body]
fn face_glyph_box_of(data: &[u8], gid: u16) -> (r: Option<Option<(i16, i16, i16, i16)>>)
    ensures
        r is Some <==> ttf_parses(data@),
        r matches Some(b) ==> b == face_glyph_box(data@, gid),
{
    let face = ttf_parser::Face::parse(data, 0).ok()?;
    Some(face.glyph_bounding_box(ttf_parser::GlyphId(gid)).map(|b| (b.x_min, b.y_min, b.x_max, b.y_max)))
}

/// The ascender `ttf_parser` reads from the face in `data`.
pub uninterp spec fn face_ascender(data: Seq<u8>) -> i16;

/// Calls `ttf_parser::Face::parse(data, 0)` and, when it succeeds,
/// `ascender`.
#[verifier::external_body]
fn face_ascender_of(data: &[u8]) -> (r: Option<i16>)
    ensures
        r is Some <==> ttf_parses(data@),
        r matches Some(a) ==> a == face_ascender(data@),
{
    ttf_parser::Face::parse(data, 0).ok().map(|f| f.ascender())
}

/// The descender `ttf_parser` reads from the face in `data`.
pub uninterp spec fn face_descender(data: Seq<u8>) -> i16;

/// Calls `ttf_parser::Face::parse(data, 0)` and, when it succeeds,
/// `descender`.
#[verifier::external_body]
fn face_descender_of(data: &[u8]) -> (r: Option<i16>)
    ensures
        r is Some <==> ttf_parses(data@),
        r matches Some(d) ==> d == face_descender(data@),
{
    ttf_parser::Face::parse(data, 0).ok().map(|f| f.descender())
}

/// A loaded font: its bytes and its fallback chain, in order.
pub struct FontState {
    pub font_data: Vec<u8>,
    pub fallbacks: Vec<Handle>,
}

/// The font (primary or fallback) and glyph a character resolved to.
#[derive(Debug, Clone, Copy, PartialEq, Eq, Structural)]
pub struct ResolvedGlyph {
    pub font_handle: Handle,
    pub glyph_id: u32,
}

/// Why a fallback could not be added.
#[derive(Debug, Clone, Copy, PartialEq, Eq, Structural)]
pub enum FontError {
    InvalidFallback,
    InvalidFont,
}

impl FontError {
    /// The message reported for this error.
    pub fn message(self) -> (m: &'static str)
        ensures
            m@ == (match self {
                FontError::InvalidFallback => "invalid fallback font handle"@,
                FontError::InvalidFont => "invalid font handle"@,
            }),
    {
        match self {
            FontError::InvalidFallback => "invalid fallback font handle",
            FontError::InvalidFont => "invalid font handle",
        }
    }
}

/// All loaded fonts by handle. Handles are handed out in increasing order
/// from 1 and never reused.
pub struct FontRegistry {
    next_handle: u64,
    fonts: HashMap<u64, FontState>,
}

/// The glyph of `c` in font `h`, when `h` is loaded.
pub open spec fn glyph_in(fonts: Map<u64, FontState>, h: u64, c: char) -> Option<u16> {
    if fonts.contains_key(h) {
        face_glyph_index(fonts[h].font_data@, c)
    } else {
        None
    }
}

/// The first entry from `i` on whose glyph is present and not `.notdef` (0).
pub open spec fn first_hit(chain: Seq<u64>, ids: Seq<Option<u16>>, i: int) -> Option<ResolvedGlyph>
    decreases chain.len() - i,
{
    if i < 0 || i >= chain.len() || i >= ids.len() {
        None
    } else {
        match ids[i] {
            Some(g) => if g != 0 {
                Some(ResolvedGlyph { font_handle: chain[i], glyph_id: g as u32 })
            } else {
                first_hit(chain, ids, i + 1)
            },
            None => first_hit(chain, ids, i + 1),
        }
    }
}

/// The glyphs of `c` in each font of `chain`.
pub open spec fn chain_ids(fonts: Map<u64, FontState>, chain: Seq<u64>, c: char) -> Seq<
    Option<u16>,
> {
    Seq::new(chain.len(), |i: int| glyph_in(fonts, chain[i], c))
}

/// The glyph character `c` resolves to through the chain of font `h`: the
/// first font of the chain with a glyph other than `.notdef`.
pub open spec fn resolve_spec(fonts: Map<u64, FontState>, h: u64, c: char) -> Option<ResolvedGlyph> {
    if fonts.contains_key(h) {
        first_hit(chain_of(fonts, h), chain_ids(fonts, chain_of(fonts, h), c), 0)
    } else {
        None
    }
}

/// The advance of glyph `g` in font `h`, in that font's units, when the
/// font is loaded and the id fits 16 bits.
pub open spec fn advance_spec(fonts: Map<u64, FontState>, h: u64, g: u32) -> Option<u16> {
    if fonts.contains_key(h) && g <= u16::MAX {
        face_hor_advance(fonts[h].font_data@, g as u16)
    } else {
        None
    }
}

/// A font followed by its fallbacks.
pub open spec fn chain_of(fonts: Map<u64, FontState>, h: u64) -> Seq<u64> {
    seq![h] + fonts[h].fallbacks@
}

/// The first glyph of `chain` that is present and not `.notdef`, given the
/// glyph found in each font of the chain (`ids[i]` for `chain[i]`).
pub fn pick_first_glyph(chain: &[u64], ids: &[Option<u16>]) -> (r: Option<ResolvedGlyph>)
    ensures
        r == first_hit(chain@, ids@, 0),
{
    let n = if chain.len() < ids.len() { chain.len() } else { ids.len() };
    let mut i: usize = 0;
    while i < n
        invariant
            n <= chain@.len(),
            n <= ids@.len(),
            n == chain@.len() || n == ids@.len(),
            i <= n,
            first_hit(chain@, ids@, 0) == first_hit(chain@, ids@, i as int),
        decreases n - i,
    {
        match ids[i] {
            Some(g) => {
                if g != 0 {
                    return Some(ResolvedGlyph { font_handle: chain[i], glyph_id: g as u32 });
                }
            },
            None => {},
        }
        i += 1;
    }
    None
}

impl FontRegistry {
    /// Every loaded handle is below the next handle, and handles start at 1.
    pub closed spec fn wf(&self) -> bool {
        &&& self.next_handle >= 1
        &&& forall|h: u64| #[trigger] self.fonts@.contains_key(h) ==> 1 <= h < self.next_handle
    }

    /// The loaded fonts.
    pub closed spec fn fonts(&self) -> Map<u64, FontState> {
        self.fonts@
    }

    /// The handle the next loaded font will get.
    pub closed spec fn next(&self) -> u64 {
        self.next_handle
    }

    /// No font loaded; the first handle is 1.
    pub fn new() -> (r: Self)
        ensures
            r.fonts() == Map::<u64, FontState>::empty(),
            r.next() == 1,
            r.wf(),
    {
        FontRegistry { next_handle: 1, fonts: HashMap::new() }
    }

    /// Hands out the next handle, or `None` once 2^64 - 1 were handed out.
    fn alloc_font_handle(&mut self) -> (r: Option<u64>)
        requires
            old(self).wf(),
        ensures
            final(self).fonts() == old(self).fonts(),
            old(self).next() == u64::MAX ==> r is None && final(self).next() == old(self).next(),
            old(self).next() < u64::MAX ==> r == Some(old(self).next()) && final(self).next()
                == old(self).next() + 1,
            r matches Some(h) ==> !old(self).fonts().contains_key(h) && 1 <= h,
            final(self).wf(),
    {
        if self.next_handle == u64::MAX {
            return None;
        }
        let h = self.next_handle;
        self.next_handle = h + 1;
        Some(h)
    }

    /// The glyph the face of font `handle` gives `ch`, when the font is
    /// loaded.
    pub fn cached_glyph_index(&self, handle: u64, ch: char) -> (r: Option<u32>)
        ensures
            r == (match glyph_in(self.fonts(), handle, ch) {
                Some(g) => Some(g as u32),
                None => None,
            }),
    {
        match self.fonts.get(&handle) {
            Some(st) => match face_glyph_index_of(st.font_data.as_slice(), ch) {
                Some(g) => Some(g as u32),
                None => None,
            },
            None => None,
        }
    }

    /// The number of glyphs of the face of font `handle`, when the font is
    /// loaded and parses.
    pub fn cached_glyph_count(&self, handle: u64) -> (r: Option<u32>)
        ensures
            r == (if self.fonts().contains_key(handle) && ttf_parses(
                self.fonts()[handle].font_data@,
            ) {
                Some(ttf_glyph_count(self.fonts()[handle].font_data@) as u32)
            } else {
                None
            }),
    {
        match self.fonts.get(&handle) {
            Some(st) => match face_glyph_count(st.font_data.as_slice()) {
                Some(n) => Some(n as u32),
                None => None,
            },
            None => None,
        }
    }

    /// Loads a font from its bytes. Gives its new handle, or 0 when
    /// `ttf_parser` rejects the bytes (or, after 2^64 - 1 loads, when no
    /// handle is left).
    pub fn load_font(&mut self, data: Vec<u8>) -> (h: u64)
        requires
            old(self).wf(),
        ensures
            final(self).wf(),
            h == 0 <==> !ttf_parses(data@) || old(self).next() == u64::MAX,
            h == 0 ==> final(self).fonts() == old(self).fonts() && final(self).next() == old(
                self,
            ).next(),
            h != 0 ==> {
                &&& h == old(self).next()
                &&& final(self).next() == h + 1
                &&& !old(self).fonts().contains_key(h)
                &&& final(self).fonts().contains_key(h)
                &&& final(self).fonts()[h].font_data@ == data@
                &&& final(self).fonts()[h].fallbacks@ == Seq::<u64>::empty()
                &&& final(self).fonts() == old(self).fonts().insert(h, final(self).fonts()[h])
            },
    {
        if face_glyph_count(data.as_slice()).is_none() {
            return 0;
        }
        let h = match self.alloc_font_handle() {
            Some(h) => h,
            None => {
                return 0;
            },
        };
        let st = FontState { font_data: data, fallbacks: Vec::new() };
        self.fonts.insert(h, st);
        h
    }

    /// Frees a font; true when the handle was loaded.
    pub fn free_font(&mut self, handle: u64) -> (r: bool)
        requires
            old(self).wf(),
        ensures
            final(self).wf(),
            r == old(self).fonts().contains_key(handle),
            final(self).fonts() == old(self).fonts().remove(handle),
            final(self).next() == old(self).next(),
    {
        let r = self.fonts.remove(&handle);
        r.is_some()
    }

    /// Appends `fallback_handle` to the fallback chain of `font_handle`.
    /// The fallback is checked first, then the font.
    pub fn add_fallback(&mut self, font_handle: u64, fallback_handle: u64) -> (r: Result<
        (),
        FontError,
    >)
        requires
            old(self).wf(),
        ensures
            final(self).wf(),
            !old(self).fonts().contains_key(fallback_handle) ==> r == Err::<(), FontError>(
                FontError::InvalidFallback,
            ),
            old(self).fonts().contains_key(fallback_handle) && !old(self).fonts().contains_key(
                font_handle,
            ) ==> r == Err::<(), FontError>(FontError::InvalidFont),
            r is Ok <==> old(self).fonts().contains_key(fallback_handle) && old(
                self,
            ).fonts().contains_key(font_handle),
            r is Err ==> final(self).fonts() == old(self).fonts(),
            r is Ok ==> {
                &&& final(self).fonts().dom() == old(self).fonts().dom()
                &&& final(self).fonts()[font_handle].fallbacks@ == old(
                    self,
                ).fonts()[font_handle].fallbacks@.push(fallback_handle)
                &&& final(self).fonts()[font_handle].font_data@ == old(
                    self,
                ).fonts()[font_handle].font_data@
                &&& forall|h: u64|
                    #![trigger final(self).fonts()[h]]
                    h != font_handle && old(self).fonts().contains_key(h) ==> final(self).fonts()[h]
                        == old(self).fonts()[h]
            },
            final(self).next() == old(self).next(),
    {
        if !self.fonts.contains_key(&fallback_handle) {
            return Err(FontError::InvalidFallback);
        }
        let st = self.fonts.remove(&font_handle);
        match st {
            Some(mut st) => {
                st.fallbacks.push(fallback_handle);
                self.fonts.insert(font_handle, st);
                assert(self.fonts@.dom() =~= old(self).fonts@.dom());
                Ok(())
            },
            None => {
                assert(self.fonts@ =~= old(self).fonts@);
                Err(FontError::InvalidFont)
            },
        }
    }

    /// The number of glyphs of a font, when it is loaded and parses.
    pub fn get_font_glyph_count(&self, handle: u64) -> (r: Option<u32>)
        ensures
            r == (if self.fonts().contains_key(handle) && ttf_parses(
                self.fonts()[handle].font_data@,
            ) {
                Some(ttf_glyph_count(self.fonts()[handle].font_data@) as u32)
            } else {
                None
            }),
    {
        self.cached_glyph_count(handle)
    }

    /// The font loaded under `handle`.
    pub fn get_font(&self, handle: u64) -> (r: Option<&FontState>)
        ensures
            r is Some <==> self.fonts().contains_key(handle),
            r matches Some(s) ==> *s == self.fonts()[handle],
    {
        self.fonts.get(&handle)
    }

    /// The first font of the chain of `font_handle` (the font, then its
    /// fallbacks in order) that has a glyph other than `.notdef` for `ch`.
    /// Fallbacks that are no longer loaded are skipped.
    pub fn resolve_char_with_fallback(&self, font_handle: u64, ch: char) -> (r: Option<
        ResolvedGlyph,
    >)
        ensures
            r == resolve_spec(self.fonts(), font_handle, ch),
    {
        let primary = match self.fonts.get(&font_handle) {
            Some(st) => st,
            None => {
                return None;
            },
        };
        let mut chain: Vec<u64> = Vec::new();
        chain.push(font_handle);
        let mut k: usize = 0;
        while k < primary.fallbacks.len()
            invariant
                chain@ == seq![font_handle] + primary.fallbacks@.take(k as int),
                k <= primary.fallbacks@.len(),
            decreases primary.fallbacks@.len() - k,
        {
            chain.push(primary.fallbacks[k]);
            k += 1;
            assert(chain@ =~= seq![font_handle] + primary.fallbacks@.take(k as int));
        }
        assert(primary.fallbacks@.take(k as int) =~= primary.fallbacks@);
        let ghost fonts = self.fonts();
        let mut ids: Vec<Option<u16>> = Vec::new();
        let mut i: usize = 0;
        while i < chain.len()
            invariant
                fonts == self.fonts(),
                i <= chain@.len(),
                ids@.len() == i,
                forall|j: int| 0 <= j < i ==> #[trigger] ids@[j] == glyph_in(fonts, chain@[j], ch),
            decreases chain@.len() - i,
        {
            let id = match self.cached_glyph_index(chain[i], ch) {
                Some(g) => Some(g as u16),
                None => None,
            };
            ids.push(id);
            i += 1;
        }
        assert(ids@ =~= chain_ids(fonts, chain@, ch));
        pick_first_glyph(chain.as_slice(), ids.as_slice())
    }
}

impl FontRegistry {
    /// The horizontal advance of glyph `glyph_id` in font `handle`, in the
    /// font's units; `None` for an unknown font, a glyph id beyond 16 bits,
    /// or a glyph without an advance.
    pub fn hor_advance(&self, handle: u64, glyph_id: u32) -> (r: Option<u16>)
        ensures
            r == advance_spec(self.fonts(), handle, glyph_id),
    {
        if glyph_id > 65535 {
            return None;
        }
        match self.fonts.get(&handle) {
            Some(st) => face_hor_advance_of(st.font_data.as_slice(), glyph_id as u16),
            None => None,
        }
    }
}

/// The outline box of glyph `g` of font `h` and the font's units per em,
/// when the font is loaded and parses and the id fits 16 bits.
pub open spec fn glyph_box_spec(fonts: Map<u64, FontState>, h: u64, g: u32) -> Option<
    (Option<(i16, i16, i16, i16)>, u16),
> {
    if g <= u16::MAX && fonts.contains_key(h) && ttf_parses(fonts[h].font_data@) {
        Some((face_glyph_box(fonts[h].font_data@, g as u16), face_units_per_em(fonts[h].font_data@)))
    } else {
        None
    }
}

/// The advance, in font units, of the glyph `ttf_parser` maps `c` to in
/// the face in `data` (`.notdef` when it has none).
pub open spec fn char_advance(data: Seq<u8>, c: char) -> Option<u16> {
    face_hor_advance(
        data,
        match face_glyph_index(data, c) {
            Some(g) => g,
            None => 0,
        },
    )
}

/// What measuring `t` in font `h` reads: the advance of each character,
/// the ascender, the descender and the units per em, when the font is
/// loaded and parses.
pub open spec fn text_metrics_spec(fonts: Map<u64, FontState>, h: u64, t: Seq<char>) -> Option<
    (Seq<Option<u16>>, i16, i16, u16),
> {
    if fonts.contains_key(h) && ttf_parses(fonts[h].font_data@) {
        let d = fonts[h].font_data@;
        Some(
            (
                Seq::new(t.len(), |i: int| char_advance(d, t[i])),
                face_ascender(d),
                face_descender(d),
                face_units_per_em(d),
            ),
        )
    } else {
        None
    }
}

impl FontRegistry {
    /// The units per em of the face of font `handle`; `None` for an
    /// unknown font or one that does not parse.
    pub fn units_per_em(&self, handle: u64) -> (r: Option<u16>)
        ensures
            r == (if self.fonts().contains_key(handle) && ttf_parses(self.fonts()[handle].font_data@) {
                Some(face_units_per_em(self.fonts()[handle].font_data@))
            } else {
                None
            }),
    {
        match self.fonts.get(&handle) {
            Some(st) => face_units_per_em_of(st.font_data.as_slice()),
            None => None,
        }
    }

    /// The outline box of a glyph and the units per em of its font; `None`
    /// for an unknown font, a font that does not parse, or a glyph id
    /// beyond 16 bits. The box is `None` for a glyph without an outline.
    pub fn glyph_box(&self, handle: u64, glyph_id: u32) -> (r: Option<
        (Option<(i16, i16, i16, i16)>, u16),
    >)
        ensures
            r == glyph_box_spec(self.fonts(), handle, glyph_id),
    {
        if glyph_id > 65535 {
            return None;
        }
        let st = match self.fonts.get(&handle) {
            Some(st) => st,
            None => {
                return None;
            },
        };
        let data = st.font_data.as_slice();
        let bbox = match face_glyph_box_of(data, glyph_id as u16) {
            Some(b) => b,
            None => {
                return None;
            },
        };
        match face_units_per_em_of(data) {
            Some(u) => Some((bbox, u)),
            None => None,
        }
    }

    /// The advance of each character of `text` in font `handle` (through
    /// the glyph it maps to, `.notdef` when none), with the font's
    /// ascender, descender and units per em; `None` for an unknown font or
    /// one that does not parse.
    pub fn text_metrics(&self, handle: u64, text: &str) -> (r: Option<
        (Vec<Option<u16>>, i16, i16, u16),
    >)
        ensures
            match (r, text_metrics_spec(self.fonts(), handle, text@)) {
                (Some((v, a, d, u)), Some((sv, sa, sd, su))) => v@ == sv && a == sa && d == sd && u
                    == su,
                (None, None) => true,
                _ => false,
            },
    {
        broadcast use vstd::string::axiom_spec_iter;

        let st = match self.fonts.get(&handle) {
            Some(st) => st,
            None => {
                return None;
            },
        };
        let data = st.font_data.as_slice();
        let upe = match face_units_per_em_of(data) {
            Some(u) => u,
            None => {
                return None;
            },
        };
        let asc = match face_ascender_of(data) {
            Some(a) => a,
            None => {
                return None;
            },
        };
        let desc = match face_descender_of(data) {
            Some(d) => d,
            None => {
                return None;
            },
        };
        let mut adv: Vec<Option<u16>> = Vec::new();
        for ch in it: text.chars()
            invariant
                it.seq() == text@,
                ttf_parses(data@),
                adv@.len() == it.index(),
                forall|j: int| 0 <= j < it.index() ==> #[trigger] adv@[j] == char_advance(data@, text@[j]),
        {
            let g = match face_glyph_index_of(data, ch) {
                Some(g) => g,
                None => 0,
            };
            adv.push(face_hor_advance_of(data, g));
        }
        assert(adv@ =~= Seq::new(text@.len(), |i: int| char_advance(data@, text@[i])));
        Some((adv, asc, desc, upe))
    }
}

/// Every loaded font's handle lies below the handle the next load hands
/// out, and the next handle only grows: a new font never gets a handle that
/// is in use or was in use before.
pub proof fn law_loaded_handles_below_next(r: &FontRegistry, h: u64)
    requires
        r.wf(),
        r.fonts().contains_key(h),
    ensures
        1 <= h < r.next(),
{
}

} // verus!
