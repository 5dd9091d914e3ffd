//! Per-thread render settings: the destination buffer, padding and spread,
//! and the distance-field mode, with the checks made before a glyph is
//! rendered into the buffer.

use vstd::prelude::*;
use std::collections::HashSet;
use crate::fonts::{FontRegistry, ResolvedGlyph, first_hit, chain_of, chain_ids};

verus! {

broadcast use vstd::std_specs::hash::group_hash_axioms;

/// The kind of distance field rendered.
#[derive(Debug, Clone, Copy, PartialEq, Eq, Structural)]
pub enum RenderMode {
    Sdf,
    /// Rendered as `Sdf`: there is no separate pseudo-distance generator.
    Psdf,
    Msdf,
    Mtsdf,
}

/// The number of a render mode.
pub open spec fn mode_number(m: RenderMode) -> u32 {
    match m {
        RenderMode::Sdf => 0,
        RenderMode::Psdf => 1,
        RenderMode::Msdf => 2,
        RenderMode::Mtsdf => 3,
    }
}

/// The render mode with number `v`, if any.
pub open spec fn mode_of_number(v: u32) -> Option<RenderMode> {
    if v == 0 {
        Some(RenderMode::Sdf)
    } else if v == 1 {
        Some(RenderMode::Psdf)
    } else if v == 2 {
        Some(RenderMode::Msdf)
    } else if v == 3 {
        Some(RenderMode::Mtsdf)
    } else {
        None
    }
}

impl RenderMode {
    /// The render mode with number `v`, if any.
    pub fn from_u32(v: u32) -> (r: Option<RenderMode>)
        ensures
            r == mode_of_number(v),
    {
        match v {
            0 => Some(RenderMode::Sdf),
            1 => Some(RenderMode::Psdf),
            2 => Some(RenderMode::Msdf),
            3 => Some(RenderMode::Mtsdf),
            _ => None,
        }
    }

    /// The number of this render mode.
    pub fn number(self) -> (v: u32)
        ensures
            v == mode_number(self),
    {
        match self {
            RenderMode::Sdf => 0,
            RenderMode::Psdf => 1,
            RenderMode::Msdf => 2,
            RenderMode::Mtsdf => 3,
        }
    }

    /// Bytes written per pixel: every mode writes RGBA8.
    pub fn bytes_per_pixel(self) -> (n: usize)
        ensures
            n == 4,
    {
        4
    }
}

/// The destination buffer: its address (0 when none is set) and size in
/// pixels.
#[derive(Debug, Clone, Copy)]
pub struct RenderBuffer {
    pub addr: usize,
    pub width: u32,
    pub height: u32,
}

impl Default for RenderBuffer {
    fn default() -> (b: Self)
        ensures
            b.addr == 0 && b.width == 0 && b.height == 0,
    {
        RenderBuffer { addr: 0, width: 0, height: 0 }
    }
}

/// Padding around a glyph and the distance spread, in pixels.
#[derive(Debug, Clone, Copy)]
pub struct RenderParams {
    pub padding: u32,
    pub spread: u32,
}

impl Default for RenderParams {
    fn default() -> (p: Self)
        ensures
            p.padding == 0 && p.spread == 0,
    {
        RenderParams { padding: 0, spread: 0 }
    }
}

/// The render settings of one thread.
#[derive(Debug, Clone, Copy)]
pub struct RenderState {
    pub buffer: RenderBuffer,
    pub params: RenderParams,
    pub mode: RenderMode,
}

impl RenderState {
    /// No buffer, zero padding and spread, `Sdf` mode.
    pub fn new() -> (s: Self)
        ensures
            s.buffer.addr == 0 && s.buffer.width == 0 && s.buffer.height == 0,
            s.params.padding == 0 && s.params.spread == 0,
            s.mode == RenderMode::Sdf,
    {
        RenderState {
            buffer: RenderBuffer::default(),
            params: RenderParams::default(),
            mode: RenderMode::Sdf,
        }
    }
}

/// A mode set by its number reads back as that number.
pub proof fn law_mode_number_roundtrip(v: u32)
    ensures
        mode_of_number(v) matches Some(m) ==> mode_number(m) == v,
        forall|m: RenderMode| mode_of_number(#[trigger] mode_number(m)) == Some(m),
{
}

/// Sets the render buffer (address and dimensions).
pub fn set_render_buffer(s: &mut RenderState, addr: usize, width: u32, height: u32)
    ensures
        final(s).buffer.addr == addr,
        final(s).buffer.width == width,
        final(s).buffer.height == height,
        final(s).params == old(s).params,
        final(s).mode == old(s).mode,
{
    s.buffer.addr = addr;
    s.buffer.width = width;
    s.buffer.height = height;
}

/// Clears the render buffer so that no stale address is written to.
pub fn clear_render_buffer(s: &mut RenderState)
    ensures
        final(s).buffer.addr == 0,
        final(s).buffer.width == 0,
        final(s).buffer.height == 0,
        final(s).params == old(s).params,
        final(s).mode == old(s).mode,
{
    s.buffer.addr = 0;
    s.buffer.width = 0;
    s.buffer.height = 0;
}

/// Sets the padding and spread.
pub fn set_render_params(s: &mut RenderState, padding: u32, spread: u32)
    ensures
        final(s).params.padding == padding,
        final(s).params.spread == spread,
        final(s).buffer == old(s).buffer,
        final(s).mode == old(s).mode,
{
    s.params.padding = padding;
    s.params.spread = spread;
}

/// Sets the render mode by number; an unknown number changes nothing and
/// gives `false`.
pub fn set_render_mode(s: &mut RenderState, mode: u32) -> (ok: bool)
    ensures
        ok == (mode_of_number(mode) is Some),
        ok ==> final(s).mode == mode_of_number(mode)->0,
        !ok ==> final(s).mode == old(s).mode,
        final(s).buffer == old(s).buffer,
        final(s).params == old(s).params,
{
    match RenderMode::from_u32(mode) {
        Some(m) => {
            s.mode = m;
            true
        },
        None => false,
    }
}

/// The number of the current render mode.
pub fn get_render_mode(s: &RenderState) -> (v: u32)
    ensures
        v == mode_number(s.mode),
{
    s.mode.number()
}

/// Bytes per pixel of the current render mode.
pub fn get_render_bytes_per_pixel(s: &RenderState) -> (n: u32)
    ensures
        n == 4,
{
    s.mode.bytes_per_pixel() as u32
}

/// Why a glyph cannot be rendered into the buffer.
#[derive(Debug, Clone, Copy, PartialEq, Eq, Structural)]
pub enum RenderError {
    BufferNotSet,
    ZeroDimensions,
    GlyphIdOutOfRange,
    InvalidCharCode,
    GlyphNotFound,
}

impl RenderError {
    /// The message reported for this error.
    pub fn message(self) -> (m: &'static str)
        ensures
            m@ == (match self {
                RenderError::BufferNotSet => "render buffer not set"@,
                RenderError::ZeroDimensions => "zero buffer dimensions"@,
                RenderError::GlyphIdOutOfRange => "glyph id out of ttf range"@,
                RenderError::InvalidCharCode => "invalid character code"@,
                RenderError::GlyphNotFound => "glyph not found in primary font or fallback chain"@,
            }),
    {
        match self {
            RenderError::BufferNotSet => "render buffer not set",
            RenderError::ZeroDimensions => "zero buffer dimensions",
            RenderError::GlyphIdOutOfRange => "glyph id out of ttf range",
            RenderError::InvalidCharCode => "invalid character code",
            RenderError::GlyphNotFound => "glyph not found in primary font or fallback chain",
        }
    }
}

/// What a render needs once the settings have been checked.
#[derive(Debug, Clone, Copy)]
pub struct RenderJob {
    pub mode: RenderMode,
    pub glyph: u16,
    pub addr: usize,
    pub width: u32,
    pub height: u32,
    pub padding: u32,
    pub spread: u32,
    /// Bytes of the destination: width * height * 4, saturating.
    pub total_bytes: usize,
}

/// `a * b`, or `usize::MAX` when that does not fit.
pub open spec fn sat_mul_usize(a: int, b: int) -> int {
    if a * b > usize::MAX {
        usize::MAX as int
    } else {
        a * b
    }
}

/// Checks the settings before rendering glyph `glyph_id`: a buffer must be
/// set, both its dimensions nonzero, and the glyph id a 16-bit id.
pub fn render_preflight(s: &RenderState, glyph_id: u32) -> (r: Result<RenderJob, RenderError>)
    ensures
        s.buffer.addr == 0 ==> r == Err::<RenderJob, RenderError>(RenderError::BufferNotSet),
        s.buffer.addr != 0 && (s.buffer.width == 0 || s.buffer.height == 0) ==> r == Err::<
            RenderJob,
            RenderError,
        >(RenderError::ZeroDimensions),
        s.buffer.addr != 0 && s.buffer.width != 0 && s.buffer.height != 0 && glyph_id
            > u16::MAX ==> r == Err::<RenderJob, RenderError>(RenderError::GlyphIdOutOfRange),
        r is Ok <==> s.buffer.addr != 0 && s.buffer.width != 0 && s.buffer.height != 0 && glyph_id
            <= u16::MAX,
        r matches Ok(j) ==> {
            &&& j.mode == s.mode
            &&& j.glyph == glyph_id
            &&& j.addr == s.buffer.addr
            &&& j.width == s.buffer.width
            &&& j.height == s.buffer.height
            &&& j.padding == s.params.padding
            &&& j.spread == s.params.spread
            &&& j.total_bytes == sat_mul_usize(sat_mul_usize(j.width as int, j.height as int), 4)
            &&& j.total_bytes > 0
        },
{
    if s.buffer.addr == 0 {
        return Err(RenderError::BufferNotSet);
    }
    if s.buffer.width == 0 || s.buffer.height == 0 {
        return Err(RenderError::ZeroDimensions);
    }
    if glyph_id > 65535 {
        return Err(RenderError::GlyphIdOutOfRange);
    }
    let w = s.buffer.width as usize;
    let h = s.buffer.height as usize;
    let wh = match w.checked_mul(h) {
        Some(v) => v,
        None => usize::MAX,
    };
    let total = match wh.checked_mul(4) {
        Some(v) => v,
        None => usize::MAX,
    };
    assert(w * h >= 1) by (nonlinear_arith)
        requires
            w >= 1,
            h >= 1,
    ;
    Ok(
        RenderJob {
            mode: s.mode,
            glyph: glyph_id as u16,
            addr: s.buffer.addr,
            width: s.buffer.width,
            height: s.buffer.height,
            padding: s.params.padding,
            spread: s.params.spread,
            total_bytes: total,
        },
    )
}

/// The rendered extent along one axis: the glyph's pixels plus padding on
/// both sides, at most `limit` and at least 1.
pub fn render_extent(glyph_px: u32, padding: u32, limit: u32) -> (e: u32)
    requires
        glyph_px + (if 2 * padding > u32::MAX { u32::MAX as int } else { 2 * padding })
            <= u32::MAX,
    ensures
        e == ({
            let padded = glyph_px + (if 2 * padding > u32::MAX {
                u32::MAX as int
            } else {
                2 * padding
            });
            let clipped = if padded < limit { padded } else { limit as int };
            if clipped < 1 { 1 } else { clipped }
        }),
{
    let pad2: u32 = if padding > 2147483647 { 4294967295 } else { padding * 2 };
    let padded = glyph_px + pad2;
    let clipped = if padded < limit { padded } else { limit };
    if clipped < 1 { 1 } else { clipped }
}

/// The fonts whose cached faces were dropped when the fonts were freed; a
/// worker discards its cached face for such a font on next use.
pub struct FreedFaces {
    pub handles: HashSet<u64>,
}

impl FreedFaces {
    /// No font freed yet.
    pub fn new() -> (f: Self)
        ensures
            f.handles@ == Set::<u64>::empty(),
    {
        FreedFaces { handles: HashSet::new() }
    }

    /// True when the cached face of `font_handle` must be dropped.
    pub fn is_freed(&self, font_handle: u64) -> (b: bool)
        ensures
            b == self.handles@.contains(font_handle),
    {
        self.handles.contains(&font_handle)
    }
}

/// Marks the cached faces of `font_handle` as stale.
pub fn invalidate_ttf_face_cache(freed: &mut FreedFaces, font_handle: u64)
    ensures
        final(freed).handles@ == old(freed).handles@.insert(font_handle),
{
    freed.handles.insert(font_handle);
}

/// True when `u` is a Unicode scalar value.
pub open spec fn is_char_code(u: u32) -> bool {
    u <= 0x10FFFF && !(0xD800 <= u <= 0xDFFF)
}

/// Calls `char::from_u32`, which gives the character of a Unicode scalar
/// value and `None` for any other number.
#[verifier::external_body]
pub(crate) fn char_from_u32(u: u32) -> (r: Option<char>)
    ensures
        r is Some <==> is_char_code(u),
        r matches Some(c) ==> c as u32 == u,
{
    char::from_u32(u)
}

/// The font and glyph a character code is rendered with: the first font of
/// the chain of `font_handle` with a glyph for it.
pub fn resolve_render_char(fonts: &FontRegistry, font_handle: u64, char_code: u32) -> (r: Result<
    ResolvedGlyph,
    RenderError,
>)
    ensures
        !is_char_code(char_code) ==> r == Err::<ResolvedGlyph, RenderError>(
            RenderError::InvalidCharCode,
        ),
        is_char_code(char_code) ==> (match r {
            Ok(g) => Some(g) == resolved_in(fonts, font_handle, char_code as char),
            Err(e) => e == RenderError::GlyphNotFound && resolved_in(
                fonts,
                font_handle,
                char_code as char,
            ) is None,
        }),
{
    let ch = match char_from_u32(char_code) {
        Some(c) => c,
        None => {
            return Err(RenderError::InvalidCharCode);
        },
    };
    proof {
        vstd::utf8::char_u32_cast(ch, char_code);
    }
    match fonts.resolve_char_with_fallback(font_handle, ch) {
        Some(g) => {
            assert(Some(g) == resolved_in(fonts, font_handle, ch));
            Ok(g)
        },
        None => {
            assert(resolved_in(fonts, font_handle, ch) is None);
            Err(RenderError::GlyphNotFound)
        },
    }
}

/// What `resolve_char_with_fallback` gives for `c`.
pub open spec fn resolved_in(fonts: &FontRegistry, h: u64, c: char) -> Option<ResolvedGlyph> {
    if fonts.fonts().contains_key(h) {
        first_hit(chain_of(fonts.fonts(), h), chain_ids(fonts.fonts(), chain_of(fonts.fonts(), h), c), 0)
    } else {
        None
    }
}

} // verus!
