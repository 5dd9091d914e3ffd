//! Shaping text into glyphs: the directional runs of the text, the font
//! each character resolves to, shaping each same-font piece with
//! `rustybuzz`, and resolving `.notdef` glyphs through the fallback chain.
//! Offsets and advances stay in font units; scaling them to a font size is
//! left to the caller.

use vstd::prelude::*;
use rustybuzz::{script, Direction, Face, Language, UnicodeBuffer};
use crate::fonts::{advance_spec, face_hor_advance, resolve_spec, ttf_parses, FontRegistry, FontState};
use crate::render::{char_from_u32, is_char_code};
use crate::rich_parse::{char_is_ws, chars_of, is_ws};
use crate::shaper::{
    first_script, font_runs, plan_runs, rtl_script, split_font_runs, FontRun, RtlScript, RunPlan,
    is_rtl_char,
};

verus! {

/// A glyph as the shaper gives it: glyph id, cluster (the byte offset of
/// its first character in the shaped text), x and y offset, x and y
/// advance, in font units.
pub type RawGlyph = (u32, u32, i32, i32, i32, i32);

/// The glyphs `rustybuzz` shapes `text` into with the face in `font`, in
/// the given direction, with the script set (or guessed for `Other`) and
/// the language `lang` when it is not empty.
pub uninterp spec fn shaped_glyphs(
    font: Seq<u8>,
    text: Seq<char>,
    rtl: bool,
    script: RtlScript,
    lang: Seq<char>,
) -> Seq<RawGlyph>;

/// Shapes `text` with `rustybuzz::shape` on the face parsed from
/// `font_data` (`rustybuzz::Face::from_slice`, which fails exactly when
/// `ttf_parser` rejects the bytes). The buffer's direction is set from
/// `rtl`; the script is set for Arabic and Hebrew and guessed otherwise;
/// the language is set when `lang` parses (any non-empty string does).
#[verifier::external_body]
fn shape_run(font_data: &[u8], text: &str, rtl: bool, script: RtlScript, lang: &str) -> (r: Option<
    Vec<RawGlyph>,
>)
    ensures
        r matches Some(v) ==> v@ == shaped_glyphs(font_data@, text@, rtl, script, lang@),
        r is None <==> !ttf_parses(font_data@),
{
    let face = Face::from_slice(font_data, 0)?;
    let mut buf = UnicodeBuffer::new();
    buf.push_str(text);
    buf.set_direction(if rtl { Direction::RightToLeft } else { Direction::LeftToRight });
    match script {
        RtlScript::Arabic => buf.set_script(script::ARABIC),
        RtlScript::Hebrew => buf.set_script(script::HEBREW),
        RtlScript::Other => buf.guess_segment_properties(),
    }
    if let Ok(l) = lang.parse::<Language>() {
        buf.set_language(l);
    }
    let out = rustybuzz::shape(&face, &[], buf);
    let pos = out.glyph_positions();
    Some(out.glyph_infos().iter().zip(pos).map(|(i, p)| (i.glyph_id, i.cluster, p.x_offset, p.y_offset, p.x_advance, p.y_advance)).collect())
}

/// The visual runs `unicode_bidi` finds in `text`, paragraph by paragraph:
/// byte start, byte end, and whether the run is right-to-left.
pub uninterp spec fn bidi_runs(text: Seq<char>) -> Seq<(usize, usize, bool)>;

/// Calls `unicode_bidi::BidiInfo::new(text, None)` and, for each
/// paragraph in order, `visual_runs` over the whole paragraph; each run is
/// given by its byte range and the direction of its level.
#[verifier::external_body]
fn visual_runs(text: &str) -> (r: Vec<(usize, usize, bool)>)
    ensures
        r@ == bidi_runs(text@),
{
    let info = unicode_bidi::BidiInfo::new(text, None);
    let mut out = Vec::new();
    for para in &info.paragraphs {
        let (levels, runs) = info.visual_runs(para, para.range.clone());
        for run in runs {
            out.push((run.start, run.end, levels[run.start].is_rtl()));
        }
    }
    out
}

/// True for the control characters (general category Cc): U+0000 to
/// U+001F and U+007F to U+009F.
pub open spec fn is_control(c: char) -> bool {
    let u = c as u32;
    u <= 0x1F || (0x7F <= u && u <= 0x9F)
}

/// Whether `c` is a control character (`char::is_control`).
pub fn char_is_control(c: char) -> (b: bool)
    ensures
        b == is_control(c),
{
    let u = c as u32;
    u <= 0x1F || (0x7F <= u && u <= 0x9F)
}

/// The number of bytes of the UTF-8 encoding of `c`.
pub open spec fn utf8_width(c: char) -> int {
    let u = c as u32;
    if u <= 0x7F {
        1
    } else if u <= 0x7FF {
        2
    } else if u <= 0xFFFF {
        3
    } else {
        4
    }
}

/// The byte offset of character `i` of `t` in its UTF-8 encoding.
pub open spec fn byte_pos(t: Seq<char>, i: int) -> int
    decreases i,
{
    if i <= 0 {
        0
    } else {
        byte_pos(t, i - 1) + utf8_width(t[i - 1])
    }
}

proof fn lemma_byte_pos_bounds(t: Seq<char>, i: int)
    requires
        0 <= i,
    ensures
        i <= byte_pos(t, i) <= 4 * i,
    decreases i,
{
    if i > 0 {
        lemma_byte_pos_bounds(t, i - 1);
    }
}

/// The byte offsets of every character of `t` and of its end.
pub fn byte_positions(t: &[char]) -> (v: Vec<usize>)
    requires
        t@.len() <= usize::MAX / 4,
    ensures
        v@.len() == t@.len() + 1,
        forall|i: int| 0 <= i <= t@.len() ==> #[trigger] v@[i] == byte_pos(t@, i),
{
    let n = t.len();
    let mut v: Vec<usize> = Vec::new();
    v.push(0);
    let mut b: usize = 0;
    let mut i: usize = 0;
    while i < n
        invariant
            n == t@.len(),
            n <= usize::MAX / 4,
            i <= n,
            v@.len() == i + 1,
            b == byte_pos(t@, i as int),
            forall|j: int| 0 <= j <= i ==> #[trigger] v@[j] == byte_pos(t@, j),
        decreases n - i,
    {
        proof {
            lemma_byte_pos_bounds(t@, i as int + 1);
        }
        let u = t[i] as u32;
        let w: usize = if u <= 0x7F {
            1
        } else if u <= 0x7FF {
            2
        } else if u <= 0xFFFF {
            3
        } else {
            4
        };
        b = b + w;
        v.push(b);
        i += 1;
    }
    v
}

/// The first character index from `i` on whose byte offset in `t` is `b`
/// (the end of the text counts as index `t.len()`).
pub open spec fn index_from(t: Seq<char>, b: int, i: int) -> Option<int>
    decreases t.len() + 1 - i,
{
    if i < 0 || i > t.len() {
        None
    } else if byte_pos(t, i) == b {
        Some(i)
    } else {
        index_from(t, b, i + 1)
    }
}

/// The index of the character that starts at byte `b` of the text whose
/// byte offsets are `pos` (see `byte_positions`).
fn index_of_byte(Ghost(t): Ghost<Seq<char>>, pos: &[usize], b: usize) -> (r: Option<usize>)
    requires
        pos@.len() == t.len() + 1,
        forall|i: int| 0 <= i <= t.len() ==> #[trigger] pos@[i] == byte_pos(t, i),
    ensures
        match r {
            Some(i) => index_from(t, b as int, 0) == Some(i as int),
            None => index_from(t, b as int, 0) is None,
        },
{
    let mut i: usize = 0;
    while i < pos.len()
        invariant
            pos@.len() == t.len() + 1,
            forall|j: int| 0 <= j <= t.len() ==> #[trigger] pos@[j] == byte_pos(t, j),
            i <= pos@.len(),
            index_from(t, b as int, 0) == index_from(t, b as int, i as int),
        decreases pos@.len() - i,
    {
        if pos[i] == b {
            return Some(i);
        }
        i += 1;
    }
    None
}


/// A shaped glyph in font units: the font and glyph drawn, the offsets and
/// advances, the font whose units the offsets and vertical advance are in
/// (`units_font`, the font the piece was shaped with), the font whose units
/// the horizontal advance is in (`advance_font`), the byte offset of its
/// cluster in the whole text, and the code of the character there.
#[derive(Debug, Clone, Copy, PartialEq, Eq, Structural)]
pub struct ShapedGlyphInt {
    pub font_handle: u64,
    pub glyph_id: u32,
    pub x_offset: i32,
    pub y_offset: i32,
    pub x_advance: i32,
    pub y_advance: i32,
    pub units_font: u64,
    pub advance_font: u64,
    pub cluster: u32,
    pub char_code: u32,
}

/// The font a character of the run is placed in: none for whitespace and
/// controls, else the font it resolves to through the chain of `h`.
pub open spec fn char_font_choice(fonts: Map<u64, FontState>, h: u64, c: char) -> Option<u64> {
    if is_ws(c) || is_control(c) {
        None
    } else {
        match resolve_spec(fonts, h, c) {
            Some(r) => Some(r.font_handle),
            None => None,
        }
    }
}

/// The language hint of a script: Arabic, Hebrew, or none.
pub open spec fn lang_spec(s: RtlScript) -> Seq<char> {
    match s {
        RtlScript::Arabic => "ar"@,
        RtlScript::Hebrew => "he"@,
        RtlScript::Other => ""@,
    }
}

/// The language hint of a script.
pub fn lang_of(s: RtlScript) -> (l: &'static str)
    ensures
        l@ == lang_spec(s),
{
    match s {
        RtlScript::Arabic => "ar",
        RtlScript::Hebrew => "he",
        RtlScript::Other => "",
    }
}

/// `(a + b) mod 2^32`.
pub open spec fn cluster_of(a: int, b: u32) -> u32 {
    ((a + b) % 4294967296) as u32
}

/// The code of the character starting at byte `c` of `t`; 0 past the end
/// of the text or inside a character.
pub open spec fn char_code_at(t: Seq<char>, c: u32) -> u32 {
    if c < byte_pos(t, t.len() as int) {
        match index_from(t, c as int, 0) {
            Some(i) => if i < t.len() { t[i] as u32 } else { 0 },
            None => 0,
        }
    } else {
        0
    }
}

/// A raw glyph of a piece shaped with font `pf` that starts at byte `pb` of
/// `t`, resolved: a `.notdef` glyph is replaced by what its character
/// resolves to through the chain of `h`, and a glyph taken from another
/// font gets that font's horizontal advance when it has one.
pub open spec fn resolved_glyph(
    fonts: Map<u64, FontState>,
    h: u64,
    t: Seq<char>,
    pb: int,
    pf: u64,
    g: RawGlyph,
) -> ShapedGlyphInt {
    let cluster = cluster_of(pb, g.1);
    let code = char_code_at(t, cluster);
    let (gid, gfont) = if g.0 == 0 && is_char_code(code) {
        match resolve_spec(fonts, h, code as char) {
            Some(r) => (r.glyph_id, r.font_handle),
            None => (g.0, pf),
        }
    } else {
        (g.0, pf)
    };
    let (xa, af) = if gid != 0 && gfont != pf {
        match advance_spec(fonts, gfont, gid) {
            Some(a) => (a as i32, gfont),
            None => (g.4, pf),
        }
    } else {
        (g.4, pf)
    };
    ShapedGlyphInt {
        font_handle: gfont,
        glyph_id: gid,
        x_offset: g.2,
        y_offset: g.3,
        x_advance: xa,
        y_advance: g.5,
        units_font: pf,
        advance_font: af,
        cluster,
        char_code: code,
    }
}

/// Resolves each raw glyph of a piece shaped with font `piece_font` that
/// starts at byte `piece_start` of the text whose characters are `chars`
/// and byte offsets `pos`.
pub fn resolve_shaped_glyphs(
    reg: &FontRegistry,
    font_handle: u64,
    chars: &[char],
    pos: &[usize],
    piece_start: usize,
    piece_font: u64,
    raw: &[RawGlyph],
) -> (r: Vec<ShapedGlyphInt>)
    requires
        pos@.len() == chars@.len() + 1,
        forall|i: int| 0 <= i <= chars@.len() ==> #[trigger] pos@[i] == byte_pos(chars@, i),
    ensures
        r@.len() == raw@.len(),
        forall|i: int|
            0 <= i < raw@.len() ==> #[trigger] r@[i] == resolved_glyph(
                reg.fonts(),
                font_handle,
                chars@,
                piece_start as int,
                piece_font,
                raw@[i],
            ),
{
    let mut out: Vec<ShapedGlyphInt> = Vec::new();
    let mut k: usize = 0;
    while k < raw.len()
        invariant
            pos@.len() == chars@.len() + 1,
            forall|i: int| 0 <= i <= chars@.len() ==> #[trigger] pos@[i] == byte_pos(chars@, i),
            k <= raw@.len(),
            out@.len() == k,
            forall|i: int|
                0 <= i < k ==> #[trigger] out@[i] == resolved_glyph(
                    reg.fonts(),
                    font_handle,
                    chars@,
                    piece_start as int,
                    piece_font,
                    raw@[i],
                ),
        decreases raw@.len() - k,
    {
        let g = resolve_one(reg, font_handle, chars, pos, piece_start, piece_font, raw[k]);
        out.push(g);
        k += 1;
    }
    out
}

fn resolve_one(
    reg: &FontRegistry,
    font_handle: u64,
    chars: &[char],
    pos: &[usize],
    piece_start: usize,
    piece_font: u64,
    g: RawGlyph,
) -> (r: ShapedGlyphInt)
    requires
        pos@.len() == chars@.len() + 1,
        forall|i: int| 0 <= i <= chars@.len() ==> #[trigger] pos@[i] == byte_pos(chars@, i),
    ensures
        r == resolved_glyph(reg.fonts(), font_handle, chars@, piece_start as int, piece_font, g),
{
    let m: u64 = 4294967296;
    let ps = piece_start as u64;
    let c64 = (ps % m + g.1 as u64) % m;
    proof {
        vstd::arithmetic::div_mod::lemma_add_mod_noop(ps as int, g.1 as int, m as int);
        vstd::arithmetic::div_mod::lemma_mod_twice(g.1 as int, m as int);
        vstd::arithmetic::div_mod::lemma_small_mod(g.1 as nat, m as nat);
    }
    let cluster = c64 as u32;
    assert(cluster == cluster_of(piece_start as int, g.1));
    let total = pos[chars.len()];
    assert(total == byte_pos(chars@, chars@.len() as int));
    let code: u32 = if (cluster as usize) < total {
        let found = index_of_byte(Ghost(chars@), pos, cluster as usize);
        assert(index_from(chars@, (cluster as usize) as int, 0) == index_from(chars@, cluster as int, 0));
        match found {
            Some(i) => if i < chars.len() {
                let ch = chars[i];
                assert(ch == chars@[i as int]);
                assert(char_code_at(chars@, cluster) == chars@[i as int] as u32);
                ch as u32
            } else {
                0
            },
            None => 0,
        }
    } else {
        0
    };
    assert(code == char_code_at(chars@, cluster));
    let mut gid = g.0;
    let mut gfont = piece_font;
    if g.0 == 0 {
        match char_from_u32(code) {
            Some(ch) => {
                proof {
                    vstd::utf8::char_u32_cast(ch, code);
                }
                match reg.resolve_char_with_fallback(font_handle, ch) {
                    Some(rg) => {
                        gid = rg.glyph_id;
                        gfont = rg.font_handle;
                    },
                    None => {},
                }
            },
            None => {},
        }
    }
    let mut xa = g.4;
    let mut af = piece_font;
    if gid != 0 && gfont != piece_font {
        match reg.hor_advance(gfont, gid) {
            Some(a) => {
                xa = a as i32;
                af = gfont;
            },
            None => {},
        }
    }
    ShapedGlyphInt {
        font_handle: gfont,
        glyph_id: gid,
        x_offset: g.2,
        y_offset: g.3,
        x_advance: xa,
        y_advance: g.5,
        units_font: piece_font,
        advance_font: af,
        cluster,
        char_code: code,
    }
}


/// The fonts the characters `t[cs..ce)` are placed in.
pub open spec fn run_char_fonts(fonts: Map<u64, FontState>, h: u64, t: Seq<char>, cs: int, ce: int) -> Seq<
    Option<u64>,
> {
    Seq::new((ce - cs) as nat, |i: int| char_font_choice(fonts, h, t[cs + i]))
}

/// The character indices `0..k`.
pub open spec fn char_offsets(k: nat) -> Seq<usize> {
    Seq::new(k, |i: int| i as usize)
}

/// The glyphs of one same-font piece of the span of `k` characters that
/// starts at character `cs` of `t` (piece bounds count characters from
/// `cs`): nothing when its font is not loaded or does not parse.
pub open spec fn piece_glyphs(
    fonts: Map<u64, FontState>,
    h: u64,
    t: Seq<char>,
    cs: int,
    k: int,
    rtl: bool,
    p: FontRun,
) -> Seq<ShapedGlyphInt> {
    if p.start <= p.end && p.end <= k && fonts.contains_key(p.font) && ttf_parses(
        fonts[p.font].font_data@,
    ) {
        let sub = t.subrange(cs + p.start, cs + p.end);
        let sc = if rtl { first_script(sub, 0) } else { RtlScript::Other };
        let raw = shaped_glyphs(fonts[p.font].font_data@, sub, rtl, sc, lang_spec(sc));
        Seq::new(
            raw.len(),
            |i: int| resolved_glyph(fonts, h, t, byte_pos(t, cs + p.start), p.font, raw[i]),
        )
    } else {
        Seq::empty()
    }
}

/// The glyphs of the first `j` pieces, in order.
pub open spec fn pieces_glyphs(
    fonts: Map<u64, FontState>,
    h: u64,
    t: Seq<char>,
    cs: int,
    k: int,
    rtl: bool,
    pieces: Seq<FontRun>,
    j: int,
) -> Seq<ShapedGlyphInt>
    decreases j,
{
    if j <= 0 {
        Seq::empty()
    } else {
        pieces_glyphs(fonts, h, t, cs, k, rtl, pieces, j - 1) + piece_glyphs(
            fonts,
            h,
            t,
            cs,
            k,
            rtl,
            pieces[j - 1],
        )
    }
}

/// The glyphs of the characters `t[cs..ce)` shaped as one directional run:
/// cut into same-font pieces, each shaped on its own.
pub open spec fn span_glyphs(
    fonts: Map<u64, FontState>,
    h: u64,
    t: Seq<char>,
    cs: int,
    ce: int,
    rtl: bool,
) -> Seq<ShapedGlyphInt> {
    let k = ce - cs;
    let pieces = font_runs(run_char_fonts(fonts, h, t, cs, ce), char_offsets(k as nat), h, k as usize);
    pieces_glyphs(fonts, h, t, cs, k, rtl, pieces, pieces.len() as int)
}

/// The glyphs of a visual run given by its byte range: nothing when the
/// range does not start and end between characters.
pub open spec fn bidi_run_glyphs(
    fonts: Map<u64, FontState>,
    h: u64,
    t: Seq<char>,
    run: (usize, usize, bool),
) -> Seq<ShapedGlyphInt> {
    match (index_from(t, run.0 as int, 0), index_from(t, run.1 as int, 0)) {
        (Some(cs), Some(ce)) => if cs <= ce {
            span_glyphs(fonts, h, t, cs, ce, run.2)
        } else {
            Seq::empty()
        },
        _ => Seq::empty(),
    }
}

/// The glyphs of the first `j` visual runs, in order.
pub open spec fn runs_glyphs(
    fonts: Map<u64, FontState>,
    h: u64,
    t: Seq<char>,
    runs: Seq<(usize, usize, bool)>,
    j: int,
) -> Seq<ShapedGlyphInt>
    decreases j,
{
    if j <= 0 {
        Seq::empty()
    } else {
        runs_glyphs(fonts, h, t, runs, j - 1) + bidi_run_glyphs(fonts, h, t, runs[j - 1])
    }
}

/// The glyphs of `t` in font `h` under bidirectional mode `mode`: in mode 0
/// a text with a right-to-left character is cut into the visual runs of
/// the bidirectional algorithm; otherwise it is one run, right-to-left in
/// mode 2.
pub open spec fn shape_spec(fonts: Map<u64, FontState>, h: u64, t: Seq<char>, mode: u32) -> Seq<
    ShapedGlyphInt,
> {
    if mode == 0 && exists|i: int| 0 <= i < t.len() && #[trigger] is_rtl_char(t[i]) {
        runs_glyphs(fonts, h, t, bidi_runs(t), bidi_runs(t).len() as int)
    } else {
        span_glyphs(fonts, h, t, 0, t.len() as int, mode == 2)
    }
}

/// The font a character is placed in (see `char_font_choice`).
fn char_font_choice_exec(reg: &FontRegistry, h: u64, c: char) -> (r: Option<u64>)
    ensures
        r == char_font_choice(reg.fonts(), h, c),
{
    if char_is_ws(c) || char_is_control(c) {
        None
    } else {
        match reg.resolve_char_with_fallback(h, c) {
            Some(g) => Some(g.font_handle),
            None => None,
        }
    }
}

/// Appends the glyphs of one piece.
fn shape_piece(
    reg: &FontRegistry,
    h: u64,
    text: &str,
    chars: &[char],
    pos: &[usize],
    cs: usize,
    k: usize,
    rtl: bool,
    p: FontRun,
    out: &mut Vec<ShapedGlyphInt>,
)
    requires
        chars@ == text@,
        cs + k <= chars@.len(),
        pos@.len() == chars@.len() + 1,
        forall|i: int| 0 <= i <= chars@.len() ==> #[trigger] pos@[i] == byte_pos(chars@, i),
    ensures
        final(out)@ == old(out)@ + piece_glyphs(reg.fonts(), h, chars@, cs as int, k as int, rtl, p),
{
    if !(p.start <= p.end && p.end <= k) {
        assert(old(out)@ + Seq::<ShapedGlyphInt>::empty() =~= old(out)@);
        return;
    }
    let font = match reg.get_font(p.font) {
        Some(f) => f,
        None => {
            assert(old(out)@ + Seq::<ShapedGlyphInt>::empty() =~= old(out)@);
            return;
        },
    };
    let n = chars.len();
    assert(cs + p.end <= n);
    let sub = text.substring_char(cs + p.start, cs + p.end);
    let sc = if rtl { rtl_script(sub) } else { RtlScript::Other };
    let lang = lang_of(sc);
    let raw = match shape_run(font.font_data.as_slice(), sub, rtl, sc, lang) {
        Some(v) => v,
        None => {
            assert(old(out)@ + Seq::<ShapedGlyphInt>::empty() =~= old(out)@);
            return;
        },
    };
    let mut gs = resolve_shaped_glyphs(reg, h, chars, pos, pos[cs + p.start], p.font, raw.as_slice());
    let ghost want = piece_glyphs(reg.fonts(), h, chars@, cs as int, k as int, rtl, p);
    assert(gs@ =~= want);
    out.append(&mut gs);
}

/// Appends the glyphs of the characters `chars[cs..ce)` shaped as one
/// directional run.
fn shape_span(
    reg: &FontRegistry,
    h: u64,
    text: &str,
    chars: &[char],
    pos: &[usize],
    cs: usize,
    ce: usize,
    rtl: bool,
    out: &mut Vec<ShapedGlyphInt>,
)
    requires
        chars@ == text@,
        cs <= ce <= chars@.len(),
        pos@.len() == chars@.len() + 1,
        forall|i: int| 0 <= i <= chars@.len() ==> #[trigger] pos@[i] == byte_pos(chars@, i),
    ensures
        final(out)@ == old(out)@ + span_glyphs(reg.fonts(), h, chars@, cs as int, ce as int, rtl),
{
    let k = ce - cs;
    let mut cf: Vec<Option<u64>> = Vec::new();
    let mut offs: Vec<usize> = Vec::new();
    let mut i: usize = 0;
    while i < k
        invariant
            k == ce - cs,
            cs <= ce <= chars@.len(),
            i <= k,
            cf@.len() == i,
            offs@.len() == i,
            forall|j: int| 0 <= j < i ==> #[trigger] cf@[j] == char_font_choice(reg.fonts(), h, chars@[cs + j]),
            forall|j: int| 0 <= j < i ==> #[trigger] offs@[j] == j as usize,
        decreases k - i,
    {
        cf.push(char_font_choice_exec(reg, h, chars[cs + i]));
        offs.push(i);
        i += 1;
    }
    assert(cf@ =~= run_char_fonts(reg.fonts(), h, chars@, cs as int, ce as int));
    assert(offs@ =~= char_offsets(k as nat));
    let pieces = split_font_runs(cf.as_slice(), offs.as_slice(), h, k);
    let ghost start = out@;
    let mut j: usize = 0;
    while j < pieces.len()
        invariant
            chars@ == text@,
            cs + k <= chars@.len(),
            pos@.len() == chars@.len() + 1,
            forall|i: int| 0 <= i <= chars@.len() ==> #[trigger] pos@[i] == byte_pos(chars@, i),
            j <= pieces@.len(),
            out@ == start + pieces_glyphs(reg.fonts(), h, chars@, cs as int, k as int, rtl, pieces@, j as int),
        decreases pieces@.len() - j,
    {
        shape_piece(reg, h, text, chars, pos, cs, k, rtl, pieces[j], out);
        j += 1;
        assert(out@ =~= start + pieces_glyphs(reg.fonts(), h, chars@, cs as int, k as int, rtl, pieces@, j as int));
    }
}

/// Shapes `text` in font `font_handle` (falling back per character along
/// its chain) under bidirectional mode `bidi_mode`, in font units. The
/// text's characters must fit four to a machine word's range of bytes, as
/// any text held in memory does.
pub fn shape_text_int(reg: &FontRegistry, font_handle: u64, text: &str, bidi_mode: u32) -> (r: Vec<
    ShapedGlyphInt,
>)
    requires
        text@.len() <= usize::MAX / 4,
    ensures
        r@ == shape_spec(reg.fonts(), font_handle, text@, bidi_mode),
{
    let chars = chars_of(text);
    let pos = byte_positions(chars.as_slice());
    let mut out: Vec<ShapedGlyphInt> = Vec::new();
    match plan_runs(bidi_mode, text) {
        RunPlan::Single { rtl } => {
            shape_span(reg, font_handle, text, chars.as_slice(), pos.as_slice(), 0, chars.len(), rtl, &mut out);
            assert(out@ =~= shape_spec(reg.fonts(), font_handle, text@, bidi_mode));
        },
        RunPlan::Bidi => {
            let runs = visual_runs(text);
            let mut j: usize = 0;
            while j < runs.len()
                invariant
                    chars@ == text@,
                    pos@.len() == chars@.len() + 1,
                    forall|i: int| 0 <= i <= chars@.len() ==> #[trigger] pos@[i] == byte_pos(chars@, i),
                    runs@ == bidi_runs(text@),
                    j <= runs@.len(),
                    out@ == runs_glyphs(reg.fonts(), font_handle, text@, runs@, j as int),
                decreases runs@.len() - j,
            {
                let run = runs[j];
                let ghost before = out@;
                let a = index_of_byte(Ghost(chars@), pos.as_slice(), run.0);
                let b = index_of_byte(Ghost(chars@), pos.as_slice(), run.1);
                match (a, b) {
                    (Some(cs), Some(ce)) => {
                        if cs <= ce {
                            proof {
                                lemma_index_in_range(chars@, run.1 as int, 0);
                            }
                            shape_span(reg, font_handle, text, chars.as_slice(), pos.as_slice(), cs, ce, run.2, &mut out);
                        } else {
                            assert(out@ =~= before + Seq::<ShapedGlyphInt>::empty());
                        }
                    },
                    _ => {
                        assert(out@ =~= before + Seq::<ShapedGlyphInt>::empty());
                    },
                }
                j += 1;
            }
            assert(out@ =~= shape_spec(reg.fonts(), font_handle, text@, bidi_mode));
        },
    }
    out
}

proof fn lemma_index_in_range(t: Seq<char>, b: int, i: int)
    ensures
        index_from(t, b, i) matches Some(j) ==> i <= j <= t.len(),
    decreases t.len() + 1 - i,
{
    if 0 <= i <= t.len() && byte_pos(t, i) != b {
        lemma_index_in_range(t, b, i + 1);
    }
}


/// How a shaped glyph is resolved. A glyph other than `.notdef` keeps its
/// id and the font of its piece. A `.notdef` glyph whose character the
/// chain of `h` resolves takes the glyph and font found there. When the
/// glyph ends up in a font other than the piece's font and that font
/// reports a horizontal advance for it, that advance, in that font's units,
/// replaces the shaper's; otherwise the shaper's advance stays, in the
/// piece font's units. Offsets and the vertical advance always stay.
pub proof fn law_resolved_glyph(
    fonts: Map<u64, FontState>,
    h: u64,
    t: Seq<char>,
    pb: int,
    pf: u64,
    g: RawGlyph,
)
    ensures
        ({
            let r = resolved_glyph(fonts, h, t, pb, pf, g);
            let code = r.char_code;
            &&& g.0 != 0 ==> r.glyph_id == g.0 && r.font_handle == pf
            &&& g.0 == 0 && is_char_code(code) && resolve_spec(fonts, h, code as char) is Some ==> {
                &&& r.glyph_id == resolve_spec(fonts, h, code as char)->0.glyph_id
                &&& r.font_handle == resolve_spec(fonts, h, code as char)->0.font_handle
            }
            &&& (r.glyph_id != 0 && r.font_handle != pf && fonts.contains_key(r.font_handle)
                && r.glyph_id <= u16::MAX && face_hor_advance(
                fonts[r.font_handle].font_data@,
                r.glyph_id as u16,
            ) is Some) ==> {
                &&& r.x_advance == face_hor_advance(
                    fonts[r.font_handle].font_data@,
                    r.glyph_id as u16,
                )->0 as i32
                &&& r.advance_font == r.font_handle
            }
            &&& !(r.glyph_id != 0 && r.font_handle != pf && fonts.contains_key(r.font_handle)
                && r.glyph_id <= u16::MAX && face_hor_advance(
                fonts[r.font_handle].font_data@,
                r.glyph_id as u16,
            ) is Some) ==> r.x_advance == g.4 && r.advance_font == pf
            &&& r.x_offset == g.2 && r.y_offset == g.3 && r.y_advance == g.5 && r.units_font == pf
        }),
{
}

} // verus!
