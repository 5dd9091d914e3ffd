//! Handing the pixels of the last polled asynchronous glyph to the caller:
//! copied as they are, or laid out top-left in a zeroed destination of a
//! given row stride.

use vstd::prelude::*;

verus! {

/// The pixels of a rendered glyph: `width` by `height` RGBA8 pixels, row
/// by row.
pub struct PixelResult {
    pub width: u32,
    pub height: u32,
    pub pixels: Vec<u8>,
}

/// Why pixels could not be handed over.
#[derive(Debug, Clone, Copy, PartialEq, Eq, Structural)]
pub enum UploadError {
    EmptyDestination,
    NoResult,
    BufferTooSmall,
    GlyphTooLarge,
    ShortPixels,
}

impl UploadError {
    /// The message reported for this error.
    pub fn message(self) -> (m: &'static str)
        ensures
            m@ == (match self {
                UploadError::EmptyDestination => "empty destination buffer"@,
                UploadError::NoResult => "no async result waiting"@,
                UploadError::BufferTooSmall => "buffer too small for strided glyph upload"@,
                UploadError::GlyphTooLarge => "glyph larger than upload stride"@,
                UploadError::ShortPixels => "async pixel buffer shorter than glyph size"@,
            }),
    {
        match self {
            UploadError::EmptyDestination => "empty destination buffer",
            UploadError::NoResult => "no async result waiting",
            UploadError::BufferTooSmall => "buffer too small for strided glyph upload",
            UploadError::GlyphTooLarge => "glyph larger than upload stride",
            UploadError::ShortPixels => "async pixel buffer shorter than glyph size",
        }
    }

    /// The code returned for this error: -2 for a glyph larger than the
    /// stride, -1 otherwise.
    pub fn code(self) -> (c: i32)
        ensures
            c == (if self == UploadError::GlyphTooLarge { -2i32 } else { -1i32 }),
    {
        match self {
            UploadError::GlyphTooLarge => -2,
            _ => -1,
        }
    }
}

/// The greeting that identifies the library and its version.
pub fn rusty_sdf_ping() -> (s: String)
    ensures
        s@ == "RustySDF v0.1.0"@,
{
    "RustySDF v0.1.0".to_owned()
}

/// Copies the held pixels, as many as fit, to `dst` and gives their count;
/// the held result is used up.
pub fn poll_glyph_pixels(slot: &mut Option<PixelResult>, dst: &mut [u8]) -> (r: Result<
    usize,
    UploadError,
>)
    ensures
        old(dst)@.len() == 0 ==> r == Err::<usize, UploadError>(UploadError::EmptyDestination)
            && *final(slot) == *old(slot) && final(dst)@ == old(dst)@,
        old(dst)@.len() > 0 && *old(slot) is None ==> r == Err::<usize, UploadError>(
            UploadError::NoResult,
        ) && *final(slot) is None && final(dst)@ == old(dst)@,
        old(dst)@.len() > 0 && *old(slot) is Some ==> {
            let p = (*old(slot))->0.pixels@;
            let n = if p.len() < old(dst)@.len() { p.len() } else { old(dst)@.len() };
            &&& *final(slot) is None
            &&& r == Ok::<usize, UploadError>(n as usize)
            &&& final(dst)@ == p.subrange(0, n as int) + old(dst)@.subrange(
                n as int,
                old(dst)@.len() as int,
            )
        },
{
    if dst.len() == 0 {
        return Err(UploadError::EmptyDestination);
    }
    let mut held: Option<PixelResult> = None;
    std::mem::swap(&mut held, slot);
    let res = match held {
        Some(res) => res,
        None => {
            return Err(UploadError::NoResult);
        },
    };
    let p = &res.pixels;
    let n = if p.len() < dst.len() { p.len() } else { dst.len() };
    let mut i: usize = 0;
    while i < n
        invariant
            n <= p@.len(),
            n <= dst@.len(),
            dst@.len() == old(dst)@.len(),
            i <= n,
            forall|k: int| 0 <= k < i ==> #[trigger] dst@[k] == p@[k],
            forall|k: int| n <= k < dst@.len() ==> #[trigger] dst@[k] == old(dst)@[k],
        decreases n - i,
    {
        dst[i] = p[i];
        i += 1;
    }
    assert(dst@ =~= p@.subrange(0, n as int) + old(dst)@.subrange(n as int, old(dst)@.len() as int));
    Ok(n)
}

/// Byte `x` of row `y` when rows are `stride` bytes apart.
pub open spec fn cell(stride: int, y: int, x: int) -> int {
    y * stride + x
}

proof fn lemma_cell(stride: int, y: int, x: int, y2: int, x2: int, rows: int)
    requires
        0 <= x < stride,
        0 <= x2 < stride,
        0 <= y,
        0 <= y2,
        y < rows,
    ensures
        cell(stride, y, x) < rows * stride,
        0 <= cell(stride, y, x),
        cell(stride, y, x) == cell(stride, y2, x2) ==> y == y2 && x == x2,
{
    assert(cell(stride, y, x) < rows * stride) by (nonlinear_arith)
        requires
            0 <= x < stride,
            0 <= y < rows,
    {
        assert(y * stride + x < y * stride + stride);
        assert((y + 1) * stride <= rows * stride);
    }
    assert(0 <= y * stride) by (nonlinear_arith)
        requires
            0 <= y,
            0 <= stride,
    ;
    if cell(stride, y, x) == cell(stride, y2, x2) {
        if y < y2 {
            assert(y * stride + x < y2 * stride) by (nonlinear_arith)
                requires
                    0 <= x < stride,
                    y < y2,
            {
                assert((y + 1) * stride <= y2 * stride);
            }
            assert(y2 * stride <= y2 * stride + x2);
        } else if y2 < y {
            assert(y2 * stride + x2 < y * stride) by (nonlinear_arith)
                requires
                    0 <= x2 < stride,
                    y2 < y,
            {
                assert((y2 + 1) * stride <= y * stride);
            }
        }
    }
}

/// The bytes of a strided upload: `need` bytes, rows of `dst_stride` bytes,
/// row `y` below `gh` starting with the `src_stride` bytes of pixel row
/// `y`, all else zero.
pub open spec fn strided_byte(
    pixels: Seq<u8>,
    src_stride: int,
    gh: int,
    dst_stride: int,
    y: int,
    x: int,
) -> u8 {
    if y < gh && x < src_stride {
        pixels[cell(src_stride, y, x)]
    } else {
        0u8
    }
}

/// Lays the held glyph out top-left in the first `stride_w * stride_h * 4`
/// bytes of `dst` (RGBA8 rows of `stride_w` pixels), zeroing the rest of
/// them. An empty glyph zeroes them and gives 0; a glyph wider or taller
/// than the stride is put back and refused; a glyph whose pixels are
/// missing is used up and refused.
#[verifier::rlimit(50)]
pub fn poll_glyph_pixels_strided(
    slot: &mut Option<PixelResult>,
    dst: &mut [u8],
    stride_w: usize,
    stride_h: usize,
) -> (r: Result<usize, UploadError>)
    ensures
        ({
            let need = stride_w * stride_h * 4;
            &&& final(dst)@.len() == old(dst)@.len()
            &&& (need == 0 || need > usize::MAX || old(dst)@.len() < need) ==> r == Err::<
                usize,
                UploadError,
            >(UploadError::BufferTooSmall) && *final(slot) == *old(slot) && final(dst)@ == old(
                dst,
            )@
            &&& 0 < need <= old(dst)@.len() && *old(slot) is None ==> r == Err::<
                usize,
                UploadError,
            >(UploadError::NoResult) && *final(slot) is None && final(dst)@ == old(dst)@
            &&& 0 < need <= old(dst)@.len() && *old(slot) is Some ==> {
                let g = (*old(slot))->0;
                let gw = g.width as int;
                let gh = g.height as int;
                if gw == 0 || gh == 0 || g.pixels@.len() == 0 {
                    &&& r == Ok::<usize, UploadError>(0)
                    &&& *final(slot) is None
                    &&& forall|k: int| 0 <= k < need ==> #[trigger] final(dst)@[k] == 0
                    &&& forall|k: int| need <= k < old(dst)@.len() ==> #[trigger] final(dst)@[k]
                        == old(dst)@[k]
                } else if gw > stride_w || gh > stride_h {
                    &&& r == Err::<usize, UploadError>(UploadError::GlyphTooLarge)
                    &&& *final(slot) == *old(slot)
                    &&& final(dst)@ == old(dst)@
                } else if g.pixels@.len() < gw * 4 * gh {
                    &&& r == Err::<usize, UploadError>(UploadError::ShortPixels)
                    &&& *final(slot) is None
                    &&& final(dst)@ == old(dst)@
                } else {
                    &&& r == Ok::<usize, UploadError>(need as usize)
                    &&& *final(slot) is None
                    &&& forall|y: int, x: int|
                        0 <= y < stride_h && 0 <= x < stride_w * 4 ==> #[trigger] final(dst)@[cell(
                            stride_w * 4,
                            y,
                            x,
                        )] == strided_byte(g.pixels@, gw * 4, gh, stride_w * 4, y, x)
                    &&& forall|k: int| need <= k < old(dst)@.len() ==> #[trigger] final(dst)@[k]
                        == old(dst)@[k]
                }
            }
        }),
{
    let need: usize = match stride_w.checked_mul(stride_h) {
        Some(px) => match px.checked_mul(4) {
            Some(n) => n,
            None => 0,
        },
        None => 0,
    };
    let dlen = dst.len();
    let ghost spec_need = stride_w * stride_h * 4;
    proof {
        if stride_w * stride_h > usize::MAX {
            assert(stride_w * stride_h * 4 > usize::MAX) by (nonlinear_arith)
                requires
                    stride_w * stride_h > usize::MAX,
            ;
        }
        assert(need == 0 ==> spec_need == 0 || spec_need > usize::MAX);
        assert(need != 0 ==> need == spec_need);
    }
    if need == 0 || dlen < need {
        return Err(UploadError::BufferTooSmall);
    }
    let mut held: Option<PixelResult> = None;
    std::mem::swap(&mut held, slot);
    let res = match held {
        Some(res) => res,
        None => {
            return Err(UploadError::NoResult);
        },
    };
    let gw = res.width as usize;
    let gh = res.height as usize;
    if gw == 0 || gh == 0 || res.pixels.len() == 0 {
        zero_prefix(dst, need);
        return Ok(0);
    }
    if gw > stride_w || gh > stride_h {
        *slot = Some(res);
        return Err(UploadError::GlyphTooLarge);
    }
    proof {
        assert(stride_w * 4 <= stride_w * stride_h * 4) by (nonlinear_arith)
            requires
                stride_h >= 1,
        ;
        assert(stride_h >= 1) by (nonlinear_arith)
            requires
                stride_w * stride_h * 4 > 0,
        ;
    }
    let src_stride = gw * 4;
    let dst_stride = stride_w * 4;
    proof {
        assert(gw * 4 <= stride_w * 4);
        assert(gw * 4 * gh <= stride_w * 4 * stride_h) by (nonlinear_arith)
            requires
                gw <= stride_w,
                gh <= stride_h,
        ;
        assert(stride_w * 4 * stride_h == stride_w * stride_h * 4) by (nonlinear_arith);
    }
    let expected = src_stride * gh;
    if res.pixels.len() < expected {
        return Err(UploadError::ShortPixels);
    }
    zero_prefix(dst, need);
    copy_rows(dst, &res.pixels, src_stride, gh, dst_stride, stride_h, need);
    Ok(need)
}

/// Zeroes the first `need` bytes.
fn zero_prefix(dst: &mut [u8], need: usize)
    requires
        need <= old(dst)@.len(),
    ensures
        final(dst)@.len() == old(dst)@.len(),
        forall|k: int| 0 <= k < need ==> #[trigger] final(dst)@[k] == 0,
        forall|k: int| need <= k < old(dst)@.len() ==> #[trigger] final(dst)@[k] == old(dst)@[k],
{
    let mut i: usize = 0;
    while i < need
        invariant
            need <= dst@.len(),
            dst@.len() == old(dst)@.len(),
            i <= need,
            forall|k: int| 0 <= k < i ==> #[trigger] dst@[k] == 0,
            forall|k: int| need <= k < dst@.len() ==> #[trigger] dst@[k] == old(dst)@[k],
        decreases need - i,
    {
        dst[i] = 0;
        i += 1;
    }
}

/// Copies `gh` rows of `src_stride` bytes into a zeroed destination whose
/// rows are `dst_stride` bytes apart.
fn copy_rows(
    dst: &mut [u8],
    pixels: &Vec<u8>,
    src_stride: usize,
    gh: usize,
    dst_stride: usize,
    rows: usize,
    need: usize,
)
    requires
        0 < src_stride <= dst_stride,
        gh <= rows,
        need == dst_stride * rows,
        need <= old(dst)@.len(),
        src_stride * gh <= pixels@.len(),
        forall|k: int| 0 <= k < need ==> #[trigger] old(dst)@[k] == 0,
    ensures
        final(dst)@.len() == old(dst)@.len(),
        forall|y: int, x: int|
            0 <= y < rows && 0 <= x < dst_stride ==> #[trigger] final(dst)@[cell(
                dst_stride as int,
                y,
                x,
            )] == strided_byte(pixels@, src_stride as int, gh as int, dst_stride as int, y, x),
        forall|k: int| need <= k < old(dst)@.len() ==> #[trigger] final(dst)@[k] == old(dst)@[k],
{
    let plen = pixels.len();
    proof {
        assert forall|yy: int, x: int| 0 <= yy < rows && 0 <= x < dst_stride implies #[trigger] dst@[cell(
            dst_stride as int,
            yy,
            x,
        )] == 0u8 by {
            lemma_cell(dst_stride as int, yy, x, yy, x, rows as int);
            assert(rows * dst_stride == dst_stride * rows) by (nonlinear_arith);
            assert(dst@[cell(dst_stride as int, yy, x)] == old(dst)@[cell(dst_stride as int, yy, x)]);
        }
    }
    let mut y: usize = 0;
    while y < gh
        invariant
            plen == pixels@.len(),
            0 < src_stride <= dst_stride,
            gh <= rows,
            need == dst_stride * rows,
            need <= dst@.len(),
            dst@.len() == old(dst)@.len(),
            src_stride * gh <= pixels@.len(),
            y <= gh,
            forall|yy: int, x: int|
                0 <= yy < rows && 0 <= x < dst_stride ==> #[trigger] dst@[cell(
                    dst_stride as int,
                    yy,
                    x,
                )] == if yy < y {
                    strided_byte(pixels@, src_stride as int, gh as int, dst_stride as int, yy, x)
                } else {
                    0u8
                },
            forall|k: int| need <= k < dst@.len() ==> #[trigger] dst@[k] == old(dst)@[k],
        decreases gh - y,
    {
        proof {
            assert(y * dst_stride + dst_stride <= need) by (nonlinear_arith)
                requires
                    y < gh,
                    gh <= rows,
                    need == dst_stride * rows,
            {
                assert((y + 1) * dst_stride <= rows * dst_stride);
            }
            assert(y * src_stride + src_stride <= pixels@.len()) by (nonlinear_arith)
                requires
                    y < gh,
                    src_stride * gh <= pixels@.len(),
            {
                assert((y + 1) * src_stride <= gh * src_stride);
            }
        }
        let src_off = y * src_stride;
        let dst_off = y * dst_stride;
        let mut x: usize = 0;
        while x < src_stride
            invariant
                0 < src_stride <= dst_stride,
                gh <= rows,
                y < gh,
                need == dst_stride * rows,
                need <= dst@.len(),
                dst@.len() == old(dst)@.len(),
                src_off == y * src_stride,
                dst_off == y * dst_stride,
                dst_off + dst_stride <= need,
                src_off + src_stride <= pixels@.len(),
                plen == pixels@.len(),
                x <= src_stride,
                forall|yy: int, xx: int|
                    0 <= yy < rows && 0 <= xx < dst_stride ==> #[trigger] dst@[cell(
                        dst_stride as int,
                        yy,
                        xx,
                    )] == if yy < y || (yy == y && xx < x) {
                        strided_byte(pixels@, src_stride as int, gh as int, dst_stride as int, yy, xx)
                    } else {
                        0u8
                    },
                forall|k: int| need <= k < dst@.len() ==> #[trigger] dst@[k] == old(dst)@[k],
            decreases src_stride - x,
        {
            dst[dst_off + x] = pixels[src_off + x];
            proof {
                assert forall|yy: int, xx: int|
                    0 <= yy < rows && 0 <= xx < dst_stride implies #[trigger] dst@[cell(
                        dst_stride as int,
                        yy,
                        xx,
                    )] == if yy < y || (yy == y && xx < x + 1) {
                        strided_byte(pixels@, src_stride as int, gh as int, dst_stride as int, yy, xx)
                    } else {
                        0u8
                    } by {
                    lemma_cell(dst_stride as int, yy, xx, y as int, x as int, rows as int);
                    assert(rows * dst_stride == dst_stride * rows) by (nonlinear_arith);
                    if yy == y && xx == x {
                        assert(cell(src_stride as int, y as int, x as int) == src_off + x);
                    }
                }
            }
            x += 1;
        }
        proof {
            assert forall|yy: int, xx: int|
                0 <= yy < rows && 0 <= xx < dst_stride implies #[trigger] dst@[cell(
                    dst_stride as int,
                    yy,
                    xx,
                )] == if yy < y + 1 {
                    strided_byte(pixels@, src_stride as int, gh as int, dst_stride as int, yy, xx)
                } else {
                    0u8
                } by {
                if yy == y && xx >= src_stride {
                    assert(strided_byte(pixels@, src_stride as int, gh as int, dst_stride as int, yy, xx) == 0u8);
                }
            }
        }
        y += 1;
    }
    proof {
        assert forall|yy: int, xx: int|
            0 <= yy < rows && 0 <= xx < dst_stride implies #[trigger] dst@[cell(
                dst_stride as int,
                yy,
                xx,
            )] == strided_byte(pixels@, src_stride as int, gh as int, dst_stride as int, yy, xx) by {
            if yy >= gh {
                assert(strided_byte(pixels@, src_stride as int, gh as int, dst_stride as int, yy, xx) == 0u8);
            }
        }
    }
}

} // verus!
