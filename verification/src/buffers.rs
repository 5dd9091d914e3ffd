//! Arrays of 64-bit floating-point values exchanged with the host through
//! byte buffers, each value carried by its bits: read from either a raw run
//! of little-endian words or a typed-array wrapper, and written as a typed
//! array.

use vstd::prelude::*;
use crate::wire::{
    GMBufferWriter, get_u16, get_u32, get_u64, le16, le64, f64_words, lemma_le16, lemma_le64,
    lemma_f64_words_len, lemma_f64_words_at,
};

verus! {

/// The words a buffer holds: with a typed-array header (tag 250, a 16-bit
/// count, an element byte) the counted words that fit after the header;
/// otherwise the raw words, at most `max_raw`. `None` for a typed header
/// cut short.
pub open spec fn words_in(buf: Seq<u8>, max_raw: int) -> Option<Seq<u64>> {
    if buf.len() > 0 && buf[0] == 250 {
        if buf.len() < 4 {
            None
        } else {
            let count = get_u16(buf, 1) as int;
            let fit: int = (buf.len() - 4) / 8;
            let n = if count < fit { count } else { fit };
            Some(Seq::new(n as nat, |k: int| get_u64(buf, 4 + 8 * k)))
        }
    } else {
        let fit: int = buf.len() as int / 8;
        let n = if fit < max_raw { fit } else { max_raw };
        Some(Seq::new(n as nat, |k: int| get_u64(buf, 8 * k)))
    }
}

/// The little-endian `u64` at `p` of a slice.
fn le_u64_at(s: &[u8], p: usize) -> (r: u64)
    requires
        p + 8 <= s@.len(),
    ensures
        r == get_u64(s@, p as int),
{
    let lo = s[p] as u32 + 256 * (s[p + 1] as u32) + 65536 * (s[p + 2] as u32) + 16777216 * (s[p
        + 3] as u32);
    let hi = s[p + 4] as u32 + 256 * (s[p + 5] as u32) + 65536 * (s[p + 6] as u32) + 16777216 * (s[p
        + 7] as u32);
    assert(hi as u64 * 4294967296 + lo as u64 <= u64::MAX) by (nonlinear_arith)
        requires
            hi <= u32::MAX,
            lo <= u32::MAX,
    ;
    lo as u64 + (hi as u64) * 4294967296
}

/// The words of a buffer (see `words_in`), each the bits of a float.
pub fn decode_f64_words(buf: &[u8], max_raw: usize) -> (r: Option<Vec<u64>>)
    ensures
        match words_in(buf@, max_raw as int) {
            Some(w) => r matches Some(v) && v@ == w,
            None => r is None,
        },
{
    let len = buf.len();
    let typed = len > 0 && buf[0] == 250;
    let (start, n): (usize, usize) = if typed {
        if len < 4 {
            return None;
        }
        let count = buf[1] as usize + 256 * (buf[2] as usize);
        let fit = (len - 4) / 8;
        (4, if count < fit { count } else { fit })
    } else {
        let fit = len / 8;
        (0, if fit < max_raw { fit } else { max_raw })
    };
    let mut out: Vec<u64> = Vec::new();
    let mut k: usize = 0;
    while k < n
        invariant
            len == buf@.len(),
            start == 0 || start == 4,
            start + 8 * n <= len,
            k <= n,
            out@.len() == k,
            forall|j: int| 0 <= j < k ==> #[trigger] out@[j] == get_u64(buf@, start + 8 * j),
        decreases n - k,
    {
        out.push(le_u64_at(buf, start + 8 * k));
        k += 1;
    }
    proof {
        if typed {
            assert(out@ =~= Seq::new(n as nat, |j: int| get_u64(buf@, 4 + 8 * j)));
        } else {
            assert(out@ =~= Seq::new(n as nat, |j: int| get_u64(buf@, 8 * j)));
        }
    }
    Some(out)
}

/// Why an array could not be written to a buffer.
#[derive(Debug, Clone, Copy, PartialEq, Eq, Structural)]
pub enum ArrayWriteError {
    ZeroLength,
    TooSmall,
}

impl ArrayWriteError {
    /// The message reported for this error.
    pub fn message(self) -> (m: &'static str)
        ensures
            m@ == (match self {
                ArrayWriteError::ZeroLength => "zero buffer length"@,
                ArrayWriteError::TooSmall => "buffer too small"@,
            }),
    {
        match self {
            ArrayWriteError::ZeroLength => "zero buffer length",
            ArrayWriteError::TooSmall => "buffer too small",
        }
    }

    /// The code returned for this error.
    pub fn code(self) -> (c: i32)
        ensures
            c == (if self == ArrayWriteError::TooSmall { -2i32 } else { -1i32 }),
    {
        match self {
            ArrayWriteError::ZeroLength => -1,
            ArrayWriteError::TooSmall => -2,
        }
    }
}

/// The bytes of a typed array of floats given by their bits.
pub open spec fn typed_f64_array(values: Seq<u64>) -> Seq<u8> {
    seq![250u8] + le16(values.len() as u16) + seq![9u8] + f64_words(values)
}

/// Writes `values` (float bits) as a typed array to the front of `dst` and
/// gives the number of bytes written; nothing is written when `dst` is
/// empty or too small.
pub fn write_f64_array(values: &[u64], dst: &mut [u8]) -> (r: Result<usize, ArrayWriteError>)
    ensures
        old(dst)@.len() == 0 ==> r == Err::<usize, ArrayWriteError>(ArrayWriteError::ZeroLength)
            && final(dst)@ == old(dst)@,
        old(dst)@.len() > 0 && typed_f64_array(values@).len() > old(dst)@.len() ==> r == Err::<
            usize,
            ArrayWriteError,
        >(ArrayWriteError::TooSmall) && final(dst)@ == old(dst)@,
        old(dst)@.len() > 0 && typed_f64_array(values@).len() <= old(dst)@.len() ==> {
            let d = typed_f64_array(values@);
            &&& r == Ok::<usize, ArrayWriteError>(d.len() as usize)
            &&& final(dst)@ == d + old(dst)@.subrange(d.len() as int, old(dst)@.len() as int)
        },
{
    if dst.len() == 0 {
        return Err(ArrayWriteError::ZeroLength);
    }
    let mut w = GMBufferWriter::new(0);
    w.write_f64_typed_array(values);
    assert(w.data@ =~= typed_f64_array(values@));
    let n = w.data.len();
    if n > dst.len() {
        return Err(ArrayWriteError::TooSmall);
    }
    let mut i: usize = 0;
    while i < n
        invariant
            n == w.data@.len(),
            n <= dst@.len(),
            dst@.len() == old(dst)@.len(),
            i <= n,
            forall|k: int| 0 <= k < i ==> #[trigger] dst@[k] == w.data@[k],
            forall|k: int| n <= k < dst@.len() ==> #[trigger] dst@[k] == old(dst)@[k],
        decreases n - i,
    {
        dst[i] = w.data[i];
        i += 1;
    }
    assert(dst@ =~= typed_f64_array(values@) + old(dst)@.subrange(n as int, old(dst)@.len() as int));
    Ok(n)
}

/// A typed array of at most `u16::MAX` floats, written and then read as a
/// buffer of words, gives back the same bits.
pub proof fn law_written_words_read_back(values: Seq<u64>, max_raw: int)
    requires
        values.len() <= u16::MAX,
    ensures
        words_in(typed_f64_array(values), max_raw) == Some(values),
{
    let n = values.len() as u16;
    let b = typed_f64_array(values);
    let w = f64_words(values);
    lemma_le16(n);
    lemma_f64_words_len(values);
    assert(b[0] == 250u8);
    assert(get_u16(b, 1) == get_u16(le16(n), 0));
    assert forall|i: int| 0 <= i < values.len() implies get_u64(b, 4 + 8 * i) == values[i] by {
        lemma_f64_words_at(values, i);
        lemma_le64(values[i]);
        let e = le64(values[i]);
        assert forall|k: int| 0 <= k < 8 implies #[trigger] b[4 + 8 * i + k] == e[k] by {
            assert(b[4 + 8 * i + k] == w[8 * i + k]);
        }
        assert(get_u32(b, 4 + 8 * i) == get_u32(e, 0)) by {
            assert(b[4 + 8 * i + 0] == e[0]);
            assert(b[4 + 8 * i + 1] == e[1]);
            assert(b[4 + 8 * i + 2] == e[2]);
            assert(b[4 + 8 * i + 3] == e[3]);
        }
        assert(get_u32(b, 4 + 8 * i + 4) == get_u32(e, 4)) by {
            assert(b[4 + 8 * i + 4] == e[4]);
            assert(b[4 + 8 * i + 5] == e[5]);
            assert(b[4 + 8 * i + 6] == e[6]);
            assert(b[4 + 8 * i + 7] == e[7]);
        }
    }
    assert(Seq::new(values.len(), |k: int| get_u64(b, 4 + 8 * k)) =~= values);
}

} // verus!
