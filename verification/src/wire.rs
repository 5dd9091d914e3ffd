//! The GameMaker extension wire format: a type tag byte followed by the
//! value in little-endian byte order; strings end with a NUL byte; arrays
//! and structs carry a 16-bit element count.

use vstd::prelude::*;
use vstd::utf8::{valid_utf8, decode_utf8, encode_utf8, encode_scalar, is_scalar};
use vstd::string::StringSliceAdditionalSpecFns;

verus! {

/// Wire type tags.
#[derive(Debug, Clone, Copy, PartialEq, Eq, Structural)]
pub enum GMType {
    U8,
    I8,
    U16,
    I16,
    U32,
    I32,
    F16,
    F32,
    F64,
    Bool,
    String,
    U64,
    /// A typed struct (a codec id follows); not read by this reader.
    TypedStruct,
    TypedArray,
    Undefined,
    Pointer,
    Buffer,
    Array,
    Struct,
}

/// The tag byte of a wire type.
pub open spec fn type_tag(t: GMType) -> u8 {
    match t {
        GMType::U8 => 1,
        GMType::I8 => 2,
        GMType::U16 => 3,
        GMType::I16 => 4,
        GMType::U32 => 5,
        GMType::I32 => 6,
        GMType::F16 => 7,
        GMType::F32 => 8,
        GMType::F64 => 9,
        GMType::Bool => 10,
        GMType::String => 11,
        GMType::U64 => 12,
        GMType::TypedStruct => 249,
        GMType::TypedArray => 250,
        GMType::Undefined => 251,
        GMType::Pointer => 252,
        GMType::Buffer => 253,
        GMType::Array => 254,
        GMType::Struct => 255,
    }
}

/// The wire type of a tag byte, if it names one.
pub open spec fn tag_type(b: u8) -> Option<GMType> {
    if b == 1 {
        Some(GMType::U8)
    } else if b == 2 {
        Some(GMType::I8)
    } else if b == 3 {
        Some(GMType::U16)
    } else if b == 4 {
        Some(GMType::I16)
    } else if b == 5 {
        Some(GMType::U32)
    } else if b == 6 {
        Some(GMType::I32)
    } else if b == 7 {
        Some(GMType::F16)
    } else if b == 8 {
        Some(GMType::F32)
    } else if b == 9 {
        Some(GMType::F64)
    } else if b == 10 {
        Some(GMType::Bool)
    } else if b == 11 {
        Some(GMType::String)
    } else if b == 12 {
        Some(GMType::U64)
    } else if b == 249 {
        Some(GMType::TypedStruct)
    } else if b == 250 {
        Some(GMType::TypedArray)
    } else if b == 251 {
        Some(GMType::Undefined)
    } else if b == 252 {
        Some(GMType::Pointer)
    } else if b == 253 {
        Some(GMType::Buffer)
    } else if b == 254 {
        Some(GMType::Array)
    } else if b == 255 {
        Some(GMType::Struct)
    } else {
        None
    }
}

impl GMType {
    /// The wire type named by a tag byte, or `Err(())` for an unknown tag.
    pub fn try_from(v: u8) -> (r: Result<GMType, ()>)
        ensures
            r == (match tag_type(v) {
                Some(t) => Ok::<GMType, ()>(t),
                None => Err(()),
            }),
    {
        match v {
            1 => Ok(GMType::U8),
            2 => Ok(GMType::I8),
            3 => Ok(GMType::U16),
            4 => Ok(GMType::I16),
            5 => Ok(GMType::U32),
            6 => Ok(GMType::I32),
            7 => Ok(GMType::F16),
            8 => Ok(GMType::F32),
            9 => Ok(GMType::F64),
            10 => Ok(GMType::Bool),
            11 => Ok(GMType::String),
            12 => Ok(GMType::U64),
            249 => Ok(GMType::TypedStruct),
            250 => Ok(GMType::TypedArray),
            251 => Ok(GMType::Undefined),
            252 => Ok(GMType::Pointer),
            253 => Ok(GMType::Buffer),
            254 => Ok(GMType::Array),
            255 => Ok(GMType::Struct),
            _ => Err(()),
        }
    }

    /// The tag byte of this wire type.
    pub fn tag(self) -> (b: u8)
        ensures
            b == type_tag(self),
    {
        match self {
            GMType::U8 => 1,
            GMType::I8 => 2,
            GMType::U16 => 3,
            GMType::I16 => 4,
            GMType::U32 => 5,
            GMType::I32 => 6,
            GMType::F16 => 7,
            GMType::F32 => 8,
            GMType::F64 => 9,
            GMType::Bool => 10,
            GMType::String => 11,
            GMType::U64 => 12,
            GMType::TypedStruct => 249,
            GMType::TypedArray => 250,
            GMType::Undefined => 251,
            GMType::Pointer => 252,
            GMType::Buffer => 253,
            GMType::Array => 254,
            GMType::Struct => 255,
        }
    }
}

/// The two little-endian bytes of `v`.
pub open spec fn le16(v: u16) -> Seq<u8> {
    seq![(v % 256) as u8, (v / 256) as u8]
}

/// The four little-endian bytes of `v`.
pub open spec fn le32(v: u32) -> Seq<u8> {
    seq![(v % 256) as u8, ((v / 256) % 256) as u8, ((v / 65536) % 256) as u8, (v / 16777216) as u8]
}

/// The eight little-endian bytes of `v`.
pub open spec fn le64(v: u64) -> Seq<u8> {
    le32((v % 4294967296) as u32) + le32((v / 4294967296) as u32)
}

/// The little-endian `u16` at `p`.
pub open spec fn get_u16(b: Seq<u8>, p: int) -> u16 {
    (b[p] + 256 * b[p + 1]) as u16
}

/// The little-endian `u32` at `p`.
pub open spec fn get_u32(b: Seq<u8>, p: int) -> u32 {
    (b[p] + 256 * b[p + 1] + 65536 * b[p + 2] + 16777216 * b[p + 3]) as u32
}

/// The little-endian `u64` at `p`.
pub open spec fn get_u64(b: Seq<u8>, p: int) -> u64 {
    (get_u32(b, p) + 4294967296 * get_u32(b, p + 4)) as u64
}

/// The index of the first NUL byte at or after `p`.
pub open spec fn nul_index(b: Seq<u8>, p: int) -> Option<int>
    decreases b.len() - p,
{
    if p < 0 || p >= b.len() {
        None
    } else if b[p] == 0 {
        Some(p)
    } else {
        nul_index(b, p + 1)
    }
}

/// The NUL-terminated UTF-8 string at `p` and the position after its NUL.
pub open spec fn string_at(b: Seq<u8>, p: int) -> Option<(Seq<char>, int)> {
    match nul_index(b, p) {
        Some(i) => if valid_utf8(b.subrange(p, i)) {
            Some((decode_utf8(b.subrange(p, i)), i + 1))
        } else {
            None
        },
        None => None,
    }
}

/// Converts bytes to a string slice when they are valid UTF-8.
#[verifier::external_body]
fn str_from_utf8<'b>(bytes: &'b [u8]) -> (r: Option<&'b str>)
    ensures
        r is Some <==> valid_utf8(bytes@),
        r matches Some(s) ==> s@ == decode_utf8(bytes@),
{
    std::str::from_utf8(bytes).ok()
}

/// A reader of wire-format values over a byte slice.
pub struct GMBufferReader<'a> {
    data: &'a [u8],
    pub cursor: usize,
}

impl<'a> GMBufferReader<'a> {
    /// The bytes being read.
    pub closed spec fn bytes(&self) -> Seq<u8> {
        self.data@
    }

    /// The read position.
    pub closed spec fn pos(&self) -> usize {
        self.cursor
    }

    /// A reader at the start of `data`.
    pub fn new(data: &'a [u8]) -> (r: Self)
        ensures
            r.bytes() == data@,
            r.pos() == 0,
    {
        Self { data, cursor: 0 }
    }

    /// Takes the next `n` bytes, or `None` (moving nothing) when fewer are left.
    fn read_bytes(&mut self, n: usize) -> (r: Option<&'a [u8]>)
        ensures
            final(self).bytes() == old(self).bytes(),
            old(self).pos() + n <= old(self).bytes().len() ==> {
                &&& r matches Some(s) && s@ == old(self).bytes().subrange(
                    old(self).pos() as int,
                    old(self).pos() + n,
                )
                &&& final(self).pos() == old(self).pos() + n
            },
            old(self).pos() + n > old(self).bytes().len() ==> r is None && final(self).pos()
                == old(self).pos(),
    {
        if self.cursor > self.data.len() || n > self.data.len() - self.cursor {
            return None;
        }
        let slice = &self.data[self.cursor..self.cursor + n];
        self.cursor += n;
        Some(slice)
    }

    /// Reads a type tag. The tag byte is consumed even when it names no type.
    pub fn read_type(&mut self) -> (r: Option<GMType>)
        ensures
            final(self).bytes() == old(self).bytes(),
            old(self).pos() < old(self).bytes().len() ==> {
                &&& r == tag_type(old(self).bytes()[old(self).pos() as int])
                &&& final(self).pos() == old(self).pos() + 1
            },
            old(self).pos() >= old(self).bytes().len() ==> r is None && final(self).pos()
                == old(self).pos(),
    {
        let b = match self.read_bytes(1) {
            Some(s) => s[0],
            None => {
                return None;
            },
        };
        match GMType::try_from(b) {
            Ok(t) => Some(t),
            Err(_) => None,
        }
    }

    /// Reads a NUL-terminated UTF-8 string; on failure nothing is consumed.
    pub fn read_string(&mut self) -> (r: Option<&'a str>)
        requires
            old(self).pos() <= old(self).bytes().len(),
        ensures
            final(self).bytes() == old(self).bytes(),
            match string_at(old(self).bytes(), old(self).pos() as int) {
                Some((s, next)) => r matches Some(v) && v@ == s && final(self).pos() == next,
                None => r is None && final(self).pos() == old(self).pos(),
            },
    {
        let start = self.cursor;
        let remainder = &self.data[start..self.data.len()];
        let n = remainder.len();
        let mut i: usize = 0;
        while i < n
            invariant
                remainder@ == self.data@.subrange(start as int, self.data@.len() as int),
                n == remainder@.len(),
                start == self.cursor,
                start <= self.data@.len(),
                i <= n,
                nul_index(self.data@, start as int) == nul_index(self.data@, start + i),
            ensures
                i <= n,
                i < n ==> remainder@[i as int] == 0,
                nul_index(self.data@, start as int) == nul_index(self.data@, start + i),
            decreases n - i,
        {
            if remainder[i] == 0 {
                break;
            }
            i += 1;
        }
        if i == n {
            return None;
        }
        let bytes = &remainder[0..i];
        assert(bytes@ =~= self.data@.subrange(start as int, start + i));
        let s = match str_from_utf8(bytes) {
            Some(s) => s,
            None => {
                return None;
            },
        };
        self.cursor = start + i + 1;
        Some(s)
    }
}

/// The writer of wire-format values.
pub struct GMBufferWriter {
    pub data: Vec<u8>,
}

impl GMBufferWriter {
    /// An empty writer.
    pub fn new(capacity: usize) -> (w: Self)
        ensures
            w.data@ == Seq::<u8>::empty(),
    {
        Self { data: Vec::with_capacity(capacity) }
    }

    /// Writes a type tag.
    pub fn write_type(&mut self, t: GMType)
        ensures
            final(self).data@ == old(self).data@.push(type_tag(t)),
    {
        self.data.push(t.tag());
    }

    /// Appends the little-endian bytes of a `u16`.
    fn push_u16(&mut self, v: u16)
        ensures
            final(self).data@ == old(self).data@ + le16(v),
    {
        self.data.push((v % 256) as u8);
        self.data.push((v / 256) as u8);
        assert(self.data@ =~= old(self).data@ + le16(v));
    }

    /// Appends the little-endian bytes of a `u32`.
    fn push_u32(&mut self, v: u32)
        ensures
            final(self).data@ == old(self).data@ + le32(v),
    {
        self.data.push((v % 256) as u8);
        self.data.push(((v / 256) % 256) as u8);
        self.data.push(((v / 65536) % 256) as u8);
        self.data.push((v / 16777216) as u8);
        assert(self.data@ =~= old(self).data@ + le32(v));
    }

    /// Appends the little-endian bytes of a `u64`.
    fn push_u64(&mut self, v: u64)
        ensures
            final(self).data@ == old(self).data@ + le64(v),
    {
        self.push_u32((v % 4294967296) as u32);
        self.push_u32((v / 4294967296) as u32);
        assert(self.data@ =~= old(self).data@ + le64(v));
    }

    /// Writes a `u8` value.
    pub fn write_u8(&mut self, val: u8)
        ensures
            final(self).data@ == old(self).data@ + seq![1u8, val],
    {
        self.write_type(GMType::U8);
        self.data.push(val);
        assert(self.data@ =~= old(self).data@ + seq![1u8, val]);
    }

    /// Writes a `u32` value.
    pub fn write_u32(&mut self, val: u32)
        ensures
            final(self).data@ == old(self).data@ + seq![5u8] + le32(val),
    {
        self.write_type(GMType::U32);
        self.push_u32(val);
        assert(self.data@ =~= old(self).data@ + seq![5u8] + le32(val));
    }

    /// Writes a 64-bit floating-point value, given by its bits.
    pub fn write_f64(&mut self, bits: u64)
        ensures
            final(self).data@ == old(self).data@ + seq![9u8] + le64(bits),
    {
        self.write_type(GMType::F64);
        self.push_u64(bits);
        assert(self.data@ =~= old(self).data@ + seq![9u8] + le64(bits));
    }

    /// Writes a boolean as one byte, 1 or 0.
    pub fn write_bool(&mut self, val: bool)
        ensures
            final(self).data@ == old(self).data@ + seq![10u8, if val { 1u8 } else { 0u8 }],
    {
        self.write_type(GMType::Bool);
        self.data.push(if val { 1 } else { 0 });
        assert(self.data@ =~= old(self).data@ + seq![10u8, if val { 1u8 } else { 0u8 }]);
    }

    /// Writes a string: its UTF-8 bytes and a NUL byte.
    pub fn write_string(&mut self, val: &str)
        ensures
            final(self).data@ == old(self).data@ + seq![11u8] + val.spec_bytes() + seq![0u8],
    {
        self.write_type(GMType::String);
        self.write_raw_string(val);
        assert(self.data@ =~= old(self).data@ + seq![11u8] + val.spec_bytes() + seq![0u8]);
    }

    /// Appends the UTF-8 bytes of a string and a NUL byte.
    fn write_raw_string(&mut self, val: &str)
        ensures
            final(self).data@ == old(self).data@ + val.spec_bytes() + seq![0u8],
    {
        let bytes = val.as_bytes();
        let n = bytes.len();
        let mut i: usize = 0;
        while i < n
            invariant
                n == bytes@.len(),
                bytes@ == val.spec_bytes(),
                i <= n,
                self.data@ == old(self).data@ + bytes@.take(i as int),
            decreases n - i,
        {
            self.data.push(bytes[i]);
            i += 1;
            assert(self.data@ =~= old(self).data@ + bytes@.take(i as int));
        }
        self.data.push(0);
        assert(bytes@.take(n as int) =~= bytes@);
        assert(self.data@ =~= old(self).data@ + val.spec_bytes() + seq![0u8]);
    }

    /// Writes an array header with `count` elements, then lets `builder`
    /// write the elements.
    pub fn write_array<F: FnOnce(&mut GMBufferWriter)>(&mut self, count: u16, builder: F)
        requires
            forall|w: &mut GMBufferWriter| builder.requires((w,)),
        ensures
            exists|w: &mut GMBufferWriter|
                #![trigger builder.ensures((w,), ())]
                w.data@ == old(self).data@ + seq![254u8] + le16(count) && builder.ensures((w,), ())
                    && *final(w) == *final(self),
    {
        self.write_type(GMType::Array);
        self.push_u16(count);
        assert(self.data@ =~= old(self).data@ + seq![254u8] + le16(count));
        builder(self);
    }

    /// Writes a struct header with `count` fields, then lets `builder` write
    /// the fields (each a string key followed by a value).
    pub fn write_struct<F: FnOnce(&mut GMBufferWriter)>(&mut self, count: u16, builder: F)
        requires
            forall|w: &mut GMBufferWriter| builder.requires((w,)),
        ensures
            exists|w: &mut GMBufferWriter|
                #![trigger builder.ensures((w,), ())]
                w.data@ == old(self).data@ + seq![255u8] + le16(count) && builder.ensures((w,), ())
                    && *final(w) == *final(self),
    {
        self.write_type(GMType::Struct);
        self.push_u16(count);
        assert(self.data@ =~= old(self).data@ + seq![255u8] + le16(count));
        builder(self);
    }

    /// Writes a typed array of 64-bit floating-point values, given by their
    /// bits: tag 250, the count as a `u16` (truncated), element tag 9, then
    /// each value's eight bytes.
    pub fn write_f64_typed_array(&mut self, values: &[u64])
        ensures
            final(self).data@ == old(self).data@ + seq![250u8] + le16(values@.len() as u16) + seq![9u8]
                + f64_words(values@),
    {
        self.data.push(250);
        self.push_u16(values.len() as u16);
        self.data.push(9);
        let ghost head = self.data@;
        let n = values.len();
        let mut i: usize = 0;
        while i < n
            invariant
                n == values@.len(),
                i <= n,
                self.data@ == head + f64_words(values@.take(i as int)),
            decreases n - i,
        {
            self.push_u64(values[i]);
            proof {
                lemma_f64_words_push(values@.take(i as int), values@[i as int]);
                assert(values@.take(i as int + 1) =~= values@.take(i as int).push(values@[i as int]));
            }
            i += 1;
        }
        assert(values@.take(n as int) =~= values@);
        assert(self.data@ =~= old(self).data@ + seq![250u8] + le16(values@.len() as u16) + seq![9u8]
            + f64_words(values@));
    }

    /// The number of bytes written.
    pub fn len(&self) -> (n: usize)
        ensures
            n == self.data@.len(),
    {
        self.data.len()
    }

    /// True when nothing was written.
    pub fn is_empty(&self) -> (b: bool)
        ensures
            b == (self.data@.len() == 0),
    {
        self.data.len() == 0
    }
}

/// The little-endian bytes of each word, one after another.
pub open spec fn f64_words(values: Seq<u64>) -> Seq<u8>
    decreases values.len(),
{
    if values.len() == 0 {
        Seq::empty()
    } else {
        f64_words(values.drop_last()) + le64(values.last())
    }
}

proof fn lemma_f64_words_push(values: Seq<u64>, v: u64)
    ensures
        f64_words(values.push(v)) == f64_words(values) + le64(v),
{
    assert(values.push(v).drop_last() =~= values);
}

} // verus!

verus! {

/// A decoded wire value. Floating-point values are held by their bits.
#[derive(Debug)]
pub enum GMValue<'a> {
    U8(u8),
    I8(i8),
    U16(u16),
    I16(i16),
    U32(u32),
    I32(i32),
    U64(u64),
    F32(u32),
    F64(u64),
    Bool(bool),
    String(&'a str),
    Pointer(u64),
    Buffer { length: u32, address: u64 },
    Array(Vec<GMValue<'a>>),
    /// Fields in the order their keys first appeared; keys are distinct.
    Struct(Vec<(&'a str, GMValue<'a>)>),
    Undefined,
}

/// The mathematical value of a decoded wire value.
pub enum WireValue {
    U8(u8),
    I8(i8),
    U16(u16),
    I16(i16),
    U32(u32),
    I32(i32),
    U64(u64),
    F32(u32),
    F64(u64),
    Bool(bool),
    Str(Seq<char>),
    Pointer(u64),
    Buffer { length: u32, address: u64 },
    Array(Seq<WireValue>),
    Struct(Seq<(Seq<char>, WireValue)>),
    Undefined,
}

/// The mathematical value of `v`.
pub open spec fn value_of(v: GMValue) -> WireValue
    decreases v,
{
    match v {
        GMValue::U8(x) => WireValue::U8(x),
        GMValue::I8(x) => WireValue::I8(x),
        GMValue::U16(x) => WireValue::U16(x),
        GMValue::I16(x) => WireValue::I16(x),
        GMValue::U32(x) => WireValue::U32(x),
        GMValue::I32(x) => WireValue::I32(x),
        GMValue::U64(x) => WireValue::U64(x),
        GMValue::F32(x) => WireValue::F32(x),
        GMValue::F64(x) => WireValue::F64(x),
        GMValue::Bool(x) => WireValue::Bool(x),
        GMValue::String(s) => WireValue::Str(s@),
        GMValue::Pointer(x) => WireValue::Pointer(x),
        GMValue::Buffer { length, address } => WireValue::Buffer { length, address },
        GMValue::Array(a) => WireValue::Array(
            Seq::new(a@.len(), |i: int| if 0 <= i < a@.len() { value_of(a@[i]) } else { WireValue::Undefined }),
        ),
        GMValue::Struct(f) => WireValue::Struct(
            Seq::new(
                f@.len(),
                |i: int|
                    if 0 <= i < f@.len() {
                        (f@[i].0@, value_of(f@[i].1))
                    } else {
                        (Seq::empty(), WireValue::Undefined)
                    },
            ),
        ),
        GMValue::Undefined => WireValue::Undefined,
    }
}


/// `fields` with `key` bound to `val`: an existing field of that key keeps
/// its place and takes the new value; otherwise the field is appended.
pub open spec fn put_field(
    fields: Seq<(Seq<char>, WireValue)>,
    key: Seq<char>,
    val: WireValue,
) -> Seq<(Seq<char>, WireValue)> {
    if exists|j: int| 0 <= j < fields.len() && #[trigger] fields[j].0 == key {
        let j = choose|j: int| 0 <= j < fields.len() && #[trigger] fields[j].0 == key;
        fields.update(j, (key, val))
    } else {
        fields.push((key, val))
    }
}

/// The value encoded at `p` and the position just after it, or `None`
/// when the bytes there do not hold a complete value this reader accepts.
pub open spec fn spec_unpack(b: Seq<u8>, p: int) -> Option<(WireValue, int)>
    decreases b.len() - p, 0int,
{
    if p < 0 || p >= b.len() {
        None
    } else {
        let q = p + 1;
        match tag_type(b[p]) {
            None => None,
            Some(t) => match t {
                GMType::Array => if q + 2 <= b.len() {
                    match spec_unpack_items(b, q + 2, get_u16(b, q) as nat, Seq::empty()) {
                        Some((items, next)) => Some((WireValue::Array(items), next)),
                        None => None,
                    }
                } else {
                    None
                },
                GMType::Struct => if q + 2 <= b.len() {
                    match spec_unpack_fields(b, q + 2, get_u16(b, q) as nat, Seq::empty()) {
                        Some((fields, next)) => Some((WireValue::Struct(fields), next)),
                        None => None,
                    }
                } else {
                    None
                },
                GMType::TypedArray => if q + 3 <= b.len() {
                    spec_typed_array(b, q + 3, get_u16(b, q) as nat, b[q + 2])
                } else {
                    None
                },
                _ => spec_scalar(b, q, t),
            },
        }
    }
}

/// The payload of a value of a type other than array, struct and typed
/// array, read at `q`, and the position just after it.
pub open spec fn spec_scalar(b: Seq<u8>, q: int, t: GMType) -> Option<(WireValue, int)> {
    match t {
        GMType::U8 => if q + 1 <= b.len() {
            Some((WireValue::U8(b[q]), q + 1))
        } else {
            None
        },
        GMType::I8 => if q + 1 <= b.len() {
            Some((WireValue::I8(b[q] as i8), q + 1))
        } else {
            None
        },
        GMType::U16 => if q + 2 <= b.len() {
            Some((WireValue::U16(get_u16(b, q)), q + 2))
        } else {
            None
        },
        GMType::I16 => if q + 2 <= b.len() {
            Some((WireValue::I16(get_u16(b, q) as i16), q + 2))
        } else {
            None
        },
        GMType::U32 => if q + 4 <= b.len() {
            Some((WireValue::U32(get_u32(b, q)), q + 4))
        } else {
            None
        },
        GMType::I32 => if q + 4 <= b.len() {
            Some((WireValue::I32(get_u32(b, q) as i32), q + 4))
        } else {
            None
        },
        GMType::U64 => if q + 8 <= b.len() {
            Some((WireValue::U64(get_u64(b, q)), q + 8))
        } else {
            None
        },
        GMType::F32 => if q + 4 <= b.len() {
            Some((WireValue::F32(get_u32(b, q)), q + 4))
        } else {
            None
        },
        GMType::F64 => if q + 8 <= b.len() {
            Some((WireValue::F64(get_u64(b, q)), q + 8))
        } else {
            None
        },
        GMType::Bool => if q + 1 <= b.len() {
            Some((WireValue::Bool(b[q] != 0), q + 1))
        } else {
            None
        },
        GMType::String => match string_at(b, q) {
            Some((s, next)) => Some((WireValue::Str(s), next)),
            None => None,
        },
        GMType::Pointer => if q + 8 <= b.len() {
            Some((WireValue::Pointer(get_u64(b, q)), q + 8))
        } else {
            None
        },
        GMType::Buffer => if q + 12 <= b.len() {
            Some(
                (
                    WireValue::Buffer { length: get_u32(b, q), address: get_u64(b, q + 4) },
                    q + 12,
                ),
            )
        } else {
            None
        },
        GMType::Undefined => Some((WireValue::Undefined, q)),
        _ => None,
    }
}

/// `n` more values read from `p` on, appended to `acc`.
pub open spec fn spec_unpack_items(b: Seq<u8>, p: int, n: nat, acc: Seq<WireValue>) -> Option<
    (Seq<WireValue>, int),
>
    decreases b.len() - p, 1int,
{
    if n == 0 {
        Some((acc, p))
    } else {
        match spec_unpack(b, p) {
            Some((v, next)) => if p < next <= b.len() {
                spec_unpack_items(b, next, (n - 1) as nat, acc.push(v))
            } else {
                None
            },
            None => None,
        }
    }
}

/// `n` more key/value fields read from `p` on, put into `acc`.
pub open spec fn spec_unpack_fields(
    b: Seq<u8>,
    p: int,
    n: nat,
    acc: Seq<(Seq<char>, WireValue)>,
) -> Option<(Seq<(Seq<char>, WireValue)>, int)>
    decreases b.len() - p, 1int,
{
    if n == 0 {
        Some((acc, p))
    } else {
        match string_at(b, p) {
            Some((key, vpos)) => if p < vpos <= b.len() {
                match spec_unpack(b, vpos) {
                    Some((v, next)) => if vpos < next <= b.len() {
                        spec_unpack_fields(b, next, (n - 1) as nat, put_field(acc, key, v))
                    } else {
                        None
                    },
                    None => None,
                }
            } else {
                None
            },
            None => None,
        }
    }
}

/// A typed array of `n` elements of kind `elem` from `p` on: 64-bit floats
/// (kind 9) or 32-bit signed integers (kind 6). No element, no kind check.
pub open spec fn spec_typed_array(b: Seq<u8>, p: int, n: nat, elem: u8) -> Option<(WireValue, int)> {
    if n == 0 {
        Some((WireValue::Array(Seq::empty()), p))
    } else if elem == 9 {
        if p + 8 * n <= b.len() {
            Some(
                (
                    WireValue::Array(Seq::new(n, |i: int| WireValue::F64(get_u64(b, p + 8 * i)))),
                    p + 8 * n,
                ),
            )
        } else {
            None
        }
    } else if elem == 6 {
        if p + 4 * n <= b.len() {
            Some(
                (
                    WireValue::Array(
                        Seq::new(n, |i: int| WireValue::I32(get_u32(b, p + 4 * i) as i32)),
                    ),
                    p + 4 * n,
                ),
            )
        } else {
            None
        }
    } else {
        None
    }
}


/// Where a failed read of a value at `p` leaves the cursor: past the tag
/// and past each part that was read whole before the part that did not
/// fit or did not decode.
pub open spec fn unpack_stop(b: Seq<u8>, p: int) -> int
    decreases b.len() - p, 0int,
{
    if p < 0 || p >= b.len() {
        p
    } else {
        let q = p + 1;
        match tag_type(b[p]) {
            None => q,
            Some(t) => match t {
                GMType::Array => if q + 2 <= b.len() {
                    items_stop(b, q + 2, get_u16(b, q) as nat)
                } else {
                    q
                },
                GMType::Struct => if q + 2 <= b.len() {
                    fields_stop(b, q + 2, get_u16(b, q) as nat)
                } else {
                    q
                },
                GMType::TypedArray => if q + 3 <= b.len() {
                    typed_stop(b, q + 3, get_u16(b, q) as nat, b[q + 2])
                } else if q + 2 <= b.len() {
                    q + 2
                } else {
                    q
                },
                GMType::Buffer => if q + 4 <= b.len() {
                    q + 4
                } else {
                    q
                },
                _ => q,
            },
        }
    }
}

/// Where a failed read of `n` more values from `p` on leaves the cursor.
pub open spec fn items_stop(b: Seq<u8>, p: int, n: nat) -> int
    decreases b.len() - p, 1int,
{
    if n == 0 {
        p
    } else {
        match spec_unpack(b, p) {
            Some((v, next)) => if p < next <= b.len() {
                items_stop(b, next, (n - 1) as nat)
            } else {
                p
            },
            None => unpack_stop(b, p),
        }
    }
}

/// Where a failed read of `n` more key/value fields from `p` on leaves the
/// cursor: a key that does not decode is not consumed.
pub open spec fn fields_stop(b: Seq<u8>, p: int, n: nat) -> int
    decreases b.len() - p, 1int,
{
    if n == 0 {
        p
    } else {
        match string_at(b, p) {
            Some((key, vpos)) => if p < vpos <= b.len() {
                match spec_unpack(b, vpos) {
                    Some((v, next)) => if vpos < next <= b.len() {
                        fields_stop(b, next, (n - 1) as nat)
                    } else {
                        vpos
                    },
                    None => unpack_stop(b, vpos),
                }
            } else {
                p
            },
            None => p,
        }
    }
}

/// Where a failed read of a typed array's elements from `p` on leaves the
/// cursor: after the last element that fit whole, or at `p` for an
/// unknown element kind.
pub open spec fn typed_stop(b: Seq<u8>, p: int, n: nat, elem: u8) -> int {
    if n == 0 {
        p
    } else if elem == 9 {
        p + 8 * ((b.len() - p) / 8)
    } else if elem == 6 {
        p + 4 * ((b.len() - p) / 4)
    } else {
        p
    }
}

/// The mathematical values of a sequence of decoded values.
pub open spec fn values_of(s: Seq<GMValue>) -> Seq<WireValue> {
    Seq::new(s.len(), |i: int| value_of(s[i]))
}

/// The mathematical fields of a sequence of decoded fields.
pub open spec fn fields_of(s: Seq<(&str, GMValue)>) -> Seq<(Seq<char>, WireValue)> {
    Seq::new(s.len(), |i: int| (s[i].0@, value_of(s[i].1)))
}

/// No key occurs twice.
pub open spec fn distinct_keys(s: Seq<(Seq<char>, WireValue)>) -> bool {
    forall|i: int, j: int| 0 <= i < j < s.len() ==> #[trigger] s[i].0 != #[trigger] s[j].0
}

proof fn lemma_value_of_array(a: Vec<GMValue>)
    ensures
        value_of(GMValue::Array(a)) == WireValue::Array(values_of(a@)),
{
    match value_of(GMValue::Array(a)) {
        WireValue::Array(s) => {
            assert(s =~= values_of(a@));
        },
        _ => {},
    }
}

proof fn lemma_value_of_struct(f: Vec<(&str, GMValue)>)
    ensures
        value_of(GMValue::Struct(f)) == WireValue::Struct(fields_of(f@)),
{
    match value_of(GMValue::Struct(f)) {
        WireValue::Struct(s) => {
            assert(s =~= fields_of(f@));
        },
        _ => {},
    }
}

/// The little-endian `u32` at `k` of a slice.
fn le_u32_at(s: &[u8], k: usize) -> (r: u32)
    requires
        k + 4 <= s@.len(),
    ensures
        r == get_u32(s@, k as int),
{
    s[k] as u32 + 256 * (s[k + 1] as u32) + 65536 * (s[k + 2] as u32) + 16777216 * (s[k + 3] as u32)
}

/// True when two strings hold the same characters.
pub(crate) fn str_eq(a: &str, b: &str) -> (r: bool)
    ensures
        r == (a@ == b@),
{
    broadcast use vstd::utf8::encode_utf8_decode_utf8;

    let x = a.as_bytes();
    let y = b.as_bytes();
    if x.len() != y.len() {
        return false;
    }
    let mut i: usize = 0;
    while i < x.len()
        invariant
            x@.len() == y@.len(),
            i <= x@.len(),
            x@ == a.spec_bytes(),
            y@ == b.spec_bytes(),
            forall|k: int| 0 <= k < i ==> x@[k] == y@[k],
        decreases x@.len() - i,
    {
        if x[i] != y[i] {
            return false;
        }
        i += 1;
    }
    assert(x@ =~= y@);
    assert(decode_utf8(encode_utf8(a@)) == a@);
    assert(decode_utf8(encode_utf8(b@)) == b@);
    true
}

proof fn lemma_nul_index_bounds(b: Seq<u8>, p: int)
    ensures
        nul_index(b, p) matches Some(i) ==> p <= i < b.len() && b[i] == 0,
    decreases b.len() - p,
{
    if 0 <= p < b.len() && b[p] != 0 {
        lemma_nul_index_bounds(b, p + 1);
    }
}

proof fn lemma_put_existing(
    acc: Seq<(Seq<char>, WireValue)>,
    j: int,
    key: Seq<char>,
    val: WireValue,
)
    requires
        distinct_keys(acc),
        0 <= j < acc.len(),
        acc[j].0 == key,
    ensures
        put_field(acc, key, val) == acc.update(j, (key, val)),
        distinct_keys(acc.update(j, (key, val))),
{
    assert(acc[j].0 == key);
    let k = choose|k: int| 0 <= k < acc.len() && #[trigger] acc[k].0 == key;
    assert(k == j);
    let r = acc.update(j, (key, val));
    assert forall|x: int, y: int| 0 <= x < y < r.len() implies #[trigger] r[x].0 != #[trigger] r[y].0 by {
        assert(acc[x].0 != acc[y].0);
    }
}

proof fn lemma_put_new(acc: Seq<(Seq<char>, WireValue)>, key: Seq<char>, val: WireValue)
    requires
        distinct_keys(acc),
        forall|k: int| 0 <= k < acc.len() ==> #[trigger] acc[k].0 != key,
    ensures
        put_field(acc, key, val) == acc.push((key, val)),
        distinct_keys(acc.push((key, val))),
{
    let r = acc.push((key, val));
    assert forall|x: int, y: int| 0 <= x < y < r.len() implies #[trigger] r[x].0 != #[trigger] r[y].0 by {
        if y < acc.len() {
            assert(acc[x].0 != acc[y].0);
        } else {
            assert(acc[x].0 != key);
        }
    }
}

/// The index of the field whose key is `key`, if any.
fn find_field(fields: &Vec<(&str, GMValue)>, key: &str) -> (r: Option<usize>)
    ensures
        r matches Some(j) ==> j < fields@.len() && fields_of(fields@)[j as int].0 == key@,
        r is None ==> forall|k: int| 0 <= k < fields@.len() ==> #[trigger] fields_of(fields@)[k].0 != key@,
{
    let mut j: usize = 0;
    while j < fields.len()
        invariant
            j <= fields@.len(),
            forall|k: int| 0 <= k < j ==> #[trigger] fields_of(fields@)[k].0 != key@,
        decreases fields@.len() - j,
    {
        if str_eq(fields[j].0, key) {
            return Some(j);
        }
        j += 1;
    }
    None
}

impl<'a> GMBufferReader<'a> {
    fn read_u16(&mut self) -> (r: Option<u16>)
        ensures
            final(self).bytes() == old(self).bytes(),
            old(self).pos() + 2 <= old(self).bytes().len() ==> r == Some(
                get_u16(old(self).bytes(), old(self).pos() as int),
            ) && final(self).pos() == old(self).pos() + 2,
            old(self).pos() + 2 > old(self).bytes().len() ==> r is None && final(self).pos()
                == old(self).pos(),
    {
        match self.read_bytes(2) {
            Some(s) => Some(s[0] as u16 + 256 * (s[1] as u16)),
            None => None,
        }
    }

    fn read_u32(&mut self) -> (r: Option<u32>)
        ensures
            final(self).bytes() == old(self).bytes(),
            old(self).pos() + 4 <= old(self).bytes().len() ==> r == Some(
                get_u32(old(self).bytes(), old(self).pos() as int),
            ) && final(self).pos() == old(self).pos() + 4,
            old(self).pos() + 4 > old(self).bytes().len() ==> r is None && final(self).pos()
                == old(self).pos(),
    {
        match self.read_bytes(4) {
            Some(s) => Some(le_u32_at(s, 0)),
            None => None,
        }
    }

    fn read_u64(&mut self) -> (r: Option<u64>)
        ensures
            final(self).bytes() == old(self).bytes(),
            old(self).pos() + 8 <= old(self).bytes().len() ==> r == Some(
                get_u64(old(self).bytes(), old(self).pos() as int),
            ) && final(self).pos() == old(self).pos() + 8,
            old(self).pos() + 8 > old(self).bytes().len() ==> r is None && final(self).pos()
                == old(self).pos(),
    {
        match self.read_bytes(8) {
            Some(s) => {
                let lo = le_u32_at(s, 0);
                let hi = le_u32_at(s, 4);
                assert(hi as u64 * 4294967296 + lo as u64 <= u64::MAX) by (nonlinear_arith)
                    requires
                        hi <= u32::MAX,
                        lo <= u32::MAX,
                ;
                Some(lo as u64 + (hi as u64) * 4294967296)
            },
            None => None,
        }
    }

    /// Reads the payload of a value whose tag named `t`, a type other than
    /// array, struct and typed array.
    fn unpack_scalar(&mut self, t: GMType) -> (r: Option<GMValue<'a>>)
        requires
            old(self).pos() <= old(self).bytes().len(),
        ensures
            final(self).bytes() == old(self).bytes(),
            old(self).pos() <= final(self).pos() <= final(self).bytes().len(),
            match spec_scalar(old(self).bytes(), old(self).pos() as int, t) {
                Some((w, next)) => r matches Some(v) && value_of(v) == w && final(self).pos()
                    == next,
                None => r is None && final(self).pos() == (if t == GMType::Buffer && old(
                    self,
                ).pos() + 4 <= old(self).bytes().len() {
                    old(self).pos() + 4
                } else {
                    old(self).pos() as int
                }),
            },
    {
        proof {
            lemma_nul_index_bounds(self.bytes(), self.pos() as int);
        }
        match t {
            GMType::U8 => match self.read_bytes(1) {
                Some(s) => Some(GMValue::U8(s[0])),
                None => None,
            },
            GMType::I8 => match self.read_bytes(1) {
                Some(s) => Some(GMValue::I8(s[0] as i8)),
                None => None,
            },
            GMType::U16 => match self.read_u16() {
                Some(v) => Some(GMValue::U16(v)),
                None => None,
            },
            GMType::I16 => match self.read_u16() {
                Some(v) => Some(GMValue::I16(v as i16)),
                None => None,
            },
            GMType::U32 => match self.read_u32() {
                Some(v) => Some(GMValue::U32(v)),
                None => None,
            },
            GMType::I32 => match self.read_u32() {
                Some(v) => Some(GMValue::I32(v as i32)),
                None => None,
            },
            GMType::U64 => match self.read_u64() {
                Some(v) => Some(GMValue::U64(v)),
                None => None,
            },
            GMType::F32 => match self.read_u32() {
                Some(v) => Some(GMValue::F32(v)),
                None => None,
            },
            GMType::F64 => match self.read_u64() {
                Some(v) => Some(GMValue::F64(v)),
                None => None,
            },
            GMType::Bool => match self.read_bytes(1) {
                Some(s) => Some(GMValue::Bool(s[0] != 0)),
                None => None,
            },
            GMType::String => match self.read_string() {
                Some(s) => Some(GMValue::String(s)),
                None => None,
            },
            GMType::Pointer => match self.read_u64() {
                Some(v) => Some(GMValue::Pointer(v)),
                None => None,
            },
            GMType::Buffer => {
                let length = match self.read_u32() {
                    Some(v) => v,
                    None => {
                        return None;
                    },
                };
                let address = match self.read_u64() {
                    Some(v) => v,
                    None => {
                        return None;
                    },
                };
                Some(GMValue::Buffer { length, address })
            },
            GMType::Undefined => Some(GMValue::Undefined),
            _ => None,
        }
    }

    /// Reads the `n` elements of a typed array of element kind `elem`.
    fn unpack_typed(&mut self, n: u16, elem: u8) -> (r: Option<GMValue<'a>>)
        requires
            old(self).pos() <= old(self).bytes().len(),
        ensures
            final(self).bytes() == old(self).bytes(),
            old(self).pos() <= final(self).pos() <= final(self).bytes().len(),
            match spec_typed_array(old(self).bytes(), old(self).pos() as int, n as nat, elem) {
                Some((w, next)) => r matches Some(v) && value_of(v) == w && final(self).pos()
                    == next,
                None => r is None && final(self).pos() == typed_stop(
                    old(self).bytes(),
                    old(self).pos() as int,
                    n as nat,
                    elem,
                ),
            },
    {
        let ghost b = self.bytes();
        let ghost s0 = self.cursor;
        let mut values: Vec<GMValue<'a>> = Vec::new();
        let mut i: u16 = 0;
        while i < n
            invariant
                self.bytes() == b,
                b == old(self).bytes(),
                s0 == old(self).pos(),
                s0 <= self.cursor <= b.len(),
                i <= n,
                values@.len() == i,
                i == 0 ==> self.cursor == s0,
                i > 0 ==> elem == 9 || elem == 6,
                elem == 9 ==> self.cursor == s0 + 8 * i && values_of(values@) =~= Seq::new(
                    i as nat,
                    |k: int| WireValue::F64(get_u64(b, s0 + 8 * k)),
                ),
                elem == 6 ==> self.cursor == s0 + 4 * i && values_of(values@) =~= Seq::new(
                    i as nat,
                    |k: int| WireValue::I32(get_u32(b, s0 + 4 * k) as i32),
                ),
            decreases n - i,
        {
            let ghost prev = values@;
            if elem == 9 {
                match self.read_u64() {
                    Some(x) => {
                        values.push(GMValue::F64(x));
                    },
                    None => {
                        return None;
                    },
                }
            } else if elem == 6 {
                match self.read_u32() {
                    Some(x) => {
                        values.push(GMValue::I32(x as i32));
                    },
                    None => {
                        return None;
                    },
                }
            } else {
                return None;
            }
            proof {
                assert(values@ =~= prev.push(values@[i as int]));
                assert(values_of(values@) =~= values_of(prev).push(value_of(values@[i as int])));
            }
            i += 1;
        }
        proof {
            lemma_value_of_array(values);
            if n == 0 {
                assert(values_of(values@) =~= Seq::empty());
            } else if elem == 9 {
                assert(values_of(values@) =~= Seq::new(
                    n as nat,
                    |k: int| WireValue::F64(get_u64(b, s0 + 8 * k)),
                ));
            } else {
                assert(values_of(values@) =~= Seq::new(
                    n as nat,
                    |k: int| WireValue::I32(get_u32(b, s0 + 4 * k) as i32),
                ));
            }
        }
        Some(GMValue::Array(values))
    }

    /// Reads one value: its type tag, then its payload. Floating-point
    /// values come back as their bits; a struct keeps one field per key,
    /// the last value read for it, in the order keys first appeared. A read
    /// that fails leaves the cursor after the parts it had read whole.
    pub fn unpack_value(&mut self) -> (r: Option<GMValue<'a>>)
        requires
            old(self).pos() <= old(self).bytes().len(),
        ensures
            final(self).bytes() == old(self).bytes(),
            final(self).pos() <= final(self).bytes().len(),
            match spec_unpack(old(self).bytes(), old(self).pos() as int) {
                Some((w, next)) => r matches Some(v) && value_of(v) == w && final(self).pos()
                    == next,
                None => r is None && final(self).pos() == unpack_stop(
                    old(self).bytes(),
                    old(self).pos() as int,
                ),
            },
            r is Some ==> old(self).pos() < final(self).pos(),
        decreases old(self).bytes().len() - old(self).pos(),
    {
        let ghost b = self.bytes();
        let ghost p = self.cursor;
        let t = match self.read_type() {
            Some(t) => t,
            None => {
                return None;
            },
        };
        match t {
            GMType::Array => {
                let len = match self.read_u16() {
                    Some(v) => v,
                    None => {
                        return None;
                    },
                };
                let ghost start = self.cursor;
                let mut arr: Vec<GMValue<'a>> = Vec::new();
                assert(values_of(arr@) =~= Seq::empty());
                let mut i: u16 = 0;
                while i < len
                    invariant
                        self.bytes() == b,
                        b == old(self).bytes(),
                        p == old(self).pos(),
                        p < self.cursor <= b.len(),
                        i <= len,
                        spec_unpack(b, p as int) == (match spec_unpack_items(
                            b,
                            start as int,
                            len as nat,
                            Seq::empty(),
                        ) {
                            Some((items, next)) => Some((WireValue::Array(items), next)),
                            None => None,
                        }),
                        spec_unpack_items(b, start as int, len as nat, Seq::empty())
                            == spec_unpack_items(
                            b,
                            self.cursor as int,
                            (len - i) as nat,
                            values_of(arr@),
                        ),
                        unpack_stop(b, p as int) == items_stop(
                            b,
                            self.cursor as int,
                            (len - i) as nat,
                        ),
                    decreases len - i,
                {
                    let v = match self.unpack_value() {
                        Some(v) => v,
                        None => {
                            return None;
                        },
                    };
                    proof {
                        assert(values_of(arr@.push(v)) =~= values_of(arr@).push(value_of(v)));
                    }
                    arr.push(v);
                    i += 1;
                }
                proof {
                    lemma_value_of_array(arr);
                }
                Some(GMValue::Array(arr))
            },
            GMType::Struct => {
                let len = match self.read_u16() {
                    Some(v) => v,
                    None => {
                        return None;
                    },
                };
                let ghost start = self.cursor;
                let mut fields: Vec<(&'a str, GMValue<'a>)> = Vec::new();
                assert(fields_of(fields@) =~= Seq::empty());
                let mut i: u16 = 0;
                while i < len
                    invariant
                        self.bytes() == b,
                        b == old(self).bytes(),
                        p == old(self).pos(),
                        p < self.cursor <= b.len(),
                        i <= len,
                        distinct_keys(fields_of(fields@)),
                        spec_unpack(b, p as int) == (match spec_unpack_fields(
                            b,
                            start as int,
                            len as nat,
                            Seq::empty(),
                        ) {
                            Some((fields, next)) => Some((WireValue::Struct(fields), next)),
                            None => None,
                        }),
                        spec_unpack_fields(b, start as int, len as nat, Seq::empty())
                            == spec_unpack_fields(
                            b,
                            self.cursor as int,
                            (len - i) as nat,
                            fields_of(fields@),
                        ),
                        unpack_stop(b, p as int) == fields_stop(
                            b,
                            self.cursor as int,
                            (len - i) as nat,
                        ),
                    decreases len - i,
                {
                    let ghost c = self.cursor;
                    let key = match self.read_string() {
                        Some(k) => k,
                        None => {
                            return None;
                        },
                    };
                    proof {
                        lemma_nul_index_bounds(b, c as int);
                    }
                    let v = match self.unpack_value() {
                        Some(v) => v,
                        None => {
                            return None;
                        },
                    };
                    let ghost acc = fields_of(fields@);
                    let found = find_field(&fields, key);
                    match found {
                        Some(j) => {
                            proof {
                                lemma_put_existing(acc, j as int, key@, value_of(v));
                            }
                            fields[j] = (key, v);
                        },
                        None => {
                            proof {
                                lemma_put_new(acc, key@, value_of(v));
                            }
                            fields.push((key, v));
                        },
                    }
                    proof {
                        assert(fields_of(fields@) =~= put_field(acc, key@, value_of(v)));
                    }
                    i += 1;
                }
                proof {
                    lemma_value_of_struct(fields);
                }
                Some(GMValue::Struct(fields))
            },
            GMType::TypedArray => {
                let len = match self.read_u16() {
                    Some(v) => v,
                    None => {
                        return None;
                    },
                };
                let elem = match self.read_bytes(1) {
                    Some(s) => s[0],
                    None => {
                        return None;
                    },
                };
                self.unpack_typed(len, elem)
            },
            _ => self.unpack_scalar(t),
        }
    }
}


pub(crate) proof fn lemma_le16(v: u16)
    ensures
        get_u16(le16(v), 0) == v,
{
}

proof fn lemma_le32(v: u32)
    ensures
        get_u32(le32(v), 0) == v,
{
}

pub(crate) proof fn lemma_le64(v: u64)
    ensures
        get_u64(le64(v), 0) == v,
{
    let lo = (v % 4294967296) as u32;
    let hi = (v / 4294967296) as u32;
    lemma_le32(lo);
    lemma_le32(hi);
    let b = le64(v);
    assert(get_u32(b, 0) == get_u32(le32(lo), 0));
    assert(get_u32(b, 4) == get_u32(le32(hi), 0));
}

/// The tag of every wire type reads back as that type.
pub proof fn law_tag_roundtrip(t: GMType)
    ensures
        tag_type(type_tag(t)) == Some(t),
{
}

/// A `u8` value written after any bytes reads back, whatever follows it.
pub proof fn law_u8_roundtrip(before: Seq<u8>, v: u8, after: Seq<u8>)
    ensures
        spec_unpack(before + seq![1u8, v] + after, before.len() as int) == Some(
            (WireValue::U8(v), before.len() + 2int),
        ),
{
    let b = before + seq![1u8, v] + after;
    assert(b[before.len() as int] == 1u8);
    assert(b[before.len() as int + 1] == v);
}

/// A boolean written after any bytes reads back, whatever follows it.
pub proof fn law_bool_roundtrip(before: Seq<u8>, v: bool, after: Seq<u8>)
    ensures
        spec_unpack(
            before + seq![10u8, if v { 1u8 } else { 0u8 }] + after,
            before.len() as int,
        ) == Some((WireValue::Bool(v), before.len() + 2int)),
{
    let b = before + seq![10u8, if v { 1u8 } else { 0u8 }] + after;
    assert(b[before.len() as int] == 10u8);
    assert(b[before.len() as int + 1] == if v { 1u8 } else { 0u8 });
}

/// A `u32` value written after any bytes reads back, whatever follows it.
pub proof fn law_u32_roundtrip(before: Seq<u8>, v: u32, after: Seq<u8>)
    ensures
        spec_unpack(before + seq![5u8] + le32(v) + after, before.len() as int) == Some(
            (WireValue::U32(v), before.len() + 5int),
        ),
{
    let b = before + seq![5u8] + le32(v) + after;
    let p = before.len() as int;
    lemma_le32(v);
    assert(b[p] == 5u8);
    assert(get_u32(b, p + 1) == get_u32(le32(v), 0));
}

/// A 64-bit float written after any bytes reads back with the same bits,
/// whatever follows it.
pub proof fn law_f64_roundtrip(before: Seq<u8>, bits: u64, after: Seq<u8>)
    ensures
        spec_unpack(before + seq![9u8] + le64(bits) + after, before.len() as int) == Some(
            (WireValue::F64(bits), before.len() + 9int),
        ),
{
    let b = before + seq![9u8] + le64(bits) + after;
    let p = before.len() as int;
    lemma_le64(bits);
    let e = le64(bits);
    assert(b[p] == 9u8);
    assert(get_u32(b, p + 1) == get_u32(e, 0));
    assert(get_u32(b, p + 5) == get_u32(e, 4));
}

proof fn lemma_scalar_no_nul(c: u32)
    requires
        c != 0,
        is_scalar(c),
    ensures
        forall|k: int| 0 <= k < encode_scalar(c).len() ==> #[trigger] encode_scalar(c)[k] != 0,
{
    assert(c != 0 && c <= 0x7F ==> (c & 0x7F) as u8 != 0) by (bit_vector);
    assert(0xC0u8 | ((c >> 6) & 0x1F) as u8 != 0) by (bit_vector);
    assert(0xE0u8 | ((c >> 12) & 0x0F) as u8 != 0) by (bit_vector);
    assert(0xF0u8 | ((c >> 18) & 0x7) as u8 != 0) by (bit_vector);
    assert(0x80u8 | (c & 0x3F) as u8 != 0) by (bit_vector);
    assert(0x80u8 | ((c >> 6) & 0x3F) as u8 != 0) by (bit_vector);
    assert(0x80u8 | ((c >> 12) & 0x3F) as u8 != 0) by (bit_vector);
}

proof fn lemma_encode_no_nul(chars: Seq<char>)
    requires
        forall|i: int| 0 <= i < chars.len() ==> #[trigger] chars[i] != '\0',
    ensures
        forall|k: int| 0 <= k < encode_utf8(chars).len() ==> #[trigger] encode_utf8(chars)[k] != 0,
    decreases chars.len(),
{
    broadcast use vstd::utf8::char_is_scalar;

    if chars.len() > 0 {
        let c = chars[0] as u32;
        assert(chars[0] != '\0');
        vstd::utf8::char_is_scalar(chars[0]);
        if c == 0 {
            vstd::utf8::char_u32_cast(chars[0], c);
            vstd::utf8::char_u32_cast('\0', 0u32);
        }
        assert(c != 0);
        lemma_scalar_no_nul(c);
        lemma_encode_no_nul(chars.drop_first());
        let head = encode_scalar(c);
        let rest = encode_utf8(chars.drop_first());
        assert forall|k: int| 0 <= k < encode_utf8(chars).len() implies #[trigger] encode_utf8(
            chars,
        )[k] != 0 by {
            if k < head.len() {
                assert(encode_utf8(chars)[k] == head[k]);
            } else {
                assert(encode_utf8(chars)[k] == rest[k - head.len()]);
            }
        }
    }
}

proof fn lemma_nul_index_run(b: Seq<u8>, p: int, m: int)
    requires
        0 <= p,
        0 <= m,
        p + m < b.len(),
        b[p + m] == 0,
        forall|k: int| p <= k < p + m ==> #[trigger] b[k] != 0,
    ensures
        nul_index(b, p) == Some(p + m),
    decreases m,
{
    if m > 0 {
        lemma_nul_index_run(b, p + 1, m - 1);
    }
}

/// A string without NUL characters, written after any bytes, reads back,
/// whatever follows it.
pub proof fn law_string_roundtrip(before: Seq<u8>, s: Seq<char>, after: Seq<u8>)
    requires
        forall|i: int| 0 <= i < s.len() ==> #[trigger] s[i] != '\0',
    ensures
        spec_unpack(before + seq![11u8] + encode_utf8(s) + seq![0u8] + after, before.len() as int)
            == Some((WireValue::Str(s), before.len() + 2int + encode_utf8(s).len())),
{
    broadcast use vstd::utf8::encode_utf8_valid_utf8, vstd::utf8::encode_utf8_decode_utf8;

    let e = encode_utf8(s);
    let b = before + seq![11u8] + e + seq![0u8] + after;
    let p = before.len() as int;
    lemma_encode_no_nul(s);
    assert(b[p] == 11u8);
    assert forall|k: int| p + 1 <= k < p + 1 + e.len() implies #[trigger] b[k] != 0 by {
        assert(b[k] == e[k - p - 1]);
    }
    assert(b[p + 1 + e.len()] == 0u8);
    lemma_nul_index_run(b, p + 1, e.len() as int);
    assert(b.subrange(p + 1, p + 1 + e.len()) =~= e);
}

/// A typed array of 64-bit floats with at most `u16::MAX` elements, written
/// after any bytes, reads back element by element, whatever follows it.
pub proof fn law_f64_array_roundtrip(before: Seq<u8>, values: Seq<u64>, after: Seq<u8>)
    requires
        values.len() <= u16::MAX,
    ensures
        spec_unpack(
            before + seq![250u8] + le16(values.len() as u16) + seq![9u8] + f64_words(values)
                + after,
            before.len() as int,
        ) == Some(
            (
                WireValue::Array(Seq::new(values.len(), |i: int| WireValue::F64(values[i]))),
                before.len() + 4int + 8 * values.len(),
            ),
        ),
{
    let n = values.len() as u16;
    let w = f64_words(values);
    let b = before + seq![250u8] + le16(n) + seq![9u8] + w + after;
    let p = before.len() as int;
    lemma_le16(n);
    lemma_f64_words_len(values);
    assert(b[p] == 250u8);
    assert(get_u16(b, p + 1) == get_u16(le16(n), 0));
    assert(b[p + 3] == 9u8);
    assert forall|i: int| 0 <= i < values.len() implies get_u64(b, p + 4 + 8 * i) == values[i] by {
        lemma_f64_words_at(values, i);
        lemma_le64(values[i]);
        let e = le64(values[i]);
        assert forall|k: int| 0 <= k < 8 implies #[trigger] b[p + 4 + 8 * i + k] == e[k] by {
            assert(b[p + 4 + 8 * i + k] == w[8 * i + k]);
        }
        assert(get_u32(b, p + 4 + 8 * i) == get_u32(e, 0)) by {
            assert(b[p + 4 + 8 * i + 0] == e[0]);
            assert(b[p + 4 + 8 * i + 1] == e[1]);
            assert(b[p + 4 + 8 * i + 2] == e[2]);
            assert(b[p + 4 + 8 * i + 3] == e[3]);
        }
        assert(get_u32(b, p + 4 + 8 * i + 4) == get_u32(e, 4)) by {
            assert(b[p + 4 + 8 * i + 4] == e[4]);
            assert(b[p + 4 + 8 * i + 5] == e[5]);
            assert(b[p + 4 + 8 * i + 6] == e[6]);
            assert(b[p + 4 + 8 * i + 7] == e[7]);
        }
    }
    if values.len() > 0 {
        assert(Seq::new(n as nat, |i: int| WireValue::F64(get_u64(b, p + 4 + 8 * i))) =~= Seq::new(
            values.len(),
            |i: int| WireValue::F64(values[i]),
        ));
    } else {
        assert(Seq::<WireValue>::empty() =~= Seq::new(
            values.len(),
            |i: int| WireValue::F64(values[i]),
        ));
    }
}

pub(crate) proof fn lemma_f64_words_len(values: Seq<u64>)
    ensures
        f64_words(values).len() == 8 * values.len(),
    decreases values.len(),
{
    if values.len() > 0 {
        lemma_f64_words_len(values.drop_last());
    }
}

pub(crate) proof fn lemma_f64_words_at(values: Seq<u64>, i: int)
    requires
        0 <= i < values.len(),
    ensures
        forall|k: int| 0 <= k < 8 ==> #[trigger] f64_words(values)[8 * i + k] == le64(values[i])[k],
    decreases values.len(),
{
    lemma_f64_words_len(values.drop_last());
    if i < values.len() - 1 {
        lemma_f64_words_at(values.drop_last(), i);
        assert forall|k: int| 0 <= k < 8 implies #[trigger] f64_words(values)[8 * i + k] == le64(
            values[i],
        )[k] by {
            assert(f64_words(values)[8 * i + k] == f64_words(values.drop_last())[8 * i + k]);
        }
    }
}

proof fn lemma_unpack_bounds(b: Seq<u8>, p: int)
    ensures
        spec_unpack(b, p) matches Some((v, next)) ==> p < next <= b.len(),
    decreases b.len() - p, 0int,
{
    if 0 <= p < b.len() {
        let q = p + 1;
        lemma_nul_index_bounds(b, q);
        match tag_type(b[p]) {
            Some(GMType::Array) => {
                if q + 2 <= b.len() {
                    lemma_items_bounds(b, q + 2, get_u16(b, q) as nat, Seq::empty());
                }
            },
            Some(GMType::Struct) => {
                if q + 2 <= b.len() {
                    lemma_fields_bounds(b, q + 2, get_u16(b, q) as nat, Seq::empty());
                }
            },
            _ => {},
        }
    }
}

proof fn lemma_items_bounds(b: Seq<u8>, p: int, n: nat, acc: Seq<WireValue>)
    requires
        p <= b.len(),
    ensures
        spec_unpack_items(b, p, n, acc) matches Some((s, next)) ==> p <= next <= b.len(),
    decreases b.len() - p, 1int,
{
    if n > 0 {
        lemma_unpack_bounds(b, p);
        match spec_unpack(b, p) {
            Some((v, next)) => {
                if p < next <= b.len() {
                    lemma_items_bounds(b, next, (n - 1) as nat, acc.push(v));
                }
            },
            None => {},
        }
    }
}

proof fn lemma_fields_bounds(b: Seq<u8>, p: int, n: nat, acc: Seq<(Seq<char>, WireValue)>)
    requires
        p <= b.len(),
    ensures
        spec_unpack_fields(b, p, n, acc) matches Some((s, next)) ==> p <= next <= b.len(),
    decreases b.len() - p, 1int,
{
    if n > 0 {
        match string_at(b, p) {
            Some((key, vpos)) => {
                if p < vpos <= b.len() {
                    lemma_unpack_bounds(b, vpos);
                    match spec_unpack(b, vpos) {
                        Some((v, next)) => {
                            if vpos < next <= b.len() {
                                lemma_fields_bounds(b, next, (n - 1) as nat, put_field(acc, key, v));
                            }
                        },
                        None => {},
                    }
                }
            },
            None => {},
        }
    }
}

/// Every part reads back as its value, whatever precedes and follows it.
#[verifier::opaque]
pub open spec fn parts_read_back(parts: Seq<Seq<u8>>, vals: Seq<WireValue>) -> bool {
    &&& parts.len() == vals.len()
    &&& forall|i: int, pre: Seq<u8>, suf: Seq<u8>|
        0 <= i < parts.len() ==> #[trigger] spec_unpack(pre + parts[i] + suf, pre.len() as int)
            == Some((vals[i], pre.len() + parts[i].len() as int))
}

proof fn lemma_part_reads(
    parts: Seq<Seq<u8>>,
    vals: Seq<WireValue>,
    i: int,
    pre: Seq<u8>,
    suf: Seq<u8>,
)
    requires
        parts_read_back(parts, vals),
        0 <= i < parts.len(),
    ensures
        parts.len() == vals.len(),
        spec_unpack(pre + parts[i] + suf, pre.len() as int) == Some(
            (vals[i], pre.len() + parts[i].len() as int),
        ),
{
    reveal(parts_read_back);
}

proof fn lemma_items_read_back(
    pre: Seq<u8>,
    parts: Seq<Seq<u8>>,
    vals: Seq<WireValue>,
    suf: Seq<u8>,
    acc: Seq<WireValue>,
)
    requires
        parts_read_back(parts, vals),
    ensures
        spec_unpack_items(pre + parts.flatten() + suf, pre.len() as int, parts.len(), acc) == Some(
            (acc + vals, pre.len() + parts.flatten().len() as int),
        ),
    decreases parts.len(),
{
    if parts.len() == 0 {
        reveal(parts_read_back);
        assert(acc + vals =~= acc);
    } else {
        let b = pre + parts.flatten() + suf;
        let rest = parts.drop_first().flatten();
        assert(parts.flatten() == parts[0] + rest);
        assert(b =~= pre + parts[0] + (rest + suf));
        lemma_part_reads(parts, vals, 0, pre, rest + suf);
        lemma_unpack_bounds(b, pre.len() as int);
        lemma_parts_rest(parts, vals);
        lemma_items_read_back(pre + parts[0], parts.drop_first(), vals.drop_first(), suf, acc.push(vals[0]));
        assert(pre + parts[0] + rest + suf =~= b);
        assert(acc.push(vals[0]) + vals.drop_first() =~= acc + vals);
    }
}

/// An array header for `n` values followed by `n` parts, each of which
/// reads back as a value whatever precedes and follows it, reads back as
/// the array of those values, whatever follows it.
pub proof fn law_array_roundtrip(
    before: Seq<u8>,
    parts: Seq<Seq<u8>>,
    vals: Seq<WireValue>,
    after: Seq<u8>,
)
    requires
        parts_read_back(parts, vals),
        parts.len() <= u16::MAX,
    ensures
        spec_unpack(
            before + seq![254u8] + le16(parts.len() as u16) + parts.flatten() + after,
            before.len() as int,
        ) == Some((WireValue::Array(vals), before.len() + 3 + parts.flatten().len() as int)),
{
    let n = parts.len() as u16;
    let head = before + seq![254u8] + le16(n);
    let b = head + parts.flatten() + after;
    let p = before.len() as int;
    lemma_le16(n);
    assert(b[p] == 254u8);
    assert(get_u16(b, p + 1) == get_u16(le16(n), 0));
    lemma_items_read_back(head, parts, vals, after, Seq::empty());
    assert(Seq::<WireValue>::empty() + vals =~= vals);
    assert(b =~= before + seq![254u8] + le16(n) + parts.flatten() + after);
}

proof fn lemma_string_at_encoded(pre: Seq<u8>, s: Seq<char>, suf: Seq<u8>)
    requires
        forall|i: int| 0 <= i < s.len() ==> #[trigger] s[i] != '\0',
    ensures
        string_at(pre + encode_utf8(s) + seq![0u8] + suf, pre.len() as int) == Some(
            (s, pre.len() + encode_utf8(s).len() as int + 1),
        ),
{
    broadcast use vstd::utf8::encode_utf8_valid_utf8, vstd::utf8::encode_utf8_decode_utf8;

    let e = encode_utf8(s);
    let b = pre + e + seq![0u8] + suf;
    let p = pre.len() as int;
    lemma_encode_no_nul(s);
    assert forall|k: int| p <= k < p + e.len() implies #[trigger] b[k] != 0 by {
        assert(b[k] == e[k - p]);
    }
    assert(b[p + e.len()] == 0u8);
    lemma_nul_index_run(b, p, e.len() as int);
    assert(b.subrange(p, p + e.len()) =~= e);
}

/// The bytes of struct fields: each key as UTF-8 with a closing NUL, then
/// its value's part.
pub open spec fn field_bytes(keys: Seq<Seq<char>>, parts: Seq<Seq<u8>>) -> Seq<u8>
    decreases parts.len(),
{
    if parts.len() == 0 || keys.len() == 0 {
        Seq::empty()
    } else {
        encode_utf8(keys[0]) + seq![0u8] + parts[0] + field_bytes(keys.drop_first(), parts.drop_first())
    }
}

/// Keys that are pairwise different and hold no NUL character.
pub open spec fn keys_ok(keys: Seq<Seq<char>>) -> bool {
    &&& forall|i: int, j: int| 0 <= i < j < keys.len() ==> #[trigger] keys[i] != #[trigger] keys[j]
    &&& forall|i: int, k: int|
        0 <= i < keys.len() && 0 <= k < keys[i].len() ==> #[trigger] keys[i][k] != '\0'
}

/// Keys paired with values, in order.
pub open spec fn zip_fields(keys: Seq<Seq<char>>, vals: Seq<WireValue>) -> Seq<(Seq<char>, WireValue)> {
    Seq::new(vals.len(), |i: int| (keys[i], vals[i]))
}

proof fn lemma_parts_rest(parts: Seq<Seq<u8>>, vals: Seq<WireValue>)
    requires
        parts_read_back(parts, vals),
        parts.len() > 0,
    ensures
        parts.len() == vals.len(),
        parts_read_back(parts.drop_first(), vals.drop_first()),
{
    reveal(parts_read_back);
    assert forall|i: int, pr: Seq<u8>, sf: Seq<u8>|
        0 <= i < parts.drop_first().len() implies #[trigger] spec_unpack(
        pr + parts.drop_first()[i] + sf,
        pr.len() as int,
    ) == Some((vals.drop_first()[i], pr.len() + parts.drop_first()[i].len() as int)) by {
        assert(parts.drop_first()[i] == parts[i + 1]);
        assert(spec_unpack(pr + parts[i + 1] + sf, pr.len() as int) == Some(
            (vals[i + 1], pr.len() + parts[i + 1].len() as int),
        ));
    }
}

proof fn lemma_keys_rest(keys: Seq<Seq<char>>, acc: Seq<(Seq<char>, WireValue)>, v: WireValue)
    requires
        keys.len() > 0,
        keys_ok(keys),
        forall|i: int, k: int| 0 <= i < keys.len() && 0 <= k < acc.len() ==> #[trigger] acc[k].0 != #[trigger] keys[i],
    ensures
        keys_ok(keys.drop_first()),
        forall|k: int| 0 <= k < keys[0].len() ==> #[trigger] keys[0][k] != '\0',
        forall|k: int| 0 <= k < acc.len() ==> #[trigger] acc[k].0 != keys[0],
        forall|i: int, k: int|
            0 <= i < keys.drop_first().len() && 0 <= k < acc.push((keys[0], v)).len() ==> #[trigger] acc.push((keys[0], v))[k].0 != #[trigger] keys.drop_first()[i],
{
    let ks = keys.drop_first();
    let acc2 = acc.push((keys[0], v));
    assert forall|k: int| 0 <= k < keys[0].len() implies #[trigger] keys[0][k] != '\0' by {
        assert(keys[0][k] != '\0');
    }
    assert forall|k: int| 0 <= k < acc.len() implies #[trigger] acc[k].0 != keys[0] by {
        assert(acc[k].0 != keys[0]);
    }
    assert forall|i: int, j: int| 0 <= i < j < ks.len() implies #[trigger] ks[i] != #[trigger] ks[j] by {
        assert(keys[i + 1] != keys[j + 1]);
    }
    assert forall|i: int, k: int| 0 <= i < ks.len() && 0 <= k < ks[i].len() implies #[trigger] ks[i][k] != '\0' by {
        assert(keys[i + 1][k] != '\0');
    }
    assert forall|i: int, k: int| 0 <= i < ks.len() && 0 <= k < acc2.len() implies #[trigger] acc2[k].0 != #[trigger] ks[i] by {
        if k < acc.len() {
            assert(acc[k].0 != keys[i + 1]);
        } else {
            assert(keys[0] != keys[i + 1]);
        }
    }
}

proof fn lemma_field_first(
    pre: Seq<u8>,
    keys: Seq<Seq<char>>,
    parts: Seq<Seq<u8>>,
    vals: Seq<WireValue>,
    suf: Seq<u8>,
)
    requires
        parts_read_back(parts, vals),
        keys.len() == parts.len(),
        parts.len() > 0,
        forall|k: int| 0 <= k < keys[0].len() ==> #[trigger] keys[0][k] != '\0',
    ensures
        ({
            let b = pre + field_bytes(keys, parts) + suf;
            let vpos = (pre.len() + encode_utf8(keys[0]).len() + 1) as int;
            let next = vpos + parts[0].len() as int;
            &&& string_at(b, pre.len() as int) == Some((keys[0], vpos))
            &&& pre.len() < vpos <= b.len()
            &&& spec_unpack(b, vpos) == Some((vals[0], next))
            &&& vpos < next <= b.len()
            &&& b == pre + encode_utf8(keys[0]) + seq![0u8] + parts[0] + field_bytes(
                keys.drop_first(),
                parts.drop_first(),
            ) + suf
        }),
{
    let rest = field_bytes(keys.drop_first(), parts.drop_first());
    let e = encode_utf8(keys[0]);
    let b = pre + field_bytes(keys, parts) + suf;
    let vpos = (pre.len() + e.len() + 1) as int;
    assert(b =~= pre + e + seq![0u8] + (parts[0] + rest + suf));
    lemma_string_at_encoded(pre, keys[0], parts[0] + rest + suf);
    let pre2 = pre + e + seq![0u8];
    assert(b =~= pre2 + parts[0] + (rest + suf));
    lemma_part_reads(parts, vals, 0, pre2, rest + suf);
    lemma_unpack_bounds(b, vpos);
    assert(b =~= pre + e + seq![0u8] + parts[0] + rest + suf);
}

proof fn lemma_fields_read_back(
    pre: Seq<u8>,
    keys: Seq<Seq<char>>,
    parts: Seq<Seq<u8>>,
    vals: Seq<WireValue>,
    suf: Seq<u8>,
    acc: Seq<(Seq<char>, WireValue)>,
)
    requires
        parts_read_back(parts, vals),
        keys.len() == parts.len(),
        keys_ok(keys),
        distinct_keys(acc),
        forall|i: int, k: int| 0 <= i < keys.len() && 0 <= k < acc.len() ==> #[trigger] acc[k].0 != #[trigger] keys[i],
    ensures
        spec_unpack_fields(pre + field_bytes(keys, parts) + suf, pre.len() as int, parts.len(), acc)
            == Some((acc + zip_fields(keys, vals), pre.len() + field_bytes(keys, parts).len() as int)),
    decreases parts.len(),
{
    if parts.len() == 0 {
        reveal(parts_read_back);
        assert(acc + zip_fields(keys, vals) =~= acc);
    } else {
        let rest = field_bytes(keys.drop_first(), parts.drop_first());
        let b = pre + field_bytes(keys, parts) + suf;
        lemma_keys_rest(keys, acc, vals[0]);
        lemma_parts_rest(parts, vals);
        lemma_field_first(pre, keys, parts, vals, suf);
        lemma_put_new(acc, keys[0], vals[0]);
        let acc2 = acc.push((keys[0], vals[0]));
        let pre3 = pre + encode_utf8(keys[0]) + seq![0u8] + parts[0];
        lemma_fields_read_back(pre3, keys.drop_first(), parts.drop_first(), vals.drop_first(), suf, acc2);
        assert(pre3 + rest + suf =~= b);
        assert(acc2 + zip_fields(keys.drop_first(), vals.drop_first()) =~= acc + zip_fields(keys, vals));
    }
}

/// A struct header for `n` fields followed by `n` fields (a key without NUL
/// characters, its closing NUL, and a part that reads back as a value
/// whatever precedes and follows it), with pairwise different keys, reads
/// back as those fields in the order written, whatever follows it.
pub proof fn law_struct_roundtrip(
    before: Seq<u8>,
    keys: Seq<Seq<char>>,
    parts: Seq<Seq<u8>>,
    vals: Seq<WireValue>,
    after: Seq<u8>,
)
    requires
        parts_read_back(parts, vals),
        keys.len() == parts.len(),
        keys_ok(keys),
        parts.len() <= u16::MAX,
    ensures
        spec_unpack(
            before + seq![255u8] + le16(parts.len() as u16) + field_bytes(keys, parts) + after,
            before.len() as int,
        ) == Some(
            (
                WireValue::Struct(zip_fields(keys, vals)),
                before.len() + 3 + field_bytes(keys, parts).len() as int,
            ),
        ),
{
    let n = parts.len() as u16;
    let head = before + seq![255u8] + le16(n);
    let b = head + field_bytes(keys, parts) + after;
    let p = before.len() as int;
    lemma_le16(n);
    assert(b[p] == 255u8);
    assert(get_u16(b, p + 1) == get_u16(le16(n), 0));
    lemma_fields_read_back(head, keys, parts, vals, after, Seq::empty());
    assert(Seq::<(Seq<char>, WireValue)>::empty() + zip_fields(keys, vals) =~= zip_fields(keys, vals));
    assert(b =~= before + seq![255u8] + le16(n) + field_bytes(keys, parts) + after);
}

} // verus!
