//! The rich-text markup parser: a paragraph with `[tag]`, `[tag=value]` and
//! `[/...]` tags becomes a list of text and image runs, each with the style
//! in force where it stands.
//!
//! Attribute values that are numbers (alpha, boldness, outline and glow
//! widths) are kept as their trimmed text, in the order the tags applied
//! them; whoever draws the text reads them as numbers, each one that reads
//! replacing the one before.

use vstd::prelude::*;
use vstd::utf8::{encode_utf8, is_char_boundary};
use vstd::string::StringSliceAdditionalSpecFns;

verus! {

/// A numeric style attribute set by a tag.
#[derive(Debug, Clone, Copy, PartialEq, Eq, Structural)]
pub enum NumAttr {
    /// `[a=..]`: text alpha.
    A,
    /// `[b=..]`: boldness.
    B,
    /// `[oa=..]`: outline alpha.
    Oa,
    /// `[ow=..]`: outline width.
    Ow,
    /// `[ga=..]`: glow alpha.
    Ga,
    /// `[gr=..]`: glow radius.
    Gr,
}

/// A text style: colors packed as GameMaker colors (red in the low byte),
/// underline and strike-through flags, and the numeric attributes set so
/// far, oldest first, as text.
pub struct RichStyle {
    pub c: u32,
    pub oc: u32,
    pub gc: u32,
    pub ul: bool,
    pub st: bool,
    pub nums: Vec<(NumAttr, String)>,
}

/// The mathematical value of a style.
pub struct StyleV {
    pub c: u32,
    pub oc: u32,
    pub gc: u32,
    pub ul: bool,
    pub st: bool,
    pub nums: Seq<(NumAttr, Seq<char>)>,
}

/// The mathematical value of `s`.
pub open spec fn style_view(s: RichStyle) -> StyleV {
    StyleV {
        c: s.c,
        oc: s.oc,
        gc: s.gc,
        ul: s.ul,
        st: s.st,
        nums: Seq::new(s.nums@.len(), |i: int| (s.nums@[i].0, s.nums@[i].1@)),
    }
}

impl RichStyle {
    /// White text, black outline, aqua glow, no flags, no numeric attribute
    /// set.
    pub fn new_default() -> (s: Self)
        ensures
            s.c == 0xFFFFFF && s.oc == 0 && s.gc == 0xFFFF00,
            !s.ul && !s.st,
            s.nums@.len() == 0,
    {
        RichStyle { c: 0xFFFFFF, oc: 0, gc: 0xFFFF00, ul: false, st: false, nums: Vec::new() }
    }

    /// A copy of this style.
    pub fn copy(&self) -> (r: Self)
        ensures
            style_view(r) == style_view(*self),
    {
        let mut nums: Vec<(NumAttr, String)> = Vec::new();
        let mut i: usize = 0;
        while i < self.nums.len()
            invariant
                i <= self.nums@.len(),
                nums@.len() == i,
                forall|k: int|
                    0 <= k < i ==> #[trigger] nums@[k].0 == self.nums@[k].0 && nums@[k].1@
                        == self.nums@[k].1@,
            decreases self.nums@.len() - i,
        {
            let t = self.nums[i].1.clone();
            nums.push((self.nums[i].0, t));
            i += 1;
        }
        let r = RichStyle { c: self.c, oc: self.oc, gc: self.gc, ul: self.ul, st: self.st, nums };
        assert(style_view(r).nums =~= style_view(*self).nums);
        r
    }
}

/// A run of a paragraph.
pub enum RichRun {
    Text { text: String, style: RichStyle },
    /// An image; the numeric arguments (sub-image, scale, vertical offset,
    /// tint) are kept as their trimmed text, `None` when not given.
    Image {
        name: String,
        subimg: Option<String>,
        sc_mult: Option<String>,
        y_off: Option<String>,
        tint: Option<String>,
        style: RichStyle,
    },
}

/// The mathematical value of a run.
pub enum RunV {
    Text { text: Seq<char>, style: StyleV },
    Image {
        name: Seq<char>,
        subimg: Option<Seq<char>>,
        sc_mult: Option<Seq<char>>,
        y_off: Option<Seq<char>>,
        tint: Option<Seq<char>>,
        style: StyleV,
    },
}

/// The view of an optional string.
pub open spec fn opt_view(o: Option<String>) -> Option<Seq<char>> {
    match o {
        Some(s) => Some(s@),
        None => None,
    }
}

/// The mathematical value of `r`.
pub open spec fn run_view(r: RichRun) -> RunV {
    match r {
        RichRun::Text { text, style } => RunV::Text { text: text@, style: style_view(style) },
        RichRun::Image { name, subimg, sc_mult, y_off, tint, style } => RunV::Image {
            name: name@,
            subimg: opt_view(subimg),
            sc_mult: opt_view(sc_mult),
            y_off: opt_view(y_off),
            tint: opt_view(tint),
            style: style_view(style),
        },
    }
}

/// The mathematical values of runs.
pub open spec fn runs_view(rs: Seq<RichRun>) -> Seq<RunV> {
    Seq::new(rs.len(), |i: int| run_view(rs[i]))
}

/// True for the characters Rust calls whitespace (Unicode `White_Space`).
pub open spec fn is_ws(c: char) -> bool {
    let u = c as u32;
    ||| 0x09 <= u <= 0x0D
    ||| u == 0x20
    ||| u == 0x85
    ||| u == 0xA0
    ||| u == 0x1680
    ||| 0x2000 <= u <= 0x200A
    ||| u == 0x2028
    ||| u == 0x2029
    ||| u == 0x202F
    ||| u == 0x205F
    ||| u == 0x3000
}

/// The first index from `i` on that is not whitespace (or the length).
pub open spec fn trim_lo(s: Seq<char>, i: int) -> int
    decreases s.len() - i,
{
    if 0 <= i < s.len() && is_ws(s[i]) {
        trim_lo(s, i + 1)
    } else {
        i
    }
}

/// One past the last index before `j`, and not below `lo`, that is not
/// whitespace.
pub open spec fn trim_hi(s: Seq<char>, lo: int, j: int) -> int
    decreases j - lo,
{
    if lo < j && j <= s.len() && is_ws(s[j - 1]) {
        trim_hi(s, lo, j - 1)
    } else {
        j
    }
}

/// `s` without leading and trailing whitespace.
pub open spec fn trim(s: Seq<char>) -> Seq<char> {
    let lo = trim_lo(s, 0);
    s.subrange(lo, trim_hi(s, lo, s.len() as int))
}

/// The first index from `i` on that is not `#` (or the length).
pub open spec fn hash_lo(s: Seq<char>, i: int) -> int
    decreases s.len() - i,
{
    if 0 <= i < s.len() && s[i] == '#' {
        hash_lo(s, i + 1)
    } else {
        i
    }
}

/// `s` without its leading `#` characters.
pub open spec fn strip_hashes(s: Seq<char>) -> Seq<char> {
    s.subrange(hash_lo(s, 0), s.len() as int)
}

/// The value of a hexadecimal digit byte.
pub open spec fn hex_digit(b: u8) -> Option<u32> {
    if 48 <= b <= 57 {
        Some((b - 48) as u32)
    } else if 97 <= b <= 102 {
        Some((b - 87) as u32)
    } else if 65 <= b <= 70 {
        Some((b - 55) as u32)
    } else {
        None
    }
}

/// Two bytes read as a hexadecimal number (a leading `+` allowed, as
/// `u32::from_str_radix` allows it), or 255 when they are not one.
pub open spec fn pair_value(b0: u8, b1: u8) -> u32 {
    if b0 == 43 {
        match hex_digit(b1) {
            Some(v) => v,
            None => 255,
        }
    } else {
        match (hex_digit(b0), hex_digit(b1)) {
            (Some(x), Some(y)) => (16 * x + y) as u32,
            _ => 255,
        }
    }
}

/// The color of a `#RRGGBB` value, packed with red in the low byte: white
/// when the value (trimmed, leading `#`s removed) has fewer than six bytes;
/// a pair that is not hexadecimal counts 255. `None` when bytes 2, 4 or 6
/// do not start a character: slicing there panics.
pub open spec fn hex_color(v: Seq<char>) -> Option<u32> {
    let h = strip_hashes(trim(v));
    let b = encode_utf8(h);
    if b.len() < 6 {
        Some(0xFFFFFF)
    } else if !(is_char_boundary(b, 2) && is_char_boundary(b, 4) && is_char_boundary(b, 6)) {
        None
    } else {
        Some(
            (pair_value(b[0], b[1]) + 256 * pair_value(b[2], b[3]) + 65536 * pair_value(b[4], b[5]))
                as u32,
        )
    }
}

/// Appends a character to a string (`String::push`).
#[verifier::external_body]
fn push_char(s: &mut String, c: char)
    ensures
        final(s)@ == old(s)@.push(c),
{
    s.push(c);
}

/// The characters `v[lo..hi]` as a string.
fn string_of(v: &[char], lo: usize, hi: usize) -> (s: String)
    requires
        lo <= hi <= v@.len(),
    ensures
        s@ == v@.subrange(lo as int, hi as int),
{
    let mut s = String::new();
    let mut i: usize = lo;
    while i < hi
        invariant
            lo <= i <= hi,
            hi <= v@.len(),
            s@ == v@.subrange(lo as int, i as int),
        decreases hi - i,
    {
        push_char(&mut s, v[i]);
        i += 1;
        assert(s@ =~= v@.subrange(lo as int, i as int));
    }
    s
}

/// True when `c` is whitespace (`char::is_whitespace`).
pub fn char_is_ws(c: char) -> (b: bool)
    ensures
        b == is_ws(c),
{
    let u = c as u32;
    (0x09 <= u && u <= 0x0D) || u == 0x20 || u == 0x85 || u == 0xA0 || u == 0x1680 || (0x2000
        <= u && u <= 0x200A) || u == 0x2028 || u == 0x2029 || u == 0x202F || u == 0x205F || u
        == 0x3000
}

proof fn lemma_trim_lo_shift(s: Seq<char>, lo: int, hi: int, i: int)
    requires
        0 <= lo <= i <= hi <= s.len(),
    ensures
        lo + trim_lo(s.subrange(lo, hi), i - lo) == trim_lo_within(s, i, hi),
    decreases hi - i,
{
    let t = s.subrange(lo, hi);
    if i < hi && is_ws(s[i]) {
        assert(t[i - lo] == s[i]);
        lemma_trim_lo_shift(s, lo, hi, i + 1);
    } else if i < hi {
        assert(t[i - lo] == s[i]);
    }
}

/// The first index in `i..hi` that is not whitespace (or `hi`).
pub open spec fn trim_lo_within(s: Seq<char>, i: int, hi: int) -> int
    decreases hi - i,
{
    if 0 <= i < hi && hi <= s.len() && is_ws(s[i]) {
        trim_lo_within(s, i + 1, hi)
    } else {
        i
    }
}

proof fn lemma_trim_hi_shift(s: Seq<char>, lo: int, hi: int, a: int, j: int)
    requires
        0 <= lo <= a <= j <= hi <= s.len(),
    ensures
        lo + trim_hi(s.subrange(lo, hi), a - lo, j - lo) == trim_hi(s, a, j),
    decreases j - a,
{
    let t = s.subrange(lo, hi);
    if a < j && is_ws(s[j - 1]) {
        assert(t[j - 1 - lo] == s[j - 1]);
        lemma_trim_hi_shift(s, lo, hi, a, j - 1);
    } else if a < j {
        assert(t[j - 1 - lo] == s[j - 1]);
    }
}

/// The bounds of `v[lo..hi]` trimmed of whitespace.
fn trim_range(v: &[char], lo: usize, hi: usize) -> (r: (usize, usize))
    requires
        lo <= hi <= v@.len(),
    ensures
        lo <= r.0 <= r.1 <= hi,
        v@.subrange(r.0 as int, r.1 as int) == trim(v@.subrange(lo as int, hi as int)),
{
    let mut a: usize = lo;
    while a < hi && char_is_ws(v[a])
        invariant
            lo <= a <= hi,
            hi <= v@.len(),
            trim_lo_within(v@, lo as int, hi as int) == trim_lo_within(v@, a as int, hi as int),
        decreases hi - a,
    {
        a += 1;
    }
    let mut b: usize = hi;
    while b > a && char_is_ws(v[b - 1])
        invariant
            a <= b <= hi,
            hi <= v@.len(),
            trim_hi(v@, a as int, hi as int) == trim_hi(v@, a as int, b as int),
        decreases b - a,
    {
        b -= 1;
    }
    proof {
        let t = v@.subrange(lo as int, hi as int);
        lemma_trim_lo_shift(v@, lo as int, hi as int, lo as int);
        lemma_trim_hi_shift(v@, lo as int, hi as int, a as int, hi as int);
        assert(t.subrange(a - lo, b - lo) =~= v@.subrange(a as int, b as int));
    }
    (a, b)
}

/// The bounds of `v[lo..hi]` without its leading `#`s.
fn strip_hashes_range(v: &[char], lo: usize, hi: usize) -> (r: usize)
    requires
        lo <= hi <= v@.len(),
    ensures
        lo <= r <= hi,
        v@.subrange(r as int, hi as int) == strip_hashes(v@.subrange(lo as int, hi as int)),
{
    let ghost t = v@.subrange(lo as int, hi as int);
    let mut a: usize = lo;
    while a < hi && v[a] == '#'
        invariant
            lo <= a <= hi,
            hi <= v@.len(),
            t == v@.subrange(lo as int, hi as int),
            hash_lo(t, 0) == hash_lo(t, a - lo),
        decreases hi - a,
    {
        assert(t[a - lo] == v@[a as int]);
        a += 1;
    }
    proof {
        if a < hi {
            assert(t[a - lo] == v@[a as int]);
        }
        assert(t.subrange(a - lo, t.len() as int) =~= v@.subrange(a as int, hi as int));
    }
    a
}

/// The value of a hexadecimal digit byte.
fn hex_digit_exec(b: u8) -> (r: Option<u32>)
    ensures
        r == hex_digit(b),
{
    if 48 <= b && b <= 57 {
        Some((b - 48) as u32)
    } else if 97 <= b && b <= 102 {
        Some((b - 87) as u32)
    } else if 65 <= b && b <= 70 {
        Some((b - 55) as u32)
    } else {
        None
    }
}

fn pair_value_exec(b0: u8, b1: u8) -> (r: u32)
    ensures
        r == pair_value(b0, b1),
        r <= 255,
{
    if b0 == 43 {
        match hex_digit_exec(b1) {
            Some(v) => v,
            None => 255,
        }
    } else {
        match (hex_digit_exec(b0), hex_digit_exec(b1)) {
            (Some(x), Some(y)) => 16 * x + y,
            _ => 255,
        }
    }
}

/// The color of the value `v[lo..hi]`, or `None` where reading it panics
/// (see `hex_color`).
fn hex_color_range(v: &[char], lo: usize, hi: usize) -> (r: Option<u32>)
    requires
        lo <= hi <= v@.len(),
    ensures
        r == hex_color(v@.subrange(lo as int, hi as int)),
{
    let (a, b) = trim_range(v, lo, hi);
    let s = strip_hashes_range(v, a, b);
    proof {
        let t = v@.subrange(lo as int, hi as int);
        assert(strip_hashes(trim(t)) =~= v@.subrange(s as int, b as int));
    }
    let h = string_of(v, s, b);
    let hs = h.as_str();
    let bytes = hs.as_bytes();
    if bytes.len() < 6 {
        return Some(0xFFFFFF);
    }
    if !(hs.is_char_boundary(2) && hs.is_char_boundary(4) && hs.is_char_boundary(6)) {
        return None;
    }
    let r = pair_value_exec(bytes[0], bytes[1]);
    let g = pair_value_exec(bytes[2], bytes[3]);
    let bl = pair_value_exec(bytes[4], bytes[5]);
    Some(r + 256 * g + 65536 * bl)
}

/// The color of a `#RRGGBB` value, or `None` where a byte pair would be
/// cut inside a character (see `hex_color`).
pub fn hex_to_color(hex: &str) -> (r: Option<u32>)
    ensures
        r == hex_color(hex@),
{
    let v = chars_of(hex);
    assert(v@.subrange(0, v@.len() as int) =~= hex@);
    hex_color_range(v.as_slice(), 0, v.len())
}

/// The characters of a string.
pub fn chars_of(text: &str) -> (v: Vec<char>)
    ensures
        v@ == text@,
{
    broadcast use vstd::string::axiom_spec_iter;

    let mut v: Vec<char> = Vec::new();
    for ch in it: text.chars()
        invariant
            it.seq() == text@,
            v@ == text@.take(it.index() as int),
    {
        v.push(ch);
        assert(v@ =~= text@.take(it.index() + 1));
    }
    assert(v@ =~= text@);
    v
}

/// Where a paragraph's parse stands: the runs so far, the text not yet
/// put in a run, the style in force and the styles to return to.
pub struct ParseState {
    pub runs: Seq<RunV>,
    pub cur: Seq<char>,
    pub style: StyleV,
    pub stack: Seq<StyleV>,
}

/// The runs with the pending text, if any, put in a run.
pub open spec fn flush(st: ParseState) -> Seq<RunV> {
    if st.cur.len() > 0 {
        st.runs.push(RunV::Text { text: st.cur, style: st.style })
    } else {
        st.runs
    }
}

/// The first index from `i` on holding `c`.
pub open spec fn find_char(t: Seq<char>, i: int, c: char) -> Option<int>
    decreases t.len() - i,
{
    if i < 0 || i >= t.len() {
        None
    } else if t[i] == c {
        Some(i)
    } else {
        find_char(t, i + 1, c)
    }
}

/// Where `find_char` finds a character, and that it finds the first.
pub proof fn lemma_find_char(t: Seq<char>, i: int, c: char)
    ensures
        find_char(t, i, c) matches Some(j) ==> i <= j < t.len() && 0 <= j && t[j] == c && forall|
            k: int,
        | i <= k < j ==> #[trigger] t[k] != c,
        find_char(t, i, c) is None && 0 <= i ==> forall|k: int| i <= k < t.len() ==> #[trigger] t[k]
            != c,
    decreases t.len() - i,
{
    if 0 <= i < t.len() && t[i] != c {
        lemma_find_char(t, i + 1, c);
    }
}

/// Piece `k` of `s` split at commas.
pub open spec fn nth_piece(s: Seq<char>, k: nat) -> Option<Seq<char>>
    decreases s.len(), k,
{
    match find_char(s, 0, ',') {
        Some(c) => if k == 0 {
            Some(s.subrange(0, c))
        } else {
            proof {
                lemma_find_char(s, 0, ',');
            }
            nth_piece(s.subrange(c + 1, s.len() as int), (k - 1) as nat)
        },
        None => if k == 0 {
            Some(s)
        } else {
            None
        },
    }
}

/// Trimmed piece `k` of an image tag's value, if given.
pub open spec fn image_arg(val: Seq<char>, k: nat) -> Option<Seq<char>> {
    match nth_piece(val, k) {
        Some(p) => Some(trim(p)),
        None => None,
    }
}

/// The runs with the image of an `[img=name,sub,scale,yoff,tint]` tag
/// appended, unless its name is empty.
pub open spec fn add_image(runs: Seq<RunV>, val: Seq<char>, style: StyleV) -> Seq<RunV> {
    let name = trim(nth_piece(val, 0)->0);
    if name.len() > 0 {
        runs.push(
            RunV::Image {
                name,
                subimg: image_arg(val, 1),
                sc_mult: image_arg(val, 2),
                y_off: image_arg(val, 3),
                tint: image_arg(val, 4),
                style,
            },
        )
    } else {
        runs
    }
}

/// `s` with a numeric attribute appended.
pub open spec fn with_num(s: StyleV, a: NumAttr, v: Seq<char>) -> StyleV {
    StyleV { nums: s.nums.push((a, trim(v))), ..s }
}

/// The style after `[name=val]`, or `None` where reading a color panics.
/// Unknown names leave the style as it is.
pub open spec fn apply_attr(s: StyleV, name: Seq<char>, val: Seq<char>) -> Option<StyleV> {
    if name == seq!['c'] {
        match hex_color(val) {
            Some(c) => Some(StyleV { c, ..s }),
            None => None,
        }
    } else if name == seq!['o', 'c'] {
        match hex_color(val) {
            Some(c) => Some(StyleV { oc: c, ..s }),
            None => None,
        }
    } else if name == seq!['g', 'c'] {
        match hex_color(val) {
            Some(c) => Some(StyleV { gc: c, ..s }),
            None => None,
        }
    } else if name == seq!['a'] {
        Some(with_num(s, NumAttr::A, val))
    } else if name == seq!['b'] {
        Some(with_num(s, NumAttr::B, val))
    } else if name == seq!['o', 'a'] {
        Some(with_num(s, NumAttr::Oa, val))
    } else if name == seq!['o', 'w'] {
        Some(with_num(s, NumAttr::Ow, val))
    } else if name == seq!['g', 'a'] {
        Some(with_num(s, NumAttr::Ga, val))
    } else if name == seq!['g', 'r'] {
        Some(with_num(s, NumAttr::Gr, val))
    } else {
        Some(s)
    }
}

/// The style after `[tag]`: `ul` underlines, `st` strikes through, others
/// change nothing.
pub open spec fn apply_flag(s: StyleV, tag: Seq<char>) -> StyleV {
    if tag == seq!['u', 'l'] {
        StyleV { ul: true, ..s }
    } else if tag == seq!['s', 't'] {
        StyleV { st: true, ..s }
    } else {
        s
    }
}

/// The state after the tag `[tag]`, or `None` where the tag holds a color
/// value that cannot be cut into byte pairs (see `hex_color`).
/// A closing tag returns to the style saved by the last opening tag; an
/// image tag adds an image run; any other tag saves the style and applies
/// itself.
pub open spec fn step_tag(tag: Seq<char>, st: ParseState) -> Option<ParseState> {
    let runs = flush(st);
    if tag.len() > 0 && tag[0] == '/' {
        Some(
            ParseState {
                runs,
                cur: Seq::empty(),
                style: if st.stack.len() > 0 {
                    st.stack.last()
                } else {
                    st.style
                },
                stack: if st.stack.len() > 0 {
                    st.stack.drop_last()
                } else {
                    st.stack
                },
            },
        )
    } else {
        match find_char(tag, 0, '=') {
            Some(e) => {
                let name = tag.subrange(0, e);
                let val = tag.subrange(e + 1, tag.len() as int);
                if name == seq!['i', 'm', 'g'] {
                    Some(
                        ParseState {
                            runs: add_image(runs, val, st.style),
                            cur: Seq::empty(),
                            style: st.style,
                            stack: st.stack,
                        },
                    )
                } else {
                    match apply_attr(st.style, name, val) {
                        Some(s2) => Some(
                            ParseState {
                                runs,
                                cur: Seq::empty(),
                                style: s2,
                                stack: st.stack.push(st.style),
                            },
                        ),
                        None => None,
                    }
                }
            },
            None => Some(
                ParseState {
                    runs,
                    cur: Seq::empty(),
                    style: apply_flag(st.style, tag),
                    stack: st.stack.push(st.style),
                },
            ),
        }
    }
}

/// The runs of `t` from index `i` on, starting in state `st`; `None`
/// where a tag's color value cannot be cut into byte pairs. A `[` with a `]` after it opens a tag;
/// any other character is text.
pub open spec fn parse_from(t: Seq<char>, i: int, st: ParseState) -> Option<Seq<RunV>>
    decreases t.len() - i,
{
    if i < 0 || i >= t.len() {
        Some(flush(st))
    } else if t[i] == '[' && find_char(t, i + 1, ']') is Some {
        let j = find_char(t, i + 1, ']')->0;
        proof {
            lemma_find_char(t, i + 1, ']');
        }
        match step_tag(t.subrange(i + 1, j), st) {
            Some(st2) => parse_from(t, j + 1, st2),
            None => None,
        }
    } else {
        parse_from(t, i + 1, ParseState { cur: st.cur.push(t[i]), ..st })
    }
}

/// The runs of paragraph `t` in default style `d`.
pub open spec fn parse_spec(t: Seq<char>, d: StyleV) -> Option<Seq<RunV>> {
    parse_from(t, 0, ParseState { runs: Seq::empty(), cur: Seq::empty(), style: d, stack: Seq::empty() })
}

/// The state of a parse held in exec values.
pub open spec fn state_view(
    runs: Seq<RichRun>,
    cur: Seq<char>,
    style: RichStyle,
    stack: Seq<RichStyle>,
) -> ParseState {
    ParseState {
        runs: runs_view(runs),
        cur,
        style: style_view(style),
        stack: Seq::new(stack.len(), |k: int| style_view(stack[k])),
    }
}

proof fn lemma_find_first(s: Seq<char>, i: int, c: char, j: int)
    requires
        0 <= i <= j < s.len(),
        s[j] == c,
        forall|k: int| i <= k < j ==> #[trigger] s[k] != c,
    ensures
        find_char(s, i, c) == Some(j),
    decreases j - i,
{
    if i < j {
        lemma_find_first(s, i + 1, c, j);
    }
}

proof fn lemma_find_none(s: Seq<char>, i: int, c: char)
    requires
        0 <= i,
        forall|k: int| i <= k < s.len() ==> #[trigger] s[k] != c,
    ensures
        find_char(s, i, c) is None,
    decreases s.len() - i,
{
    if i < s.len() {
        lemma_find_none(s, i + 1, c);
    }
}

/// The first index in `lo..hi` holding `c`.
fn find_char_exec(v: &[char], lo: usize, hi: usize, c: char) -> (r: Option<usize>)
    requires
        lo <= hi <= v@.len(),
    ensures
        r matches Some(j) ==> lo <= j < hi && v@[j as int] == c && forall|k: int|
            lo <= k < j ==> #[trigger] v@[k] != c,
        r is None ==> forall|k: int| lo <= k < hi ==> #[trigger] v@[k] != c,
{
    let mut i: usize = lo;
    while i < hi
        invariant
            lo <= i <= hi,
            hi <= v@.len(),
            forall|k: int| lo <= k < i ==> #[trigger] v@[k] != c,
        decreases hi - i,
    {
        if v[i] == c {
            return Some(i);
        }
        i += 1;
    }
    None
}

/// The position of `c` in `v[lo..hi]` as `find_char` gives it.
fn find_in_range(v: &[char], lo: usize, hi: usize, c: char) -> (r: Option<usize>)
    requires
        lo <= hi <= v@.len(),
    ensures
        match find_char(v@.subrange(lo as int, hi as int), 0, c) {
            Some(j) => r matches Some(x) && x == lo + j && lo <= x < hi,
            None => r is None,
        },
{
    let r = find_char_exec(v, lo, hi, c);
    proof {
        let t = v@.subrange(lo as int, hi as int);
        match r {
            Some(j) => {
                assert forall|k: int| 0 <= k < j - lo implies #[trigger] t[k] != c by {
                    assert(t[k] == v@[lo + k]);
                }
                assert(t[j - lo] == v@[j as int]);
                lemma_find_first(t, 0, c, j - lo);
            },
            None => {
                assert forall|k: int| 0 <= k < t.len() implies #[trigger] t[k] != c by {
                    assert(t[k] == v@[lo + k]);
                }
                lemma_find_none(t, 0, c);
            },
        }
    }
    r
}

/// True when `v[lo..hi]` is the one character `a`.
fn range_is1(v: &[char], lo: usize, hi: usize, a: char) -> (b: bool)
    requires
        lo <= hi <= v@.len(),
    ensures
        b == (v@.subrange(lo as int, hi as int) == seq![a]),
{
    let b = hi - lo == 1 && v[lo] == a;
    proof {
        let t = v@.subrange(lo as int, hi as int);
        if b {
            assert(t =~= seq![a]);
        } else if t.len() == 1 {
            assert(t[0] != seq![a][0]);
        }
    }
    b
}

/// True when `v[lo..hi]` is the two characters `a`, `c`.
fn range_is2(v: &[char], lo: usize, hi: usize, a: char, c: char) -> (b: bool)
    requires
        lo <= hi <= v@.len(),
    ensures
        b == (v@.subrange(lo as int, hi as int) == seq![a, c]),
{
    let b = hi - lo == 2 && v[lo] == a && v[lo + 1] == c;
    proof {
        let t = v@.subrange(lo as int, hi as int);
        if b {
            assert(t =~= seq![a, c]);
        } else if t.len() == 2 {
            if v@[lo as int] != a {
                assert(t[0] != seq![a, c][0]);
            } else {
                assert(t[1] != seq![a, c][1]);
            }
        }
    }
    b
}

/// True when `v[lo..hi]` is the three characters `a`, `c`, `d`.
fn range_is3(v: &[char], lo: usize, hi: usize, a: char, c: char, d: char) -> (b: bool)
    requires
        lo <= hi <= v@.len(),
    ensures
        b == (v@.subrange(lo as int, hi as int) == seq![a, c, d]),
{
    let b = hi - lo == 3 && v[lo] == a && v[lo + 1] == c && v[lo + 2] == d;
    proof {
        let t = v@.subrange(lo as int, hi as int);
        if b {
            assert(t =~= seq![a, c, d]);
        } else if t.len() == 3 {
            if v@[lo as int] != a {
                assert(t[0] != seq![a, c, d][0]);
            } else if v@[lo + 1] != c {
                assert(t[1] != seq![a, c, d][1]);
            } else {
                assert(t[2] != seq![a, c, d][2]);
            }
        }
    }
    b
}

/// The bounds of piece `k` of `v[lo..hi]` split at commas.
fn nth_piece_range(v: &[char], lo: usize, hi: usize, k: usize) -> (r: Option<(usize, usize)>)
    requires
        lo <= hi <= v@.len(),
    ensures
        match nth_piece(v@.subrange(lo as int, hi as int), k as nat) {
            Some(p) => r matches Some((a, b)) && lo <= a <= b <= hi && v@.subrange(a as int, b as int)
                == p,
            None => r is None,
        },
    decreases k,
{
    let ghost t = v@.subrange(lo as int, hi as int);
    match find_in_range(v, lo, hi, ',') {
        Some(c) => {
            if k == 0 {
                assert(t.subrange(0, c - lo) =~= v@.subrange(lo as int, c as int));
                Some((lo, c))
            } else {
                assert(t.subrange(c - lo + 1, t.len() as int) =~= v@.subrange(c + 1, hi as int));
                nth_piece_range(v, c + 1, hi, k - 1)
            }
        },
        None => {
            if k == 0 {
                Some((lo, hi))
            } else {
                None
            }
        },
    }
}

/// The trimmed piece `k` of `v[lo..hi]`, if given.
fn image_arg_exec(v: &[char], lo: usize, hi: usize, k: usize) -> (r: Option<String>)
    requires
        lo <= hi <= v@.len(),
    ensures
        opt_view(r) == image_arg(v@.subrange(lo as int, hi as int), k as nat),
{
    match nth_piece_range(v, lo, hi, k) {
        Some((a, b)) => {
            let (x, y) = trim_range(v, a, b);
            Some(string_of(v, x, y))
        },
        None => None,
    }
}

/// Puts the pending text, if any, in a run.
fn flush_exec(runs: &mut Vec<RichRun>, cur: &mut String, style: &RichStyle)
    ensures
        runs_view(final(runs)@) == flush(state_view(old(runs)@, old(cur)@, *style, Seq::empty())),
        final(cur)@ == Seq::<char>::empty(),
{
    if !cur.as_str().is_empty() {
        let mut text = String::new();
        std::mem::swap(&mut text, cur);
        let ghost before = runs@;
        runs.push(RichRun::Text { text, style: style.copy() });
        assert(runs_view(runs@) =~= runs_view(before).push(run_view(runs@.last())));
    }
}

/// Appends a numeric attribute, trimmed, to a style.
fn push_num(style: &mut RichStyle, a: NumAttr, v: &[char], lo: usize, hi: usize)
    requires
        lo <= hi <= v@.len(),
    ensures
        style_view(*final(style)) == with_num(
            style_view(*old(style)),
            a,
            v@.subrange(lo as int, hi as int),
        ),
{
    let (x, y) = trim_range(v, lo, hi);
    let t = string_of(v, x, y);
    style.nums.push((a, t));
    assert(style_view(*style).nums =~= style_view(*old(style)).nums.push(
        (a, trim(v@.subrange(lo as int, hi as int))),
    ));
}

/// Applies `[name=val]` (name `v[nlo..nhi]`, value `v[vlo..vhi]`) to a
/// style; false where reading a color panics.
fn apply_attr_exec(
    style: &mut RichStyle,
    v: &[char],
    nlo: usize,
    nhi: usize,
    vlo: usize,
    vhi: usize,
) -> (ok: bool)
    requires
        nlo <= nhi <= v@.len(),
        vlo <= vhi <= v@.len(),
    ensures
        match apply_attr(
            style_view(*old(style)),
            v@.subrange(nlo as int, nhi as int),
            v@.subrange(vlo as int, vhi as int),
        ) {
            Some(s2) => ok && style_view(*final(style)) == s2,
            None => !ok,
        },
{
    if range_is1(v, nlo, nhi, 'c') {
        match hex_color_range(v, vlo, vhi) {
            Some(c) => {
                style.c = c;
                true
            },
            None => false,
        }
    } else if range_is2(v, nlo, nhi, 'o', 'c') {
        match hex_color_range(v, vlo, vhi) {
            Some(c) => {
                style.oc = c;
                true
            },
            None => false,
        }
    } else if range_is2(v, nlo, nhi, 'g', 'c') {
        match hex_color_range(v, vlo, vhi) {
            Some(c) => {
                style.gc = c;
                true
            },
            None => false,
        }
    } else if range_is1(v, nlo, nhi, 'a') {
        push_num(style, NumAttr::A, v, vlo, vhi);
        true
    } else if range_is1(v, nlo, nhi, 'b') {
        push_num(style, NumAttr::B, v, vlo, vhi);
        true
    } else if range_is2(v, nlo, nhi, 'o', 'a') {
        push_num(style, NumAttr::Oa, v, vlo, vhi);
        true
    } else if range_is2(v, nlo, nhi, 'o', 'w') {
        push_num(style, NumAttr::Ow, v, vlo, vhi);
        true
    } else if range_is2(v, nlo, nhi, 'g', 'a') {
        push_num(style, NumAttr::Ga, v, vlo, vhi);
        true
    } else if range_is2(v, nlo, nhi, 'g', 'r') {
        push_num(style, NumAttr::Gr, v, vlo, vhi);
        true
    } else {
        true
    }
}

/// Applies the flag tag `v[lo..hi]` to a style.
fn apply_flag_exec(style: &mut RichStyle, v: &[char], lo: usize, hi: usize)
    requires
        lo <= hi <= v@.len(),
    ensures
        style_view(*final(style)) == apply_flag(
            style_view(*old(style)),
            v@.subrange(lo as int, hi as int),
        ),
{
    if range_is2(v, lo, hi, 'u', 'l') {
        style.ul = true;
    } else if range_is2(v, lo, hi, 's', 't') {
        style.st = true;
    }
}

/// Appends the image of `[img=...]` (value `v[lo..hi]`) unless its name is
/// empty.
fn add_image_exec(runs: &mut Vec<RichRun>, v: &[char], lo: usize, hi: usize, style: &RichStyle)
    requires
        lo <= hi <= v@.len(),
    ensures
        runs_view(final(runs)@) == add_image(
            runs_view(old(runs)@),
            v@.subrange(lo as int, hi as int),
            style_view(*style),
        ),
{
    let name = match image_arg_exec(v, lo, hi, 0) {
        Some(n) => n,
        None => String::new(),
    };
    if !name.as_str().is_empty() {
        let subimg = image_arg_exec(v, lo, hi, 1);
        let sc_mult = image_arg_exec(v, lo, hi, 2);
        let y_off = image_arg_exec(v, lo, hi, 3);
        let tint = image_arg_exec(v, lo, hi, 4);
        let ghost before = runs@;
        runs.push(RichRun::Image { name, subimg, sc_mult, y_off, tint, style: style.copy() });
        assert(runs_view(runs@) =~= runs_view(before).push(run_view(runs@.last())));
    }
}

/// Applies the tag `v[lo..hi]`; false where its color value cannot be cut
/// into byte pairs.
fn apply_tag(
    v: &[char],
    lo: usize,
    hi: usize,
    runs: &mut Vec<RichRun>,
    cur: &mut String,
    style: &mut RichStyle,
    stack: &mut Vec<RichStyle>,
) -> (ok: bool)
    requires
        lo <= hi <= v@.len(),
    ensures
        match step_tag(
            v@.subrange(lo as int, hi as int),
            state_view(old(runs)@, old(cur)@, *old(style), old(stack)@),
        ) {
            Some(st2) => ok && state_view(final(runs)@, final(cur)@, *final(style), final(stack)@)
                == st2,
            None => !ok,
        },
{
    let ghost tag = v@.subrange(lo as int, hi as int);
    let ghost st0 = state_view(runs@, cur@, *style, stack@);
    flush_exec(runs, cur, style);
    assert(runs_view(runs@) == flush(st0));
    if lo < hi && v[lo] == '/' {
        assert(tag[0] == v@[lo as int]);
        match stack.pop() {
            Some(prev) => {
                *style = prev;
                assert(state_view(runs@, cur@, *style, stack@).stack =~= st0.stack.drop_last());
            },
            None => {
                assert(state_view(runs@, cur@, *style, stack@).stack =~= st0.stack);
            },
        }
        return true;
    }
    assert(!(tag.len() > 0 && tag[0] == '/')) by {
        if tag.len() > 0 {
            assert(tag[0] == v@[lo as int]);
        }
    }
    match find_in_range(v, lo, hi, '=') {
        Some(e) => {
            assert(tag.subrange(0, e - lo) =~= v@.subrange(lo as int, e as int));
            assert(tag.subrange(e - lo + 1, tag.len() as int) =~= v@.subrange(e + 1, hi as int));
            if range_is3(v, lo, e, 'i', 'm', 'g') {
                add_image_exec(runs, v, e + 1, hi, style);
                return true;
            }
            let saved = style.copy();
            if !apply_attr_exec(style, v, lo, e, e + 1, hi) {
                return false;
            }
            stack.push(saved);
            assert(state_view(runs@, cur@, *style, stack@).stack =~= st0.stack.push(st0.style));
            true
        },
        None => {
            let saved = style.copy();
            apply_flag_exec(style, v, lo, hi);
            stack.push(saved);
            assert(state_view(runs@, cur@, *style, stack@).stack =~= st0.stack.push(st0.style));
            true
        },
    }
}

/// Parses one paragraph (the caller splits lines) into text and image runs.
/// `None` exactly where a color value has bytes 2, 4 or 6 inside a
/// character, so that it cannot be cut into byte pairs.
pub fn parse_paragraph(text: &str, default_style: &RichStyle) -> (r: Option<Vec<RichRun>>)
    ensures
        match parse_spec(text@, style_view(*default_style)) {
            Some(rs) => r matches Some(v) && runs_view(v@) == rs,
            None => r is None,
        },
{
    let chars = chars_of(text);
    let n = chars.len();
    let mut runs: Vec<RichRun> = Vec::new();
    let mut cur = String::new();
    let mut style = default_style.copy();
    let mut stack: Vec<RichStyle> = Vec::new();
    let ghost t = text@;
    proof {
        let s0 = state_view(runs@, cur@, style, stack@);
        assert(s0.runs =~= Seq::<RunV>::empty());
        assert(s0.stack =~= Seq::<StyleV>::empty());
    }
    let mut i: usize = 0;
    while i < n
        invariant
            n == chars@.len(),
            chars@ == t,
            t == text@,
            i <= n,
            parse_spec(t, style_view(*default_style)) == parse_from(
                t,
                i as int,
                state_view(runs@, cur@, style, stack@),
            ),
        decreases n - i,
    {
        if chars[i] == '[' {
            match find_char_exec(chars.as_slice(), i + 1, n, ']') {
                Some(j) => {
                    proof {
                        lemma_find_first(t, i + 1, ']', j as int);
                    }
                    let ghost before = state_view(runs@, cur@, style, stack@);
                    assert(parse_spec(t, style_view(*default_style)) == parse_from(t, i as int, before));
                    if !apply_tag(chars.as_slice(), i + 1, j, &mut runs, &mut cur, &mut style, &mut stack) {
                        assert(step_tag(t.subrange(i + 1, j as int), before) is None);
                        assert(parse_from(t, i as int, before) is None);

                        return None;
                    }
                    i = j + 1;
                    continue;
                },
                None => {
                    proof {
                        lemma_find_none(t, i + 1, ']');
                    }
                },
            }
        }
        push_char(&mut cur, chars[i]);
        i += 1;
    }
    let ghost last = state_view(runs@, cur@, style, stack@);
    flush_exec(&mut runs, &mut cur, &style);
    assert(runs_view(runs@) == flush(last));
    Some(runs)
}

proof fn lemma_plain_from(t: Seq<char>, i: int, st: ParseState)
    requires
        0 <= i <= t.len(),
        forall|k: int| i <= k < t.len() ==> #[trigger] t[k] != '[',
    ensures
        parse_from(t, i, st) == Some(
            flush(ParseState { cur: st.cur + t.subrange(i, t.len() as int), ..st }),
        ),
    decreases t.len() - i,
{
    if i < t.len() {
        let st2 = ParseState { cur: st.cur.push(t[i]), ..st };
        lemma_plain_from(t, i + 1, st2);
        assert(st2.cur + t.subrange(i + 1, t.len() as int) =~= st.cur + t.subrange(i, t.len() as int));
    } else {
        assert(st.cur + t.subrange(i, t.len() as int) =~= st.cur);
    }
}

/// A paragraph without `[` is one text run in the default style (none when
/// it is empty).
pub proof fn law_plain_paragraph(t: Seq<char>, d: StyleV)
    requires
        forall|k: int| 0 <= k < t.len() ==> #[trigger] t[k] != '[',
    ensures
        parse_spec(t, d) == Some(
            if t.len() > 0 {
                seq![RunV::Text { text: t, style: d }]
            } else {
                Seq::<RunV>::empty()
            },
        ),
{
    let st = ParseState { runs: Seq::empty(), cur: Seq::empty(), style: d, stack: Seq::empty() };
    lemma_plain_from(t, 0, st);
    assert(Seq::<char>::empty() + t.subrange(0, t.len() as int) =~= t);
    if t.len() > 0 {
        assert(Seq::<RunV>::empty().push(RunV::Text { text: t, style: d }) =~= seq![
            RunV::Text { text: t, style: d },
        ]);
    }
}

/// Every text run holds at least one character.
pub open spec fn text_runs_nonempty(runs: Seq<RunV>) -> bool {
    forall|k: int| 0 <= k < runs.len() ==> (#[trigger] runs[k] matches RunV::Text { text, .. } ==> text.len() > 0)
}

proof fn lemma_nonempty_step(tag: Seq<char>, st: ParseState)
    requires
        text_runs_nonempty(st.runs),
    ensures
        step_tag(tag, st) matches Some(st2) ==> text_runs_nonempty(st2.runs),
        text_runs_nonempty(flush(st)),
{
    let runs = flush(st);
    assert(text_runs_nonempty(runs)) by {
        if st.cur.len() > 0 {
            assert forall|k: int| 0 <= k < runs.len() implies (#[trigger] runs[k] matches RunV::Text { text, .. } ==> text.len() > 0) by {
                if k < st.runs.len() {
                    assert(runs[k] == st.runs[k]);
                }
            }
        }
    }
    match find_char(tag, 0, '=') {
        Some(e) => {
            let val = tag.subrange(e + 1, tag.len() as int);
            let r2 = add_image(runs, val, st.style);
            assert forall|k: int| 0 <= k < r2.len() implies (#[trigger] r2[k] matches RunV::Text { text, .. } ==> text.len() > 0) by {
                if k < runs.len() {
                    assert(r2[k] == runs[k]);
                }
            }
        },
        None => {},
    }
}

proof fn lemma_nonempty_from(t: Seq<char>, i: int, st: ParseState)
    requires
        0 <= i,
        text_runs_nonempty(st.runs),
    ensures
        parse_from(t, i, st) matches Some(rs) ==> text_runs_nonempty(rs),
    decreases t.len() - i,
{
    lemma_nonempty_step(Seq::empty(), st);
    if i < t.len() {
        if t[i] == '[' && find_char(t, i + 1, ']') is Some {
            let j = find_char(t, i + 1, ']')->0;
            lemma_find_char(t, i + 1, ']');
            lemma_nonempty_step(t.subrange(i + 1, j), st);
            match step_tag(t.subrange(i + 1, j), st) {
                Some(st2) => lemma_nonempty_from(t, j + 1, st2),
                None => {},
            }
        } else {
            lemma_nonempty_from(t, i + 1, ParseState { cur: st.cur.push(t[i]), ..st });
        }
    }
}

/// No text run of a parsed paragraph is empty.
pub proof fn law_text_runs_nonempty(t: Seq<char>, d: StyleV)
    ensures
        parse_spec(t, d) matches Some(rs) ==> text_runs_nonempty(rs),
{
    lemma_nonempty_from(
        t,
        0,
        ParseState { runs: Seq::empty(), cur: Seq::empty(), style: d, stack: Seq::empty() },
    );
}


/// The tag name of a numeric attribute, as markup writes it.
pub open spec fn num_tag_name(a: NumAttr) -> Seq<char> {
    match a {
        NumAttr::A => seq!['a'],
        NumAttr::B => seq!['b'],
        NumAttr::Oa => seq!['o', 'a'],
        NumAttr::Ow => seq!['o', 'w'],
        NumAttr::Ga => seq!['g', 'a'],
        NumAttr::Gr => seq!['g', 'r'],
    }
}

/// Each numeric tag sets its own attribute: `[a=v]` the text alpha, `[b=v]`
/// the boldness, `[oa=v]` the outline alpha, `[ow=v]` the outline width,
/// `[ga=v]` the glow alpha and `[gr=v]` the glow radius. The tag closes the
/// pending text, saves the style, and the new style is the old one with
/// `(attribute, trimmed v)` appended to its numeric attributes and nothing
/// else changed.
pub proof fn law_numeric_tag_sets_its_attribute(a: NumAttr, val: Seq<char>, st: ParseState)
    ensures
        step_tag(num_tag_name(a) + seq!['='] + val, st) == Some(
            ParseState {
                runs: flush(st),
                cur: Seq::empty(),
                style: StyleV { nums: st.style.nums.push((a, trim(val))), ..st.style },
                stack: st.stack.push(st.style),
            },
        ),
{
    let name = num_tag_name(a);
    let tag = name + seq!['='] + val;
    let e = name.len() as int;
    assert(tag[e] == '=');
    assert forall|k: int| 0 <= k < e implies #[trigger] tag[k] != '=' by {
        assert(tag[k] == name[k]);
    }
    lemma_find_char(tag, 0, '=');
    assert(find_char(tag, 0, '=') == Some(e)) by {
        match find_char(tag, 0, '=') {
            Some(j) => {
                if j < e {
                    assert(tag[j] != '=');
                } else if j > e {
                    assert(tag[e] != '=');
                }
            },
            None => {
                assert(tag[e] != '=');
            },
        }
    }
    assert(tag.subrange(0, e) =~= name);
    assert(tag.subrange(e + 1, tag.len() as int) =~= val);
    assert(tag[0] != '/');
    assert(name != seq!['i', 'm', 'g']) by {
        assert(name.len() != 3);
    }
    match a {
        NumAttr::A => {
            assert(name != seq!['c']) by { assert(name[0] != 'c'); }
        },
        NumAttr::B => {
            assert(name != seq!['c']) by { assert(name[0] != 'c'); }
            assert(name != seq!['a']) by { assert(name[0] != 'a'); }
        },
        NumAttr::Oa => {
            assert(name != seq!['o', 'c']) by { assert(name[1] != 'c'); }
            assert(name != seq!['g', 'c']) by { assert(name[0] != 'g'); }
        },
        NumAttr::Ow => {
            assert(name != seq!['o', 'c']) by { assert(name[1] != 'c'); }
            assert(name != seq!['g', 'c']) by { assert(name[0] != 'g'); }
            assert(name != seq!['o', 'a']) by { assert(name[1] != 'a'); }
        },
        NumAttr::Ga => {
            assert(name != seq!['o', 'c']) by { assert(name[0] != 'o'); }
            assert(name != seq!['g', 'c']) by { assert(name[1] != 'c'); }
            assert(name != seq!['o', 'a']) by { assert(name[0] != 'o'); }
            assert(name != seq!['o', 'w']) by { assert(name[0] != 'o'); }
        },
        NumAttr::Gr => {
            assert(name != seq!['o', 'c']) by { assert(name[0] != 'o'); }
            assert(name != seq!['g', 'c']) by { assert(name[1] != 'c'); }
            assert(name != seq!['o', 'a']) by { assert(name[0] != 'o'); }
            assert(name != seq!['o', 'w']) by { assert(name[0] != 'o'); }
            assert(name != seq!['g', 'a']) by { assert(name[1] != 'a'); }
        },
    }
}

/// Hexadecimal digits are read as `u32::from_str_radix` reads them: for
/// every digit value `d`, the digit `'0' + d` (below ten) or both `'a' + d -
/// 10` and `'A' + d - 10` (from ten on) read as `d`, and no other byte is a
/// digit.
pub proof fn law_hex_digit_values(d: u32, b: u8)
    requires
        d < 16,
    ensures
        d < 10 ==> hex_digit((48 + d) as u8) == Some(d),
        d >= 10 ==> hex_digit((97 + d - 10) as u8) == Some(d),
        d >= 10 ==> hex_digit((65 + d - 10) as u8) == Some(d),
        !(48 <= b <= 57 || 97 <= b <= 102 || 65 <= b <= 70) ==> hex_digit(b) is None,
{
}

/// Reading a hexadecimal pair does not depend on letter case: a pair and
/// the same pair with its lowercase digits `a`-`f` made uppercase have the
/// same value, and two digits read as sixteen times the first plus the
/// second.
pub proof fn law_pair_value_case_and_value(b0: u8, b1: u8)
    ensures
        pair_value(if 97 <= b0 <= 102 { (b0 - 32) as u8 } else { b0 }, if 97 <= b1 <= 102 {
            (b1 - 32) as u8
        } else {
            b1
        }) == pair_value(b0, b1),
        b0 != 43 ==> ((hex_digit(b0), hex_digit(b1)) matches (Some(x), Some(y)) ==> pair_value(b0, b1)
            == 16 * x + y),
{
}


/// Each color tag sets its own color: `[c=v]` the text color, `[oc=v]` the
/// outline color and `[gc=v]` the glow color, each to the `#RRGGBB` value
/// of `v`, saving the style and changing nothing else; kind 0 is `c`, 1 is
/// `oc`, 2 is `gc`.
pub proof fn law_color_tag_sets_its_color(kind: int, val: Seq<char>, st: ParseState)
    requires
        0 <= kind < 3,
    ensures
        ({
            let name = if kind == 0 { seq!['c'] } else if kind == 1 { seq!['o', 'c'] } else { seq!['g', 'c'] };
            match hex_color(val) {
                Some(col) => step_tag(name + seq!['='] + val, st) == Some(
                    ParseState {
                        runs: flush(st),
                        cur: Seq::empty(),
                        style: if kind == 0 {
                            StyleV { c: col, ..st.style }
                        } else if kind == 1 {
                            StyleV { oc: col, ..st.style }
                        } else {
                            StyleV { gc: col, ..st.style }
                        },
                        stack: st.stack.push(st.style),
                    },
                ),
                None => step_tag(name + seq!['='] + val, st) is None,
            }
        }),
{
    let name = if kind == 0 { seq!['c'] } else if kind == 1 { seq!['o', 'c'] } else { seq!['g', 'c'] };
    let tag = name + seq!['='] + val;
    let e = name.len() as int;
    assert(tag[e] == '=');
    assert forall|k: int| 0 <= k < e implies #[trigger] tag[k] != '=' by {
        assert(tag[k] == name[k]);
    }
    lemma_find_char(tag, 0, '=');
    assert(find_char(tag, 0, '=') == Some(e)) by {
        match find_char(tag, 0, '=') {
            Some(j) => {
                if j < e {
                    assert(tag[j] != '=');
                } else if j > e {
                    assert(tag[e] != '=');
                }
            },
            None => {
                assert(tag[e] != '=');
            },
        }
    }
    assert(tag.subrange(0, e) =~= name);
    assert(tag.subrange(e + 1, tag.len() as int) =~= val);
    assert(tag[0] != '/');
    assert(name != seq!['i', 'm', 'g']) by {
        assert(name.len() != 3);
    }
    if kind == 1 {
        assert(name != seq!['c']) by { assert(name.len() != 1); }
    } else if kind == 2 {
        assert(name != seq!['c']) by { assert(name.len() != 1); }
        assert(name != seq!['o', 'c']) by { assert(name[0] != 'o'); }
    }
}

} // verus!
