//! Edge colors for multi-channel distance fields.
//!
//! Each edge of a shape gets a color made of up to three channels
//! (red, green, blue). Bit 0 is red, bit 1 green and bit 2 blue.

use vstd::prelude::*;
use core::ops::{BitAnd, BitAndAssign, BitOr, BitOrAssign, BitXor, BitXorAssign, Not};
use vstd::std_specs::ops::{BitAndSpecImpl, BitOrSpecImpl, BitXorSpecImpl, NotSpecImpl};

verus! {

/// The number of color channels.
pub const NUM_CHANNELS: usize = 3;

/// The color of an edge: three on/off channels.
#[derive(PartialEq, Eq, Copy, Clone, Debug, Structural)]
pub struct Color(u8);

/// The three-bit pattern of the color that `switch` picks, and the seed it
/// leaves behind (the edge-coloring step of msdfgen).
pub open spec fn switch_spec(c: u8, seed: u64, banned: u8) -> (u8, u64) {
    let combined = c & banned;
    if combined == 1 || combined == 2 || combined == 4 {
        (combined ^ 7u8, seed)
    } else if c == 0 || c == 7 {
        (if seed % 3 == 0 { 6u8 } else if seed % 3 == 1 { 5u8 } else { 3u8 }, seed / 3)
    } else {
        (rotate3(c, if seed & 1 == 0 { 1u8 } else { 2u8 }), seed >> 1u64)
    }
}

/// Rotates the three low bits of `c` left by `k` places (1 or 2).
pub open spec fn rotate3(c: u8, k: u8) -> u8 {
    let shifted = c << k;
    (shifted | (shifted >> 3u8)) & 7u8
}

/// True when exactly one channel is on.
pub open spec fn is_primary(c: u8) -> bool {
    c == 1 || c == 2 || c == 4
}

/// True when exactly two channels are on (cyan, magenta or yellow).
pub open spec fn is_two_channel(c: u8) -> bool {
    c == 3 || c == 5 || c == 6
}

/// Switching from black, white or a two-channel color always gives a
/// two-channel color; from a two-channel color it gives another one, which
/// also differs from a two-channel banned color.
pub proof fn law_switch_changes_color(c: u8, seed: u64, banned: u8)
    requires
        c == 0 || c == 7 || is_two_channel(c),
        banned == 0 || is_two_channel(banned),
    ensures
        is_two_channel(switch_spec(c, seed, banned).0),
        is_two_channel(c) ==> switch_spec(c, seed, banned).0 != c,
        is_two_channel(c) && is_two_channel(banned) ==> switch_spec(c, seed, banned).0 != banned,
{
    let r = switch_spec(c, seed, banned).0;
    assert((c == 0 || c == 7 || c == 3 || c == 5 || c == 6) && (banned == 0 || banned == 3
        || banned == 5 || banned == 6) ==> {
        let combined = c & banned;
        let r = if combined == 1 || combined == 2 || combined == 4 {
            combined ^ 7u8
        } else if c == 0 || c == 7 {
            if seed % 3 == 0 {
                6u8
            } else if seed % 3 == 1 {
                5u8
            } else {
                3u8
            }
        } else {
            let k: u8 = if seed & 1 == 0 { 1u8 } else { 2u8 };
            let shifted = c << k;
            (shifted | (shifted >> 3u8)) & 7u8
        };
        &&& (r == 3 || r == 5 || r == 6)
        &&& (c == 3 || c == 5 || c == 6) ==> r != c
        &&& (c == 3 || c == 5 || c == 6) && (banned == 3 || banned == 5 || banned == 6) ==> r
            != banned
    }) by (bit_vector);
}

impl Color {
    #[verifier::type_invariant]
    spec fn inv(self) -> bool {
        self.0 < 8
    }

    /// The underlying channel bits of this color.
    pub closed spec fn bits(self) -> u8 {
        self.0
    }

    /// The color with the given bits.
    pub closed spec fn from_bits(b: u8) -> Color {
        Color(b)
    }

    /// A color built from bits gives back those bits.
    pub proof fn lemma_from_bits(b: u8)
        ensures
            Self::from_bits(b).bits() == b,
    {
    }

    /// Two colors with the same bits are the same color.
    pub proof fn lemma_bits_eq(a: Color, b: Color)
        ensures
            a.bits() == b.bits() <==> a == b,
    {
    }

    /// Creates a color from its bits; bits 3 and above are dropped.
    pub fn new(value: u8) -> (c: Self)
        ensures
            c.bits() == value & 7,
            c.bits() < 8,
    {
        assert((1u8 << 3u8) == 8u8) by (bit_vector);
        let mask: u8 = (1u8 << (NUM_CHANNELS as u8)) - 1;
        assert(value & mask < 8) by (bit_vector)
            requires
                mask == 7u8,
        ;
        Color(value & mask)
    }

    /// Returns the underlying bits of this color.
    pub fn value(&self) -> (v: u8)
        ensures
            v == self.bits(),
            v < 8,
    {
        proof {
            use_type_invariant(self);
        }
        self.0
    }

    /// True if the red channel is on.
    pub fn has_red(&self) -> (b: bool)
        ensures
            b == (self.bits() & 1 != 0),
    {
        (self.0 & 1) != 0
    }

    /// True if the green channel is on.
    pub fn has_green(&self) -> (b: bool)
        ensures
            b == (self.bits() & 2 != 0),
    {
        (self.0 & 2) != 0
    }

    /// True if the blue channel is on.
    pub fn has_blue(&self) -> (b: bool)
        ensures
            b == (self.bits() & 4 != 0),
    {
        (self.0 & 4) != 0
    }

    /// True if at least two channels are on.
    pub fn is_bright(&self) -> (b: bool)
        ensures
            b == (self.bits() == 3 || self.bits() == 5 || self.bits() == 6 || self.bits() == 7),
    {
        proof {
            use_type_invariant(self);
        }
        let v = self.0;
        if v == 0 {
            // `v - 1` would wrap below zero; black has no channel at all.
            return false;
        }
        assert(v < 8 && v > 0 ==> ((v & ((v - 1) as u8) != 0) <==> (v == 3 || v == 5 || v == 6 || v == 7)))
            by (bit_vector);
        (v & (v - 1)) != 0
    }

    /// Chooses the next color while coloring the edges of a contour, and
    /// returns it with the seed that remains.
    pub fn switch(self, seed: u64, banned: Color) -> (r: (Color, u64))
        ensures
            (r.0.bits(), r.1) == switch_spec(self.bits(), seed, banned.bits()),
            r.0.bits() < 8,
    {
        proof {
            use_type_invariant(&self);
            use_type_invariant(&banned);
        }
        let combined = self.bitand(banned);
        let cb = combined.0;
        let r = if cb == 1 || cb == 2 || cb == 4 {
            (combined.not(), seed)
        } else if self.0 == 0 || self.0 == 7 {
            let pick = seed % 3;
            let c = if pick == 0 {
                Self::cyan()
            } else if pick == 1 {
                Self::magenta()
            } else {
                Self::yellow()
            };
            (c, seed / 3)
        } else {
            let v = self.0;
            let k: u8 = if seed & 1 == 0 { 1 } else { 2 };
            assert(v < 8 && (k == 1 || k == 2) ==> (v << k) | ((v << k) >> 3u8) == ((v << k) | ((v << k) >> 3u8)))
                by (bit_vector);
            let shifted: u8 = v << k;
            let r = Self::new(shifted | (shifted >> 3));
            assert(seed >> 1u64 == seed / 2) by (bit_vector);
            (r, seed >> 1)
        };
        proof {
            use_type_invariant(&r.0);
        }
        r
    }

    /// The color with bits 0.
    pub fn black() -> (c: Color)
        ensures
            c.bits() == 0u8,
    {
        Color(0)
    }

    /// The color with bits 7.
    pub fn white() -> (c: Color)
        ensures
            c.bits() == 7u8,
    {
        Color(7)
    }

    /// The color with bits 3.
    pub fn yellow() -> (c: Color)
        ensures
            c.bits() == 3u8,
    {
        Color(3)
    }

    /// The color with bits 6.
    pub fn cyan() -> (c: Color)
        ensures
            c.bits() == 6u8,
    {
        Color(6)
    }

    /// The color with bits 5.
    pub fn magenta() -> (c: Color)
        ensures
            c.bits() == 5u8,
    {
        Color(5)
    }

    /// The color with bits 1.
    pub fn red() -> (c: Color)
        ensures
            c.bits() == 1u8,
    {
        Color(1)
    }

    /// The color with bits 2.
    pub fn green() -> (c: Color)
        ensures
            c.bits() == 2u8,
    {
        Color(2)
    }

    /// The color with bits 4.
    pub fn blue() -> (c: Color)
        ensures
            c.bits() == 4u8,
    {
        Color(4)
    }
}

impl BitAnd for Color {
    type Output = Self;

    fn bitand(self, rhs: Self) -> (r: Self) {
        proof {
            use_type_invariant(&self);
            use_type_invariant(&rhs);
        }
        let (a, b) = (self.0, rhs.0);
        assert(a < 8 ==> a & b < 8) by (bit_vector);
        Color(a & b)
    }
}

impl BitAndSpecImpl for Color {
    open spec fn obeys_bitand_spec() -> bool {
        true
    }

    open spec fn bitand_req(self, rhs: Self) -> bool {
        true
    }

    open spec fn bitand_spec(self, rhs: Self) -> Self {
        Color::from_bits(self.bits() & rhs.bits())
    }
}

impl BitOr for Color {
    type Output = Self;

    fn bitor(self, rhs: Self) -> (r: Self) {
        proof {
            use_type_invariant(&self);
            use_type_invariant(&rhs);
        }
        let (a, b) = (self.0, rhs.0);
        assert(a < 8 && b < 8 ==> a | b < 8) by (bit_vector);
        Color(a | b)
    }
}

impl BitOrSpecImpl for Color {
    open spec fn obeys_bitor_spec() -> bool {
        true
    }

    open spec fn bitor_req(self, rhs: Self) -> bool {
        true
    }

    open spec fn bitor_spec(self, rhs: Self) -> Self {
        Color::from_bits(self.bits() | rhs.bits())
    }
}

impl BitXor for Color {
    type Output = Self;

    fn bitxor(self, rhs: Self) -> (r: Self) {
        proof {
            use_type_invariant(&self);
            use_type_invariant(&rhs);
        }
        let (a, b) = (self.0, rhs.0);
        assert(a < 8 && b < 8 ==> a ^ b < 8) by (bit_vector);
        Color(a ^ b)
    }
}

impl BitXorSpecImpl for Color {
    open spec fn obeys_bitxor_spec() -> bool {
        true
    }

    open spec fn bitxor_req(self, rhs: Self) -> bool {
        true
    }

    open spec fn bitxor_spec(self, rhs: Self) -> Self {
        Color::from_bits(self.bits() ^ rhs.bits())
    }
}

impl Not for Color {
    type Output = Self;

    fn not(self) -> (r: Self) {
        proof {
            use_type_invariant(&self);
        }
        let a = self.0;
        assert(a < 8 ==> a ^ 7u8 < 8) by (bit_vector);
        Color(a ^ 7)
    }
}

impl NotSpecImpl for Color {
    open spec fn obeys_not_spec() -> bool {
        true
    }

    open spec fn not_req(self) -> bool {
        true
    }

    open spec fn not_spec(self) -> Self {
        Color::from_bits(self.bits() ^ 7u8)
    }
}

impl BitAndAssign for Color {
    fn bitand_assign(&mut self, rhs: Self)
        ensures
            final(self).bits() == old(self).bits() & rhs.bits(),
    {
        *self = self.bitand(rhs);
    }
}

impl BitOrAssign for Color {
    fn bitor_assign(&mut self, rhs: Self)
        ensures
            final(self).bits() == old(self).bits() | rhs.bits(),
    {
        *self = self.bitor(rhs);
    }
}

impl BitXorAssign for Color {
    fn bitxor_assign(&mut self, rhs: Self)
        ensures
            final(self).bits() == old(self).bits() ^ rhs.bits(),
    {
        *self = self.bitxor(rhs);
    }
}

} // verus!
