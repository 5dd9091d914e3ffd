//! Shapes made of contours, the options of the distance-field generator,
//! and the simple edge-coloring step: which color each edge of a contour
//! gets, given the corners found on it.

use vstd::prelude::*;
use crate::color::{Color, switch_spec, is_two_channel, law_switch_changes_color};

verus! {

/// A supported order of a Bézier curve.
#[derive(Copy, Clone, PartialEq, Eq, PartialOrd, Ord, Debug, Structural)]
pub enum Order {
    /// A linear segment with two control points.
    Linear,
    /// A quadratic Bézier curve with three control points.
    Quadratic,
    /// A cubic Bézier curve with four control points.
    Cubic,
}

/// The orientation of one direction relative to another.
#[derive(Copy, Clone, PartialEq, Eq, Debug, Structural)]
pub enum Orientation {
    Counterclockwise,
    Clockwise,
}

/// Which fill values count as inside a shape.
#[derive(Clone, Copy, PartialEq, Eq, Debug, Structural)]
pub enum FillRule {
    /// Any nonzero fill value is inside.
    Nonzero,
    /// Odd fill values are inside.
    Odd,
    /// Positive fill values are inside.
    Positive,
    /// Negative fill values are inside.
    Negative,
}

impl FillRule {
    /// True when this rule counts the fill value `intersections` as inside.
    pub fn fills(self, intersections: i32) -> (b: bool)
        ensures
            b == match self {
                FillRule::Nonzero => intersections != 0,
                FillRule::Odd => intersections % 2 != 0,
                FillRule::Positive => intersections > 0,
                FillRule::Negative => intersections < 0,
            },
    {
        match self {
            FillRule::Nonzero => intersections != 0,
            FillRule::Odd => intersections % 2 != 0,
            FillRule::Positive => intersections > 0,
            FillRule::Negative => intersections < 0,
        }
    }
}

/// The mode of the error-correction pass over a multi-channel field.
#[derive(Debug, Copy, Clone, PartialEq, Eq, Structural)]
#[non_exhaustive]
pub enum ErrorCorrectionMode {
    /// Skips the pass.
    Disabled,
    /// Corrects every discontinuity, whether or not edges are affected.
    Indiscriminate,
    /// Corrects artifacts only where edges and corners are not affected.
    EdgePriority,
    /// Only corrects artifacts at edges.
    EdgeOnly,
}

impl Default for ErrorCorrectionMode {
    fn default() -> (m: Self)
        ensures
            m == ErrorCorrectionMode::EdgePriority,
    {
        ErrorCorrectionMode::EdgePriority
    }
}

/// When the error-correction pass computes exact shape distances.
#[derive(Debug, Copy, Clone, PartialEq, Eq, Structural)]
#[non_exhaustive]
pub enum DistanceCheckMode {
    /// Never.
    Never,
    /// Only at edges.
    AtEdge,
    /// At each suspected artifact.
    Always,
}

impl Default for DistanceCheckMode {
    fn default() -> (m: Self)
        ensures
            m == DistanceCheckMode::AtEdge,
    {
        DistanceCheckMode::AtEdge
    }
}

/// True distance fields.
pub struct DistanceField;

/// Pseudo-distance fields where a curve is continued by unclamping its
/// parameter.
pub struct ContinuationPseudoDistanceField;

/// Pseudo-distance fields where a curve is continued by tangent lines at
/// both ends.
pub struct TangentPseudoDistanceField;

/// A closed outline made of segments of type `T`.
pub struct TContour<T> {
    pub segments: Vec<T>,
}

impl<T> Default for TContour<T> {
    fn default() -> (c: Self)
        ensures
            c.segments@.len() == 0,
    {
        TContour { segments: Vec::new() }
    }
}

/// A shape made of contours of type `C`.
pub struct Shape<C> {
    pub contours: Vec<C>,
}

impl<C> Default for Shape<C> {
    fn default() -> (s: Self)
        ensures
            s.contours@.len() == 0,
    {
        Shape { contours: Vec::new() }
    }
}

/// Corner indices, strictly increasing and below `n`.
pub open spec fn corners_ok(corners: Seq<usize>, n: int) -> bool {
    &&& forall|i: int, j: int| 0 <= i < j < corners.len() ==> corners[i] < corners[j]
    &&& forall|i: int| 0 <= i < corners.len() ==> #[trigger] corners[i] < n
}

/// Rotates the corner list so that the first corner is at index 0: gives
/// the shift `s` (the first corner, or 0) and the corners less `s`. The
/// segments of the contour are rotated left by the same `s`.
pub fn rotate_corners(corners: &[usize]) -> (r: (usize, Vec<usize>))
    requires
        corners_ok(corners@, usize::MAX as int),
    ensures
        r.0 == (if corners@.len() > 0 {
            corners@[0]
        } else {
            0
        }),
        r.1@.len() == corners@.len(),
        forall|i: int| 0 <= i < corners@.len() ==> #[trigger] r.1@[i] == corners@[i] - r.0,
{
    let s = if corners.len() > 0 { corners[0] } else { 0 };
    let mut out: Vec<usize> = Vec::new();
    let mut i: usize = 0;
    while i < corners.len()
        invariant
            i <= corners@.len(),
            out@.len() == i,
            corners_ok(corners@, usize::MAX as int),
            s == (if corners@.len() > 0 { corners@[0] } else { 0 }),
            forall|k: int| 0 <= k < i ==> #[trigger] out@[k] == corners@[k] - s,
        decreases corners@.len() - i,
    {
        assert(i > 0 ==> corners@[0] < corners@[i as int]);
        out.push(corners[i] - s);
        i += 1;
    }
    (s, out)
}

/// The color bits and seed of spline `k` when a contour has `m` corners:
/// the first spline switches from white, each next one from the one before,
/// the last one also away from the first.
pub open spec fn spline_color(m: int, seed: u64, k: int) -> (u8, u64)
    decreases k,
{
    if k <= 0 {
        switch_spec(7u8, seed, 0u8)
    } else {
        let prev = spline_color(m, seed, k - 1);
        switch_spec(
            prev.0,
            prev.1,
            if k == m - 1 {
                spline_color(m, seed, 0).0
            } else {
                0u8
            },
        )
    }
}

/// The spline segment `i` belongs to: the number of corners at or before it,
/// less one.
pub open spec fn spline_of(corners: Seq<usize>, i: int) -> int {
    corners.filter(|c: usize| c <= i).len() - 1
}

/// The teardrop colors: switched from white, white, switched again.
pub open spec fn teardrop_colors(seed: u64) -> Seq<u8> {
    let c0 = switch_spec(7u8, seed, 0u8);
    let c2 = switch_spec(c0.0, c0.1, 0u8);
    seq![c0.0, 7u8, c2.0]
}

/// The color bits of each (possibly split) segment of a contour with `n`
/// segments and the given corners (the first at 0): all white without a
/// corner; with one corner, the teardrop colors spread over the segments
/// (one segment is split into three, two into six); with more, each spline
/// between two corners gets its own color.
pub open spec fn edge_color_bits(n: int, corners: Seq<usize>, seed: u64) -> Seq<u8> {
    if corners.len() == 0 {
        Seq::new(n as nat, |i: int| 7u8)
    } else if corners.len() == 1 {
        let t = teardrop_colors(seed);
        if n == 1 {
            t
        } else if n == 2 {
            Seq::new(6, |i: int| t[i / 2])
        } else {
            Seq::new(n as nat, |i: int| t[(n - 1 + 46 * i) / (16 * (n - 1))])
        }
    } else {
        Seq::new(n as nat, |i: int| spline_color(corners.len() as int, seed, spline_of(corners, i)).0)
    }
}

/// The colors of the segments of a contour with `n` segments whose corners
/// are `corners` (strictly increasing, the first at 0), from `seed`.
pub fn edge_colors(n: usize, corners: &[usize], seed: u64) -> (r: Vec<Color>)
    requires
        corners_ok(corners@, n as int),
        corners@.len() > 0 ==> corners@[0] == 0,
        n <= usize::MAX / 64,
    ensures
        r@.len() == edge_color_bits(n as int, corners@, seed).len(),
        forall|i: int| 0 <= i < r@.len() ==> #[trigger] r@[i].bits() == edge_color_bits(
            n as int,
            corners@,
            seed,
        )[i],
{
    let ghost want = edge_color_bits(n as int, corners@, seed);
    let mut out: Vec<Color> = Vec::new();
    if corners.len() == 0 {
        let mut i: usize = 0;
        while i < n
            invariant
                i <= n,
                want == edge_color_bits(n as int, corners@, seed),
                corners@.len() == 0,
                out@.len() == i,
                forall|k: int| 0 <= k < i ==> #[trigger] out@[k].bits() == want[k],
            decreases n - i,
        {
            out.push(Color::white());
            i += 1;
        }
        return out;
    }
    if corners.len() == 1 {
        let (c0, s1) = Color::white().switch(seed, Color::black());
        let (c2, _s2) = c0.switch(s1, Color::black());
        let colors = [c0, Color::white(), c2];
        proof {
            let t = teardrop_colors(seed);
            assert(colors@[0].bits() == t[0]);
            assert(colors@[1].bits() == t[1]);
            assert(colors@[2].bits() == t[2]);
        }
        if n == 1 {
            out.push(colors[0]);
            out.push(colors[1]);
            out.push(colors[2]);
            return out;
        }
        if n == 2 {
            let mut i: usize = 0;
            while i < 6
                invariant
                    i <= 6,
                    n == 2,
                    corners@.len() == 1,
                    want == edge_color_bits(n as int, corners@, seed),
                    forall|k: int| 0 <= k < 3 ==> #[trigger] colors@[k].bits() == teardrop_colors(seed)[k],
                    out@.len() == i,
                    forall|k: int| 0 <= k < i ==> #[trigger] out@[k].bits() == want[k],
                decreases 6 - i,
            {
                out.push(colors[i / 2]);
                i += 1;
            }
            return out;
        }
        let mut i: usize = 0;
        while i < n
            invariant
                i <= n,
                n >= 3,
                n <= usize::MAX / 64,
                corners@.len() == 1,
                want == edge_color_bits(n as int, corners@, seed),
                forall|k: int| 0 <= k < 3 ==> #[trigger] colors@[k].bits() == teardrop_colors(seed)[k],
                out@.len() == i,
                forall|k: int| 0 <= k < i ==> #[trigger] out@[k].bits() == want[k],
            decreases n - i,
        {
            let index = (n - 1 + 46 * i) / (16 * (n - 1));
            assert(index < 3) by (nonlinear_arith)
                requires
                    index == (n - 1 + 46 * i) / (16 * (n - 1)),
                    i < n,
                    n >= 3,
            {
                assert(n - 1 + 46 * i < 3 * (16 * (n - 1)));
            }
            out.push(colors[index]);
            i += 1;
        }
        return out;
    }
    let m = corners.len();
    let mut spline: usize = 0;
    let (first, s0) = Color::white().switch(seed, Color::black());
    let mut color = first;
    let mut sd = s0;
    let mut i: usize = 0;
    while i < n
        invariant
            i <= n,
            m == corners@.len(),
            m >= 2,
            corners_ok(corners@, n as int),
            corners@[0] == 0,
            want == edge_color_bits(n as int, corners@, seed),
            first.bits() == spline_color(m as int, seed, 0).0,
            spline < m,
            corners@[spline as int] <= i,
            spline + 1 < m ==> i <= corners@[spline + 1],
            (color.bits(), sd) == spline_color(m as int, seed, spline as int),
            i > 0 ==> spline as int == spline_of(corners@, i - 1),
            i == 0 ==> spline == 0,
            out@.len() == i,
            forall|k: int| 0 <= k < i ==> #[trigger] out@[k].bits() == want[k],
        decreases n - i,
    {
        if spline + 1 < m && corners[spline + 1] == i {
            spline += 1;
            let banned = if spline == m - 1 { first } else { Color::black() };
            let r = color.switch(sd, banned);
            color = r.0;
            sd = r.1;
        }
        proof {
            lemma_spline_of_step(corners@, n as int, i as int, spline as int);
        }
        out.push(color);
        i += 1;
    }
    out
}

proof fn lemma_spline_of_step(corners: Seq<usize>, n: int, i: int, spline: int)
    requires
        corners_ok(corners, n),
        corners.len() >= 1,
        corners[0] == 0,
        0 <= i < n,
        0 <= spline < corners.len(),
        corners[spline] <= i,
        spline + 1 < corners.len() ==> i < corners[spline + 1],
    ensures
        spline_of(corners, i) == spline,
{
    let f = corners.filter(|c: usize| c <= i);
    assert(f =~= corners.take(spline + 1)) by {
        lemma_filter_prefix(corners, i, spline + 1);
    }
}

proof fn lemma_filter_prefix(corners: Seq<usize>, i: int, k: int)
    requires
        forall|a: int, b: int| 0 <= a < b < corners.len() ==> corners[a] < corners[b],
        1 <= k <= corners.len(),
        corners[k - 1] <= i,
        k < corners.len() ==> i < corners[k],
    ensures
        corners.filter(|c: usize| c <= i) == corners.take(k),
    decreases corners.len(),
{
    let p = |c: usize| c <= i;
    if k < corners.len() {
        let d = corners.drop_last();
        lemma_filter_prefix(d, i, k);
        d.lemma_filter_push(corners.last(), p);
        assert(corners =~= d.push(corners.last()));
        assert(corners[k] <= corners.last());
        assert(d.take(k) =~= corners.take(k));
    } else {
        assert forall|a: int| 0 <= a < corners.len() implies p(#[trigger] corners[a]) by {
            assert(corners[a] <= corners[k - 1]);
        }
        lemma_filter_all(corners, p);
        assert(corners.take(k) =~= corners);
    }
}

proof fn lemma_filter_all(s: Seq<usize>, p: spec_fn(usize) -> bool)
    requires
        forall|a: int| 0 <= a < s.len() ==> p(#[trigger] s[a]),
    ensures
        s.filter(p) == s,
    decreases s.len(),
{
    if s.len() > 0 {
        let d = s.drop_last();
        lemma_filter_all(d, p);
        d.lemma_filter_push(s.last(), p);
        assert(s =~= d.push(s.last()));
    } else {
        assert(s.filter(p) =~= s);
    }
}

proof fn lemma_spline_colors(m: int, seed: u64, k: int)
    requires
        m >= 2,
        0 <= k < m,
    ensures
        is_two_channel(spline_color(m, seed, k).0),
        k > 0 ==> spline_color(m, seed, k).0 != spline_color(m, seed, k - 1).0,
        k == m - 1 ==> spline_color(m, seed, k).0 != spline_color(m, seed, 0).0,
    decreases k,
{
    law_switch_changes_color(7u8, seed, 0u8);
    if k > 0 {
        lemma_spline_colors(m, seed, k - 1);
        lemma_spline_colors(m, seed, 0);
        let prev = spline_color(m, seed, k - 1);
        let banned = if k == m - 1 {
            spline_color(m, seed, 0).0
        } else {
            0u8
        };
        law_switch_changes_color(prev.0, prev.1, banned);
    }
}

/// With two or more corners, the color changes at every corner: the
/// segment that starts at a corner differs from the one before it, and the
/// first segment differs from the last.
pub proof fn law_corners_change_color(n: int, corners: Seq<usize>, seed: u64)
    requires
        corners_ok(corners, n),
        corners.len() >= 2,
        corners[0] == 0,
    ensures
        forall|j: int|
            1 <= j < corners.len() ==> edge_color_bits(n, corners, seed)[#[trigger] corners[j] as int]
                != edge_color_bits(n, corners, seed)[corners[j] - 1],
        edge_color_bits(n, corners, seed)[0] != edge_color_bits(n, corners, seed)[n - 1],
{
    let m = corners.len() as int;
    let bits = edge_color_bits(n, corners, seed);
    assert(corners[m - 1] < n);
    assert forall|j: int| 1 <= j < corners.len() implies bits[#[trigger] corners[j] as int]
        != bits[corners[j] - 1] by {
        let c = corners[j] as int;
        assert(corners[j - 1] < corners[j]);
        lemma_spline_of_step(corners, n, c, j);
        if j < m - 1 {
            assert(corners[j] < corners[j + 1]);
        }
        lemma_spline_of_step(corners, n, c - 1, j - 1);
        lemma_spline_colors(m, seed, j);
    }
    assert(corners[0] < corners[1]);
    lemma_spline_of_step(corners, n, 0, 0);
    lemma_spline_of_step(corners, n, n - 1, m - 1);
    lemma_spline_colors(m, seed, m - 1);
}

} // verus!
