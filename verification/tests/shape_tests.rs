use rusty_sdf::color::Color;
use rusty_sdf::shape::{
    edge_colors, rotate_corners, DistanceCheckMode, ErrorCorrectionMode, FillRule, Order, Shape,
    TContour,
};

#[test]
fn fill_rules() {
    assert!(FillRule::Nonzero.fills(-2));
    assert!(!FillRule::Nonzero.fills(0));
    assert!(FillRule::Odd.fills(-3));
    assert!(!FillRule::Odd.fills(4));
    assert!(FillRule::Positive.fills(1));
    assert!(!FillRule::Positive.fills(-1));
    assert!(FillRule::Negative.fills(-1));
    assert!(!FillRule::Negative.fills(0));
}

#[test]
fn defaults() {
    assert_eq!(ErrorCorrectionMode::default(), ErrorCorrectionMode::EdgePriority);
    assert_eq!(DistanceCheckMode::default(), DistanceCheckMode::AtEdge);
    let c: TContour<u8> = TContour::default();
    assert!(c.segments.is_empty());
    let s: Shape<TContour<u8>> = Shape::default();
    assert!(s.contours.is_empty());
    assert!(Order::Linear < Order::Cubic);
}

#[test]
fn corners_rotate_to_zero() {
    let (s, c) = rotate_corners(&[2, 5, 7]);
    assert_eq!(s, 2);
    assert_eq!(c, vec![0, 3, 5]);
    let (s0, c0) = rotate_corners(&[]);
    assert_eq!(s0, 0);
    assert!(c0.is_empty());
}

#[test]
fn no_corner_is_all_white() {
    assert_eq!(edge_colors(3, &[], 0), vec![Color::white(); 3]);
}

#[test]
fn teardrop_colors() {
    let one = edge_colors(1, &[0], 0);
    assert_eq!(one, vec![Color::cyan(), Color::white(), Color::magenta()]);
    let two = edge_colors(2, &[0], 0);
    assert_eq!(
        two,
        vec![
            Color::cyan(),
            Color::cyan(),
            Color::white(),
            Color::white(),
            Color::magenta(),
            Color::magenta()
        ]
    );
    let four = edge_colors(4, &[0], 0);
    assert_eq!(four, vec![Color::cyan(), Color::white(), Color::white(), Color::magenta()]);
}

#[test]
fn colors_change_at_every_corner() {
    let corners = [0usize, 2, 3, 6];
    let colors = edge_colors(8, &corners, 12345);
    assert_eq!(colors.len(), 8);
    for &c in &corners[1..] {
        assert!(colors[c] != colors[c - 1]);
    }
    assert!(colors[0] != colors[7]);
    assert_eq!(colors[0], colors[1]);
    assert_eq!(colors[3], colors[5]);
}
