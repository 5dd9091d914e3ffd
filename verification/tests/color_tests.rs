use rusty_sdf::color::Color;

#[test]
fn channels_and_brightness() {
    let c = Color::new(5);
    assert_eq!(c.value(), 5);
    assert!(c.has_red());
    assert!(!c.has_green());
    assert!(c.has_blue());
    assert!(c.is_bright());
    assert!(!Color::red().is_bright());
    assert!(!Color::black().is_bright());
    assert!(Color::white().is_bright());
    assert_eq!(Color::new(0x0F).value(), 7);
}

#[test]
fn switch_from_white_picks_by_seed() {
    assert_eq!(Color::white().switch(0, Color::black()), (Color::cyan(), 0));
    assert_eq!(Color::white().switch(1, Color::black()), (Color::magenta(), 0));
    assert_eq!(Color::white().switch(5, Color::black()), (Color::yellow(), 1));
}

#[test]
fn switch_away_from_banned() {
    // yellow & magenta = red, a single channel: take its complement.
    assert_eq!(Color::yellow().switch(9, Color::magenta()), (Color::cyan(), 9));
    // Otherwise rotate the channels by one or two places.
    assert_eq!(Color::yellow().switch(0, Color::black()), (Color::cyan(), 0));
    assert_eq!(Color::yellow().switch(1, Color::black()), (Color::magenta(), 0));
}

#[test]
fn switch_always_changes_a_two_channel_color() {
    let twos = [Color::yellow(), Color::cyan(), Color::magenta()];
    for c in twos {
        for b in [Color::black(), Color::yellow(), Color::cyan(), Color::magenta()] {
            for seed in 0..8u64 {
                let (n, _) = c.switch(seed, b);
                assert!(n != c);
                assert!(twos.contains(&n));
                if b != Color::black() {
                    assert!(n != b);
                }
            }
        }
    }
}

#[test]
fn bit_operators() {
    assert_eq!(Color::yellow() & Color::magenta(), Color::red());
    assert_eq!(Color::red() | Color::green(), Color::yellow());
    assert_eq!(Color::yellow() ^ Color::cyan(), Color::magenta());
    assert_eq!(!Color::red(), Color::cyan());
}

#[test]
fn assign_operators() {
    let mut c = Color::yellow();
    c &= Color::magenta();
    assert_eq!(c, Color::red());
    c |= Color::blue();
    assert_eq!(c, Color::magenta());
    c ^= Color::white();
    assert_eq!(c, Color::green());
}
