use rusty_sdf::rich_parse::{hex_to_color, parse_paragraph, NumAttr, RichRun, RichStyle};

fn text_of(r: &RichRun) -> (&str, &RichStyle) {
    match r {
        RichRun::Text { text, style } => (text.as_str(), style),
        _ => panic!("expected a text run"),
    }
}

#[test]
fn plain_text_is_one_run() {
    let d = RichStyle::new_default();
    let runs = parse_paragraph("hello world", &d).unwrap();
    assert_eq!(runs.len(), 1);
    let (t, s) = text_of(&runs[0]);
    assert_eq!(t, "hello world");
    assert_eq!(s.c, 0xFFFFFF);
    assert!(parse_paragraph("", &d).unwrap().is_empty());
}

#[test]
fn color_tag_and_close() {
    let d = RichStyle::new_default();
    let runs = parse_paragraph("a[c=#FF0000]red[/]b", &d).unwrap();
    assert_eq!(runs.len(), 3);
    assert_eq!(text_of(&runs[0]).0, "a");
    let (t, s) = text_of(&runs[1]);
    assert_eq!(t, "red");
    assert_eq!(s.c, 0x0000FF);
    let (t2, s2) = text_of(&runs[2]);
    assert_eq!(t2, "b");
    assert_eq!(s2.c, 0xFFFFFF);
}

#[test]
fn flags_and_numbers_nest() {
    let d = RichStyle::new_default();
    let runs = parse_paragraph("[b= 1.5 ][ul]u[/]v[/]w", &d).unwrap();
    assert_eq!(runs.len(), 3);
    let (t, s) = text_of(&runs[0]);
    assert_eq!(t, "u");
    assert!(s.ul);
    assert_eq!(s.nums.len(), 1);
    assert_eq!(s.nums[0].0, NumAttr::B);
    assert_eq!(s.nums[0].1, "1.5");
    let (t, s) = text_of(&runs[1]);
    assert_eq!(t, "v");
    assert!(!s.ul);
    assert_eq!(s.nums.len(), 1);
    let (t, s) = text_of(&runs[2]);
    assert_eq!(t, "w");
    assert!(s.nums.is_empty());
}

#[test]
fn image_tags() {
    let d = RichStyle::new_default();
    let runs = parse_paragraph("x[img= star , 2,0.5]y", &d).unwrap();
    assert_eq!(runs.len(), 3);
    match &runs[1] {
        RichRun::Image { name, subimg, sc_mult, y_off, tint, .. } => {
            assert_eq!(name, "star");
            assert_eq!(subimg.as_deref(), Some("2"));
            assert_eq!(sc_mult.as_deref(), Some("0.5"));
            assert_eq!(*y_off, None);
            assert_eq!(*tint, None);
        }
        _ => panic!("expected an image"),
    }
    // An image without a name is dropped; the image tag saves no style.
    let none = parse_paragraph("[img= ,1]z[/]", &d).unwrap();
    assert_eq!(none.len(), 1);
    assert_eq!(text_of(&none[0]).0, "z");
}

#[test]
fn unclosed_bracket_is_text() {
    let d = RichStyle::new_default();
    let runs = parse_paragraph("a[b", &d).unwrap();
    assert_eq!(runs.len(), 1);
    assert_eq!(text_of(&runs[0]).0, "a[b");
}

#[test]
fn unknown_tags_and_extra_closes() {
    let d = RichStyle::new_default();
    let runs = parse_paragraph("[foo]a[/][/][st]b", &d).unwrap();
    assert_eq!(runs.len(), 2);
    assert!(!text_of(&runs[0]).1.st);
    assert!(text_of(&runs[1]).1.st);
}

#[test]
fn hex_colors() {
    assert_eq!(hex_to_color("#00FF00"), Some(0x00FF00));
    assert_eq!(hex_to_color("  ##0000ff "), Some(0xFF0000));
    assert_eq!(hex_to_color("abc"), Some(0xFFFFFF));
    assert_eq!(hex_to_color("zz0000"), Some(0x0000FF));
    assert_eq!(hex_to_color("+f0000"), Some(0x00000F));
    assert_eq!(hex_to_color("102030"), Some(0x302010));
    // Byte 2 falls inside a character, so the value has no byte pairs.
    assert_eq!(hex_to_color("aé1234"), None);
    assert_eq!(hex_to_color("éé1234"), Some(0x12FFFF));
}

#[test]
fn panicking_color_fails_the_paragraph() {
    let d = RichStyle::new_default();
    assert!(parse_paragraph("[c=aé1234]x", &d).is_none());
    let ok = parse_paragraph("[oc=102030][gc=0000FF]x", &d).unwrap();
    let (_, s) = text_of(&ok[0]);
    assert_eq!(s.oc, 0x302010);
    assert_eq!(s.gc, 0xFF0000);
}

#[test]
fn copy_keeps_style() {
    let mut s = RichStyle::new_default();
    s.nums.push((NumAttr::A, "0.5".to_string()));
    s.ul = true;
    let c = s.copy();
    assert_eq!(c.nums, s.nums);
    assert!(c.ul);
    assert_eq!(c.gc, 0xFFFF00);
}

#[test]
fn tags_alone_make_no_empty_runs() {
    let d = RichStyle::new_default();
    assert!(parse_paragraph("[c=ff0000][ul][/][/]", &d).unwrap().is_empty());
    let runs = parse_paragraph("[b=2]x[/][a=1]", &d).unwrap();
    assert_eq!(runs.len(), 1);
}
