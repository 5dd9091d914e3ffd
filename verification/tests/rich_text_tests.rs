use rusty_sdf::rich_text::{build, build_status, create, free, BuildStep, BuildTimingUs, BuiltSummary, RichTextStore};

#[test]
fn handles_count_up() {
    let mut st: RichTextStore<String> = RichTextStore::new();
    let a = create(&mut st, "a".to_string());
    let b = create(&mut st, "b".to_string());
    assert_eq!((a, b), (1, 2));
    assert_eq!(st.get(a).map(|s| s.as_str()), Some("a"));
    assert!(free(&mut st, a));
    assert!(!free(&mut st, a));
    assert!(st.get(a).is_none());
    assert_eq!(create(&mut st, "c".to_string()), 3);
}

#[test]
fn take_and_put_back() {
    let mut st: RichTextStore<u32> = RichTextStore::new();
    let h = create(&mut st, 5);
    let v = st.take(h).unwrap();
    assert!(st.get(h).is_none());
    st.put_back(h, v + 1);
    assert_eq!(st.get(h), Some(&6));
    st.put_back(99, 1);
    assert!(st.get(99).is_none());
    assert!(st.take(99).is_none());
}

#[test]
fn build_decisions() {
    assert_eq!(build(None, 3), BuildStep::Full);
    let no_layout = BuiltSummary { has_layout: false, atlas_version: 3, pending: false };
    assert_eq!(build(Some(no_layout), 3), BuildStep::Full);
    let stale = BuiltSummary { has_layout: true, atlas_version: 2, pending: false };
    assert_eq!(build(Some(stale), 3), BuildStep::Refresh);
    let pending = BuiltSummary { has_layout: true, atlas_version: 3, pending: true };
    assert_eq!(build(Some(pending), 3), BuildStep::Keep { status: 0, version: 3 });
    let done = BuiltSummary { has_layout: true, atlas_version: 3, pending: false };
    assert_eq!(build(Some(done), 3), BuildStep::Keep { status: 1, version: 3 });
    assert_eq!(build_status(true, 9), (0, 9));
    assert_eq!(build_status(false, 9), (1, 9));
}

#[test]
fn timing_starts_at_zero() {
    let t = BuildTimingUs::default();
    assert_eq!(t.total + t.parse + t.shape + t.ensure + t.wrap + t.layout + t.verts + t.refresh, 0);
}
