use tui_incremental::rect::Rect;

#[test]
fn rect_new_keeps_fields() {
    let r = Rect::new(1, 2, 3, 4);
    assert_eq!((r.x, r.y, r.width, r.height), (1, 2, 3, 4));
    assert!(!r.is_empty());
    assert!(Rect::new(1, 2, 0, 4).is_empty());
}
