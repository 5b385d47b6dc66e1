use tui_incremental::prefix_sum_2d::PrefixSum2d;
use tui_incremental::rect::Rect;
use tui_incremental::render_base::{apply_ops, dirty_cells, RBOp};

#[test]
fn batch_applies_add_and_sub_but_not_drawings() {
    let mut acc = PrefixSum2d::new(Rect::new(0, 0, 3, 1));
    let ops = vec![
        RBOp::Component("widget", Rect::new(0, 0, 3, 1)),
        RBOp::Add(Rect::new(0, 0, 3, 1)),
        RBOp::Sub(Rect::new(1, 0, 1, 1)),
    ];
    apply_ops(&mut acc, &ops);
    assert_eq!(acc.mark_count(), 2);
    let mut it = acc.iter();
    let mut cov = Vec::new();
    while let Some(c) = it.next(&acc) {
        cov.push(c.2);
    }
    assert_eq!(cov, vec![1, 0, 1]);
}

#[test]
fn dirty_cells_lists_covered_cells_in_row_order() {
    let mut acc = PrefixSum2d::new(Rect::new(0, 0, 3, 3));
    acc.insert(Rect::new(1, 1, 2, 1));
    acc.insert(Rect::new(0, 0, 1, 1));
    assert_eq!(dirty_cells(&acc), vec![(0, 0, 0), (1, 1, 4), (2, 1, 5)]);
    acc.clear();
    assert!(dirty_cells(&acc).is_empty());
}
