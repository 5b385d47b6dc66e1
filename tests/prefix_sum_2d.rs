use tui_incremental::prefix_sum_2d::PrefixSum2d;
use tui_incremental::rect::Rect;

fn all_cells(base: &PrefixSum2d) -> Vec<(u16, u16, isize)> {
    let mut out = Vec::new();
    let mut it = base.iter();
    while let Some(cell) = it.next(base) {
        out.push(cell);
    }
    out
}

fn coverages(base: &PrefixSum2d) -> Vec<isize> {
    all_cells(base).into_iter().map(|(_, _, v)| v).collect()
}

#[test]
fn one_x_one() {
    let sz = Rect::new(0, 0, 1, 1);

    let mut base = PrefixSum2d::new(sz);
    base.insert(sz);

    assert_eq!(*base.deltas(), vec![1]);
}

#[test]
fn two_x_two() {
    let sz = Rect::new(0, 0, 2, 2);

    let mut base = PrefixSum2d::new(sz);
    base.insert(Rect::new(0, 0, 1, 1));

    let mut iterator = base.iter();

    assert_eq!(iterator.next(&base), Some((0, 0, 1)));

    let mut index: u16 = 1;
    while let Some(i) = iterator.next(&base) {
        assert_eq!(i, (index % 2, index / 2, 0));
        index += 1;
    }
    assert_eq!(index, 4);

    base.insert(sz);

    let mut iterator = base.iter();

    assert_eq!(iterator.next(&base), Some((0, 0, 2)));

    let mut index: u16 = 1;
    while let Some(i) = iterator.next(&base) {
        assert_eq!(i, (index % 2, index / 2, 1));
        index += 1;
    }
    assert_eq!(index, 4);

    base.insert(Rect::new(1, 1, 1, 1));

    let mut iterator = base.iter();

    assert_eq!(iterator.next(&base), Some((0, 0, 2)));
    assert_eq!(iterator.next(&base), Some((1, 0, 1)));
    assert_eq!(iterator.next(&base), Some((0, 1, 1)));
    assert_eq!(iterator.next(&base), Some((1, 1, 2)));

    base.clear();

    let mut iterator = base.iter();

    assert_eq!(iterator.next(&base), Some((0, 0, 0)));
    assert_eq!(iterator.next(&base), Some((1, 0, 0)));
    assert_eq!(iterator.next(&base), Some((0, 1, 0)));
    assert_eq!(iterator.next(&base), Some((1, 1, 0)));
    assert_eq!(iterator.next(&base), None);
}

#[test]
fn three_x_three() {
    let sz = Rect::new(0, 0, 3, 3);

    let mut base = PrefixSum2d::new(sz);
    base.insert(Rect::new(0, 0, 1, 1));

    let iterator = coverages(&base);

    assert_eq!(iterator, vec![1, 0, 0, 0, 0, 0, 0, 0, 0])
}

#[test]
fn single_cell_insert_on_two_by_two() {
    let mut base = PrefixSum2d::new(Rect::new(0, 0, 2, 2));
    base.insert(Rect::new(0, 0, 1, 1));
    assert_eq!(all_cells(&base), vec![(0, 0, 1), (1, 0, 0), (0, 1, 0), (1, 1, 0)]);
}

#[test]
fn full_grid_after_sub_rect() {
    let mut base = PrefixSum2d::new(Rect::new(0, 0, 2, 2));
    base.insert(Rect::new(0, 0, 1, 1));
    base.insert(Rect::new(0, 0, 2, 2));
    assert_eq!(coverages(&base), vec![2, 1, 1, 1]);
}

#[test]
fn coverage_counts_overlapping_rects() {
    let mut base = PrefixSum2d::new(Rect::new(0, 0, 4, 3));
    base.insert(Rect::new(1, 0, 2, 2));
    base.insert(Rect::new(2, 1, 2, 2));
    assert_eq!(coverages(&base), vec![0, 1, 1, 0, 0, 1, 2, 1, 0, 0, 1, 1]);
}

#[test]
fn clear_twice_gives_zeros() {
    let mut base = PrefixSum2d::new(Rect::new(0, 0, 3, 2));
    base.insert(Rect::new(1, 0, 2, 2));
    base.insert(Rect::new(0, 1, 5, 5));
    base.clear();
    assert_eq!(coverages(&base), vec![0; 6]);
    assert_eq!(*base.deltas(), vec![0; 6]);
    base.clear();
    assert_eq!(coverages(&base), vec![0; 6]);
    assert_eq!(base.pending_resets(), 0);
    assert_eq!(base.bounds(), None);
}

#[test]
fn pending_resets_follow_the_corners_not_the_area() {
    let mut big = PrefixSum2d::new(Rect::new(0, 0, 100, 100));
    big.insert(Rect::new(10, 10, 50, 50));
    assert_eq!(big.pending_resets(), 4);
    big.insert(Rect::new(10, 10, 50, 50));
    assert_eq!(big.pending_resets(), 4);
    big.insert(Rect::new(60, 10, 5, 5));
    assert_eq!(big.pending_resets(), 7);
    big.clear();
    assert_eq!(big.pending_resets(), 0);

    let mut edge = PrefixSum2d::new(Rect::new(0, 0, 4, 4));
    edge.insert(Rect::new(2, 2, 2, 2));
    assert_eq!(edge.pending_resets(), 1);
}

#[test]
fn resize_gives_blank_grid_of_new_size() {
    let mut base = PrefixSum2d::new(Rect::new(0, 0, 2, 2));
    base.insert(Rect::new(0, 0, 2, 2));
    base.resize(Rect::new(0, 0, 3, 2));
    let cells = all_cells(&base);
    assert_eq!(cells.len(), 6);
    assert_eq!(cells, vec![(0, 0, 0), (1, 0, 0), (2, 0, 0), (0, 1, 0), (1, 1, 0), (2, 1, 0)]);
}

#[test]
fn subtract_withdraws_an_insert() {
    let mut base = PrefixSum2d::new(Rect::new(0, 0, 3, 3));
    base.insert(Rect::new(0, 0, 3, 3));
    base.subtract(Rect::new(1, 1, 1, 1));
    assert_eq!(coverages(&base), vec![1, 1, 1, 1, 0, 1, 1, 1, 1]);
    base.subtract(Rect::new(0, 0, 3, 3));
    assert_eq!(coverages(&base), vec![0, 0, 0, 0, -1, 0, 0, 0, 0]);
}

#[test]
fn off_grid_and_empty_rects_only_widen_bounds() {
    let mut base = PrefixSum2d::new(Rect::new(0, 0, 2, 2));
    base.insert(Rect::new(2, 0, 3, 3));
    base.insert(Rect::new(0, 5, 1, 1));
    base.insert(Rect::new(1, 1, 0, 4));
    assert_eq!(coverages(&base), vec![0, 0, 0, 0]);
    assert_eq!(base.pending_resets(), 0);
    assert_eq!(base.bounds(), Some((0, 0, 5, 6)));
}

#[test]
fn rect_past_the_edge_is_clipped() {
    let mut base = PrefixSum2d::new(Rect::new(0, 0, 3, 2));
    base.insert(Rect::new(1, 1, 10, 10));
    assert_eq!(coverages(&base), vec![0, 0, 0, 0, 1, 1]);
    assert_eq!(base.bounds(), Some((1, 1, 11, 11)));
    assert_eq!(base.mark_count(), 1);
}

#[test]
fn passes_are_independent_and_end_for_good() {
    let mut base = PrefixSum2d::new(Rect::new(0, 0, 2, 1));
    base.insert(Rect::new(1, 0, 1, 1));
    let mut first = base.iter();
    assert_eq!(first.next(&base), Some((0, 0, 0)));
    let mut second = base.iter();
    assert_eq!(second.next(&base), Some((0, 0, 0)));
    assert_eq!(first.next(&base), Some((1, 0, 1)));
    assert_eq!(first.next(&base), None);
    assert_eq!(first.next(&base), None);
    assert_eq!(second.next(&base), Some((1, 0, 1)));
}

#[test]
fn empty_grid_yields_nothing() {
    let base = PrefixSum2d::new(Rect::new(0, 0, 0, 5));
    assert!(all_cells(&base).is_empty());
}
