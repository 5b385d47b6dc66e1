use vstd::prelude::*;
use vstd::arithmetic::div_mod::lemma_fundamental_div_mod_converse;
use crate::rect::Rect;

verus! {

/// The most rectangles that may be marked between two clears: it keeps every delta,
/// running sum and coverage within `isize`.
pub const MAX_MARKS: usize = 0x0fff_ffff;

/// Number of marked rectangles covering cell `(x, y)`, each counted with its weight
/// (`1` for an insert, `-1` for a subtract).
pub open spec fn coverage(marks: Seq<(Rect, int)>, x: int, y: int) -> int
    decreases marks.len(),
{
    if marks.len() == 0 {
        0
    } else {
        coverage(marks.drop_last(), x, y) + if marks.last().0.contains(x, y) {
            marks.last().1
        } else {
            0
        }
    }
}

/// Sum of the deltas of row `y` in the columns left of `x`.
pub open spec fn row_sum(d: Seq<isize>, w: int, x: int, y: int) -> int
    decreases x,
{
    if x <= 0 {
        0
    } else {
        row_sum(d, w, x - 1, y) + d[y * w + (x - 1)]
    }
}

/// Sum of the deltas of the cells left of column `x` and above row `y`.
pub open spec fn prefix(d: Seq<isize>, w: int, x: int, y: int) -> int
    decreases y,
{
    if y <= 0 {
        0
    } else {
        prefix(d, w, x, y - 1) + row_sum(d, w, x, y - 1)
    }
}

/// The grid indices whose delta a mark of `r` writes on a `w` by `h` grid: its
/// top-left corner, and the cells just right of and just below it that lie inside.
pub open spec fn corner_cells(r: Rect, w: int, h: int) -> Set<int> {
    if r.width == 0 || r.height == 0 || r.x >= w || r.y >= h {
        Set::empty()
    } else {
        let right = r.x + r.width;
        let bottom = r.y + r.height;
        let top_left = set![r.y * w + r.x];
        let top_right = if right < w {
            set![r.y * w + right]
        } else {
            Set::empty()
        };
        let bottom_left = if bottom < h {
            set![bottom * w + r.x]
        } else {
            Set::empty()
        };
        let bottom_right = if right < w && bottom < h {
            set![bottom * w + right]
        } else {
            Set::empty()
        };
        top_left.union(top_right).union(bottom_left).union(bottom_right)
    }
}

/// The grid indices written by all of `marks`.
pub open spec fn written_cells(marks: Seq<(Rect, int)>, w: int, h: int) -> Set<int>
    decreases marks.len(),
{
    if marks.len() == 0 {
        Set::empty()
    } else {
        written_cells(marks.drop_last(), w, h).union(corner_cells(marks.last().0, w, h))
    }
}

/// The bounding box `(min_x, min_y, max_x, max_y)`, maxima exclusive, of all the
/// rectangles in `marks`, whether or not they lie on the grid.
pub open spec fn bounding_box(marks: Seq<(Rect, int)>) -> Option<(int, int, int, int)>
    decreases marks.len(),
{
    if marks.len() == 0 {
        None
    } else {
        let r = marks.last().0;
        match bounding_box(marks.drop_last()) {
            None => Some((r.x as int, r.y as int, r.x + r.width, r.y + r.height)),
            Some(b) => Some(
                (
                    if r.x < b.0 { r.x as int } else { b.0 },
                    if r.y < b.1 { r.y as int } else { b.1 },
                    if r.x + r.width > b.2 { r.x + r.width } else { b.2 },
                    if r.y + r.height > b.3 { r.y + r.height } else { b.3 },
                ),
            ),
        }
    }
}

/// The cell that index `k` of a grid `w` wide stands for, with its coverage.
pub open spec fn cell_at(marks: Seq<(Rect, int)>, w: int, k: int) -> (u16, u16, isize) {
    ((k % w) as u16, (k / w) as u16, coverage(marks, k % w, k / w) as isize)
}

/// When every mark is an insert, the coverage of a cell is the number of marked
/// rectangles that contain it.
pub proof fn lemma_coverage_counts_rects(marks: Seq<(Rect, int)>, x: int, y: int)
    requires
        forall|i: int| 0 <= i < marks.len() ==> #[trigger] marks[i].1 == 1,
    ensures
        coverage(marks, x, y) == marks.filter(|m: (Rect, int)| m.0.contains(x, y)).len(),
    decreases marks.len(),
{
    reveal(Seq::filter);
    if marks.len() > 0 {
        let rest = marks.drop_last();
        assert forall|i: int| 0 <= i < rest.len() implies #[trigger] rest[i].1 == 1 by {
            assert(rest[i] == marks[i]);
        }
        lemma_coverage_counts_rects(rest, x, y);
        assert(marks.last() == marks[marks.len() - 1]);
    }
}

proof fn lemma_coverage_bound(marks: Seq<(Rect, int)>, x: int, y: int)
    requires
        forall|i: int| 0 <= i < marks.len() ==> #[trigger] marks[i].1 == 1 || marks[i].1 == -1,
    ensures
        -marks.len() <= coverage(marks, x, y) <= marks.len(),
    decreases marks.len(),
{
    if marks.len() > 0 {
        let rest = marks.drop_last();
        assert forall|i: int| 0 <= i < rest.len() implies #[trigger] rest[i].1 == 1 || rest[i].1
            == -1 by {
            assert(rest[i] == marks[i]);
        }
        lemma_coverage_bound(rest, x, y);
        assert(marks.last() == marks[marks.len() - 1]);
    }
}

proof fn lemma_index_in_row(w: int, h: int, x: int, y: int)
    requires
        0 <= x < w,
        0 <= y < h,
    ensures
        0 <= y * w + x < w * h,
        y * w + x == x + y * w,
{
    assert(y * w + w <= h * w) by (nonlinear_arith)
        requires
            0 <= y < h,
            0 < w,
    ;
    assert(w * h == h * w) by (nonlinear_arith);
    assert(y * w >= 0) by (nonlinear_arith)
        requires
            0 <= y,
            0 < w,
    ;
}

proof fn lemma_index_distinct(w: int, x1: int, y1: int, x2: int, y2: int)
    requires
        0 <= x1 < w,
        0 <= x2 < w,
        0 <= y1,
        0 <= y2,
        y1 * w + x1 == y2 * w + x2,
    ensures
        x1 == x2 && y1 == y2,
{
    if y1 < y2 {
        assert(y1 * w + w <= y2 * w) by (nonlinear_arith)
            requires
                y1 < y2,
                0 < w,
        ;
    } else if y2 < y1 {
        assert(y2 * w + w <= y1 * w) by (nonlinear_arith)
            requires
                y2 < y1,
                0 < w,
        ;
    }
}

proof fn lemma_row_sum_bump(d: Seq<isize>, v: isize, w: int, h: int, cx: int, cy: int, x: int, y: int)
    requires
        d.len() == w * h,
        0 <= cx < w,
        0 <= cy < h,
        0 <= x <= w,
        0 <= y < h,
    ensures
        row_sum(d.update(cy * w + cx, v), w, x, y) == row_sum(d, w, x, y) + if y == cy && cx < x {
            v - d[cy * w + cx]
        } else {
            0
        },
    decreases x,
{
    lemma_index_in_row(w, h, cx, cy);
    if x > 0 {
        lemma_row_sum_bump(d, v, w, h, cx, cy, x - 1, y);
        lemma_index_in_row(w, h, x - 1, y);
        if y * w + (x - 1) == cy * w + cx {
            lemma_index_distinct(w, x - 1, y, cx, cy);
        } else {
            assert(!(y == cy && x - 1 == cx));
        }
    }
}

proof fn lemma_prefix_bump(d: Seq<isize>, v: isize, w: int, h: int, cx: int, cy: int, x: int, y: int)
    requires
        d.len() == w * h,
        0 <= cx < w,
        0 <= cy < h,
        0 <= x <= w,
        0 <= y <= h,
    ensures
        prefix(d.update(cy * w + cx, v), w, x, y) == prefix(d, w, x, y) + if cy < y && cx < x {
            v - d[cy * w + cx]
        } else {
            0
        },
    decreases y,
{
    if y > 0 {
        lemma_prefix_bump(d, v, w, h, cx, cy, x, y - 1);
        lemma_row_sum_bump(d, v, w, h, cx, cy, x, y - 1);
    }
}

proof fn lemma_zero_prefix(d: Seq<isize>, w: int, h: int, x: int, y: int)
    requires
        d.len() == w * h,
        forall|i: int| 0 <= i < d.len() ==> d[i] == 0,
        0 <= x <= w,
        0 <= y <= h,
    ensures
        prefix(d, w, x, y) == 0,
    decreases y,
{
    if y > 0 {
        lemma_zero_prefix(d, w, h, x, y - 1);
        lemma_zero_row(d, w, h, x, y - 1);
    }
}

proof fn lemma_zero_row(d: Seq<isize>, w: int, h: int, x: int, y: int)
    requires
        d.len() == w * h,
        forall|i: int| 0 <= i < d.len() ==> d[i] == 0,
        0 <= x <= w,
        0 <= y < h,
    ensures
        row_sum(d, w, x, y) == 0,
    decreases x,
{
    if x > 0 {
        lemma_zero_row(d, w, h, x - 1, y);
        lemma_index_in_row(w, h, x - 1, y);
    }
}

/// The bookkeeping of touched indices: `touched` lists without repeats the indices
/// flagged in `recorded`, and every index whose delta is not zero is flagged.
pub open spec fn touch_ok(ir: Seq<isize>, touched: Seq<usize>, recorded: Seq<bool>) -> bool {
    &&& recorded.len() == ir.len()
    &&& touched.no_duplicates()
    &&& forall|i: int| 0 <= i < ir.len() ==> (#[trigger] recorded[i] <==> touched.contains(i as usize))
    &&& forall|i: int| 0 <= i < touched.len() ==> #[trigger] touched[i] < ir.len()
    &&& forall|i: int| 0 <= i < ir.len() && ir[i] != 0 ==> #[trigger] recorded[i]
}

/// Adds `delta` to the delta of cell `(cx, cy)`, recording the index among the
/// touched ones the first time it is written.
fn bump(
    deltas: &mut Vec<isize>,
    touched: &mut Vec<usize>,
    marked: &mut Vec<bool>,
    w: usize,
    h: usize,
    cx: usize,
    cy: usize,
    delta: isize,
    Ghost(limit): Ghost<int>,
)
    requires
        old(deltas).len() == w * h,
        old(marked).len() == w * h,
        cx < w,
        cy < h,
        delta == 1 || delta == -1,
        0 <= limit < 0x4000_0000,
        touch_ok(old(deltas)@, old(touched)@, old(marked)@),
        forall|i: int| 0 <= i < old(deltas).len() ==> -limit <= #[trigger] old(deltas)[i] <= limit,
    ensures
        final(deltas)@ == old(deltas)@.update(cy * w + cx, (old(deltas)[cy * w + cx] + delta) as isize),
        final(marked)@ == old(marked)@.update(cy * w + cx, true),
        final(deltas).len() == w * h,
        final(marked).len() == w * h,
        touch_ok(final(deltas)@, final(touched)@, final(marked)@),
        forall|i: int| 0 <= i < final(deltas).len() ==> -limit - 1 <= #[trigger] final(deltas)[i] <= limit + 1,
        forall|x: int, y: int|
            0 <= x <= w && 0 <= y <= h ==> #[trigger] prefix(final(deltas)@, w as int, x, y) == prefix(
                old(deltas)@,
                w as int,
                x,
                y,
            ) + if (cy as int) < y && (cx as int) < x {
                delta as int
            } else {
                0
            },
{
    proof {
        lemma_index_in_row(w as int, h as int, cx as int, cy as int);
    }
    let k = cy * w + cx;
    if !marked[k] {
        touched.push(k);
        marked.set(k, true);
        proof {
            assert forall|i: int, j: int| 0 <= i < j < touched.len() implies touched[i]
                != touched[j] by {
                if j == touched.len() - 1 {
                    assert(old(touched)@.contains(touched[i]));
                }
            }
            assert(touched@.no_duplicates());
            assert(touched@.last() == k);
        }
    }
    let v = deltas[k] + delta;
    proof {
        assert forall|x: int, y: int| 0 <= x <= w && 0 <= y <= h implies #[trigger] prefix(
            deltas@.update(k as int, v),
            w as int,
            x,
            y,
        ) == prefix(deltas@, w as int, x, y) + if (cy as int) < y && (cx as int) < x {
            delta as int
        } else {
            0
        } by {
            lemma_prefix_bump(deltas@, v, w as int, h as int, cx as int, cy as int, x, y);
        }
    }
    deltas.set(k, v);
    proof {
        assert(marked@ =~= old(marked)@.update(cy * w + cx, true));
        assert forall|i: int| 0 <= i < deltas.len() implies (#[trigger] marked[i]
            <==> touched@.contains(i as usize)) by {
            if i != k {
                if old(touched)@.contains(i as usize) {
                    let j = choose|j: int| 0 <= j < old(touched).len() && old(touched)[j] == i as usize;
                    assert(touched[j] == old(touched)[j]);
                }
                if touched@.contains(i as usize) {
                    let j = choose|j: int| 0 <= j < touched.len() && touched[j] == i as usize;
                    if j < old(touched).len() {
                        assert(old(touched)[j] == touched[j]);
                    }
                }
            } else {
                assert(touched@.contains(k));
            }
        }
    }
}

/// A pass over the coverage of an accumulator's cells in row-major order, keeping a
/// running sum along the current row and one running sum per column.
pub struct PrefixSum2dIterator {
    current_row: isize,
    columns: Vec<isize>,
    idx: usize,
}

impl PrefixSum2dIterator {
    /// The grid index of the next cell to yield.
    pub closed spec fn position(self) -> int {
        self.idx as int
    }

    /// The running sums match the deltas of `acc` up to the next cell.
    pub closed spec fn walks(self, acc: PrefixSum2d) -> bool {
        let w = acc.width();
        let d = acc.delta_seq();
        &&& self.columns.len() == w
        &&& self.idx <= w * acc.height()
        &&& w > 0 ==> {
            let x = (self.idx as int) % w;
            let y = (self.idx as int) / w;
            &&& self.current_row == row_sum(d, w, x, y)
            &&& forall|i: int| 0 <= i < x ==> #[trigger] self.columns[i] == prefix(d, w, i + 1, y + 1)
            &&& forall|i: int| x <= i < w ==> #[trigger] self.columns[i] == prefix(d, w, i + 1, y)
        }
    }

    /// Yields the next cell as `(x, y, coverage)`, or `None` once every cell of the
    /// grid was yielded.
    pub fn next(&mut self, acc: &PrefixSum2d) -> (r: Option<(u16, u16, isize)>)
        requires
            acc.wf(),
            old(self).walks(*acc),
        ensures
            final(self).walks(*acc),
            old(self).position() < acc.width() * acc.height() ==> r == Some(
                cell_at(acc.marks(), acc.width(), old(self).position()),
            ) && final(self).position() == old(self).position() + 1,
            old(self).position() >= acc.width() * acc.height() ==> r is None && final(self).position()
                == old(self).position(),
    {
        let w = acc.sz.width as usize;
        let h = acc.sz.height as usize;
        proof {
            assert(w as nat * h as nat <= 0xffff * 0xffff) by (nonlinear_arith)
                requires
                    w <= 0xffff,
                    h <= 0xffff,
            ;
        }
        if self.idx >= w * h {
            return None;
        }
        proof {
            if w == 0 {
                assert(w * h == 0) by (nonlinear_arith)
                    requires
                        w == 0,
                ;
            }
        }
        let x = self.idx % w;
        let y = self.idx / w;
        let ghost d = acc.ir@;
        proof {
            vstd::arithmetic::div_mod::lemma_fundamental_div_mod(self.idx as int, w as int);
            assert(y * w == w * y) by (nonlinear_arith);
            if y >= h {
                assert(y * w >= h * w) by (nonlinear_arith)
                    requires
                        y >= h,
                        w > 0,
                ;
                assert(h * w == w * h) by (nonlinear_arith);
            }
            lemma_index_in_row(w as int, h as int, x as int, y as int);
            lemma_coverage_bound(acc.marks@, x as int, y as int);
            lemma_coverage_bound(acc.marks@, x as int, y - 1);
            assert(prefix(d, w as int, x + 1, y + 1) == coverage(acc.marks@, x as int, y as int));
            if y > 0 {
                assert(prefix(d, w as int, x + 1, (y - 1) + 1) == coverage(acc.marks@, x as int, y - 1));
            }
            assert(prefix(d, w as int, x + 1, y + 1) == prefix(d, w as int, x + 1, y as int)
                + row_sum(d, w as int, x + 1, y as int));
        }
        let k = self.idx;
        self.current_row = self.current_row + acc.ir[k];
        let c = self.columns[x] + self.current_row;
        self.columns.set(x, c);
        if x + 1 == w {
            self.current_row = 0;
            proof {
                assert((y + 1) * w == y * w + w) by (nonlinear_arith);
                lemma_fundamental_div_mod_converse(k + 1, w as int, y + 1, 0);
            }
        } else {
            proof {
                lemma_fundamental_div_mod_converse(k + 1, w as int, y as int, x + 1);
            }
        }
        self.idx = self.idx + 1;
        Some((x as u16, y as u16, c))
    }
}

/// Tracks which cells of a `width` by `height` grid are covered by the rectangles
/// marked since the last clear, as a two-dimensional difference array: a mark
/// writes at most four deltas, and coverage is recovered by prefix sums.
pub struct PrefixSum2d {
    sz: Rect,
    ir: Vec<isize>,
    fast_clear_locs: Vec<usize>,
    recorded: Vec<bool>,
    inner_bound: Option<(u16, u16, u32, u32)>,
    count: usize,
    marks: Ghost<Seq<(Rect, int)>>,
}

impl PrefixSum2d {
    /// Width of the grid.
    pub closed spec fn width(self) -> int {
        self.sz.width as int
    }

    /// Height of the grid.
    pub closed spec fn height(self) -> int {
        self.sz.height as int
    }

    /// The rectangles marked since the last clear, each with its weight.
    pub closed spec fn marks(self) -> Seq<(Rect, int)> {
        self.marks@
    }

    /// The stored deltas, row by row.
    pub closed spec fn delta_seq(self) -> Seq<isize> {
        self.ir@
    }

    /// The indices that the next clear resets, in the order they were first written.
    pub closed spec fn touched(self) -> Seq<int> {
        self.fast_clear_locs@.map_values(|u: usize| u as int)
    }

    /// The prefix sums of the deltas give the coverage of every cell; the touched
    /// indices are exactly those the marks wrote; the bounding box is that of the
    /// marks; and the count of marks keeps every sum within `isize`.
    pub closed spec fn wf(self) -> bool {
        let w = self.sz.width as int;
        let h = self.sz.height as int;
        &&& self.ir.len() == w * h
        &&& self.recorded.len() == w * h
        &&& self.count == self.marks@.len()
        &&& self.count <= MAX_MARKS
        &&& forall|i: int| 0 <= i < self.marks@.len() ==> #[trigger] self.marks@[i].1 == 1
            || self.marks@[i].1 == -1
        &&& forall|i: int| 0 <= i < self.ir.len() ==> -4 * self.count <= #[trigger] self.ir[i] <= 4 * self.count
        &&& forall|x: int, y: int|
            0 <= x < w && 0 <= y < h ==> #[trigger] prefix(self.ir@, w, x + 1, y + 1) == coverage(
                self.marks@,
                x,
                y,
            )
        &&& touch_ok(self.ir@, self.fast_clear_locs@, self.recorded@)
        &&& forall|i: int| #[trigger] written_cells(self.marks@, w, h).contains(i) <==> 0 <= i < self.ir.len() && self.recorded[i]
        &&& self.inner_bound matches Some(b) ==> bounding_box(self.marks@) == Some((b.0 as int, b.1 as int, b.2 as int, b.3 as int))
        &&& self.inner_bound is None <==> bounding_box(self.marks@) is None
    }

    /// Makes an accumulator for a grid of `sz.width` by `sz.height` cells with
    /// nothing marked.
    pub fn new(sz: Rect) -> (r: PrefixSum2d)
        ensures
            r.wf(),
            r.width() == sz.width,
            r.height() == sz.height,
            r.marks() == Seq::<(Rect, int)>::empty(),
            r.touched().len() == 0,
    {
        assert(sz.width as nat * sz.height as nat <= 0xffff * 0xffff) by (nonlinear_arith)
            requires
                sz.width <= 0xffff,
                sz.height <= 0xffff,
        ;
        let area = sz.width as usize * sz.height as usize;
        let r = PrefixSum2d {
            sz,
            ir: vec![0isize; area],
            fast_clear_locs: Vec::new(),
            recorded: vec![false; area],
            inner_bound: None,
            count: 0,
            marks: Ghost(Seq::empty()),
        };
        proof {
            r.lemma_zero_coverage();
        }
        r
    }

    proof fn lemma_zero_coverage(self)
        requires
            self.ir.len() == self.sz.width * self.sz.height,
            self.recorded.len() == self.ir.len(),
            forall|i: int| 0 <= i < self.ir.len() ==> self.ir[i] == 0,
            forall|i: int| 0 <= i < self.ir.len() ==> !self.recorded[i],
            self.fast_clear_locs.len() == 0,
            self.inner_bound is None,
            self.count == 0,
            self.marks@ == Seq::<(Rect, int)>::empty(),
        ensures
            self.wf(),
    {
        let w = self.sz.width as int;
        let h = self.sz.height as int;
        assert forall|x: int, y: int| 0 <= x < w && 0 <= y < h implies #[trigger] prefix(
            self.ir@,
            w,
            x + 1,
            y + 1,
        ) == coverage(self.marks@, x, y) by {
            lemma_zero_prefix(self.ir@, w, h, x + 1, y + 1);
        }
        assert(self.fast_clear_locs@.no_duplicates());
    }

    /// Marks `bound` with weight `weight`: four corner deltas at most, whatever the
    /// rectangle's area.
    fn mark(&mut self, bound: Rect, weight: isize)
        requires
            old(self).wf(),
            old(self).marks().len() < MAX_MARKS,
            weight == 1 || weight == -1,
        ensures
            final(self).wf(),
            final(self).width() == old(self).width(),
            final(self).height() == old(self).height(),
            final(self).marks() == old(self).marks().push((bound, weight as int)),
    {
        let ghost old_marks = self.marks@;
        let ghost new_marks = old_marks.push((bound, weight as int));
        let right_edge = bound.x as u32 + bound.width as u32;
        let bottom_edge = bound.y as u32 + bound.height as u32;
        self.inner_bound = match self.inner_bound {
            None => Some((bound.x, bound.y, right_edge, bottom_edge)),
            Some(b) => Some(
                (
                    if bound.x < b.0 { bound.x } else { b.0 },
                    if bound.y < b.1 { bound.y } else { b.1 },
                    if right_edge > b.2 { right_edge } else { b.2 },
                    if bottom_edge > b.3 { bottom_edge } else { b.3 },
                ),
            ),
        };
        assert(new_marks.drop_last() == old_marks);
        let w = self.sz.width as usize;
        let h = self.sz.height as usize;
        let ghost n = 4 * self.count;
        let ghost d0 = self.ir@;
        let ghost r0 = self.recorded@;
        if !bound.is_empty() && (bound.x as usize) < w && (bound.y as usize) < h {
            let x = bound.x as usize;
            let y = bound.y as usize;
            let right = x + bound.width as usize;
            let bottom = y + bound.height as usize;
            bump(&mut self.ir, &mut self.fast_clear_locs, &mut self.recorded, w, h, x, y, weight, Ghost(n));
            let ghost d1 = self.ir@;
            let ghost r1 = self.recorded@;
            if right < w {
                bump(&mut self.ir, &mut self.fast_clear_locs, &mut self.recorded, w, h, right, y, -weight, Ghost(n + 1));
            }
            let ghost d2 = self.ir@;
            let ghost r2 = self.recorded@;
            if bottom < h {
                bump(&mut self.ir, &mut self.fast_clear_locs, &mut self.recorded, w, h, x, bottom, -weight, Ghost(n + 2));
            }
            let ghost d3 = self.ir@;
            let ghost r3 = self.recorded@;
            if right < w && bottom < h {
                bump(&mut self.ir, &mut self.fast_clear_locs, &mut self.recorded, w, h, right, bottom, weight, Ghost(n + 3));
            }
            proof {
                assert forall|cx: int, cy: int| 0 <= cx < w && 0 <= cy < h implies #[trigger] prefix(
                    self.ir@,
                    w as int,
                    cx + 1,
                    cy + 1,
                ) == coverage(new_marks, cx, cy) by {
                    assert(prefix(d1, w as int, cx + 1, cy + 1) == prefix(d0, w as int, cx + 1, cy + 1)
                        + if y <= cy && x <= cx { weight as int } else { 0 });
                    assert(prefix(d2, w as int, cx + 1, cy + 1) == prefix(d1, w as int, cx + 1, cy + 1)
                        + if right < w && y <= cy && right <= cx { -weight } else { 0 });
                    assert(prefix(d3, w as int, cx + 1, cy + 1) == prefix(d2, w as int, cx + 1, cy + 1)
                        + if bottom < h && bottom <= cy && x <= cx { -weight } else { 0 });
                    assert(prefix(self.ir@, w as int, cx + 1, cy + 1) == prefix(d3, w as int, cx + 1, cy + 1)
                        + if right < w && bottom < h && bottom <= cy && right <= cx { weight as int } else { 0 });
                }
                assert forall|i: int| #[trigger] written_cells(new_marks, w as int, h as int).contains(i)
                    <==> 0 <= i < self.ir.len() && self.recorded[i] by {
                    assert(written_cells(new_marks, w as int, h as int) == written_cells(old_marks, w as int, h as int).union(
                        corner_cells(bound, w as int, h as int)));
                    assert(written_cells(old_marks, w as int, h as int).contains(i)
                        <==> 0 <= i < self.ir.len() && r0[i]);
                    let k1 = y * w + x;
                    let k2 = y * w + right;
                    let k3 = bottom * w + x;
                    let k4 = bottom * w + right;
                    assert(r1 == r0.update(k1 as int, true));
                    assert(right < w ==> r2 == r1.update(k2 as int, true));
                    assert(!(right < w) ==> r2 == r1);
                    assert(bottom < h ==> r3 == r2.update(k3 as int, true));
                    assert(!(bottom < h) ==> r3 == r2);
                    assert(right < w && bottom < h ==> self.recorded@ == r3.update(k4 as int, true));
                    assert(!(right < w && bottom < h) ==> self.recorded@ == r3);
                    lemma_index_in_row(w as int, h as int, x as int, y as int);
                    if right < w {
                        lemma_index_in_row(w as int, h as int, right as int, y as int);
                    }
                    if bottom < h {
                        lemma_index_in_row(w as int, h as int, x as int, bottom as int);
                    }
                    if right < w && bottom < h {
                        lemma_index_in_row(w as int, h as int, right as int, bottom as int);
                    }
                }
            }
        } else {
            proof {
                assert forall|cx: int, cy: int| 0 <= cx < w && 0 <= cy < h implies #[trigger] prefix(
                    self.ir@,
                    w as int,
                    cx + 1,
                    cy + 1,
                ) == coverage(new_marks, cx, cy) by {
                    assert(prefix(d0, w as int, cx + 1, cy + 1) == coverage(old_marks, cx, cy));
                }
                assert forall|i: int| #[trigger] written_cells(new_marks, w as int, h as int).contains(i)
                    <==> 0 <= i < self.ir.len() && self.recorded[i] by {
                    assert(written_cells(old_marks, w as int, h as int).contains(i)
                        <==> 0 <= i < self.ir.len() && self.recorded[i]);
                }
            }
        }
        self.count = self.count + 1;
        self.marks = Ghost(new_marks);
        proof {
            assert forall|i: int| 0 <= i < new_marks.len() implies #[trigger] new_marks[i].1 == 1
                || new_marks[i].1 == -1 by {
                if i < old_marks.len() {
                    assert(new_marks[i] == old_marks[i]);
                }
            }
        }
    }

    /// Marks every cell of `bound` that lies on the grid as covered once more.
    /// Parts of `bound` off the grid are ignored, except by the bounding box.
    pub fn insert(&mut self, bound: Rect)
        requires
            old(self).wf(),
            old(self).marks().len() < MAX_MARKS,
        ensures
            final(self).wf(),
            final(self).width() == old(self).width(),
            final(self).height() == old(self).height(),
            final(self).marks() == old(self).marks().push((bound, 1)),
    {
        self.mark(bound, 1);
    }

    /// Withdraws one cover from every cell of `bound` that lies on the grid, the
    /// inverse of an insert of the same rectangle.
    pub fn subtract(&mut self, bound: Rect)
        requires
            old(self).wf(),
            old(self).marks().len() < MAX_MARKS,
        ensures
            final(self).wf(),
            final(self).width() == old(self).width(),
            final(self).height() == old(self).height(),
            final(self).marks() == old(self).marks().push((bound, -1)),
    {
        self.mark(bound, -1);
    }

    /// Resets every recorded delta to zero and forgets the marks and the bounding
    /// box. Only the indices recorded since the last clear are written, so the cost
    /// follows the number of marks, not the area of the grid.
    pub fn clear(&mut self)
        requires
            old(self).wf(),
        ensures
            final(self).wf(),
            final(self).width() == old(self).width(),
            final(self).height() == old(self).height(),
            final(self).marks() == Seq::<(Rect, int)>::empty(),
            final(self).touched().len() == 0,
            final(self).delta_seq().len() == old(self).delta_seq().len(),
            forall|i: int| 0 <= i < final(self).delta_seq().len() ==> #[trigger] final(self).delta_seq()[i] == 0,
            forall|i: int|
                0 <= i < old(self).delta_seq().len() && #[trigger] old(self).delta_seq()[i] != 0
                    ==> old(self).touched().contains(i),
            old(self).touched().len() == 0 ==> final(self).delta_seq() == old(self).delta_seq(),
    {
        let ghost ir0 = self.ir@;
        let ghost rec0 = self.recorded@;
        proof {
            assert forall|i: int|
                0 <= i < ir0.len() && #[trigger] ir0[i] != 0 implies old(self).touched().contains(i) by {
                let u = self.fast_clear_locs@;
                assert(touch_ok(ir0, u, rec0));
                assert(rec0[i]);
                assert(u.contains(i as usize));
                let j = choose|j: int| 0 <= j < u.len() && u[j] == i as usize;
                assert(old(self).touched()[j] == i);
            }
        }
        let mut j: usize = 0;
        while j < self.fast_clear_locs.len()
            invariant
                touch_ok(ir0, self.fast_clear_locs@, rec0),
                self.sz == old(self).sz,
                self.fast_clear_locs@ == old(self).fast_clear_locs@,
                ir0.len() == self.sz.width * self.sz.height,
                self.ir.len() == ir0.len(),
                self.recorded.len() == ir0.len(),
                j <= self.fast_clear_locs.len(),
                forall|m: int| 0 <= m < j ==> self.ir[#[trigger] self.fast_clear_locs[m] as int] == 0
                    && !self.recorded[self.fast_clear_locs[m] as int],
                forall|i: int|
                    0 <= i < ir0.len() ==> (#[trigger] self.ir[i] == ir0[i] && self.recorded[i] == rec0[i])
                        || (self.ir[i] == 0 && !self.recorded[i] && rec0[i]),
            decreases self.fast_clear_locs.len() - j,
        {
            let loc = self.fast_clear_locs[j];
            self.ir.set(loc, 0);
            self.recorded.set(loc, false);
            j = j + 1;
        }
        proof {
            assert forall|i: int| 0 <= i < ir0.len() implies self.ir[i] == 0 && !self.recorded[i] by {
                if rec0[i] {
                    assert(self.fast_clear_locs@.contains(i as usize));
                    let m = choose|m: int| 0 <= m < self.fast_clear_locs.len() && self.fast_clear_locs[m] == i as usize;
                    assert(self.ir[self.fast_clear_locs[m] as int] == 0);
                }
            }
        }
        proof {
            if self.fast_clear_locs.len() == 0 {
                assert forall|i: int| 0 <= i < ir0.len() implies self.ir[i] == ir0[i] by {
                    if rec0[i] {
                        assert(self.fast_clear_locs@.contains(i as usize));
                    }
                }
                assert(self.ir@ =~= ir0);
            }
        }
        self.fast_clear_locs.clear();
        self.inner_bound = None;
        self.count = 0;
        self.marks = Ghost(Seq::empty());
        proof {
            self.lemma_zero_coverage();
        }
    }

    /// Clears, then gives the grid the size `sz.width` by `sz.height`, every delta
    /// zero.
    pub fn resize(&mut self, sz: Rect)
        requires
            old(self).wf(),
        ensures
            final(self).wf(),
            final(self).width() == sz.width,
            final(self).height() == sz.height,
            final(self).marks() == Seq::<(Rect, int)>::empty(),
            final(self).touched().len() == 0,
    {
        self.clear();
        assert(sz.width as nat * sz.height as nat <= 0xffff * 0xffff) by (nonlinear_arith)
            requires
                sz.width <= 0xffff,
                sz.height <= 0xffff,
        ;
        let area = sz.width as usize * sz.height as usize;
        self.ir = vec![0isize; area];
        self.recorded = vec![false; area];
        self.sz = sz;
        proof {
            self.lemma_zero_coverage();
        }
    }

    /// A fresh cursor over the coverage of every cell, row by row, starting at the
    /// top-left cell. Each call yields a new, independent pass.
    pub fn iter(&self) -> (r: PrefixSum2dIterator)
        requires
            self.wf(),
        ensures
            r.walks(*self),
            r.position() == 0,
    {
        let w = self.sz.width as usize;
        let r = PrefixSum2dIterator { current_row: 0, columns: vec![0isize; w], idx: 0 };
        proof {
            if w > 0 {
                lemma_fundamental_div_mod_converse(0, w as int, 0, 0);
            }
        }
        r
    }

    /// The stored deltas, row by row.
    pub fn deltas(&self) -> (r: &Vec<isize>)
        ensures
            r@ == self.delta_seq(),
    {
        &self.ir
    }

    /// The bounding box `(min_x, min_y, max_x, max_y)`, maxima exclusive, of the
    /// rectangles marked since the last clear; `None` when nothing was marked.
    pub fn bounds(&self) -> (r: Option<(u16, u16, u32, u32)>)
        requires
            self.wf(),
        ensures
            r matches Some(b) ==> bounding_box(self.marks()) == Some((b.0 as int, b.1 as int, b.2 as int, b.3 as int)),
            r is None <==> bounding_box(self.marks()) is None,
    {
        self.inner_bound
    }

    /// How many rectangles were marked since the last clear.
    pub fn mark_count(&self) -> (r: usize)
        requires
            self.wf(),
        ensures
            r == self.marks().len(),
    {
        self.count
    }

    /// How many indices the next clear resets.
    pub fn pending_resets(&self) -> (r: usize)
        ensures
            r == self.touched().len(),
    {
        self.fast_clear_locs.len()
    }

    /// After a clear or a resize nothing is marked: every cell that a pass over the
    /// grid yields, one per cell, has coverage zero.
    pub proof fn lemma_blank_after_reset(self)
        requires
            self.wf(),
            self.marks().len() == 0,
        ensures
            forall|k: int| 0 <= k < self.width() * self.height() ==> (#[trigger] cell_at(self.marks(), self.width(), k)).2 == 0,
    {
    }

    /// The grid's sides fit `u16`, so its area fits `u32`.
    pub proof fn lemma_area_bound(self)
        ensures
            0 <= self.width() <= 0xffff,
            0 <= self.height() <= 0xffff,
            0 <= self.width() * self.height() <= 0xffff * 0xffff,
    {
        let w = self.width();
        let h = self.height();
        assert(0 <= w * h <= 0xffff * 0xffff) by (nonlinear_arith)
            requires
                0 <= w <= 0xffff,
                0 <= h <= 0xffff,
        ;
    }

    /// Every coverage fits the `isize` of a cell's entry.
    pub proof fn lemma_cell_coverage_fits(self, k: int)
        requires
            self.wf(),
        ensures
            -(MAX_MARKS as int) <= coverage(self.marks(), k % self.width(), k / self.width()) <= MAX_MARKS,
    {
        lemma_coverage_bound(self.marks@, k % self.width(), k / self.width());
    }

    /// The indices that a clear resets are exactly the distinct grid indices that
    /// the marks since the last clear wrote, each listed once: their number does not
    /// depend on the area of the grid.
    pub proof fn lemma_touched_are_written(self)
        requires
            self.wf(),
        ensures
            self.touched().to_set() == written_cells(self.marks(), self.width(), self.height()),
            self.touched().len() == written_cells(self.marks(), self.width(), self.height()).len(),
    {
        let u = self.fast_clear_locs@;
        let t = self.touched();
        let wc = written_cells(self.marks@, self.width(), self.height());
        assert forall|i: int| #[trigger] wc.contains(i) implies t.to_set().contains(i) by {
            assert(0 <= i < self.ir.len() && self.recorded[i]);
            let j = choose|j: int| 0 <= j < u.len() && u[j] == i as usize;
            assert(t[j] == i);
        }
        assert forall|i: int| #[trigger] t.to_set().contains(i) implies wc.contains(i) by {
            assert(t.contains(i));
            let j = choose|j: int| 0 <= j < t.len() && t[j] == i;
            assert(u[j] < self.ir.len());
            assert(u.contains(u[j]));
            assert(self.recorded[i]);
        }
        assert(t.to_set() =~= wc);
        assert forall|a: int, b: int| 0 <= a < b < t.len() implies t[a] != t[b] by {
            assert(u[a] != u[b]);
        }
        assert(t.no_duplicates());
        t.unique_seq_to_set();
    }
}

} // verus!
