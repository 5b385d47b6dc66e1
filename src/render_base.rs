use vstd::prelude::*;
use crate::prefix_sum_2d::{coverage, PrefixSum2d, MAX_MARKS};
use crate::rect::Rect;

verus! {

/// One operation of a batch sent to the shared surface: draw a widget into a
/// rectangle, mark a rectangle dirty, or withdraw a dirty mark.
pub enum RBOp<T> {
    Component(T, Rect),
    Add(Rect),
    Sub(Rect),
}

/// The marks that `ops` make on the accumulator, in order; a drawing makes none.
pub open spec fn ops_marks<T>(ops: Seq<RBOp<T>>) -> Seq<(Rect, int)>
    decreases ops.len(),
{
    if ops.len() == 0 {
        Seq::empty()
    } else {
        let rest = ops_marks(ops.drop_last());
        match ops.last() {
            RBOp::Component(_, _) => rest,
            RBOp::Add(r) => rest.push((r, 1)),
            RBOp::Sub(r) => rest.push((r, -1)),
        }
    }
}

proof fn lemma_ops_marks_len<T>(ops: Seq<RBOp<T>>)
    ensures
        ops_marks(ops).len() <= ops.len(),
    decreases ops.len(),
{
    if ops.len() > 0 {
        lemma_ops_marks_len(ops.drop_last());
    }
}

/// Applies the dirty marks of a batch to `acc`: an `Add` inserts its rectangle, a
/// `Sub` subtracts it, a `Component` leaves the marks alone (its drawing is the
/// caller's).
pub fn apply_ops<T>(acc: &mut PrefixSum2d, ops: &Vec<RBOp<T>>)
    requires
        old(acc).wf(),
        old(acc).marks().len() + ops.len() <= MAX_MARKS,
    ensures
        final(acc).wf(),
        final(acc).width() == old(acc).width(),
        final(acc).height() == old(acc).height(),
        final(acc).marks() == old(acc).marks() + ops_marks(ops@),
{
    let mut i: usize = 0;
    while i < ops.len()
        invariant
            acc.wf(),
            i <= ops.len(),
            acc.width() == old(acc).width(),
            acc.height() == old(acc).height(),
            old(acc).marks().len() + ops.len() <= MAX_MARKS,
            acc.marks() == old(acc).marks() + ops_marks(ops@.subrange(0, i as int)),
        decreases ops.len() - i,
    {
        proof {
            lemma_ops_marks_len(ops@.subrange(0, i as int));
            assert(ops@.subrange(0, i + 1).drop_last() == ops@.subrange(0, i as int));
        }
        match &ops[i] {
            RBOp::Component(_, _) => {},
            RBOp::Add(r) => acc.insert(*r),
            RBOp::Sub(r) => acc.subtract(*r),
        }
        i = i + 1;
    }
    assert(ops@.subrange(0, ops.len() as int) == ops@);
}

/// The dirty cells among the first `n` grid indices of a grid `w` wide, in order:
/// `(x, y, k)` for each index `k` whose cell has positive coverage.
pub open spec fn dirty_upto(marks: Seq<(Rect, int)>, w: int, n: nat) -> Seq<(u16, u16, usize)>
    decreases n,
{
    if n == 0 {
        Seq::empty()
    } else {
        let k = n - 1;
        let rest = dirty_upto(marks, w, (n - 1) as nat);
        if coverage(marks, k % w, k / w) > 0 {
            rest.push(((k % w) as u16, (k / w) as u16, k as usize))
        } else {
            rest
        }
    }
}

/// The cells a frame flush forwards: every cell whose coverage is positive, row by
/// row, as `(x, y, k)` with `k` its index in the row-major cell buffer.
pub fn dirty_cells(acc: &PrefixSum2d) -> (r: Vec<(u16, u16, usize)>)
    requires
        acc.wf(),
    ensures
        r@ == dirty_upto(acc.marks(), acc.width(), (acc.width() * acc.height()) as nat),
{
    let mut cells = acc.iter();
    proof {
        acc.lemma_area_bound();
    }
    let mut out: Vec<(u16, u16, usize)> = Vec::new();
    let mut k: usize = 0;
    loop
        invariant
            acc.wf(),
            cells.walks(*acc),
            cells.position() == k,
            k <= acc.width() * acc.height(),
            acc.width() * acc.height() <= 0xffff * 0xffff,
            out@ == dirty_upto(acc.marks(), acc.width(), k as nat),
        ensures
            out@ == dirty_upto(acc.marks(), acc.width(), (acc.width() * acc.height()) as nat),
        decreases acc.width() * acc.height() - k,
    {
        proof {
            acc.lemma_cell_coverage_fits(k as int);
        }
        match cells.next(acc) {
            Some((x, y, c)) => {
                if c > 0 {
                    out.push((x, y, k));
                }
                k = k + 1;
            },
            None => {
                break;
            },
        }
    }
    out
}

} // verus!
