//! A minimal N-dimensional container: a fixed number of axes, each a
//! fixed-length buffer of 32-bit words, plus a chronological log of the
//! pairwise axis swaps that were applied, so that the original axis
//! ordering can be restored by replaying the log in reverse.

use vstd::prelude::*;

verus! {

/// Length of every axis buffer, fixed at construction.
pub const AXIS_LEN: usize = 60;

/// Error returned by `swap` when one of the axis indices is out of range.
#[derive(Debug, Clone, Copy, PartialEq, Eq, Structural)]
pub struct AxisOutOfRange;

/// The container: an ordered sequence of axes (each a buffer of exactly
/// `AXIS_LEN` 32-bit values) and the log of swaps applied to the ordering.
pub struct NDVec {
    inner: Vec<Vec<u32>>,
    swap_history: Vec<(usize, usize)>,
}

/// The sequence of axis contents that a sequence of axis buffers denotes.
pub open spec fn rows_view(rows: Seq<Vec<u32>>) -> Seq<Seq<u32>> {
    rows.map(|i: int, row: Vec<u32>| row@)
}

/// `s` with the entries at `a` and `b` exchanged.
pub open spec fn swapped<T>(s: Seq<T>, a: int, b: int) -> Seq<T> {
    s.update(a, s[b]).update(b, s[a])
}

/// `axes` with the value at (`axis`, `position`) replaced by `value`.
pub open spec fn written(axes: Seq<Seq<u32>>, axis: int, position: int, value: u32) -> Seq<Seq<u32>> {
    axes.update(axis, axes[axis].update(position, value))
}

/// Every swap record names two positions below `dim`.
pub open spec fn valid_records(hist: Seq<(usize, usize)>, dim: int) -> bool {
    forall|k: int| 0 <= k < hist.len() ==> (#[trigger] hist[k]).0 < dim && hist[k].1 < dim
}

/// The axis ordering after applying the recorded swaps in chronological
/// order: record `(a, b)` exchanges positions `a` and `b`.
pub open spec fn apply_swaps(axes: Seq<Seq<u32>>, hist: Seq<(usize, usize)>) -> Seq<Seq<u32>>
    decreases hist.len(),
{
    if hist.len() == 0 {
        axes
    } else {
        apply_swaps(swapped(axes, hist[0].0 as int, hist[0].1 as int), hist.drop_first())
    }
}

/// The axis ordering after undoing the recorded swaps in reverse
/// chronological order: the last record is undone first, and for a record
/// `(a, b)` the undo exchanges position `b` back with position `a`.
pub open spec fn undo_swaps(axes: Seq<Seq<u32>>, hist: Seq<(usize, usize)>) -> Seq<Seq<u32>>
    decreases hist.len(),
{
    if hist.len() == 0 {
        axes
    } else {
        swapped(undo_swaps(axes, hist.drop_first()), hist[0].1 as int, hist[0].0 as int)
    }
}

impl NDVec {
    /// The contents of the axes, in their current order.
    pub closed spec fn axes(&self) -> Seq<Seq<u32>> {
        rows_view(self.inner@)
    }

    /// The swap log, in chronological order.
    pub closed spec fn history(&self) -> Seq<(usize, usize)> {
        self.swap_history@
    }

    /// Structural invariant: every axis buffer has exactly `AXIS_LEN`
    /// entries, and every logged swap names two valid positions.
    pub open spec fn wf(&self) -> bool {
        &&& forall|i: int|
            0 <= i < self.axes().len() ==> (#[trigger] self.axes()[i]).len() == AXIS_LEN
        &&& valid_records(self.history(), self.axes().len() as int)
    }

    /// Whether (`axis`, `position`) addresses a value of the container.
    pub open spec fn in_range(&self, axis: usize, position: usize) -> bool {
        axis < self.axes().len() && position < self.axes()[axis as int].len()
    }

    /// A container with `dim` axes, each holding `AXIS_LEN` zeroes, and an
    /// empty swap log.
    pub fn new(dim: usize) -> (r: NDVec)
        ensures
            r.wf(),
            r.axes().len() == dim,
            forall|i: int, j: int|
                0 <= i < dim && 0 <= j < AXIS_LEN ==> #[trigger] r.axes()[i][j] == 0u32,
            r.history() == Seq::<(usize, usize)>::empty(),
    {
        let mut inner: Vec<Vec<u32>> = Vec::new();
        while inner.len() < dim
            invariant
                inner@.len() <= dim,
                forall|i: int|
                    0 <= i < inner@.len() ==> (#[trigger] inner@[i])@.len() == AXIS_LEN,
                forall|i: int, j: int|
                    0 <= i < inner@.len() && 0 <= j < AXIS_LEN ==> #[trigger] inner@[i]@[j] == 0u32,
            decreases dim - inner@.len(),
        {
            let mut axis: Vec<u32> = Vec::new();
            while axis.len() < AXIS_LEN
                invariant
                    axis@.len() <= AXIS_LEN,
                    forall|j: int| 0 <= j < axis@.len() ==> #[trigger] axis@[j] == 0u32,
                decreases AXIS_LEN - axis@.len(),
            {
                axis.push(0u32);
            }
            inner.push(axis);
        }
        let r = NDVec { inner, swap_history: Vec::new() };
        proof {
            assert forall|i: int| 0 <= i < r.axes().len() implies (#[trigger] r.axes()[i]).len()
                == AXIS_LEN by {
                assert(r.axes()[i] == r.inner@[i]@);
            }
            assert forall|i: int, j: int|
                0 <= i < dim && 0 <= j < AXIS_LEN implies #[trigger] r.axes()[i][j] == 0u32 by {
                assert(r.axes()[i] == r.inner@[i]@);
            }
            assert(r.history() =~= Seq::<(usize, usize)>::empty());
        }
        r
    }

    /// The value at (`axis`, `position`), or `None` if either index is out
    /// of range. Never fails and never mutates.
    pub fn get(&self, axis: usize, position: usize) -> (r: Option<u32>)
        ensures
            self.in_range(axis, position) ==> r == Some(self.axes()[axis as int][position as int]),
            !self.in_range(axis, position) ==> r == None::<u32>,
    {
        proof {
            if axis < self.inner@.len() {
                assert(self.axes()[axis as int] == self.inner@[axis as int]@);
            }
        }
        if axis < self.inner.len() {
            let row = &self.inner[axis];
            if position < row.len() {
                Some(row[position])
            } else {
                None
            }
        } else {
            None
        }
    }

    /// Sets the value at (`axis`, `position`) to `value`. If either index
    /// is out of range the call is a documented no-op: the container is
    /// left unchanged. The swap log is never touched.
    pub fn mutate(&mut self, axis: usize, position: usize, value: u32)
        ensures
            final(self).history() == old(self).history(),
            old(self).in_range(axis, position) ==> final(self).axes() == written(
                old(self).axes(),
                axis as int,
                position as int,
                value,
            ),
            !old(self).in_range(axis, position) ==> *final(self) == *old(self),
            old(self).wf() ==> final(self).wf(),
    {
        proof {
            if axis < self.inner@.len() {
                assert(self.axes()[axis as int] == self.inner@[axis as int]@);
            }
        }
        if axis < self.inner.len() {
            let row_len: usize = self.inner[axis].len();
            if position < row_len {
                let ghost prev = *self;
                self.inner[axis][position] = value;
                proof {
                    lemma_rows_view_update(
                        prev.inner@,
                        axis as int,
                        self.inner@[axis as int],
                    );
                    assert(self.axes() =~= written(
                        prev.axes(),
                        axis as int,
                        position as int,
                        value,
                    ));
                    if prev.wf() {
                        assert forall|i: int|
                            0 <= i < self.axes().len() implies (#[trigger] self.axes()[i]).len()
                            == AXIS_LEN by {
                            assert(prev.axes()[i].len() == AXIS_LEN);
                        }
                    }
                }
            }
        }
    }

    /// Exchanges the axes at positions `a_ind` and `b_ind` and appends
    /// `(a_ind, b_ind)` to the swap log. If either position is out of
    /// range, returns an explicit error and leaves the container unchanged
    /// (rather than failing irrecoverably).
    pub fn swap(&mut self, a_ind: usize, b_ind: usize) -> (r: Result<(), AxisOutOfRange>)
        ensures
            (a_ind < old(self).axes().len() && b_ind < old(self).axes().len()) ==> {
                &&& r == Ok::<(), AxisOutOfRange>(())
                &&& final(self).axes() == swapped(old(self).axes(), a_ind as int, b_ind as int)
                &&& final(self).history() == old(self).history().push((a_ind, b_ind))
            },
            !(a_ind < old(self).axes().len() && b_ind < old(self).axes().len()) ==> {
                &&& r == Err::<(), AxisOutOfRange>(AxisOutOfRange)
                &&& *final(self) == *old(self)
            },
            old(self).wf() ==> final(self).wf(),
    {
        if a_ind < self.inner.len() && b_ind < self.inner.len() {
            let ghost prev = *self;
            swap_rows(&mut self.inner, a_ind, b_ind);
            self.swap_history.push((a_ind, b_ind));
            proof {
                if prev.wf() {
                    assert forall|i: int|
                        0 <= i < self.axes().len() implies (#[trigger] self.axes()[i]).len()
                        == AXIS_LEN by {
                        assert(prev.axes()[i].len() == AXIS_LEN);
                        assert(prev.axes()[a_ind as int].len() == AXIS_LEN);
                        assert(prev.axes()[b_ind as int].len() == AXIS_LEN);
                    }
                    assert forall|k: int|
                        0 <= k < self.history().len() implies (#[trigger] self.history()[k]).0
                        < self.axes().len() && self.history()[k].1 < self.axes().len() by {
                        if k < prev.history().len() {
                            assert(prev.history()[k] == self.history()[k]);
                        }
                    }
                }
            }
            Ok(())
        } else {
            Err(AxisOutOfRange)
        }
    }

    /// Replays the swap log in reverse chronological order, undoing each
    /// recorded swap: for a record `(a, b)`, position `b` is exchanged back
    /// with position `a`. The log itself is kept intact, so a second call
    /// replays the same inverse sequence again.
    pub fn revert(&mut self)
        requires
            old(self).wf(),
        ensures
            final(self).wf(),
            final(self).history() == old(self).history(),
            final(self).axes() == undo_swaps(old(self).axes(), old(self).history()),
    {
        let ghost axes0 = self.axes();
        let ghost hist = self.swap_history@;
        proof {
            assert forall|k: int|
                0 <= k < self.inner@.len() implies (#[trigger] self.inner@[k])@.len()
                == AXIS_LEN by {
                assert(self.axes()[k] == self.inner@[k]@);
            }
        }
        let mut i: usize = self.swap_history.len();
        while i > 0
            invariant
                i <= hist.len(),
                self.swap_history@ == hist,
                valid_records(hist, axes0.len() as int),
                self.inner@.len() == axes0.len(),
                forall|k: int|
                    0 <= k < self.inner@.len() ==> (#[trigger] self.inner@[k])@.len() == AXIS_LEN,
                old(self).wf(),
                old(self).history() == hist,
                old(self).axes() == axes0,
                rows_view(self.inner@) == undo_swaps(
                    axes0,
                    hist.subrange(i as int, hist.len() as int),
                ),
            decreases i,
        {
            i = i - 1;
            let rec = self.swap_history[i];
            let a: usize = rec.0;
            let b: usize = rec.1;
            proof {
                assert(hist[i as int].0 < axes0.len() && hist[i as int].1 < axes0.len());
            }
            swap_rows(&mut self.inner, b, a);
            proof {
                let sub_i = hist.subrange(i as int, hist.len() as int);
                assert(sub_i.drop_first() =~= hist.subrange(i as int + 1, hist.len() as int));
                assert(sub_i[0] == hist[i as int]);
                assert(undo_swaps(axes0, sub_i) == swapped(
                    undo_swaps(axes0, sub_i.drop_first()),
                    b as int,
                    a as int,
                ));
                assert forall|k: int|
                    0 <= k < self.inner@.len() implies (#[trigger] self.inner@[k])@.len()
                    == AXIS_LEN by {
                    assert(rows_view(self.inner@)[k] == self.inner@[k]@);
                }
            }
        }
        proof {
            assert(hist.subrange(0, hist.len() as int) =~= hist);
            assert forall|k: int|
                0 <= k < self.axes().len() implies (#[trigger] self.axes()[k]).len() == AXIS_LEN by {
                assert(self.axes()[k] == self.inner@[k]@);
            }
        }
    }
}

/// Replacing one buffer of `rows` replaces exactly that entry of the
/// denoted contents.
proof fn lemma_rows_view_update(rows: Seq<Vec<u32>>, i: int, row: Vec<u32>)
    requires
        0 <= i < rows.len(),
    ensures
        rows_view(rows.update(i, row)) == rows_view(rows).update(i, row@),
{
    assert(rows_view(rows.update(i, row)) =~= rows_view(rows).update(i, row@));
}

/// Law: writing a value at valid coordinates and then reading the same
/// coordinates yields exactly that value.
pub proof fn lemma_mutate_then_get(axes: Seq<Seq<u32>>, axis: int, position: int, value: u32)
    requires
        0 <= axis < axes.len(),
        0 <= position < axes[axis].len(),
    ensures
        written(axes, axis, position, value)[axis][position] == value,
{
}

/// Exchanging two valid positions and then exchanging them back leaves the
/// sequence as it was.
proof fn lemma_swapped_involutive<T>(s: Seq<T>, a: int, b: int)
    requires
        0 <= a < s.len(),
        0 <= b < s.len(),
    ensures
        swapped(swapped(s, a, b), b, a) == s,
{
    assert(swapped(swapped(s, a, b), b, a) =~= s);
}

/// Recording one more swap extends the overall reordering at the
/// chronological end: the ordering after the records of `hist.push((a, b))`
/// is the ordering after the records of `hist`, with positions `a` and `b`
/// then exchanged. This connects a run of `swap` calls, whose contracts
/// push one record each, to `apply_swaps` over the whole log.
pub proof fn lemma_apply_swaps_push(
    axes: Seq<Seq<u32>>,
    hist: Seq<(usize, usize)>,
    a: usize,
    b: usize,
)
    ensures
        apply_swaps(axes, hist.push((a, b))) == swapped(
            apply_swaps(axes, hist),
            a as int,
            b as int,
        ),
    decreases hist.len(),
{
    let h = hist.push((a, b));
    assert(h.len() == hist.len() + 1);
    if hist.len() == 0 {
        assert(h[0] == (a, b));
        assert(h.drop_first() =~= Seq::<(usize, usize)>::empty());
        assert(apply_swaps(axes, h) == apply_swaps(swapped(axes, a as int, b as int), h.drop_first()));
        assert(apply_swaps(swapped(axes, a as int, b as int), h.drop_first()) == swapped(axes, a as int, b as int));
        assert(apply_swaps(axes, hist) == axes);
    } else {
        let x = swapped(axes, hist[0].0 as int, hist[0].1 as int);
        assert(h[0] == hist[0]);
        assert(h.drop_first() =~= hist.drop_first().push((a, b)));
        assert(apply_swaps(axes, h) == apply_swaps(x, h.drop_first()));
        lemma_apply_swaps_push(x, hist.drop_first(), a, b);
        assert(apply_swaps(axes, hist) == apply_swaps(x, hist.drop_first()));
    }
}

/// Law: undoing a sequence of recorded swaps restores the axis ordering
/// that held before those swaps were applied, for any sequence of records
/// whose positions are valid for `axes`.
pub proof fn lemma_revert_restores(axes: Seq<Seq<u32>>, hist: Seq<(usize, usize)>)
    requires
        valid_records(hist, axes.len() as int),
    ensures
        undo_swaps(apply_swaps(axes, hist), hist) == axes,
    decreases hist.len(),
{
    if hist.len() > 0 {
        let a = hist[0].0 as int;
        let b = hist[0].1 as int;
        assert(hist[0].0 < axes.len() && hist[0].1 < axes.len());
        let x = swapped(axes, a, b);
        assert(x.len() == axes.len());
        assert(valid_records(hist.drop_first(), x.len() as int)) by {
            assert forall|k: int|
                0 <= k < hist.drop_first().len() implies (#[trigger] hist.drop_first()[k]).0
                < x.len() && hist.drop_first()[k].1 < x.len() by {
                assert(hist.drop_first()[k] == hist[k + 1]);
            }
        }
        lemma_revert_restores(x, hist.drop_first());
        lemma_swapped_involutive(axes, a, b);
    }
}

/// A fresh buffer with the same contents as `row`.
fn copy_row(row: &Vec<u32>) -> (r: Vec<u32>)
    ensures
        r@ == row@,
{
    let mut r: Vec<u32> = Vec::new();
    let mut i: usize = 0;
    while i < row.len()
        invariant
            i <= row@.len(),
            r@ == row@.subrange(0, i as int),
        decreases row@.len() - i,
    {
        r.push(row[i]);
        i += 1;
        proof {
            assert(r@ =~= row@.subrange(0, i as int));
        }
    }
    proof {
        assert(r@ =~= row@);
    }
    r
}

/// Exchanges the buffers at positions `a` and `b`.
fn swap_rows(rows: &mut Vec<Vec<u32>>, a: usize, b: usize)
    requires
        a < old(rows)@.len(),
        b < old(rows)@.len(),
    ensures
        final(rows)@.len() == old(rows)@.len(),
        rows_view(final(rows)@) == swapped(rows_view(old(rows)@), a as int, b as int),
{
    let row_a = copy_row(&rows[a]);
    let row_b = copy_row(&rows[b]);
    let ghost rows0 = rows@;
    rows.set(a, row_b);
    proof {
        lemma_rows_view_update(rows0, a as int, rows@[a as int]);
    }
    let ghost rows1 = rows@;
    rows.set(b, row_a);
    proof {
        lemma_rows_view_update(rows1, b as int, rows@[b as int]);
        assert(rows_view(rows0)[a as int] == rows0[a as int]@);
        assert(rows_view(rows0)[b as int] == rows0[b as int]@);
        assert(rows_view(rows@) =~= swapped(rows_view(rows0), a as int, b as int));
    }
}

} // verus!
