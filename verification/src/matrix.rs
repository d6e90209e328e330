//! The decision matrix and the traceback that reads it.

use vstd::prelude::*;
use std::ops::Range;
use crate::grid::{span_start, Grid};
use crate::ops::{AlignmentOp, AlignmentStep, Trace};
use crate::runs::{compress, lemma_compress_leading_run, split_run, RunningTrace};

verus! {

/// An alignment recovered by a traceback: its steps in sequence order and the
/// half-open range of each sequence that it covers.
#[derive(Debug, PartialEq, Eq)]
pub struct TracedAlignment {
    pub ops: Vec<AlignmentStep>,
    pub seq1range: Range<usize>,
    pub seq2range: Range<usize>,
}

impl Clone for TracedAlignment {
    /// A copy with the same steps and ranges.
    fn clone(&self) -> (copy: Self)
        ensures
            copy.ops@ == self.ops@,
            copy.seq1range == self.seq1range,
            copy.seq2range == self.seq2range,
    {
        Self {
            ops: self.ops.clone(),
            seq1range: Range { start: self.seq1range.start, end: self.seq1range.end },
            seq2range: Range { start: self.seq2range.start, end: self.seq2range.end },
        }
    }
}

/// A dense matrix of decisions, one per pair of positions of the row and the
/// column sequence.
///
/// The cells are stored row by row in one buffer that has one row and one
/// column more than the sequences have symbols. The extra row and column come
/// first, are never written and so stay absent: every traceback stops there
/// at the latest.
pub struct TraceMatrix {
    mat: Vec<Trace>,
    rows: usize,
    cols: usize,
}

/// Offsets are unique within a matrix that is `cols` cells wide and `rows`
/// cells high, and stay inside its buffer.
proof fn lemma_offset(rows: int, cols: int, r1: int, c1: int, r2: int, c2: int)
    by (nonlinear_arith)
    requires
        0 <= r1 < rows,
        0 <= c1 < cols,
        0 <= r2,
        0 <= c2 < cols,
    ensures
        0 <= r1 * cols + c1 < rows * cols,
        0 <= r1 * cols <= r1 * cols + c1,
        r1 * cols + c1 == r2 * cols + c2 ==> r1 == r2 && c1 == c2,
{
}

/// The range to report for a sequence whose first consumed position is
/// `origin` when the path ends before `end`.
fn span(origin: usize, end: usize) -> (range: Range<usize>)
    requires
        origin <= end,
        1 <= end,
    ensures
        range.start == span_start(origin as int, end as int),
        range.end == end,
{
    if origin == end {
        Range { start: origin - 1, end }
    } else {
        Range { start: origin, end }
    }
}

/// Reverses `steps` in place.
fn reverse(steps: &mut Vec<AlignmentStep>)
    ensures
        final(steps)@ == old(steps)@.reverse(),
{
    let n = steps.len();
    let mut i: usize = 0;
    while i < n / 2
        invariant
            steps@.len() == n,
            n == old(steps)@.len(),
            i <= n / 2,
            forall|k: int| 0 <= k < i ==> steps@[k] == old(steps)@[n - 1 - k],
            forall|k: int| n - i <= k < n ==> steps@[k] == old(steps)@[n - 1 - k],
            forall|k: int| i <= k < n - i ==> steps@[k] == old(steps)@[k],
        decreases n / 2 - i,
    {
        let front = steps[i];
        let back = steps[n - 1 - i];
        steps.set(i, back);
        steps.set(n - 1 - i, front);
        i += 1;
    }
    assert(steps@ =~= old(steps)@.reverse());
}

impl TraceMatrix {
    /// The tag stored for row `r` and column `c` of the buffer.
    closed spec fn cell(&self, r: int, c: int) -> Trace {
        self.mat@[r * self.cols + c]
    }

    /// The invariant of the matrix: the buffer has the size of the matrix and
    /// its first row and first column are absent.
    pub closed spec fn wf(&self) -> bool {
        &&& self.mat@.len() == self.rows * self.cols
        &&& self.rows == 0 <==> self.cols == 0
        &&& forall|r: int, c: int|
            0 <= r < self.rows && 0 <= c < self.cols && (r == 0 || c == 0) ==> #[trigger] self.cell(
                r,
                c,
            ) == Trace::Absent
    }

    /// The decisions of a well-formed matrix lie inside its sequences.
    pub proof fn lemma_view_wf(&self)
        requires
            self.wf(),
        ensures
            self@.wf(),
    {
    }

    /// A matrix for two empty sequences.
    pub fn new() -> (m: Self)
        ensures
            m.wf(),
            m@ == Grid::blank(0, 0),
    {
        let m = Self { mat: Vec::new(), rows: 0, cols: 0 };
        assert(m@.tags =~= Map::empty());
        m
    }

    /// Sizes the matrix for a row sequence of `rows` symbols and a column
    /// sequence of `cols` symbols and forgets every decision. The buffer is
    /// kept and grows only if it is too small. The cells, those of the extra
    /// row and column included, must not be more than a buffer can hold.
    pub fn reset(&mut self, rows: usize, cols: usize)
        requires
            (rows + 1) * (cols + 1) <= isize::MAX,
        ensures
            final(self).wf(),
            final(self)@ == old(self)@.reset(rows as nat, cols as nat),
    {
        assert(rows + 1 <= isize::MAX && cols + 1 <= isize::MAX) by (nonlinear_arith)
            requires
                (rows + 1) * (cols + 1) <= isize::MAX,
        ;
        self.rows = rows + 1;
        self.cols = cols + 1;

        self.mat.clear();
        self.mat.resize(self.rows * self.cols, Trace::Absent);
        proof {
            assert forall|r: int, c: int| 0 <= r < self.rows && 0 <= c < self.cols implies #[trigger]
                self.cell(r, c) == Trace::Absent by {
                lemma_offset(self.rows as int, self.cols as int, r, c, r, c);
            }
            assert(self@.tags =~= Map::empty());
        }
    }

    /// Stores `tag` for position `row` of the row sequence and position `col`
    /// of the column sequence.
    fn put(&mut self, row: usize, col: usize, tag: Trace)
        requires
            old(self).wf(),
            row < old(self)@.row_len,
            col < old(self)@.col_len,
            tag != Trace::Absent,
        ensures
            final(self).wf(),
            final(self)@ == old(self)@.set(row as int, col as int, tag.operation().unwrap()),
    {
        proof {
            lemma_offset(self.rows as int, self.cols as int, row + 1, col + 1, row + 1, col + 1);
            assert(self.mat@.len() == self.mat.len());
        }
        let at = (row + 1) * self.cols + (col + 1);
        self.mat[at] = tag;
        proof {
            assert forall|r: int, c: int| 0 <= r < self.rows && 0 <= c < self.cols implies #[trigger]
                self.cell(r, c) == (if r == row + 1 && c == col + 1 {
                tag
            } else {
                old(self).cell(r, c)
            }) by {
                lemma_offset(self.rows as int, self.cols as int, r, c, row + 1, col + 1);
            }
            assert(self@.tags =~= old(self)@.tags.insert(
                (row as int, col as int),
                tag.operation().unwrap(),
            ));
        }
    }

    /// Records that the path into `(row, col)` came from the cell above.
    #[inline(always)]
    pub fn gap_row(&mut self, row: usize, col: usize)
        requires
            old(self).wf(),
            row < old(self)@.row_len,
            col < old(self)@.col_len,
        ensures
            final(self).wf(),
            final(self)@ == old(self)@.set(row as int, col as int, AlignmentOp::GapRow),
    {
        self.put(row, col, Trace::GapRow);
    }

    /// Records that the path into `(row, col)` came from the cell to the left.
    #[inline(always)]
    pub fn gap_col(&mut self, row: usize, col: usize)
        requires
            old(self).wf(),
            row < old(self)@.row_len,
            col < old(self)@.col_len,
        ensures
            final(self).wf(),
            final(self)@ == old(self)@.set(row as int, col as int, AlignmentOp::GapCol),
    {
        self.put(row, col, Trace::GapCol);
    }

    /// Records that the path into `(row, col)` came from the diagonal
    /// predecessor.
    #[inline(always)]
    pub fn equivalent(&mut self, row: usize, col: usize)
        requires
            old(self).wf(),
            row < old(self)@.row_len,
            col < old(self)@.col_len,
        ensures
            final(self).wf(),
            final(self)@ == old(self)@.set(row as int, col as int, AlignmentOp::Equivalent),
    {
        self.put(row, col, Trace::Equivalent);
    }

    /// Recovers the alignment that ends with position `row` of the row
    /// sequence and position `col` of the column sequence.
    ///
    /// There is such an alignment exactly if that cell holds a decision; a
    /// position outside the sequences has none. The steps are the run-length
    /// encoding of the path's operations in sequence order. Each range ends
    /// behind the end position and starts at the first position that the path
    /// consumes; a sequence of which the path consumes nothing is reported at
    /// the end position alone.
    pub fn trace(&self, row: usize, col: usize) -> (r: Result<TracedAlignment, ()>)
        requires
            self.wf(),
        ensures
            r is Ok <==> self@.decided(row as int, col as int),
            row >= self@.row_len || col >= self@.col_len ==> r is Err,
            r matches Ok(alignment) ==> {
                &&& alignment.ops@ == compress(self@.path(row as int, col as int))
                &&& alignment.seq1range.start == span_start(
                    self@.row_origin(row as int, col as int),
                    row + 1,
                )
                &&& alignment.seq1range.end == row + 1
                &&& alignment.seq2range.start == span_start(
                    self@.col_origin(row as int, col as int),
                    col + 1,
                )
                &&& alignment.seq2range.end == col + 1
            },
    {
        if self.rows == 0 || row >= self.rows - 1 || col >= self.cols - 1 {
            return Err(());
        }
        let (seq1end, seq2end) = (row + 1, col + 1);
        let ghost grid = self@;
        let ghost (end_row, end_col) = (row as int, col as int);
        proof {
            assert(self.mat@.len() == self.mat.len());
            assert(self.rows + self.cols <= self.rows * self.cols) by (nonlinear_arith)
                requires
                    self.rows >= 2,
                    self.cols >= 2,
            ;
            lemma_offset(self.rows as int, self.cols as int, seq1end as int, seq2end as int, 0, 0);
        }

        let (mut row, mut col) = (seq1end, seq2end);
        let seed = match self.mat[row * self.cols + col].try_into() {
            Err(()) => return Err(()),
            Ok(op) => op,
        };

        let mut result: Vec<AlignmentStep> = Vec::new();
        let mut trace = RunningTrace::new(seed, 0);
        let ghost mut done: Seq<AlignmentOp> = Seq::empty();
        assert(grid.path(end_row, end_col) =~= grid.path(row - 1, col - 1) + done);
        assert(done.skip(0) =~= done);

        loop
            invariant_except_break
                grid.path(end_row, end_col) == grid.path(row - 1, col - 1) + done,
                grid.row_origin(end_row, end_col) == grid.row_origin(row - 1, col - 1),
                grid.col_origin(end_row, end_col) == grid.col_origin(row - 1, col - 1),
                done.len() + row + col <= seq1end + seq2end,
                trace.len <= done.len(),
                trace.len == 0 ==> done.len() == 0,
                forall|i: int| 0 <= i < trace.len ==> done[i] == trace.op,
                trace.len < done.len() ==> done[trace.len as int] != trace.op,
                result@.reverse() == compress(done.skip(trace.len as int)),
            invariant
                self.wf(),
                grid == self@,
                self.mat@.len() <= usize::MAX,
                1 <= seq1end < self.rows,
                1 <= seq2end < self.cols,
                seq1end + seq2end < usize::MAX,
                row <= seq1end,
                col <= seq2end,
            ensures
                result@.reverse() == compress(grid.path(end_row, end_col)),
                row == grid.row_origin(end_row, end_col),
                col == grid.col_origin(end_row, end_col),
            decreases row + col,
        {
            proof {
                lemma_offset(self.rows as int, self.cols as int, row as int, col as int, 0, 0);
            }
            let op = self.mat[row * self.cols + col];
            assert(op == self.cell(row as int, col as int));
            let ghost flushed = result@;
            let ghost run = split_run(trace.op, trace.len as nat);
            let aop = match op.try_into() {
                Err(()) => {
                    proof {
                        lemma_compress_leading_run(done, trace.op, trace.len as nat);
                        assert(grid.path(row - 1, col - 1) =~= Seq::empty());
                        assert(grid.path(end_row, end_col) =~= done);
                    }
                    trace.save(&mut result);
                    assert(result@.reverse() =~= run + flushed.reverse());
                    break ;
                },
                Ok(op) => op,
            };
            assert(row >= 1 && col >= 1);
            assert(grid.decided(row - 1, col - 1) && grid.tags[(row - 1, col - 1)] == aop);

            if aop == trace.op {
                trace.len += 1;
                proof {
                    assert((seq![aop] + done).skip(trace.len as int) =~= done.skip(trace.len - 1));
                }
            } else {
                proof {
                    lemma_compress_leading_run(done, trace.op, trace.len as nat);
                }
                trace.save(&mut result);
                trace = RunningTrace::new(aop, 1);
                proof {
                    assert(result@.reverse() =~= run + flushed.reverse());
                    assert((seq![aop] + done).skip(1) =~= done);
                }
            }
            proof {
                assert(grid.path(row - 1, col - 1) + done =~= grid.path(
                    row - 1 - aop.row_advance(),
                    col - 1 - aop.col_advance(),
                ) + (seq![aop] + done));
                done = seq![aop] + done;
            }

            match aop {
                AlignmentOp::GapRow => {
                    row -= 1;
                },
                AlignmentOp::GapCol => {
                    col -= 1;
                },
                AlignmentOp::Equivalent => {
                    row -= 1;
                    col -= 1;
                },
            }
        }
        let seq1range = span(row, seq1end);
        let seq2range = span(col, seq2end);
        reverse(&mut result);
        assert(result@ =~= compress(grid.path(end_row, end_col)));

        Ok(TracedAlignment { ops: result, seq1range, seq2range })
    }
}

impl View for TraceMatrix {
    type V = Grid;

    /// The decisions that the matrix holds, addressed by sequence positions.
    closed spec fn view(&self) -> Grid {
        let row_len = if self.rows == 0 { 0nat } else { (self.rows - 1) as nat };
        let col_len = if self.cols == 0 { 0nat } else { (self.cols - 1) as nat };
        Grid {
            row_len,
            col_len,
            tags: Map::new(
                |p: (int, int)|
                    0 <= p.0 < row_len && 0 <= p.1 < col_len && self.cell(p.0 + 1, p.1 + 1)
                        != Trace::Absent,
                |p: (int, int)| self.cell(p.0 + 1, p.1 + 1).operation().unwrap(),
            ),
        }
    }
}

} // verus!
