//! The mathematical model of a decision matrix and of the path that a
//! traceback recovers from it.
//!
//! Cells are addressed by the 0-based positions of the two sequences: cell
//! `(row, col)` belongs to symbol `row` of the row sequence and symbol `col`
//! of the column sequence.

use vstd::prelude::*;
use crate::ops::{AlignmentOp, Trace};
use crate::runs::{compress, lemma_compress_last};

verus! {

/// A grid of decisions for a row sequence of `row_len` symbols and a column
/// sequence of `col_len` symbols. A cell without an entry in `tags` holds no
/// decision.
pub struct Grid {
    pub row_len: nat,
    pub col_len: nat,
    pub tags: Map<(int, int), AlignmentOp>,
}

impl Grid {
    /// Every recorded decision lies inside the grid.
    pub open spec fn wf(self) -> bool {
        forall|row: int, col: int| #[trigger]
            self.tags.dom().contains((row, col)) ==> 0 <= row < self.row_len && 0 <= col
                < self.col_len
    }

    /// The grid of the given size that holds no decision.
    pub open spec fn blank(row_len: nat, col_len: nat) -> Grid {
        Grid { row_len, col_len, tags: Map::empty() }
    }

    /// This grid after a reset to the given size: whatever it held, it is the
    /// blank grid of that size.
    pub open spec fn reset(self, row_len: nat, col_len: nat) -> Grid {
        Grid::blank(row_len, col_len)
    }

    /// This grid with the decision of cell `(row, col)` replaced by `op`.
    pub open spec fn set(self, row: int, col: int, op: AlignmentOp) -> Grid {
        Grid { tags: self.tags.insert((row, col), op), ..self }
    }

    /// Whether cell `(row, col)` holds a decision.
    pub open spec fn decided(self, row: int, col: int) -> bool {
        self.tags.dom().contains((row, col))
    }

    /// The tag of cell `(row, col)`; cells outside the grid read as absent.
    pub open spec fn tag(self, row: int, col: int) -> Trace {
        if self.decided(row, col) {
            match self.tags[(row, col)] {
                AlignmentOp::GapRow => Trace::GapRow,
                AlignmentOp::GapCol => Trace::GapCol,
                AlignmentOp::Equivalent => Trace::Equivalent,
            }
        } else {
            Trace::Absent
        }
    }

    /// The operations of the path that ends in cell `(row, col)`, in sequence
    /// order. The path follows each decision to its predecessor and starts
    /// behind the first cell that holds none.
    pub open spec fn path(self, row: int, col: int) -> Seq<AlignmentOp>
        decreases row + col + 2,
    {
        if row >= 0 && col >= 0 && self.decided(row, col) {
            let op = self.tags[(row, col)];
            self.path(row - op.row_advance(), col - op.col_advance()).push(op)
        } else {
            Seq::empty()
        }
    }

    /// The first position of the row sequence that the path ending in cell
    /// `(row, col)` consumes, or `row + 1` if it consumes none.
    pub open spec fn row_origin(self, row: int, col: int) -> int
        decreases row + col + 2,
    {
        if row >= 0 && col >= 0 && self.decided(row, col) {
            let op = self.tags[(row, col)];
            self.row_origin(row - op.row_advance(), col - op.col_advance())
        } else {
            row + 1
        }
    }

    /// The first position of the column sequence that the path ending in cell
    /// `(row, col)` consumes, or `col + 1` if it consumes none.
    pub open spec fn col_origin(self, row: int, col: int) -> int
        decreases row + col + 2,
    {
        if row >= 0 && col >= 0 && self.decided(row, col) {
            let op = self.tags[(row, col)];
            self.col_origin(row - op.row_advance(), col - op.col_advance())
        } else {
            col + 1
        }
    }
}

/// Where the reported range of a sequence starts when the path's first
/// consumed position is `origin` and its end, exclusive, is `end`: a path that
/// consumes nothing of the sequence is reported at the single position before
/// `end`.
pub open spec fn span_start(origin: int, end: int) -> int {
    if origin == end {
        origin - 1
    } else {
        origin
    }
}

/// The number of row-sequence symbols that `ops` consume.
pub open spec fn rows_consumed(ops: Seq<AlignmentOp>) -> int
    decreases ops.len(),
{
    if ops.len() == 0 {
        0
    } else {
        rows_consumed(ops.drop_last()) + ops.last().row_advance()
    }
}

/// The number of column-sequence symbols that `ops` consume.
pub open spec fn cols_consumed(ops: Seq<AlignmentOp>) -> int
    decreases ops.len(),
{
    if ops.len() == 0 {
        0
    } else {
        cols_consumed(ops.drop_last()) + ops.last().col_advance()
    }
}

/// A traceback reads the decision of its end cell first: the path into a
/// decided cell ends with that cell's operation, and so does the last step of
/// the path's encoding.
pub proof fn lemma_path_ends_in_decision(grid: Grid, row: int, col: int)
    requires
        grid.wf(),
        grid.decided(row, col),
    ensures
        grid.path(row, col).len() > 0,
        grid.path(row, col).last() == grid.tags[(row, col)],
        compress(grid.path(row, col)).len() > 0,
        compress(grid.path(row, col)).last().op == grid.tags[(row, col)],
{
    lemma_compress_last(grid.path(row, col));
}

/// A decision that was just set is the first one that a traceback from its
/// cell reads: the cell is decided, the path into it ends with the operation
/// that was set, and so does the last step of the path's encoding.
pub proof fn lemma_set_then_trace(grid: Grid, row: int, col: int, op: AlignmentOp)
    requires
        grid.wf(),
        0 <= row < grid.row_len,
        0 <= col < grid.col_len,
    ensures
        grid.set(row, col, op).wf(),
        grid.set(row, col, op).decided(row, col),
        grid.set(row, col, op).tag(row, col).operation() == Some(op),
        grid.set(row, col, op).path(row, col).len() > 0,
        grid.set(row, col, op).path(row, col).last() == op,
        compress(grid.set(row, col, op).path(row, col)).len() > 0,
        compress(grid.set(row, col, op).path(row, col)).last().op == op,
{
    lemma_path_ends_in_decision(grid.set(row, col, op), row, col);
}

/// Resetting twice to one size gives what resetting once gives, and a grid
/// that was just reset holds no decision: every cell reads as absent, so a
/// traceback fails wherever it starts.
pub proof fn lemma_reset_idempotent(grid: Grid, row_len: nat, col_len: nat)
    ensures
        grid.reset(row_len, col_len).reset(row_len, col_len) == grid.reset(row_len, col_len),
        grid.reset(row_len, col_len).wf(),
        forall|row: int, col: int| !(#[trigger] grid.reset(row_len, col_len).decided(row, col)),
        forall|row: int, col: int| #[trigger]
            grid.reset(row_len, col_len).tag(row, col) == Trace::Absent,
{
}

/// A path consumes the positions from its origin to its end: the origin of
/// each sequence lies as many positions before the end, exclusive, as the
/// path has operations that consume a symbol of that sequence. Every
/// operation consumes at least one symbol, so the path is no longer than both
/// counts together, and no origin lies before the start of its sequence.
pub proof fn lemma_path_consumes(grid: Grid, row: int, col: int)
    ensures
        grid.row_origin(row, col) + rows_consumed(grid.path(row, col)) == row + 1,
        grid.col_origin(row, col) + cols_consumed(grid.path(row, col)) == col + 1,
        rows_consumed(grid.path(row, col)) + cols_consumed(grid.path(row, col)) >= grid.path(
            row,
            col,
        ).len(),
        row >= -1 ==> 0 <= grid.row_origin(row, col) <= row + 1,
        col >= -1 ==> 0 <= grid.col_origin(row, col) <= col + 1,
    decreases row + col + 2,
{
    if row >= 0 && col >= 0 && grid.decided(row, col) {
        let op = grid.tags[(row, col)];
        let before = grid.path(row - op.row_advance(), col - op.col_advance());
        lemma_path_consumes(grid, row - op.row_advance(), col - op.col_advance());
        assert(grid.path(row, col).drop_last() =~= before);
    }
}

/// The ranges reported for the path into a decided cell are not empty and lie
/// inside the sequences: each starts at a valid position before its end.
pub proof fn lemma_span_in_bounds(grid: Grid, row: int, col: int)
    requires
        grid.wf(),
        grid.decided(row, col),
    ensures
        0 <= span_start(grid.row_origin(row, col), row + 1) < row + 1 <= grid.row_len,
        0 <= span_start(grid.col_origin(row, col), col + 1) < col + 1 <= grid.col_len,
{
    lemma_path_consumes(grid, row, col);
}

} // verus!
