//! Alignment operations, run-length steps and per-cell decision tags.

use vstd::prelude::*;

verus! {

/// One unit of an alignment.
#[derive(Clone, Copy, Debug, PartialEq, Eq, Hash, Structural)]
pub enum AlignmentOp {
    /// A symbol of the row sequence with no partner in the column sequence.
    GapRow,
    /// A symbol of the column sequence with no partner in the row sequence.
    GapCol,
    /// One symbol of each sequence, matched or mismatched.
    Equivalent,
}

impl AlignmentOp {
    /// Number of row-sequence symbols that one unit of this operation consumes.
    pub open spec fn row_advance(self) -> int {
        match self {
            AlignmentOp::GapCol => 0,
            _ => 1,
        }
    }

    /// Number of column-sequence symbols that one unit of this operation consumes.
    pub open spec fn col_advance(self) -> int {
        match self {
            AlignmentOp::GapRow => 0,
            _ => 1,
        }
    }
}

/// A run of `len` consecutive units of `op`.
#[derive(Clone, Copy, Debug, PartialEq, Eq, Hash, Structural)]
pub struct AlignmentStep {
    pub op: AlignmentOp,
    pub len: u8,
}

/// The decision recorded in one cell of the matrix.
#[derive(Clone, Copy, Debug, PartialEq, Eq, Hash, Structural)]
pub enum Trace {
    /// No decision: the path ends here.
    Absent,
    /// The path came from the cell above.
    GapRow,
    /// The path came from the cell to the left.
    GapCol,
    /// The path came from the diagonal predecessor.
    Equivalent,
}

impl Trace {
    /// The alignment operation that this decision stands for, if any.
    pub open spec fn operation(self) -> Option<AlignmentOp> {
        match self {
            Trace::Absent => None,
            Trace::GapRow => Some(AlignmentOp::GapRow),
            Trace::GapCol => Some(AlignmentOp::GapCol),
            Trace::Equivalent => Some(AlignmentOp::Equivalent),
        }
    }
}

impl TryFrom<Trace> for AlignmentOp {
    type Error = ();

    /// The alignment operation that a decision stands for; an absent
    /// decision stands for none.
    fn try_from(tag: Trace) -> (op: Result<Self, ()>) {
        match tag {
            Trace::Absent => Err(()),
            Trace::GapRow => Ok(AlignmentOp::GapRow),
            Trace::GapCol => Ok(AlignmentOp::GapCol),
            Trace::Equivalent => Ok(AlignmentOp::Equivalent),
        }
    }
}

impl vstd::std_specs::convert::TryFromSpecImpl<Trace> for AlignmentOp {
    open spec fn obeys_try_from_spec() -> bool {
        true
    }

    open spec fn try_from_spec(tag: Trace) -> Result<Self, ()> {
        match tag.operation() {
            Some(op) => Ok(op),
            None => Err(()),
        }
    }
}

} // verus!
