//! Run-length encoding of alignment operations.
//!
//! A run of identical operations is stored as steps whose length fits one
//! byte: as many full steps as the run holds, then the remainder if there is
//! one.

use vstd::prelude::*;
use crate::ops::{AlignmentOp, AlignmentStep};

verus! {

/// The longest run that a single step can carry.
pub const MAX_STEP_LEN: usize = 255;

/// The steps that encode a run of `len` units of `op`, in sequence order:
/// `len / 255` full steps, then one step for `len % 255` unless that is zero.
pub open spec fn split_run(op: AlignmentOp, len: nat) -> Seq<AlignmentStep> {
    let full = Seq::new(len / 255, |i: int| AlignmentStep { op, len: 255 });
    if len % 255 == 0 {
        full
    } else {
        full.push(AlignmentStep { op, len: (len % 255) as u8 })
    }
}

/// The number of alignment units that `steps` stand for.
pub open spec fn total_len(steps: Seq<AlignmentStep>) -> nat
    decreases steps.len(),
{
    if steps.len() == 0 {
        0
    } else {
        total_len(steps.drop_last()) + steps.last().len as nat
    }
}

/// The operations that `steps` stand for: each step's operation, repeated as
/// often as its length says.
pub open spec fn expand(steps: Seq<AlignmentStep>) -> Seq<AlignmentOp>
    decreases steps.len(),
{
    if steps.len() == 0 {
        Seq::empty()
    } else {
        expand(steps.drop_last()) + Seq::new(steps.last().len as nat, |i: int| steps.last().op)
    }
}

/// The length of the maximal run of equal operations at the front of `ops`.
pub open spec fn leading_run(ops: Seq<AlignmentOp>) -> nat
    decreases ops.len(),
{
    if ops.len() == 0 {
        0
    } else if ops.len() >= 2 && ops[1] == ops[0] {
        1 + leading_run(ops.skip(1))
    } else {
        1
    }
}

/// The run-length encoding of `ops`: every maximal run of equal operations,
/// in order, split into steps by [`split_run`].
pub open spec fn compress(ops: Seq<AlignmentOp>) -> Seq<AlignmentStep>
    decreases ops.len(),
{
    if ops.len() == 0 {
        Seq::empty()
    } else {
        let n = leading_run(ops);
        proof {
            lemma_leading_run_bounds(ops);
        }
        split_run(ops[0], n) + compress(ops.skip(n as int))
    }
}

/// The run that is open while a path is walked: its operation and the number
/// of units seen so far.
pub struct RunningTrace {
    pub op: AlignmentOp,
    pub len: usize,
}

impl RunningTrace {
    /// A run of `len` units of `op`.
    pub fn new(op: AlignmentOp, len: usize) -> (run: Self)
        ensures
            run.op == op,
            run.len == len,
    {
        Self { op, len }
    }

    /// Appends the steps of this run to `saveto` in traceback order, that is
    /// last step first, so that reversing the finished list puts every run in
    /// sequence order.
    pub fn save(self, saveto: &mut Vec<AlignmentStep>)
        ensures
            final(saveto)@ == old(saveto)@ + split_run(self.op, self.len as nat).reverse(),
    {
        let tail = self.len % MAX_STEP_LEN;
        if tail > 0 {
            saveto.push(AlignmentStep { op: self.op, len: tail as u8 });
        }
        let full = self.len / MAX_STEP_LEN;
        let ghost head = saveto@;
        for i in 0..full
            invariant
                saveto@ == head + Seq::new(i as nat, |k: int| AlignmentStep { op: self.op, len: 255 }),
        {
            saveto.push(AlignmentStep { op: self.op, len: u8::MAX });
        }
    }
}

/// `count` full steps stand for `255 * count` units.
proof fn lemma_total_len_full(op: AlignmentOp, count: nat)
    ensures
        total_len(Seq::new(count, |i: int| AlignmentStep { op, len: 255 })) == 255 * count,
    decreases count,
{
    if count > 0 {
        let steps = Seq::new(count, |i: int| AlignmentStep { op, len: 255 });
        let fewer = Seq::new((count - 1) as nat, |i: int| AlignmentStep { op, len: 255 });
        assert(steps.drop_last() =~= fewer);
        lemma_total_len_full(op, (count - 1) as nat);
    }
}

/// Splitting a run loses and adds nothing: the lengths of the steps add up to
/// the length of the run, every step carries the run's operation and a length
/// from 1 to 255, and every step but the last is full.
pub proof fn lemma_split_run_round_trip(op: AlignmentOp, len: nat)
    ensures
        total_len(split_run(op, len)) == len,
        forall|i: int|
            0 <= i < split_run(op, len).len() ==> {
                &&& (#[trigger] split_run(op, len)[i]).op == op
                &&& 1 <= split_run(op, len)[i].len <= 255
            },
        forall|i: int|
            0 <= i < split_run(op, len).len() - 1 ==> (#[trigger] split_run(op, len)[i]).len
                == 255,
{
    let full = Seq::new(len / 255, |i: int| AlignmentStep { op, len: 255 });
    lemma_total_len_full(op, len / 255);
    if len % 255 != 0 {
        assert(split_run(op, len).drop_last() =~= full);
    }
}

/// A non-empty sequence starts with a run of at least one operation, and no
/// run is longer than the sequence.
pub proof fn lemma_leading_run_bounds(ops: Seq<AlignmentOp>)
    ensures
        leading_run(ops) <= ops.len(),
        ops.len() > 0 ==> leading_run(ops) >= 1,
    decreases ops.len(),
{
    if ops.len() >= 2 && ops[1] == ops[0] {
        lemma_leading_run_bounds(ops.skip(1));
    }
}

/// A sequence that starts with exactly `n` copies of `op` has a leading run
/// of length `n`.
pub proof fn lemma_leading_run_is(ops: Seq<AlignmentOp>, op: AlignmentOp, n: nat)
    requires
        1 <= n <= ops.len(),
        forall|i: int| 0 <= i < n ==> ops[i] == op,
        n < ops.len() ==> ops[n as int] != op,
    ensures
        leading_run(ops) == n,
    decreases n,
{
    if n >= 2 {
        lemma_leading_run_is(ops.skip(1), op, (n - 1) as nat);
    }
}

/// The leading run holds equal operations and ends where the sequence ends
/// or the operation changes.
pub proof fn lemma_leading_run_maximal(ops: Seq<AlignmentOp>)
    ensures
        forall|i: int| 0 <= i < leading_run(ops) ==> #[trigger] ops[i] == ops[0],
        leading_run(ops) < ops.len() ==> ops[leading_run(ops) as int] != ops[0],
    decreases ops.len(),
{
    lemma_leading_run_bounds(ops);
    if ops.len() >= 2 && ops[1] == ops[0] {
        let rest = ops.skip(1);
        lemma_leading_run_maximal(rest);
        lemma_leading_run_bounds(rest);
        assert forall|i: int| 0 <= i < leading_run(ops) implies #[trigger] ops[i] == ops[0] by {
            if i > 0 {
                assert(ops[i] == rest[i - 1]);
            }
        }
        if leading_run(ops) < ops.len() {
            assert(ops[leading_run(ops) as int] == rest[leading_run(rest) as int]);
        }
    }
}

/// The encoding of a sequence that starts with exactly `n` copies of `op` is
/// the split run of `op` followed by the encoding of the rest.
pub proof fn lemma_compress_leading_run(ops: Seq<AlignmentOp>, op: AlignmentOp, n: nat)
    requires
        n <= ops.len(),
        n == 0 ==> ops.len() == 0,
        forall|i: int| 0 <= i < n ==> ops[i] == op,
        n < ops.len() ==> ops[n as int] != op,
    ensures
        compress(ops) == split_run(op, n) + compress(ops.skip(n as int)),
{
    if n > 0 {
        lemma_leading_run_is(ops, op, n);
    } else {
        assert(ops.skip(0) =~= ops);
    }
}

/// Expanding steps one list after another expands their concatenation.
pub proof fn lemma_expand_concat(front: Seq<AlignmentStep>, back: Seq<AlignmentStep>)
    ensures
        expand(front + back) == expand(front) + expand(back),
        total_len(front + back) == total_len(front) + total_len(back),
    decreases back.len(),
{
    if back.len() == 0 {
        assert(front + back =~= front);
        assert(expand(front) + expand(back) =~= expand(front));
    } else {
        assert((front + back).drop_last() =~= front + back.drop_last());
        lemma_expand_concat(front, back.drop_last());
        let last = Seq::new(back.last().len as nat, |i: int| back.last().op);
        assert((expand(front) + expand(back.drop_last())) + last =~= expand(front) + (expand(
            back.drop_last(),
        ) + last));
    }
}

/// `count` full steps expand to `255 * count` copies of their operation.
proof fn lemma_expand_full(op: AlignmentOp, count: nat)
    ensures
        expand(Seq::new(count, |i: int| AlignmentStep { op, len: 255 })) == Seq::new(
            255 * count,
            |i: int| op,
        ),
    decreases count,
{
    let steps = Seq::new(count, |i: int| AlignmentStep { op, len: 255 });
    if count > 0 {
        let fewer = Seq::new((count - 1) as nat, |i: int| AlignmentStep { op, len: 255 });
        assert(steps.drop_last() =~= fewer);
        lemma_expand_full(op, (count - 1) as nat);
        assert(expand(steps) =~= Seq::new(255 * count, |i: int| op));
    } else {
        assert(expand(steps) =~= Seq::new(255 * count, |i: int| op));
    }
}

/// The steps of a split run expand to the run.
pub proof fn lemma_expand_split_run(op: AlignmentOp, len: nat)
    ensures
        expand(split_run(op, len)) == Seq::new(len, |i: int| op),
{
    let full = Seq::new(len / 255, |i: int| AlignmentStep { op, len: 255 });
    lemma_expand_full(op, len / 255);
    if len % 255 != 0 {
        assert(split_run(op, len).drop_last() =~= full);
    }
    assert(expand(split_run(op, len)) =~= Seq::new(len, |i: int| op));
}

/// Encoding loses and adds nothing: the steps of an encoding expand to the
/// encoded operations, so their lengths add up to the number of operations,
/// and no step is empty.
pub proof fn lemma_compress_round_trip(ops: Seq<AlignmentOp>)
    ensures
        expand(compress(ops)) == ops,
        total_len(compress(ops)) == ops.len(),
        forall|i: int| 0 <= i < compress(ops).len() ==> 1 <= (#[trigger] compress(ops)[i]).len <= 255,
    decreases ops.len(),
{
    if ops.len() > 0 {
        let n = leading_run(ops);
        let run = split_run(ops[0], n);
        let rest = ops.skip(n as int);
        lemma_leading_run_bounds(ops);
        lemma_leading_run_maximal(ops);
        lemma_compress_round_trip(rest);
        lemma_expand_concat(run, compress(rest));
        lemma_expand_split_run(ops[0], n);
        lemma_split_run_round_trip(ops[0], n);
        assert(Seq::new(n, |i: int| ops[0]) + rest =~= ops);
        assert forall|i: int| 0 <= i < compress(ops).len() implies 1 <= (#[trigger] compress(
            ops,
        )[i]).len <= 255 by {
            if i < run.len() {
                assert(compress(ops)[i] == run[i]);
            } else {
                assert(compress(ops)[i] == compress(rest)[i - run.len()]);
            }
        }
    }
}

/// The encoding of a non-empty sequence starts with a step that carries the
/// sequence's first operation.
pub proof fn lemma_compress_first(ops: Seq<AlignmentOp>)
    requires
        ops.len() > 0,
    ensures
        compress(ops).len() > 0,
        compress(ops).first().op == ops.first(),
{
    let run = split_run(ops[0], leading_run(ops));
    lemma_leading_run_bounds(ops);
    lemma_split_run_round_trip(ops[0], leading_run(ops));
    assert(run.len() > 0) by {
        if run.len() == 0 {
            assert(total_len(run) == 0);
        }
    }
    assert(compress(ops)[0] == run[0]);
}

/// The encoding of a non-empty sequence ends with a step that carries the
/// sequence's last operation.
pub proof fn lemma_compress_last(ops: Seq<AlignmentOp>)
    requires
        ops.len() > 0,
    ensures
        compress(ops).len() > 0,
        compress(ops).last().op == ops.last(),
    decreases ops.len(),
{
    let n = leading_run(ops);
    let run = split_run(ops[0], n);
    let rest = ops.skip(n as int);
    lemma_leading_run_bounds(ops);
    lemma_leading_run_maximal(ops);
    lemma_split_run_round_trip(ops[0], n);
    if rest.len() > 0 {
        lemma_compress_last(rest);
        assert(compress(ops).last() == compress(rest).last());
        assert(rest.last() == ops.last());
    } else {
        assert(compress(rest) =~= Seq::empty());
        assert(compress(ops) =~= run);
        assert(run.len() > 0) by {
            if run.len() == 0 {
                assert(total_len(run) == 0);
            }
        }
        assert(run.last() == run[run.len() - 1]);
    }
}

/// Encoding merges what can be merged: where two neighbouring steps carry
/// the same operation, the first of them is full.
pub proof fn lemma_compress_merges(ops: Seq<AlignmentOp>)
    ensures
        forall|i: int, j: int|
            #![trigger compress(ops)[i], compress(ops)[j]]
            0 <= i && j == i + 1 && j < compress(ops).len() && compress(ops)[i].op == compress(
                ops,
            )[j].op ==> compress(ops)[i].len == 255,
    decreases ops.len(),
{
    if ops.len() > 0 {
        let n = leading_run(ops);
        let run = split_run(ops[0], n);
        let rest = ops.skip(n as int);
        let steps = compress(ops);
        lemma_leading_run_bounds(ops);
        lemma_leading_run_maximal(ops);
        lemma_split_run_round_trip(ops[0], n);
        lemma_compress_merges(rest);
        if rest.len() > 0 {
            lemma_compress_first(rest);
        }
        assert(steps == run + compress(rest));
        assert forall|i: int, j: int|
            #![trigger steps[i], steps[j]]
            0 <= i && j == i + 1 && j < steps.len() && steps[i].op == steps[j].op implies steps[i].len
            == 255 by {
            if j < run.len() {
                assert(steps[i] == run[i]);
            } else if i < run.len() {
                assert(steps[i] == run[i]);
                assert(steps[j] == compress(rest)[0]);
            } else {
                assert(steps[i] == compress(rest)[i - run.len()]);
                assert(steps[j] == compress(rest)[j - run.len()]);
            }
        }
    }
}

} // verus!
