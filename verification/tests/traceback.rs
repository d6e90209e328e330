use traceback::runs::MAX_STEP_LEN;
use traceback::{AlignmentOp, AlignmentStep, RunningTrace, Trace, TraceMatrix, TracedAlignment};

fn step(op: AlignmentOp, len: u8) -> AlignmentStep {
    AlignmentStep { op, len }
}

fn traced(tracer: &TraceMatrix, row: usize, col: usize) -> TracedAlignment {
    match tracer.trace(row, col) {
        Ok(alignment) => alignment,
        Err(()) => panic!("no path ends in ({row}, {col})"),
    }
}

fn empty(tracer: &mut TraceMatrix) {
    tracer.reset(0, 0);
    assert_eq!(tracer.trace(0, 0), Err(()));

    tracer.reset(4, 7);
    for row in 0..6 {
        for col in 0..9 {
            assert_eq!(tracer.trace(row, col), Err(()));
        }
    }
}

fn single_cell(tracer: &mut TraceMatrix) {
    tracer.reset(1, 1);
    tracer.equivalent(0, 0);
    let alignment = traced(tracer, 0, 0);
    assert_eq!(alignment.ops, vec![step(AlignmentOp::Equivalent, 1)]);
    assert_eq!(alignment.seq1range, 0..1);
    assert_eq!(alignment.seq2range, 0..1);
}

fn diagonal(tracer: &mut TraceMatrix) {
    tracer.reset(3, 3);
    tracer.equivalent(0, 0);
    tracer.equivalent(1, 1);
    tracer.equivalent(2, 2);

    let alignment = traced(tracer, 2, 2);
    assert_eq!(alignment.ops, vec![step(AlignmentOp::Equivalent, 3)]);
    assert_eq!(alignment.seq1range, 0..3);
    assert_eq!(alignment.seq2range, 0..3);

    let alignment = traced(tracer, 1, 1);
    assert_eq!(alignment.ops, vec![step(AlignmentOp::Equivalent, 2)]);
    assert_eq!(alignment.seq1range, 0..2);
    assert_eq!(alignment.seq2range, 0..2);

    assert_eq!(tracer.trace(2, 1), Err(()));
    assert_eq!(tracer.trace(0, 2), Err(()));
}

fn mixed(tracer: &mut TraceMatrix) {
    tracer.reset(4, 6);
    tracer.equivalent(0, 1);
    tracer.equivalent(1, 2);
    tracer.gap_row(2, 2);
    tracer.gap_col(2, 3);
    tracer.gap_col(2, 4);
    tracer.equivalent(3, 5);
    tracer.equivalent(3, 0);

    let alignment = traced(tracer, 3, 5);
    assert_eq!(
        alignment.ops,
        vec![
            step(AlignmentOp::Equivalent, 2),
            step(AlignmentOp::GapRow, 1),
            step(AlignmentOp::GapCol, 2),
            step(AlignmentOp::Equivalent, 1),
        ]
    );
    assert_eq!(alignment.seq1range, 0..4);
    assert_eq!(alignment.seq2range, 1..6);

    let alignment = traced(tracer, 3, 0);
    assert_eq!(alignment.ops, vec![step(AlignmentOp::Equivalent, 1)]);
    assert_eq!(alignment.seq1range, 3..4);
    assert_eq!(alignment.seq2range, 0..1);
}

fn reused(tracer: &mut TraceMatrix) {
    tracer.reset(2, 2);
    tracer.equivalent(0, 0);
    tracer.equivalent(1, 1);
    assert_eq!(traced(tracer, 1, 1).ops, vec![step(AlignmentOp::Equivalent, 2)]);

    tracer.reset(2, 2);
    assert_eq!(tracer.trace(0, 0), Err(()));
    assert_eq!(tracer.trace(1, 1), Err(()));

    tracer.gap_col(1, 1);
    let alignment = traced(tracer, 1, 1);
    assert_eq!(alignment.ops, vec![step(AlignmentOp::GapCol, 1)]);
    assert_eq!(alignment.seq1range, 1..2);
    assert_eq!(alignment.seq2range, 1..2);
}

fn run_all(tracer: &mut TraceMatrix) {
    empty(tracer);
    single_cell(tracer);
    diagonal(tracer);
    mixed(tracer);
    reused(tracer);
}

#[test]
fn test() {
    let mut tracer = TraceMatrix::new();
    run_all(&mut tracer);
}

#[test]
fn fresh_matrix_has_no_path() {
    let tracer = TraceMatrix::new();
    assert_eq!(tracer.trace(0, 0), Err(()));
    assert_eq!(tracer.trace(3, 1), Err(()));
    assert_eq!(tracer.trace(usize::MAX, usize::MAX), Err(()));
}

#[test]
fn three_equivalents_on_the_diagonal() {
    let mut tracer = TraceMatrix::new();
    tracer.reset(3, 3);
    tracer.equivalent(0, 0);
    tracer.equivalent(1, 1);
    tracer.equivalent(2, 2);

    let alignment = tracer.trace(2, 2).unwrap();
    assert_eq!(alignment.ops, vec![step(AlignmentOp::Equivalent, 3)]);
    assert_eq!(alignment.seq1range, 0..3);
    assert_eq!(alignment.seq2range, 0..3);
}

#[test]
fn five_row_gaps_down_one_column() {
    let mut tracer = TraceMatrix::new();
    tracer.reset(5, 1);
    for row in 0..5 {
        tracer.gap_row(row, 0);
    }

    let alignment = tracer.trace(4, 0).unwrap();
    assert_eq!(alignment.ops, vec![step(AlignmentOp::GapRow, 5)]);
    assert_eq!(alignment.seq1range, 0..5);
    assert_eq!(alignment.seq2range, 0..1);
}

#[test]
fn five_col_gaps_along_one_row() {
    let mut tracer = TraceMatrix::new();
    tracer.reset(1, 5);
    for col in 0..5 {
        tracer.gap_col(0, col);
    }

    let alignment = tracer.trace(0, 4).unwrap();
    assert_eq!(alignment.ops, vec![step(AlignmentOp::GapCol, 5)]);
    assert_eq!(alignment.seq1range, 0..1);
    assert_eq!(alignment.seq2range, 0..5);
}

#[test]
fn gaps_only_away_from_the_origin_report_one_position() {
    let mut tracer = TraceMatrix::new();
    tracer.reset(6, 6);
    tracer.gap_row(2, 3);
    tracer.gap_row(3, 3);
    tracer.gap_col(5, 1);

    let alignment = tracer.trace(3, 3).unwrap();
    assert_eq!(alignment.ops, vec![step(AlignmentOp::GapRow, 2)]);
    assert_eq!(alignment.seq1range, 2..4);
    assert_eq!(alignment.seq2range, 3..4);

    let alignment = tracer.trace(5, 1).unwrap();
    assert_eq!(alignment.ops, vec![step(AlignmentOp::GapCol, 1)]);
    assert_eq!(alignment.seq1range, 5..6);
    assert_eq!(alignment.seq2range, 1..2);
}

#[test]
fn run_of_300_equivalents_takes_two_steps() {
    let mut tracer = TraceMatrix::new();
    tracer.reset(300, 300);
    for i in 0..300 {
        tracer.equivalent(i, i);
    }

    let alignment = tracer.trace(299, 299).unwrap();
    assert_eq!(
        alignment.ops,
        vec![step(AlignmentOp::Equivalent, 255), step(AlignmentOp::Equivalent, 45)]
    );
    assert_eq!(alignment.seq1range, 0..300);
    assert_eq!(alignment.seq2range, 0..300);
}

#[test]
fn runs_at_the_step_limit() {
    let mut tracer = TraceMatrix::new();
    tracer.reset(600, 1);
    for row in 0..600 {
        tracer.gap_row(row, 0);
    }
    let gap = AlignmentOp::GapRow;

    assert_eq!(tracer.trace(253, 0).unwrap().ops, vec![step(gap, 254)]);
    assert_eq!(tracer.trace(254, 0).unwrap().ops, vec![step(gap, 255)]);
    assert_eq!(tracer.trace(255, 0).unwrap().ops, vec![step(gap, 255), step(gap, 1)]);
    assert_eq!(tracer.trace(509, 0).unwrap().ops, vec![step(gap, 255), step(gap, 255)]);
    assert_eq!(
        tracer.trace(510, 0).unwrap().ops,
        vec![step(gap, 255), step(gap, 255), step(gap, 1)]
    );
    let alignment = tracer.trace(599, 0).unwrap();
    assert_eq!(alignment.ops, vec![step(gap, 255), step(gap, 255), step(gap, 90)]);
    assert_eq!(alignment.seq1range, 0..600);
    assert_eq!(alignment.seq2range, 0..1);
}

#[test]
fn long_runs_between_other_operations() {
    let mut tracer = TraceMatrix::new();
    tracer.reset(302, 303);
    tracer.gap_col(0, 0);
    tracer.gap_col(0, 1);
    for i in 0..300 {
        tracer.equivalent(i + 1, i + 2);
    }
    tracer.gap_row(301, 301);

    let alignment = tracer.trace(301, 301).unwrap();
    assert_eq!(
        alignment.ops,
        vec![
            step(AlignmentOp::GapCol, 2),
            step(AlignmentOp::Equivalent, 255),
            step(AlignmentOp::Equivalent, 45),
            step(AlignmentOp::GapRow, 1),
        ]
    );
    assert_eq!(alignment.seq1range, 1..302);
    assert_eq!(alignment.seq2range, 0..302);
}

#[test]
fn path_stops_at_the_first_absent_cell() {
    let mut tracer = TraceMatrix::new();
    tracer.reset(5, 5);
    tracer.equivalent(0, 0);
    tracer.equivalent(2, 1);
    tracer.equivalent(3, 2);
    tracer.gap_col(3, 3);

    let alignment = tracer.trace(3, 3).unwrap();
    assert_eq!(
        alignment.ops,
        vec![step(AlignmentOp::Equivalent, 2), step(AlignmentOp::GapCol, 1)]
    );
    assert_eq!(alignment.seq1range, 2..4);
    assert_eq!(alignment.seq2range, 1..4);
}

#[test]
fn trace_reads_the_decision_just_set() {
    let mut tracer = TraceMatrix::new();
    tracer.reset(4, 3);
    for row in 0..4 {
        for col in 0..3 {
            tracer.equivalent(row, col);
            let alignment = tracer.trace(row, col).unwrap();
            assert_eq!(alignment.ops.last().unwrap().op, AlignmentOp::Equivalent);

            tracer.gap_row(row, col);
            let alignment = tracer.trace(row, col).unwrap();
            assert_eq!(alignment.ops.last().unwrap().op, AlignmentOp::GapRow);

            tracer.gap_col(row, col);
            let alignment = tracer.trace(row, col).unwrap();
            assert_eq!(alignment.ops.last().unwrap().op, AlignmentOp::GapCol);
        }
    }
}

#[test]
fn later_decision_replaces_earlier_one() {
    let mut tracer = TraceMatrix::new();
    tracer.reset(2, 2);
    tracer.equivalent(0, 0);
    tracer.gap_row(1, 1);
    tracer.equivalent(1, 1);

    let alignment = tracer.trace(1, 1).unwrap();
    assert_eq!(alignment.ops, vec![step(AlignmentOp::Equivalent, 2)]);
    assert_eq!(alignment.seq1range, 0..2);
    assert_eq!(alignment.seq2range, 0..2);
}

#[test]
fn reset_twice_is_reset_once() {
    let mut once = TraceMatrix::new();
    let mut twice = TraceMatrix::new();
    for tracer in [&mut once, &mut twice] {
        tracer.reset(3, 2);
        tracer.equivalent(0, 0);
        tracer.gap_row(1, 0);
        tracer.gap_col(2, 1);
    }
    once.reset(2, 3);
    twice.reset(2, 3);
    twice.reset(2, 3);

    for row in 0..5 {
        for col in 0..5 {
            assert_eq!(once.trace(row, col), Err(()));
            assert_eq!(twice.trace(row, col), Err(()));
        }
    }

    once.equivalent(1, 2);
    twice.equivalent(1, 2);
    assert_eq!(once.trace(1, 2), twice.trace(1, 2));
    assert_eq!(once.trace(1, 2).unwrap().ops, vec![step(AlignmentOp::Equivalent, 1)]);
}

#[test]
fn reset_to_another_size_forgets_old_decisions() {
    let mut tracer = TraceMatrix::new();
    tracer.reset(2, 6);
    for col in 0..6 {
        tracer.gap_col(0, col);
        tracer.gap_col(1, col);
    }
    tracer.reset(6, 2);
    for row in 0..6 {
        for col in 0..2 {
            assert_eq!(tracer.trace(row, col), Err(()));
        }
    }
    tracer.gap_row(5, 1);
    assert_eq!(tracer.trace(5, 1).unwrap().ops, vec![step(AlignmentOp::GapRow, 1)]);
}

#[test]
fn end_outside_the_matrix_has_no_path() {
    let mut tracer = TraceMatrix::new();
    tracer.reset(3, 4);
    for row in 0..3 {
        for col in 0..4 {
            tracer.equivalent(row, col);
        }
    }
    assert!(tracer.trace(2, 3).is_ok());
    assert_eq!(tracer.trace(3, 3), Err(()));
    assert_eq!(tracer.trace(2, 4), Err(()));
    assert_eq!(tracer.trace(3, 4), Err(()));
    assert_eq!(tracer.trace(3, 0), Err(()));
    assert_eq!(tracer.trace(0, 4), Err(()));
    assert_eq!(tracer.trace(100, 1), Err(()));
    assert_eq!(tracer.trace(1, 100), Err(()));
    assert_eq!(tracer.trace(usize::MAX, 0), Err(()));
    assert_eq!(tracer.trace(0, usize::MAX), Err(()));
}

#[test]
fn undecided_cell_inside_the_matrix_has_no_path() {
    let mut tracer = TraceMatrix::new();
    tracer.reset(3, 3);
    tracer.equivalent(1, 1);
    assert_eq!(tracer.trace(0, 0), Err(()));
    assert_eq!(tracer.trace(2, 2), Err(()));
    assert_eq!(tracer.trace(1, 2), Err(()));
    assert!(tracer.trace(1, 1).is_ok());
}

#[test]
fn sequences_without_symbols_have_no_path() {
    let mut tracer = TraceMatrix::new();
    tracer.reset(0, 5);
    assert_eq!(tracer.trace(0, 0), Err(()));
    assert_eq!(tracer.trace(0, 4), Err(()));
    tracer.reset(5, 0);
    assert_eq!(tracer.trace(0, 0), Err(()));
    assert_eq!(tracer.trace(4, 0), Err(()));
}

#[test]
fn tracing_does_not_change_the_matrix() {
    let mut tracer = TraceMatrix::new();
    tracer.reset(2, 2);
    tracer.equivalent(0, 0);
    tracer.equivalent(1, 1);
    let first = tracer.trace(1, 1);
    let second = tracer.trace(1, 1);
    assert_eq!(first, second);
    assert_eq!(first.unwrap().ops, vec![step(AlignmentOp::Equivalent, 2)]);
}

#[test]
fn running_trace_keeps_what_it_was_made_with() {
    let run = RunningTrace::new(AlignmentOp::GapCol, 17);
    assert_eq!(run.op, AlignmentOp::GapCol);
    assert_eq!(run.len, 17);
}

#[test]
fn save_of_an_empty_run_adds_nothing() {
    let mut steps = vec![step(AlignmentOp::GapRow, 3)];
    RunningTrace::new(AlignmentOp::Equivalent, 0).save(&mut steps);
    assert_eq!(steps, vec![step(AlignmentOp::GapRow, 3)]);
}

#[test]
fn save_of_a_short_run_adds_one_step() {
    let mut steps = Vec::new();
    RunningTrace::new(AlignmentOp::Equivalent, 1).save(&mut steps);
    RunningTrace::new(AlignmentOp::GapRow, 45).save(&mut steps);
    RunningTrace::new(AlignmentOp::GapCol, 255).save(&mut steps);
    assert_eq!(
        steps,
        vec![
            step(AlignmentOp::Equivalent, 1),
            step(AlignmentOp::GapRow, 45),
            step(AlignmentOp::GapCol, 255),
        ]
    );
}

#[test]
fn save_of_a_long_run_puts_the_remainder_first() {
    let mut steps = vec![step(AlignmentOp::GapCol, 9)];
    RunningTrace::new(AlignmentOp::Equivalent, 300).save(&mut steps);
    assert_eq!(
        steps,
        vec![
            step(AlignmentOp::GapCol, 9),
            step(AlignmentOp::Equivalent, 45),
            step(AlignmentOp::Equivalent, 255),
        ]
    );

    let mut steps = Vec::new();
    RunningTrace::new(AlignmentOp::GapRow, 511).save(&mut steps);
    assert_eq!(
        steps,
        vec![
            step(AlignmentOp::GapRow, 1),
            step(AlignmentOp::GapRow, 255),
            step(AlignmentOp::GapRow, 255),
        ]
    );

    let mut steps = Vec::new();
    RunningTrace::new(AlignmentOp::GapRow, 510).save(&mut steps);
    assert_eq!(steps, vec![step(AlignmentOp::GapRow, 255), step(AlignmentOp::GapRow, 255)]);
}

#[test]
fn full_step_fills_one_byte() {
    assert_eq!(MAX_STEP_LEN, 255);
    assert_eq!(MAX_STEP_LEN, usize::from(u8::MAX));

    let mut steps = Vec::new();
    RunningTrace::new(AlignmentOp::GapCol, MAX_STEP_LEN).save(&mut steps);
    assert_eq!(steps, vec![step(AlignmentOp::GapCol, u8::MAX)]);

    let mut steps = Vec::new();
    RunningTrace::new(AlignmentOp::GapCol, MAX_STEP_LEN + 1).save(&mut steps);
    assert_eq!(steps, vec![step(AlignmentOp::GapCol, 1), step(AlignmentOp::GapCol, u8::MAX)]);
}

#[test]
fn saved_steps_add_up_to_the_run() {
    for len in [0usize, 1, 2, 254, 255, 256, 509, 510, 511, 1000, 65_535, 65_536] {
        let mut steps = Vec::new();
        RunningTrace::new(AlignmentOp::Equivalent, len).save(&mut steps);
        let total: usize = steps.iter().map(|s| s.len as usize).sum();
        assert_eq!(total, len);
        assert!(steps.iter().all(|s| s.len >= 1 && s.op == AlignmentOp::Equivalent));
        assert!(steps.iter().skip(1).all(|s| s.len == 255));
        assert_eq!(steps.len(), len / 255 + usize::from(len % 255 != 0));
    }
}

#[test]
fn decisions_stand_for_operations() {
    assert_eq!(AlignmentOp::try_from(Trace::Absent), Err(()));
    assert_eq!(AlignmentOp::try_from(Trace::GapRow), Ok(AlignmentOp::GapRow));
    assert_eq!(AlignmentOp::try_from(Trace::GapCol), Ok(AlignmentOp::GapCol));
    assert_eq!(AlignmentOp::try_from(Trace::Equivalent), Ok(AlignmentOp::Equivalent));

    let op: Result<AlignmentOp, ()> = Trace::Equivalent.try_into();
    assert_eq!(op, Ok(AlignmentOp::Equivalent));
}

#[test]
fn traced_alignment_can_be_cloned() {
    let mut tracer = TraceMatrix::new();
    tracer.reset(3, 4);
    tracer.equivalent(1, 2);
    tracer.gap_col(1, 3);
    let alignment = tracer.trace(1, 3).unwrap();
    let copy = alignment.clone();
    assert_eq!(copy, alignment);
    assert_eq!(
        copy.ops,
        vec![step(AlignmentOp::Equivalent, 1), step(AlignmentOp::GapCol, 1)]
    );
    assert_eq!(copy.seq1range, 1..2);
    assert_eq!(copy.seq2range, 2..4);
}
