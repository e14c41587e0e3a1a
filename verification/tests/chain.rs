use proof_of_proof::chain::{validate_run, ChainState, Invariant, Violation};
use proof_of_proof::codec::{encode, GuestInput};
use proof_of_proof::record::{BatchReport, ExecutionRecord, PublicValues};
use proof_of_proof::run::{Event, Phase, Run};

const ENTRY: u32 = 0x0020_0800;

fn record(
    events: usize,
    start_pc: u32,
    next_pc: u32,
    chunk: u32,
    execution_chunk: u32,
) -> ExecutionRecord<u8> {
    ExecutionRecord {
        cpu_events: vec![0u8; events],
        public_values: PublicValues { start_pc, next_pc, chunk, execution_chunk, exit_code: 0 },
    }
}

#[test]
fn start_is_before_the_first_record() {
    let state = ChainState::start(ENTRY);
    assert_eq!(state, ChainState { next_pc: ENTRY, chunk: 0, execution_chunk: 0, ended: false });
}

#[test]
fn one_executing_record_and_a_terminal_padding_record_are_accepted() {
    let records = vec![record(5, ENTRY, 0, 1, 1), record(0, 0, 0, 2, 1)];
    let state = validate_run(ENTRY, &records).unwrap();
    assert_eq!(state.execution_chunk, 1);
    assert_eq!(state.chunk, 2);
    assert_eq!(state.next_pc, 0);
    assert!(state.ended);
}

#[test]
fn validate_returns_the_chain_at_the_record() {
    let state = ChainState::start(ENTRY);
    let after = state.validate(&record(3, ENTRY, ENTRY + 12, 1, 1)).unwrap();
    assert_eq!(
        after,
        ChainState { next_pc: ENTRY + 12, chunk: 1, execution_chunk: 1, ended: false }
    );
    let after = after.validate(&record(2, ENTRY + 12, ENTRY + 20, 2, 2)).unwrap();
    assert_eq!(
        after,
        ChainState { next_pc: ENTRY + 20, chunk: 2, execution_chunk: 2, ended: false }
    );
    let after = after.validate(&record(0, ENTRY + 20, ENTRY + 20, 3, 2)).unwrap();
    assert_eq!(
        after,
        ChainState { next_pc: ENTRY + 20, chunk: 3, execution_chunk: 2, ended: false }
    );
}

#[test]
fn consecutive_padding_records_are_accepted() {
    let records = vec![
        record(4, ENTRY, ENTRY + 16, 1, 1),
        record(0, ENTRY + 16, ENTRY + 16, 2, 1),
        record(0, ENTRY + 16, ENTRY + 16, 3, 1),
        record(1, ENTRY + 16, 0, 4, 2),
        record(0, 0, 0, 5, 2),
        record(0, 0, 0, 6, 2),
    ];
    let state = validate_run(ENTRY, &records).unwrap();
    assert_eq!(state.chunk, 6);
    assert_eq!(state.execution_chunk, 2);
}

#[test]
fn chunk_index_out_of_sequence_is_named() {
    let state = ChainState::start(ENTRY);
    let err = state.validate(&record(5, ENTRY, 0, 2, 1)).unwrap_err();
    assert_eq!(err, Violation::ChunkOutOfSequence { expected: 1, found: 2 });
    assert_eq!(err.broken_invariant(), Invariant::ChunkSequence);
    let err = state.validate(&record(5, ENTRY, 0, 0, 1)).unwrap_err();
    assert_eq!(err, Violation::ChunkOutOfSequence { expected: 1, found: 0 });
}

#[test]
fn chunk_index_after_the_largest_is_out_of_sequence() {
    let state = ChainState { next_pc: 8, chunk: u32::MAX, execution_chunk: 1, ended: false };
    let err = state.validate(&record(0, 8, 8, 0, 1)).unwrap_err();
    assert_eq!(err, Violation::ChunkOutOfSequence { expected: 1 << 32, found: 0 });
}

#[test]
fn execution_chunk_index_out_of_sequence_is_named() {
    let state = ChainState::start(ENTRY);
    let err = state.validate(&record(5, ENTRY, 0, 1, 2)).unwrap_err();
    assert_eq!(err, Violation::ExecutionChunkOutOfSequence { expected: 1, found: 2 });
    assert_eq!(err.broken_invariant(), Invariant::ExecutionChunkSequence);
    let after = state.validate(&record(5, ENTRY, 64, 1, 1)).unwrap();
    let err = after.validate(&record(0, 64, 64, 2, 2)).unwrap_err();
    assert_eq!(err, Violation::ExecutionChunkOutOfSequence { expected: 1, found: 2 });
    let err = after.validate(&record(1, 64, 68, 2, 1)).unwrap_err();
    assert_eq!(err, Violation::ExecutionChunkOutOfSequence { expected: 2, found: 1 });
}

#[test]
fn empty_first_record_is_named() {
    let state = ChainState::start(ENTRY);
    let err = state.validate(&record(0, ENTRY, ENTRY, 1, 0)).unwrap_err();
    assert_eq!(err, Violation::EmptyFirstRecord);
    assert_eq!(err.broken_invariant(), Invariant::FirstRecord);
}

#[test]
fn first_record_off_the_entry_is_named() {
    let state = ChainState::start(ENTRY);
    let err = state.validate(&record(5, ENTRY + 4, 0, 1, 1)).unwrap_err();
    assert_eq!(err, Violation::WrongEntry { entry_pc: ENTRY, start_pc: ENTRY + 4 });
    assert_eq!(err.broken_invariant(), Invariant::FirstRecord);
}

#[test]
fn discontinuity_is_named() {
    let state = ChainState::start(ENTRY);
    let after = state.validate(&record(5, ENTRY, 64, 1, 1)).unwrap();
    let err = after.validate(&record(5, 68, 0, 2, 2)).unwrap_err();
    assert_eq!(err, Violation::Discontinuity { next_pc: 64, start_pc: 68 });
    assert_eq!(err.broken_invariant(), Invariant::Continuity);
}

#[test]
fn executing_record_at_zero_is_named() {
    let state = ChainState::start(0);
    let err = state.validate(&record(5, 0, 8, 1, 1)).unwrap_err();
    assert_eq!(err, Violation::ZeroStart);
    assert_eq!(err.broken_invariant(), Invariant::ProgramCounter);
}

#[test]
fn padding_record_that_moves_is_named() {
    let state = ChainState::start(ENTRY);
    let after = state.validate(&record(5, ENTRY, 64, 1, 1)).unwrap();
    let err = after.validate(&record(0, 64, 68, 2, 1)).unwrap_err();
    assert_eq!(err, Violation::PaddingMoved { start_pc: 64, next_pc: 68 });
    assert_eq!(err.broken_invariant(), Invariant::ProgramCounter);
}

#[test]
fn guest_failure_is_named() {
    let state = ChainState::start(ENTRY);
    let mut failing = record(5, ENTRY, 0, 1, 1);
    failing.public_values.exit_code = 3;
    let err = state.validate(&failing).unwrap_err();
    assert_eq!(err, Violation::GuestFailure { exit_code: 3 });
    assert_eq!(err.broken_invariant(), Invariant::ExitCode);
}

#[test]
fn record_after_the_end_is_named() {
    let records = vec![record(5, ENTRY, 0, 1, 1)];
    let ended = validate_run(ENTRY, &records).unwrap();
    let err = ended.validate(&record(0, 0, 0, 2, 1)).unwrap_err();
    assert_eq!(err, Violation::AfterEnd);
    assert_eq!(err.broken_invariant(), Invariant::Termination);
    assert_eq!(ended.conclude(true), Err(Violation::AfterEnd));
    assert_eq!(ended.conclude(false), Err(Violation::AfterEnd));
}

#[test]
fn end_without_halt_is_named() {
    let records = vec![record(5, ENTRY, 64, 1, 1)];
    let err = validate_run(ENTRY, &records).unwrap_err();
    assert_eq!(err, Violation::EndWithoutHalt { next_pc: 64 });
    assert_eq!(err.broken_invariant(), Invariant::Termination);
    let none: Vec<ExecutionRecord<u8>> = vec![];
    assert_eq!(validate_run(0, &none), Err(Violation::EndWithoutHalt { next_pc: 0 }));
}

#[test]
fn halt_without_end_is_named() {
    let state = ChainState::start(ENTRY);
    let after = state.validate(&record(5, ENTRY, 0, 1, 1)).unwrap();
    let err = after.conclude(false).unwrap_err();
    assert_eq!(err, Violation::HaltWithoutEnd);
    assert_eq!(err.broken_invariant(), Invariant::Termination);
}

#[test]
fn conclude_records_the_end() {
    let state = ChainState::start(ENTRY);
    assert_eq!(state.conclude(false), Ok(state));
    let running = state.validate(&record(5, ENTRY, 64, 1, 1)).unwrap();
    assert_eq!(running.conclude(false), Ok(running));
    let halted = running.validate(&record(1, 64, 0, 2, 2)).unwrap();
    assert_eq!(
        halted.conclude(true),
        Ok(ChainState { next_pc: 0, chunk: 2, execution_chunk: 2, ended: true })
    );
}

#[test]
fn the_first_broken_rule_is_the_one_named() {
    // Breaks the chunk index, the entry and the exit code at once.
    let state = ChainState::start(ENTRY);
    let mut bad = record(5, ENTRY + 4, 0, 7, 1);
    bad.public_values.exit_code = 1;
    assert_eq!(
        state.validate(&bad),
        Err(Violation::ChunkOutOfSequence { expected: 1, found: 7 })
    );
    bad.public_values.chunk = 1;
    assert_eq!(
        state.validate(&bad),
        Err(Violation::WrongEntry { entry_pc: ENTRY, start_pc: ENTRY + 4 })
    );
    bad.public_values.start_pc = ENTRY;
    assert_eq!(state.validate(&bad), Err(Violation::GuestFailure { exit_code: 1 }));
}

#[test]
fn validation_stops_at_the_first_bad_record() {
    let records = vec![
        record(4, ENTRY, ENTRY + 16, 1, 1),
        record(2, ENTRY + 20, ENTRY + 28, 2, 2),
        record(2, ENTRY + 28, 0, 9, 9),
    ];
    let state = ChainState::start(ENTRY);
    assert_eq!(
        state.validate_all(&records),
        Err(Violation::Discontinuity { next_pc: ENTRY + 16, start_pc: ENTRY + 20 })
    );
    assert_eq!(
        state.validate_all(&records[..1]),
        Ok(ChainState { next_pc: ENTRY + 16, chunk: 1, execution_chunk: 1, ended: false })
    );
    let none: Vec<ExecutionRecord<u8>> = vec![];
    assert_eq!(state.validate_all(&none), Ok(state));
}

#[test]
fn records_of_a_completed_run_pass_as_a_whole() {
    let input = encode(&GuestInput {
        proofs: vec![vec![1, 2, 3]],
        evaluation_point: vec![],
        evaluation_claim: [0; 16],
        packed_log_len: 1,
    });
    let first = vec![record(4, ENTRY, ENTRY + 16, 1, 1), record(0, ENTRY + 16, ENTRY + 16, 2, 1)];
    let second = vec![record(6, ENTRY + 16, 0, 3, 2), record(0, 0, 0, 4, 2)];
    let (run, _) = Run::new(true).step::<u8>(Event::Loaded { entry_pc: ENTRY, input });
    let (run, _) =
        run.step(Event::Batch { records: first.clone(), report: BatchReport { done: false } });
    let (run, _) =
        run.step(Event::Batch { records: second.clone(), report: BatchReport { done: true } });
    assert_eq!(run.phase(), Phase::Completed);
    let mut all = first;
    all.extend(second);
    assert_eq!(validate_run(ENTRY, &all), Ok(run.chain()));
    let events: usize = all.iter().map(|r| r.cpu_events.len()).sum();
    assert_eq!(run.cycles().total_cycles, events as u128);
}

#[test]
fn the_kind_of_trace_event_does_not_matter() {
    let with_pairs = ExecutionRecord {
        cpu_events: vec![(1u32, 2u32), (3, 4)],
        public_values: PublicValues {
            start_pc: ENTRY,
            next_pc: 0,
            chunk: 1,
            execution_chunk: 1,
            exit_code: 0,
        },
    };
    let state = validate_run(ENTRY, &[with_pairs]).unwrap();
    assert_eq!(state.execution_chunk, 1);
}
