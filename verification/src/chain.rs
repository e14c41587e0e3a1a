//! The continuation chain: the rules that the public values of consecutive
//! records obey, and the validator that checks them record by record.

use vstd::prelude::*;
use crate::record::{executed, views, ExecutionRecord, RecordView};

verus! {

/// The rules of the chain, in the order in which a record is checked
/// against them.
#[derive(Clone, Copy, Debug, PartialEq, Eq, Structural)]
pub enum Invariant {
    /// Chunk indexes count 1, 2, 3, ... in emission order.
    ChunkSequence,
    /// The execution-chunk index goes up by one with a record that has trace
    /// events, and stays as it is with one that has none.
    ExecutionChunkSequence,
    /// The first record has trace events and starts at the program's entry.
    FirstRecord,
    /// A record starts where the record before it said the next would.
    Continuity,
    /// A record with trace events does not start at zero; one without does
    /// not move the program counter.
    ProgramCounter,
    /// The guest's exit code is zero.
    ExitCode,
    /// The run ends exactly when the latest record's next program counter
    /// is zero, and nothing is emitted after the end.
    Termination,
}

impl Invariant {
    /// The place of the rule in the order of checking, from one.
    pub open spec fn rank(self) -> nat {
        match self {
            Invariant::ChunkSequence => 1,
            Invariant::ExecutionChunkSequence => 2,
            Invariant::FirstRecord => 3,
            Invariant::Continuity => 4,
            Invariant::ProgramCounter => 5,
            Invariant::ExitCode => 6,
            Invariant::Termination => 7,
        }
    }
}

/// A broken rule, with the values that broke it.
#[derive(Clone, Copy, Debug, PartialEq, Eq, Structural)]
pub enum Violation {
    /// The record's chunk index is not the successor of the one before.
    ChunkOutOfSequence { expected: u64, found: u32 },
    /// The record's execution-chunk index is not what its trace events call for.
    ExecutionChunkOutOfSequence { expected: u64, found: u32 },
    /// The first record has no trace events.
    EmptyFirstRecord,
    /// The first record does not start at the program's entry.
    WrongEntry { entry_pc: u32, start_pc: u32 },
    /// The record does not start at `next_pc`, where the one before it
    /// said the next would.
    Discontinuity { next_pc: u32, start_pc: u32 },
    /// A record with trace events starts at program counter zero.
    ZeroStart,
    /// A record without trace events moves the program counter.
    PaddingMoved { start_pc: u32, next_pc: u32 },
    /// The guest exited with a non-zero code.
    GuestFailure { exit_code: u32 },
    /// Something was emitted after the run had ended.
    AfterEnd,
    /// The engine reported the end, but the program counter to come is not
    /// zero. `next_pc` is the one the chain expects next.
    EndWithoutHalt { next_pc: u32 },
    /// The latest record's next program counter is zero, but the engine did
    /// not report the end.
    HaltWithoutEnd,
}

impl Violation {
    /// The rule that the violation breaks.
    pub open spec fn broken(self) -> Invariant {
        match self {
            Violation::ChunkOutOfSequence { .. } => Invariant::ChunkSequence,
            Violation::ExecutionChunkOutOfSequence { .. } => Invariant::ExecutionChunkSequence,
            Violation::EmptyFirstRecord => Invariant::FirstRecord,
            Violation::WrongEntry { .. } => Invariant::FirstRecord,
            Violation::Discontinuity { .. } => Invariant::Continuity,
            Violation::ZeroStart => Invariant::ProgramCounter,
            Violation::PaddingMoved { .. } => Invariant::ProgramCounter,
            Violation::GuestFailure { .. } => Invariant::ExitCode,
            Violation::AfterEnd => Invariant::Termination,
            Violation::EndWithoutHalt { .. } => Invariant::Termination,
            Violation::HaltWithoutEnd => Invariant::Termination,
        }
    }

    /// The rule that the violation breaks.
    pub fn broken_invariant(&self) -> (inv: Invariant)
        ensures
            inv == self.broken(),
    {
        match self {
            Violation::ChunkOutOfSequence { .. } => Invariant::ChunkSequence,
            Violation::ExecutionChunkOutOfSequence { .. } => Invariant::ExecutionChunkSequence,
            Violation::EmptyFirstRecord => Invariant::FirstRecord,
            Violation::WrongEntry { .. } => Invariant::FirstRecord,
            Violation::Discontinuity { .. } => Invariant::Continuity,
            Violation::ZeroStart => Invariant::ProgramCounter,
            Violation::PaddingMoved { .. } => Invariant::ProgramCounter,
            Violation::GuestFailure { .. } => Invariant::ExitCode,
            Violation::AfterEnd => Invariant::Termination,
            Violation::EndWithoutHalt { .. } => Invariant::Termination,
            Violation::HaltWithoutEnd => Invariant::Termination,
        }
    }
}

/// Where the chain stands after the records validated so far.
#[derive(Clone, Copy, Debug, PartialEq, Eq, Structural)]
pub struct ChainState {
    /// The next program counter of the latest record; the program's entry
    /// before the first.
    pub next_pc: u32,
    /// The chunk index of the latest record; zero before the first.
    pub chunk: u32,
    /// The execution-chunk index of the latest record; zero before the first.
    pub execution_chunk: u32,
    /// Whether the engine has reported the end of the run.
    pub ended: bool,
}

impl ChainState {
    /// The chain of a run that starts at `entry_pc`, before its first record.
    pub open spec fn starting_at(entry_pc: u32) -> ChainState {
        ChainState { next_pc: entry_pc, chunk: 0, execution_chunk: 0, ended: false }
    }

    /// Whether the next record is the first of the run.
    pub open spec fn is_first(self) -> bool {
        self.chunk == 0
    }

    /// Whether the latest record says that the program has halted.
    pub open spec fn halted(self) -> bool {
        self.chunk > 0 && self.next_pc == 0
    }

    /// The execution-chunk index that a record with `events` trace events
    /// has to carry.
    pub open spec fn expected_execution_chunk(self, events: nat) -> int {
        if events > 0 {
            self.execution_chunk + 1
        } else {
            self.execution_chunk as int
        }
    }

    /// What the rule `inv` asks of the record `r` that comes next.
    pub open spec fn holds(self, inv: Invariant, r: RecordView) -> bool {
        match inv {
            Invariant::ChunkSequence => r.values.chunk == self.chunk + 1,
            Invariant::ExecutionChunkSequence => r.values.execution_chunk
                == self.expected_execution_chunk(r.events),
            Invariant::FirstRecord => self.is_first() ==> r.events > 0 && r.values.start_pc
                == self.next_pc,
            Invariant::Continuity => !self.is_first() ==> r.values.start_pc == self.next_pc,
            Invariant::ProgramCounter => if r.events > 0 {
                r.values.start_pc != 0
            } else {
                r.values.start_pc == r.values.next_pc
            },
            Invariant::ExitCode => r.values.exit_code == 0,
            Invariant::Termination => !self.ended,
        }
    }

    /// Whether `r` may come next: every rule holds of it.
    pub open spec fn accepts(self, r: RecordView) -> bool {
        forall|inv: Invariant| self.holds(inv, r)
    }

    /// The first rule, in the order of checking, that `r` breaks, with the
    /// offending values; `None` where `r` breaks none.
    pub open spec fn violation(self, r: RecordView) -> Option<Violation> {
        if r.values.chunk != self.chunk + 1 {
            Some(
                Violation::ChunkOutOfSequence {
                    expected: (self.chunk + 1) as u64,
                    found: r.values.chunk,
                },
            )
        } else if r.values.execution_chunk != self.expected_execution_chunk(r.events) {
            Some(
                Violation::ExecutionChunkOutOfSequence {
                    expected: self.expected_execution_chunk(r.events) as u64,
                    found: r.values.execution_chunk,
                },
            )
        } else if self.is_first() && r.events == 0 {
            Some(Violation::EmptyFirstRecord)
        } else if self.is_first() && r.values.start_pc != self.next_pc {
            Some(Violation::WrongEntry { entry_pc: self.next_pc, start_pc: r.values.start_pc })
        } else if r.values.start_pc != self.next_pc {
            Some(Violation::Discontinuity { next_pc: self.next_pc, start_pc: r.values.start_pc })
        } else if r.events > 0 && r.values.start_pc == 0 {
            Some(Violation::ZeroStart)
        } else if r.events == 0 && r.values.start_pc != r.values.next_pc {
            Some(
                Violation::PaddingMoved { start_pc: r.values.start_pc, next_pc: r.values.next_pc },
            )
        } else if r.values.exit_code != 0 {
            Some(Violation::GuestFailure { exit_code: r.values.exit_code })
        } else if self.ended {
            Some(Violation::AfterEnd)
        } else {
            None
        }
    }

    /// The chain after the record `r` has been accepted.
    pub open spec fn after(self, r: RecordView) -> ChainState {
        ChainState {
            next_pc: r.values.next_pc,
            chunk: r.values.chunk,
            execution_chunk: r.values.execution_chunk,
            ended: self.ended,
        }
    }

    /// What the validator returns for the record `r`.
    pub open spec fn checked(self, r: RecordView) -> Result<ChainState, Violation> {
        match self.violation(r) {
            Some(v) => Err(v),
            None => Ok(self.after(r)),
        }
    }

    /// What the validator returns at the end of a batch, of which the
    /// engine reported `done`.
    pub open spec fn settled(self, done: bool) -> Result<ChainState, Violation> {
        if self.ended {
            Err(Violation::AfterEnd)
        } else if done && !self.halted() {
            Err(Violation::EndWithoutHalt { next_pc: self.next_pc })
        } else if !done && self.halted() {
            Err(Violation::HaltWithoutEnd)
        } else {
            Ok(
                ChainState {
                    next_pc: self.next_pc,
                    chunk: self.chunk,
                    execution_chunk: self.execution_chunk,
                    ended: done,
                },
            )
        }
    }

    /// What the validator returns for the records of `records`, one after
    /// the other: the chain after the last of them, or the violation of the
    /// first record that breaks a rule.
    pub open spec fn replay(self, records: Seq<RecordView>) -> Result<ChainState, Violation>
        decreases records.len(),
    {
        if records.len() == 0 {
            Ok(self)
        } else {
            match self.replay(records.drop_last()) {
                Ok(state) => state.checked(records.last()),
                Err(v) => Err(v),
            }
        }
    }

    /// The chain of a run that starts at `entry_pc`, before its first record.
    pub fn start(entry_pc: u32) -> (state: ChainState)
        ensures
            state == ChainState::starting_at(entry_pc),
    {
        ChainState { next_pc: entry_pc, chunk: 0, execution_chunk: 0, ended: false }
    }

    /// Checks the next record against the rules of the chain, in their
    /// order. Returns the chain after the record where every rule holds,
    /// and else the first rule broken with the offending values.
    pub fn validate<E>(&self, record: &ExecutionRecord<E>) -> (res: Result<ChainState, Violation>)
        ensures
            res is Ok <==> self.accepts(record@),
            res == self.checked(record@),
    {
        let values = record.public_values;
        let has_events = record.cpu_events.len() > 0;
        let expected_chunk: u64 = self.chunk as u64 + 1;
        let expected_execution: u64 = if has_events {
            self.execution_chunk as u64 + 1
        } else {
            self.execution_chunk as u64
        };
        proof {
            lemma_violation_none_iff_accepts(*self, record@);
        }
        if values.chunk as u64 != expected_chunk {
            Err(Violation::ChunkOutOfSequence { expected: expected_chunk, found: values.chunk })
        } else if values.execution_chunk as u64 != expected_execution {
            Err(
                Violation::ExecutionChunkOutOfSequence {
                    expected: expected_execution,
                    found: values.execution_chunk,
                },
            )
        } else if self.chunk == 0 && !has_events {
            Err(Violation::EmptyFirstRecord)
        } else if self.chunk == 0 && values.start_pc != self.next_pc {
            Err(Violation::WrongEntry { entry_pc: self.next_pc, start_pc: values.start_pc })
        } else if values.start_pc != self.next_pc {
            Err(Violation::Discontinuity { next_pc: self.next_pc, start_pc: values.start_pc })
        } else if has_events && values.start_pc == 0 {
            Err(Violation::ZeroStart)
        } else if !has_events && values.start_pc != values.next_pc {
            Err(Violation::PaddingMoved { start_pc: values.start_pc, next_pc: values.next_pc })
        } else if values.exit_code != 0 {
            Err(Violation::GuestFailure { exit_code: values.exit_code })
        } else if self.ended {
            Err(Violation::AfterEnd)
        } else {
            Ok(
                ChainState {
                    next_pc: values.next_pc,
                    chunk: values.chunk,
                    execution_chunk: values.execution_chunk,
                    ended: self.ended,
                },
            )
        }
    }

    /// Checks the engine's report at the end of a batch: the run ends
    /// exactly when the latest record's next program counter is zero, and
    /// it ends once. Returns the chain with the end recorded.
    pub fn conclude(&self, done: bool) -> (res: Result<ChainState, Violation>)
        ensures
            res is Ok <==> !self.ended && done == self.halted(),
            res == self.settled(done),
    {
        let halted = self.chunk > 0 && self.next_pc == 0;
        if self.ended {
            Err(Violation::AfterEnd)
        } else if done && !halted {
            Err(Violation::EndWithoutHalt { next_pc: self.next_pc })
        } else if !done && halted {
            Err(Violation::HaltWithoutEnd)
        } else {
            Ok(
                ChainState {
                    next_pc: self.next_pc,
                    chunk: self.chunk,
                    execution_chunk: self.execution_chunk,
                    ended: done,
                },
            )
        }
    }

    /// Validates the records in order and stops at the first that breaks a
    /// rule.
    pub fn validate_all<E>(&self, records: &[ExecutionRecord<E>]) -> (res: Result<
        ChainState,
        Violation,
    >)
        ensures
            res == self.replay(views(records@)),
    {
        let ghost all = views(records@);
        let mut state = *self;
        let mut i: usize = 0;
        while i < records.len()
            invariant
                i <= records.len(),
                all == views(records@),
                self.replay(all.take(i as int)) == Ok::<ChainState, Violation>(state),
            decreases records.len() - i,
        {
            proof {
                assert(all.take(i + 1).drop_last() == all.take(i as int));
            }
            match state.validate(&records[i]) {
                Ok(next) => {
                    state = next;
                },
                Err(v) => {
                    proof {
                        lemma_replay_stops_at_first_violation(*self, all, i + 1);
                    }
                    return Err(v);
                },
            }
            i += 1;
        }
        proof {
            assert(all.take(i as int) == all);
        }
        Ok(state)
    }
}

/// Validates a whole run at once: the records from the first to the last,
/// for a program that starts at `entry_pc` and of which the engine has
/// reported the end after the last record.
pub fn validate_run<E>(entry_pc: u32, records: &[ExecutionRecord<E>]) -> (res: Result<
    ChainState,
    Violation,
>)
    ensures
        res is Ok <==> complete_chain(entry_pc, views(records@)),
        res == run_outcome(entry_pc, views(records@)),
{
    proof {
        lemma_run_outcome_ok_iff_complete(entry_pc, views(records@));
    }
    match ChainState::start(entry_pc).validate_all(records) {
        Ok(state) => state.conclude(true),
        Err(v) => Err(v),
    }
}

/// What `validate_run` returns.
pub open spec fn run_outcome(entry_pc: u32, records: Seq<RecordView>) -> Result<
    ChainState,
    Violation,
> {
    match ChainState::starting_at(entry_pc).replay(records) {
        Ok(state) => state.settled(true),
        Err(v) => Err(v),
    }
}

/// The chain as it stands before the `i`-th record of `records`, in a run
/// that starts at `entry_pc`: at the record before it, or at the start.
pub open spec fn chain_before(entry_pc: u32, records: Seq<RecordView>, i: int) -> ChainState {
    if i <= 0 {
        ChainState::starting_at(entry_pc)
    } else {
        ChainState {
            next_pc: records[i - 1].values.next_pc,
            chunk: records[i - 1].values.chunk,
            execution_chunk: records[i - 1].values.execution_chunk,
            ended: false,
        }
    }
}

/// The rules of the chain, said of a sequence of records as a whole: in a
/// run that starts at `entry_pc`, every rule holds of every record, taken
/// after the record before it.
pub open spec fn well_chained(entry_pc: u32, records: Seq<RecordView>) -> bool {
    forall|i: int|
        0 <= i < records.len() ==> (#[trigger] chain_before(entry_pc, records, i)).accepts(
            records[i],
        )
}

/// What the rules of the chain ask of the `i`-th record of a run, counted
/// from zero, said of the records alone: its chunk index is its place in
/// the run, counted from one; its execution-chunk index is that of the
/// record before it, or zero, and one more if it has trace events; the first
/// record has trace events and starts at the program's entry; every other
/// starts where the one before it said the next would; a record with trace
/// events does not start at zero, and one without does not move the program
/// counter; the exit code is zero.
pub open spec fn rules_hold_at(entry_pc: u32, records: Seq<RecordView>, i: int) -> bool {
    let r = records[i];
    &&& r.values.chunk == i + 1
    &&& r.values.execution_chunk == if i == 0 {
        0int
    } else {
        records[i - 1].values.execution_chunk as int
    } + if r.events > 0 {
        1int
    } else {
        0int
    }
    &&& i == 0 ==> r.events > 0 && r.values.start_pc == entry_pc
    &&& i > 0 ==> r.values.start_pc == records[i - 1].values.next_pc
    &&& r.events > 0 ==> r.values.start_pc != 0
    &&& r.events == 0 ==> r.values.start_pc == r.values.next_pc
    &&& r.values.exit_code == 0
}

/// The rules of the chain, rule by rule, said of a sequence of records as
/// a whole.
pub open spec fn obeys_rules(entry_pc: u32, records: Seq<RecordView>) -> bool {
    forall|i: int| 0 <= i < records.len() ==> #[trigger] rules_hold_at(entry_pc, records, i)
}

/// The rules of the chain, said of the records of a whole run: they are
/// well chained and the last of them says that the program has halted.
pub open spec fn complete_chain(entry_pc: u32, records: Seq<RecordView>) -> bool {
    &&& well_chained(entry_pc, records)
    &&& records.len() > 0
    &&& records.last().values.next_pc == 0
}

/// The chain after all the records of `records`.
pub open spec fn chain_after(entry_pc: u32, records: Seq<RecordView>) -> ChainState {
    chain_before(entry_pc, records, records.len() as int)
}

/// A record breaks no rule exactly when every rule holds of it.
pub proof fn lemma_violation_none_iff_accepts(state: ChainState, r: RecordView)
    ensures
        state.violation(r) is None <==> state.accepts(r),
{
    if state.violation(r) is None {
        assert forall|inv: Invariant| state.holds(inv, r) by {}
    } else {
        let v = state.violation(r).unwrap();
        assert(!state.holds(v.broken(), r));
    }
}

/// The rule that a violation names is broken, and every rule that is
/// checked before it holds.
pub proof fn lemma_violation_names_first_broken_rule(state: ChainState, r: RecordView)
    ensures
        state.violation(r) matches Some(v) ==> {
            &&& !state.holds(v.broken(), r)
            &&& forall|inv: Invariant| inv.rank() < v.broken().rank() ==> state.holds(inv, r)
        },
{
}

/// A record that breaks one rule and no other is rejected with a violation
/// of that rule.
pub proof fn lemma_single_broken_rule_is_named(state: ChainState, r: RecordView, inv: Invariant)
    requires
        !state.holds(inv, r),
        forall|other: Invariant| other != inv ==> state.holds(other, r),
    ensures
        state.violation(r) matches Some(v) && v.broken() == inv,
{
    lemma_violation_none_iff_accepts(state, r);
    let v = state.violation(r).unwrap();
    assert(!state.holds(v.broken(), r));
}

/// Once a record has been rejected, the records after it change nothing:
/// the violation of a prefix is the violation of the whole sequence.
pub proof fn lemma_replay_stops_at_first_violation(
    state: ChainState,
    records: Seq<RecordView>,
    n: int,
)
    requires
        0 <= n <= records.len(),
        state.replay(records.take(n)) is Err,
    ensures
        state.replay(records) == state.replay(records.take(n)),
    decreases records.len() - n,
{
    if n < records.len() {
        assert(records.take(n + 1).drop_last() == records.take(n));
        lemma_replay_stops_at_first_violation(state, records, n + 1);
    } else {
        assert(records.take(n) == records);
    }
}

/// A sequence of records is rejected with the rule that its first bad
/// record breaks: where the records before the `k`-th are accepted and the
/// `k`-th breaks one rule and no other, the violation names that rule.
pub proof fn lemma_replay_names_the_broken_rule(
    state: ChainState,
    records: Seq<RecordView>,
    k: int,
    inv: Invariant,
)
    requires
        0 <= k < records.len(),
        state.replay(records.take(k)) is Ok,
        !state.replay(records.take(k)).unwrap().holds(inv, records[k]),
        forall|other: Invariant|
            other != inv ==> state.replay(records.take(k)).unwrap().holds(other, records[k]),
    ensures
        state.replay(records) matches Err(v) && v.broken() == inv,
{
    let before = state.replay(records.take(k)).unwrap();
    lemma_single_broken_rule_is_named(before, records[k], inv);
    assert(records.take(k + 1).drop_last() == records.take(k));
    lemma_replay_stops_at_first_violation(state, records, k + 1);
}

/// The chain before a record depends on the records before it alone.
proof fn lemma_chain_before_prefix(entry_pc: u32, records: Seq<RecordView>, n: int, i: int)
    requires
        0 <= i <= n <= records.len(),
    ensures
        chain_before(entry_pc, records.take(n), i) == chain_before(entry_pc, records, i),
{
}

/// The records at the front of a well-chained sequence are well chained.
pub proof fn lemma_well_chained_prefix(entry_pc: u32, records: Seq<RecordView>, n: int)
    requires
        well_chained(entry_pc, records),
        0 <= n <= records.len(),
    ensures
        well_chained(entry_pc, records.take(n)),
{
    let front = records.take(n);
    assert forall|i: int| 0 <= i < front.len() implies (#[trigger] chain_before(
        entry_pc,
        front,
        i,
    )).accepts(front[i]) by {
        lemma_chain_before_prefix(entry_pc, records, n, i);
    }
}

/// A well-chained sequence stays well chained with one more record that
/// the chain accepts.
proof fn lemma_well_chained_extend(entry_pc: u32, records: Seq<RecordView>)
    requires
        records.len() > 0,
        well_chained(entry_pc, records.drop_last()),
        chain_after(entry_pc, records.drop_last()).accepts(records.last()),
    ensures
        well_chained(entry_pc, records),
{
    let n = records.len() - 1;
    assert forall|i: int| 0 <= i < records.len() implies (#[trigger] chain_before(
        entry_pc,
        records,
        i,
    )).accepts(records[i]) by {
        lemma_chain_before_prefix(entry_pc, records, n, if i < n { i } else { n });
    }
}

/// Record by record and as a whole, the rules say the same, at any point
/// of a run: after the well-chained records of `history`, the validator
/// accepts the records of `records` exactly when the two together are well
/// chained, and the chain then stands at the last record.
pub proof fn lemma_replay_extends_chain(
    entry_pc: u32,
    history: Seq<RecordView>,
    records: Seq<RecordView>,
)
    requires
        well_chained(entry_pc, history),
    ensures
        chain_after(entry_pc, history).replay(records) is Ok <==> well_chained(
            entry_pc,
            history + records,
        ),
        well_chained(entry_pc, history + records) ==> chain_after(entry_pc, history).replay(
            records,
        ) == Ok::<ChainState, Violation>(chain_after(entry_pc, history + records)),
    decreases records.len(),
{
    let start = chain_after(entry_pc, history);
    let all = history + records;
    if records.len() > 0 {
        let front = records.drop_last();
        let last = records.last();
        let n = all.len() - 1;
        // By induction the records before the last are accepted exactly
        // when they are well chained; the last is then checked against the
        // chain at the record before it.
        assert(all.drop_last() =~= history + front);
        lemma_replay_extends_chain(entry_pc, history, front);
        lemma_chain_before_prefix(entry_pc, all, n, n);
        let before_last = chain_after(entry_pc, history + front);
        lemma_violation_none_iff_accepts(before_last, last);
        if well_chained(entry_pc, all) {
            lemma_well_chained_prefix(entry_pc, all, n);
        }
        if start.replay(records) is Ok {
            lemma_well_chained_extend(entry_pc, all);
        }
    }
}

/// Record by record and as a whole, the rules say the same: the validator
/// accepts a sequence of records from the start of a run exactly when the
/// sequence is well chained, and the chain then stands at the last record.
pub proof fn lemma_replay_ok_iff_well_chained(entry_pc: u32, records: Seq<RecordView>)
    ensures
        ChainState::starting_at(entry_pc).replay(records) is Ok <==> well_chained(
            entry_pc,
            records,
        ),
        well_chained(entry_pc, records) ==> ChainState::starting_at(entry_pc).replay(records)
            == Ok::<ChainState, Violation>(chain_after(entry_pc, records)),
{
    lemma_replay_extends_chain(entry_pc, Seq::<RecordView>::empty(), records);
}

/// In a well-chained sequence the chunk indexes count the records from
/// one, and the execution-chunk index of a record is the number of records
/// with trace events up to it.
pub proof fn lemma_well_chained_counts(entry_pc: u32, records: Seq<RecordView>, i: int)
    requires
        well_chained(entry_pc, records),
        0 <= i < records.len(),
    ensures
        records[i].values.chunk == i + 1,
        records[i].values.execution_chunk == executed(records.take(i + 1)),
    decreases i,
{
    let before = chain_before(entry_pc, records, i);
    assert(before.holds(Invariant::ChunkSequence, records[i]));
    assert(before.holds(Invariant::ExecutionChunkSequence, records[i]));
    let upto = records.take(i + 1);
    assert(upto.drop_last() == records.take(i));
    if i > 0 {
        lemma_well_chained_counts(entry_pc, records, i - 1);
    }
}

/// A sequence of records is well chained exactly when it obeys the rules
/// of the chain, rule by rule.
pub proof fn lemma_well_chained_iff_obeys_rules(entry_pc: u32, records: Seq<RecordView>)
    ensures
        well_chained(entry_pc, records) <==> obeys_rules(entry_pc, records),
{
    if well_chained(entry_pc, records) {
        assert forall|i: int| 0 <= i < records.len() implies #[trigger] rules_hold_at(
            entry_pc,
            records,
            i,
        ) by {
            let before = chain_before(entry_pc, records, i);
            lemma_well_chained_counts(entry_pc, records, i);
            if i > 0 {
                lemma_well_chained_counts(entry_pc, records, i - 1);
            }
            assert(before.holds(Invariant::ExecutionChunkSequence, records[i]));
            assert(before.holds(Invariant::FirstRecord, records[i]));
            assert(before.holds(Invariant::Continuity, records[i]));
            assert(before.holds(Invariant::ProgramCounter, records[i]));
            assert(before.holds(Invariant::ExitCode, records[i]));
        }
    }
    if obeys_rules(entry_pc, records) {
        assert forall|i: int| 0 <= i < records.len() implies (#[trigger] chain_before(
            entry_pc,
            records,
            i,
        )).accepts(records[i]) by {
            assert(rules_hold_at(entry_pc, records, i));
            if i > 0 {
                assert(rules_hold_at(entry_pc, records, i - 1));
            }
        }
    }
}

/// Once the program counter to come is zero it stays zero: in a
/// well-chained sequence the records after one that halts the program have
/// no trace events and do not move the program counter.
pub proof fn lemma_nothing_runs_after_halt(
    entry_pc: u32,
    records: Seq<RecordView>,
    i: int,
    j: int,
)
    requires
        well_chained(entry_pc, records),
        0 <= i < j < records.len(),
        records[i].values.next_pc == 0,
    ensures
        records[j].events == 0,
        records[j].values.start_pc == 0,
        records[j].values.next_pc == 0,
    decreases j - i,
{
    let before = chain_before(entry_pc, records, j);
    lemma_well_chained_counts(entry_pc, records, j - 1);
    assert(before.holds(Invariant::Continuity, records[j]));
    assert(before.holds(Invariant::ProgramCounter, records[j]));
    if i + 1 < j {
        lemma_nothing_runs_after_halt(entry_pc, records, i, j - 1);
    }
}

/// A run whose records are well chained, but whose last record does not
/// say that the program has halted, is rejected for its end, and for
/// nothing else.
pub proof fn lemma_unterminated_run_is_named(entry_pc: u32, records: Seq<RecordView>)
    requires
        well_chained(entry_pc, records),
        !complete_chain(entry_pc, records),
    ensures
        run_outcome(entry_pc, records) == Err::<ChainState, Violation>(
            Violation::EndWithoutHalt { next_pc: chain_after(entry_pc, records).next_pc },
        ),
{
    lemma_replay_ok_iff_well_chained(entry_pc, records);
    if records.len() > 0 {
        lemma_well_chained_counts(entry_pc, records, records.len() - 1);
    }
}

/// A whole run passes the validator exactly when its records form a
/// complete chain.
pub proof fn lemma_run_outcome_ok_iff_complete(entry_pc: u32, records: Seq<RecordView>)
    ensures
        run_outcome(entry_pc, records) is Ok <==> complete_chain(entry_pc, records),
{
    lemma_replay_ok_iff_well_chained(entry_pc, records);
}

} // verus!
