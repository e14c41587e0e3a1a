//! Execution records: what the engine hands over at each chunk boundary.

use vstd::prelude::*;

verus! {

/// The metadata of one chunk by which consecutive chunks are chained.
#[derive(Clone, Copy, Debug, PartialEq, Eq, Structural)]
pub struct PublicValues {
    /// Program counter at which the chunk starts.
    pub start_pc: u32,
    /// Program counter at which the next chunk starts; zero once the program has halted.
    pub next_pc: u32,
    /// Index of the chunk among all chunks of the run, from one.
    pub chunk: u32,
    /// Index of the chunk among the chunks that executed instructions, from one.
    pub execution_chunk: u32,
    /// Exit code of the guest; zero unless the guest failed.
    pub exit_code: u32,
}

/// One chunk of the run: the trace events of the instructions executed in
/// it, in order, and its public values. `E` is the engine's event type; the
/// harness reads only how many events there are.
#[derive(Clone, Debug, PartialEq, Eq)]
pub struct ExecutionRecord<E> {
    pub cpu_events: Vec<E>,
    pub public_values: PublicValues,
}

/// What the engine reports at the end of one batch.
#[derive(Clone, Copy, Debug, PartialEq, Eq, Structural)]
pub struct BatchReport {
    /// Whether the program has run to its end.
    pub done: bool,
}

/// What the harness observes of a record: the number of its trace events
/// and its public values.
pub struct RecordView {
    pub events: nat,
    pub values: PublicValues,
}

impl<E> View for ExecutionRecord<E> {
    type V = RecordView;

    open spec fn view(&self) -> RecordView {
        RecordView { events: self.cpu_events@.len(), values: self.public_values }
    }
}

/// The views of a sequence of records, in order.
pub open spec fn views<E>(records: Seq<ExecutionRecord<E>>) -> Seq<RecordView> {
    Seq::new(records.len(), |i: int| records[i]@)
}

/// The number of trace events in all the records together.
pub open spec fn total_events(records: Seq<RecordView>) -> nat
    decreases records.len(),
{
    if records.len() == 0 {
        0
    } else {
        total_events(records.drop_last()) + records.last().events
    }
}

/// The number of records that have trace events.
pub open spec fn executed(records: Seq<RecordView>) -> nat
    decreases records.len(),
{
    if records.len() == 0 {
        0
    } else if records.last().events > 0 {
        executed(records.drop_last()) + 1
    } else {
        executed(records.drop_last())
    }
}

} // verus!
