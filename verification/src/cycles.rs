//! Cycle accounting: the running count of trace events and of the records
//! that hold them, and the rate at which the run went.

use crate::record::{executed, total_events, ExecutionRecord, RecordView};
use vstd::prelude::*;

verus! {

/// The running totals of a run.
#[derive(Clone, Copy, Debug, PartialEq, Eq, Structural)]
pub struct CycleAccountant {
    /// The number of trace events seen: one cycle each.
    pub total_cycles: u128,
    /// The number of records seen that had trace events.
    pub execution_records: u32,
}

impl CycleAccountant {
    /// The totals before any record.
    pub open spec fn zero() -> CycleAccountant {
        CycleAccountant { total_cycles: 0, execution_records: 0 }
    }

    /// Whether the totals have room for the record `r`.
    pub open spec fn has_room(self, r: RecordView) -> bool {
        &&& self.total_cycles + r.events <= u128::MAX
        &&& r.events > 0 ==> self.execution_records < u32::MAX
    }

    /// The totals with the record `r` counted in.
    pub open spec fn plus(self, r: RecordView) -> CycleAccountant {
        CycleAccountant {
            total_cycles: (self.total_cycles + r.events) as u128,
            execution_records: if r.events > 0 {
                (self.execution_records + 1) as u32
            } else {
                self.execution_records
            },
        }
    }

    /// The totals with all the records of `records` counted in.
    pub open spec fn plus_all(self, records: Seq<RecordView>) -> CycleAccountant {
        CycleAccountant {
            total_cycles: (self.total_cycles + total_events(records)) as u128,
            execution_records: (self.execution_records + executed(records)) as u32,
        }
    }

    /// The totals before any record.
    pub fn new() -> (totals: CycleAccountant)
        ensures
            totals == CycleAccountant::zero(),
    {
        CycleAccountant { total_cycles: 0, execution_records: 0 }
    }

    /// Counts a record in: its trace events are added to the total, and it
    /// is counted among the execution records if it has any.
    pub fn accumulate<E>(&mut self, record: &ExecutionRecord<E>)
        requires
            old(self).has_room(record@),
        ensures
            *final(self) == old(self).plus(record@),
            final(self).total_cycles == old(self).total_cycles + record@.events,
            final(self).execution_records == old(self).execution_records + if record@.events
                > 0 {
                1int
            } else {
                0int
            },
    {
        let events = record.cpu_events.len();
        self.total_cycles = self.total_cycles + events as u128;
        if events > 0 {
            self.execution_records = self.execution_records + 1;
        }
    }

    /// The rate of the run so far, in cycles per second, after
    /// `elapsed_nanos` nanoseconds.
    pub fn rate(&self, elapsed_nanos: u128) -> (rate: u128)
        ensures
            rate == rate_of(self.total_cycles, elapsed_nanos),
    {
        cycles_per_second(self.total_cycles, elapsed_nanos)
    }
}

/// The number of nanoseconds in a second.
pub const NANOS_PER_SECOND: u128 = 1_000_000_000;

/// Cycles per second: the quotient of the cycles by the whole seconds
/// elapsed, rounded down; zero where less than one whole second has elapsed.
pub open spec fn rate_of(total_cycles: u128, elapsed_nanos: u128) -> u128 {
    if elapsed_nanos < NANOS_PER_SECOND {
        0
    } else {
        total_cycles / (elapsed_nanos / NANOS_PER_SECOND)
    }
}

/// The rate of a run in cycles per second, from the cycles counted and the
/// time elapsed in nanoseconds. The time is rounded down to whole seconds,
/// and a run of less than one whole second has rate zero: nothing is divided
/// by zero.
pub fn cycles_per_second(total_cycles: u128, elapsed_nanos: u128) -> (rate: u128)
    ensures
        rate == rate_of(total_cycles, elapsed_nanos),
{
    let elapsed_secs = elapsed_nanos / NANOS_PER_SECOND;
    if elapsed_secs == 0 {
        0
    } else {
        total_cycles / elapsed_secs
    }
}

/// The totals after the records of `records` have been counted in one by
/// one, in order.
pub open spec fn counted(totals: CycleAccountant, records: Seq<RecordView>) -> CycleAccountant
    decreases records.len(),
{
    if records.len() == 0 {
        totals
    } else {
        counted(totals, records.drop_last()).plus(records.last())
    }
}

/// Counting records in one by one sums up: where the totals have room for
/// them, the cycles counted are those before and the trace events of all
/// the records, and the execution records counted are those before and the
/// records with trace events.
pub proof fn lemma_counted_is_the_sum(totals: CycleAccountant, records: Seq<RecordView>)
    requires
        totals.total_cycles + total_events(records) <= u128::MAX,
        totals.execution_records + executed(records) <= u32::MAX,
    ensures
        counted(totals, records) == totals.plus_all(records),
        counted(totals, records).total_cycles == totals.total_cycles + total_events(records),
        counted(totals, records).execution_records == totals.execution_records + executed(
            records,
        ),
        records.len() > 0 ==> counted(totals, records.drop_last()).has_room(records.last()),
    decreases records.len(),
{
    if records.len() > 0 {
        lemma_counted_is_the_sum(totals, records.drop_last());
    }
}

/// The trace events of two sequences of records, one after the other, are
/// those of the first and those of the second; so for the records that have
/// trace events.
pub proof fn lemma_totals_of_concat(first: Seq<RecordView>, second: Seq<RecordView>)
    ensures
        total_events(first + second) == total_events(first) + total_events(second),
        executed(first + second) == executed(first) + executed(second),
    decreases second.len(),
{
    if second.len() > 0 {
        assert((first + second).drop_last() =~= first + second.drop_last());
        lemma_totals_of_concat(first, second.drop_last());
    }
}

} // verus!
