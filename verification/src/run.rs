//! One run of a guest program, from loading to its end, as a state
//! machine. The machine decides; its driver does the outside work: it reads
//! the program and the guest input, runs the engine batch by batch, and
//! writes the output. After each piece of work the driver hands the outcome
//! to `Run::step` as an `Event` and gets back the next `Action`.

use crate::chain::{
    chain_after, complete_chain, lemma_replay_extends_chain,
    lemma_replay_stops_at_first_violation, lemma_well_chained_counts, well_chained, ChainState,
    Violation,
};
use crate::codec::{decode, encode, encode_commitment};
use crate::cycles::{lemma_totals_of_concat, rate_of, CycleAccountant};
use crate::layout::{flag_layout, parse, FormatError};
use crate::record::{executed, total_events, views, BatchReport, ExecutionRecord, RecordView};
use vstd::prelude::*;

verus! {

/// Where a run stands.
#[derive(Clone, Copy, Debug, PartialEq, Eq, Structural)]
pub enum Phase {
    /// The program and the guest input are being read.
    Loading,
    /// The engine is running the program, batch by batch.
    Running,
    /// The program has run to its end and its records chain.
    Completed,
    /// The run has failed.
    Faulted,
}

/// Why a run failed.
#[derive(Clone, Copy, Debug, PartialEq, Eq, Structural)]
pub enum Fault {
    /// The program or the guest input could not be read.
    Io,
    /// The guest input is not the layout of a guest input.
    Format(FormatError),
    /// The engine gave up: on an instruction that the program may not
    /// execute or that is none, or on memory outside the program's bounds.
    Emulation,
    /// The records do not chain.
    Chain(Violation),
}

/// What the driver tells the machine.
#[derive(Clone, Debug, PartialEq, Eq)]
pub enum Event<E> {
    /// The program and the guest input have been read: the program's entry
    /// and the bytes of the guest input.
    Loaded { entry_pc: u32, input: Vec<u8> },
    /// The program or the guest input could not be read.
    LoadFailed,
    /// The engine has run a batch: the records that it emitted, in order,
    /// and its report.
    Batch { records: Vec<ExecutionRecord<E>>, report: BatchReport },
    /// The engine gave up in the middle of a batch, and emitted nothing
    /// for it.
    EngineFault,
}

/// An event as a mathematical value.
pub enum EventView {
    Loaded { entry_pc: u32, input: Seq<u8> },
    LoadFailed,
    Batch { records: Seq<RecordView>, done: bool },
    EngineFault,
}

impl<E> View for Event<E> {
    type V = EventView;

    open spec fn view(&self) -> EventView {
        match self {
            Event::Loaded { entry_pc, input } => EventView::Loaded {
                entry_pc: *entry_pc,
                input: input@,
            },
            Event::LoadFailed => EventView::LoadFailed,
            Event::Batch { records, report } => EventView::Batch {
                records: views(records@),
                done: report.done,
            },
            Event::EngineFault => EventView::EngineFault,
        }
    }
}

impl EventView {
    /// Whether the event can come from an engine: no record holds more
    /// trace events than memory can.
    pub open spec fn wf(self) -> bool {
        self matches EventView::Batch { records, .. } ==> forall|i: int|
            0 <= i < records.len() ==> (#[trigger] records[i]).events <= usize::MAX
    }
}

/// What the machine asks of the driver.
#[derive(Clone, Debug, PartialEq, Eq)]
pub enum Action {
    /// Push these bytes into the engine's input stream, and run a batch.
    Feed(Vec<u8>),
    /// Run another batch.
    Emulate,
    /// The run has completed: report the cycle statistics, and write these
    /// bytes, if any, as the output artifact.
    Finish(Option<Vec<u8>>),
    /// The run has failed: write nothing, and report the fault.
    Abort(Fault),
    /// The event has no place in this phase of the run. Nothing has changed.
    Reject,
}

/// An action as a mathematical value.
pub enum ActionView {
    Feed(Seq<u8>),
    Emulate,
    Finish(Option<Seq<u8>>),
    Abort(Fault),
    Reject,
}

impl View for Action {
    type V = ActionView;

    open spec fn view(&self) -> ActionView {
        match self {
            Action::Feed(payload) => ActionView::Feed(payload@),
            Action::Emulate => ActionView::Emulate,
            Action::Finish(Some(artifact)) => ActionView::Finish(Some(artifact@)),
            Action::Finish(None) => ActionView::Finish(None),
            Action::Abort(fault) => ActionView::Abort(*fault),
            Action::Reject => ActionView::Reject,
        }
    }
}

/// The state of a run as a mathematical value.
pub struct RunView {
    /// Whether the run is for the cycle statistics alone.
    pub cycles_only: bool,
    /// Where the run stands.
    pub phase: Phase,
    /// The entry of the program; zero while loading.
    pub entry_pc: u32,
    /// The chain at the latest record.
    pub chain: ChainState,
    /// The totals over the records so far.
    pub cycles: CycleAccountant,
    /// Why the run failed, if it did.
    pub fault: Option<Fault>,
    /// The records emitted and accepted so far, in order.
    pub history: Seq<RecordView>,
}

impl RunView {
    /// A run before anything has been read.
    pub open spec fn fresh(cycles_only: bool) -> RunView {
        RunView {
            cycles_only,
            phase: Phase::Loading,
            entry_pc: 0,
            chain: ChainState::starting_at(0),
            cycles: CycleAccountant::zero(),
            fault: None,
            history: Seq::empty(),
        }
    }

    /// The chain that belongs to the history of the run.
    pub open spec fn chain_of_history(self) -> ChainState {
        ChainState {
            next_pc: chain_after(self.entry_pc, self.history).next_pc,
            chunk: chain_after(self.entry_pc, self.history).chunk,
            execution_chunk: chain_after(self.entry_pc, self.history).execution_chunk,
            ended: self.phase is Completed,
        }
    }

    /// What holds of a run at every moment: its records are well chained;
    /// the chain and the totals are those of its records; it is still
    /// running only while the program has not halted, and has completed
    /// only with a complete chain.
    pub open spec fn wf(self) -> bool {
        &&& self.phase is Faulted <==> self.fault is Some
        &&& self.phase is Loading ==> self.history.len() == 0
        &&& well_chained(self.entry_pc, self.history)
        &&& self.chain == self.chain_of_history()
        &&& self.cycles.total_cycles == total_events(self.history)
        &&& self.cycles.execution_records == executed(self.history)
        &&& total_events(self.history) <= self.history.len() * u64::MAX
        &&& self.phase is Running ==> !self.chain.halted()
        &&& self.phase is Completed ==> complete_chain(self.entry_pc, self.history)
    }

    /// The run after it has failed with `fault`, and the action that says so.
    pub open spec fn failed(self, fault: Fault) -> (RunView, ActionView) {
        (
            RunView {
                cycles_only: self.cycles_only,
                phase: Phase::Faulted,
                entry_pc: self.entry_pc,
                chain: self.chain,
                cycles: self.cycles,
                fault: Some(fault),
                history: self.history,
            },
            ActionView::Abort(fault),
        )
    }

    /// The run with a program loaded that starts at `entry_pc`.
    pub open spec fn started(self, entry_pc: u32) -> RunView {
        RunView {
            cycles_only: self.cycles_only,
            phase: Phase::Running,
            entry_pc,
            chain: ChainState::starting_at(entry_pc),
            cycles: self.cycles,
            fault: self.fault,
            history: self.history,
        }
    }

    /// The run after a batch whose records chain onto its history.
    pub open spec fn extended(self, records: Seq<RecordView>, chain: ChainState) -> RunView {
        RunView {
            cycles_only: self.cycles_only,
            phase: if chain.ended {
                Phase::Completed
            } else {
                Phase::Running
            },
            entry_pc: self.entry_pc,
            chain,
            cycles: self.cycles.plus_all(records),
            fault: self.fault,
            history: self.history + records,
        }
    }

    /// The output artifact of a completed run: none where the run is for
    /// the cycle statistics alone, and else the truth value that the guest
    /// commits after it has attested every proof.
    pub open spec fn artifact(self) -> Option<Seq<u8>> {
        if self.cycles_only {
            None
        } else {
            Some(flag_layout(true))
        }
    }

    /// The run after the event, and the action that the machine asks for.
    ///
    /// While loading, bytes that are the layout of a guest input start the
    /// run, and the guest is fed those bytes, decoded and encoded again; any
    /// other bytes, and a failure to read, fail the run. While running, a
    /// batch is taken whole or not at all: its records are validated in
    /// order, then the engine's report. The first violation fails the run.
    /// A batch without violation extends the history, and completes the run
    /// if the engine reported the end. A fault of the engine fails the run.
    /// Every other event is rejected and changes nothing: a completed or
    /// failed run stays as it is.
    pub open spec fn next(self, event: EventView) -> (RunView, ActionView) {
        match (self.phase, event) {
            (Phase::Loading, EventView::Loaded { entry_pc, input }) => match parse(input) {
                Ok(_) => (self.started(entry_pc), ActionView::Feed(input)),
                Err(e) => self.failed(Fault::Format(e)),
            },
            (Phase::Loading, EventView::LoadFailed) => self.failed(Fault::Io),
            (Phase::Running, EventView::Batch { records, done }) => match self.chain.replay(
                records,
            ) {
                Err(v) => self.failed(Fault::Chain(v)),
                Ok(chain) => match chain.settled(done) {
                    Err(v) => self.failed(Fault::Chain(v)),
                    Ok(chain) => (
                        self.extended(records, chain),
                        if done {
                            ActionView::Finish(self.artifact())
                        } else {
                            ActionView::Emulate
                        },
                    ),
                },
            },
            (Phase::Running, EventView::EngineFault) => self.failed(Fault::Emulation),
            _ => (self, ActionView::Reject),
        }
    }

    /// The run after the events of `events`, one after the other, from a
    /// fresh run on.
    pub open spec fn after(cycles_only: bool, events: Seq<EventView>) -> RunView
        decreases events.len(),
    {
        if events.len() == 0 {
            RunView::fresh(cycles_only)
        } else {
            RunView::after(cycles_only, events.drop_last()).next(events.last()).0
        }
    }
}

/// The statistics of a run.
#[derive(Clone, Copy, Debug, PartialEq, Eq, Structural)]
pub struct CycleReport {
    /// The number of trace events in all records: one cycle each.
    pub total_cycles: u128,
    /// The number of records.
    pub records: u32,
    /// The number of records with trace events.
    pub execution_records: u32,
    /// Cycles per whole second elapsed; zero under one second.
    pub cycles_per_second: u128,
}

/// One run of a guest program.
pub struct Run {
    cycles_only: bool,
    phase: Phase,
    entry_pc: u32,
    chain: ChainState,
    cycles: CycleAccountant,
    fault: Option<Fault>,
    history: Ghost<Seq<RecordView>>,
}

impl View for Run {
    type V = RunView;

    closed spec fn view(&self) -> RunView {
        RunView {
            cycles_only: self.cycles_only,
            phase: self.phase,
            entry_pc: self.entry_pc,
            chain: self.chain,
            cycles: self.cycles,
            fault: self.fault,
            history: self.history@,
        }
    }
}

impl Run {
    #[verifier::type_invariant]
    spec fn well_formed(self) -> bool {
        self@.wf()
    }

    /// Does nothing when run; to the verifier it shows that what holds of
    /// a run at every moment holds of this one.
    pub fn witness_wf(&self)
        ensures
            self@.wf(),
    {
        proof {
            use_type_invariant(self);
        }
    }

    /// A run before anything has been read. With `cycles_only` the run is
    /// for the cycle statistics alone and has no output artifact.
    pub fn new(cycles_only: bool) -> (run: Run)
        ensures
            run@ == RunView::fresh(cycles_only),
    {
        Run {
            cycles_only,
            phase: Phase::Loading,
            entry_pc: 0,
            chain: ChainState::start(0),
            cycles: CycleAccountant::new(),
            fault: None,
            history: Ghost(Seq::empty()),
        }
    }

    /// Where the run stands.
    pub fn phase(&self) -> (phase: Phase)
        ensures
            phase == self@.phase,
    {
        self.phase
    }

    /// Whether the run is for the cycle statistics alone.
    pub fn cycles_only(&self) -> (cycles_only: bool)
        ensures
            cycles_only == self@.cycles_only,
    {
        self.cycles_only
    }

    /// The entry of the program; zero while loading.
    pub fn entry_pc(&self) -> (entry_pc: u32)
        ensures
            entry_pc == self@.entry_pc,
    {
        self.entry_pc
    }

    /// The chain at the latest record.
    pub fn chain(&self) -> (chain: ChainState)
        ensures
            chain == self@.chain,
    {
        self.chain
    }

    /// The totals over the records so far.
    pub fn cycles(&self) -> (cycles: CycleAccountant)
        ensures
            cycles == self@.cycles,
    {
        self.cycles
    }

    /// Why the run failed, if it did.
    pub fn fault(&self) -> (fault: Option<Fault>)
        ensures
            fault == self@.fault,
    {
        self.fault
    }

    /// The statistics of the run, after `elapsed_nanos` nanoseconds: the
    /// cycles are the trace events of all the records so far.
    pub fn report(&self, elapsed_nanos: u128) -> (report: CycleReport)
        ensures
            report.total_cycles == total_events(self@.history),
            report.records == self@.history.len(),
            report.execution_records == executed(self@.history),
            report.cycles_per_second == rate_of(report.total_cycles, elapsed_nanos),
    {
        proof {
            use_type_invariant(self);
            let history = self@.history;
            if history.len() > 0 {
                lemma_well_chained_counts(self@.entry_pc, history, history.len() - 1);
            }
        }
        CycleReport {
            total_cycles: self.cycles.total_cycles,
            records: self.chain.chunk,
            execution_records: self.cycles.execution_records,
            cycles_per_second: self.cycles.rate(elapsed_nanos),
        }
    }

    /// Validates the records of a batch in order and counts them in, up to
    /// the first that breaks a rule of the chain.
    fn absorb<E>(
        chain: ChainState,
        cycles: CycleAccountant,
        records: &[ExecutionRecord<E>],
    ) -> (res: Result<(ChainState, CycleAccountant), Violation>)
        requires
            cycles.execution_records == chain.execution_chunk,
            cycles.total_cycles <= chain.chunk * u64::MAX,
        ensures
            match res {
                Ok((after, totals)) => {
                    &&& chain.replay(views(records@)) == Ok::<ChainState, Violation>(after)
                    &&& totals.total_cycles == cycles.total_cycles + total_events(views(records@))
                    &&& totals.execution_records == cycles.execution_records + executed(
                        views(records@),
                    )
                },
                Err(v) => chain.replay(views(records@)) == Err::<ChainState, Violation>(v),
            },
    {
        let ghost all = views(records@);
        let mut after = chain;
        let mut totals = cycles;
        let mut i: usize = 0;
        while i < records.len()
            invariant
                i <= records.len(),
                all == views(records@),
                chain.replay(all.take(i as int)) == Ok::<ChainState, Violation>(after),
                totals.total_cycles == cycles.total_cycles + total_events(all.take(i as int)),
                totals.execution_records == cycles.execution_records + executed(
                    all.take(i as int),
                ),
                totals.execution_records == after.execution_chunk,
                totals.total_cycles <= after.chunk * u64::MAX,
            decreases records.len() - i,
        {
            proof {
                assert(all.take(i + 1).drop_last() == all.take(i as int));
            }
            match after.validate(&records[i]) {
                Ok(next) => {
                    proof {
                        assert(records[i as int].cpu_events.len() == records[i as int]@.events);
                    }
                    totals.accumulate(&records[i]);
                    after = next;
                },
                Err(v) => {
                    proof {
                        lemma_replay_stops_at_first_violation(chain, all, i + 1);
                    }
                    return Err(v);
                },
            }
            i += 1;
        }
        proof {
            assert(all.take(i as int) == all);
        }
        Ok((after, totals))
    }

    /// Takes the outcome of the driver's latest piece of work, and says
    /// what the driver is to do next.
    pub fn step<E>(self, event: Event<E>) -> (out: (Run, Action))
        ensures
            (out.0@, out.1@) == self@.next(event@),
    {
        proof {
            use_type_invariant(&self);
            if event@.wf() {
                lemma_next_preserves_wf(self@, event@);
            }
        }
        match event {
            Event::Loaded { entry_pc, input } => match self.phase {
                Phase::Loading => match decode(input.as_slice()) {
                    Ok(guest_input) => {
                        let payload = encode(&guest_input);
                        let started = Run {
                            cycles_only: self.cycles_only,
                            phase: Phase::Running,
                            entry_pc,
                            chain: ChainState::start(entry_pc),
                            cycles: self.cycles,
                            fault: self.fault,
                            history: self.history,
                        };
                        (started, Action::Feed(payload))
                    },
                    Err(e) => self.fail(Fault::Format(e)),
                },
                _ => (self, Action::Reject),
            },
            Event::LoadFailed => match self.phase {
                Phase::Loading => self.fail(Fault::Io),
                _ => (self, Action::Reject),
            },
            Event::Batch { records, report } => match self.phase {
                Phase::Running => {
                    proof {
                        let history = self@.history;
                        if history.len() > 0 {
                            lemma_well_chained_counts(self@.entry_pc, history, history.len() - 1);
                            assert(history.take(history.len() as int) == history);
                        }
                        assert forall|i: int| 0 <= i < records@.len() implies (#[trigger] views(
                            records@,
                        )[i]).events <= usize::MAX by {
                            assert(records@[i].cpu_events.len() == views(records@)[i].events);
                        }
                    }
                    let absorbed = match Run::absorb(self.chain, self.cycles, records.as_slice()) {
                        Ok(absorbed) => absorbed,
                        Err(v) => {
                            return self.fail(Fault::Chain(v));
                        },
                    };
                    let chain = match absorbed.0.conclude(report.done) {
                        Ok(chain) => chain,
                        Err(v) => {
                            return self.fail(Fault::Chain(v));
                        },
                    };
                    let extended = Run {
                        cycles_only: self.cycles_only,
                        phase: if report.done {
                            Phase::Completed
                        } else {
                            Phase::Running
                        },
                        entry_pc: self.entry_pc,
                        chain,
                        cycles: absorbed.1,
                        fault: self.fault,
                        history: Ghost(self.history@ + views(records@)),
                    };
                    let action = if report.done {
                        if self.cycles_only {
                            Action::Finish(None)
                        } else {
                            Action::Finish(Some(encode_commitment(true)))
                        }
                    } else {
                        Action::Emulate
                    };
                    (extended, action)
                },
                _ => (self, Action::Reject),
            },
            Event::EngineFault => match self.phase {
                Phase::Running => self.fail(Fault::Emulation),
                _ => (self, Action::Reject),
            },
        }
    }

    /// The run failed with `fault`.
    fn fail(self, fault: Fault) -> (out: (Run, Action))
        requires
            self@.phase is Loading || self@.phase is Running,
        ensures
            (out.0@, out.1@) == self@.failed(fault),
    {
        proof {
            use_type_invariant(&self);
        }
        let failed = Run {
            cycles_only: self.cycles_only,
            phase: Phase::Faulted,
            entry_pc: self.entry_pc,
            chain: self.chain,
            cycles: self.cycles,
            fault: Some(fault),
            history: self.history,
        };
        (failed, Action::Abort(fault))
    }
}

/// The trace events of records that each fit in memory fit in a multiple
/// of what memory can hold.
pub proof fn lemma_total_events_bound(records: Seq<RecordView>)
    requires
        forall|i: int| 0 <= i < records.len() ==> (#[trigger] records[i]).events <= usize::MAX,
    ensures
        total_events(records) <= records.len() * u64::MAX,
    decreases records.len(),
{
    if records.len() > 0 {
        let front = records.drop_last();
        assert forall|i: int| 0 <= i < front.len() implies (#[trigger] front[i]).events
            <= usize::MAX by {}
        lemma_total_events_bound(front);
    }
}

/// No event breaks what holds of a run.
pub proof fn lemma_next_preserves_wf(run: RunView, event: EventView)
    requires
        run.wf(),
        event.wf(),
    ensures
        run.next(event).0.wf(),
{
    match (run.phase, event) {
        (Phase::Running, EventView::Batch { records, done }) => {
            if let Ok(chain) = run.chain.replay(records) {
                if chain.settled(done) is Ok {
                    // The batch chains onto the history, and the totals of
                    // the two add up without leaving their types: there are
                    // no more records than a chunk index can count.
                    let all = run.history + records;
                    lemma_replay_extends_chain(run.entry_pc, run.history, records);
                    lemma_totals_of_concat(run.history, records);
                    lemma_total_events_bound(records);
                    assert(total_events(all) <= all.len() * u64::MAX) by (nonlinear_arith)
                        requires
                            total_events(all) == total_events(run.history) + total_events(
                                records,
                            ),
                            total_events(run.history) <= run.history.len() * u64::MAX,
                            total_events(records) <= records.len() * u64::MAX,
                            all.len() == run.history.len() + records.len(),
                    ;
                    if all.len() > 0 {
                        lemma_well_chained_counts(run.entry_pc, all, all.len() - 1);
                        assert(all.take(all.len() as int) == all);
                        assert(all.len() * u64::MAX <= u32::MAX * u64::MAX) by (nonlinear_arith)
                            requires
                                all.len() <= u32::MAX,
                        ;
                    }
                }
            }
        },
        _ => {},
    }
}

/// Whatever the events, what holds of a run holds after them.
pub proof fn lemma_every_run_is_well_formed(cycles_only: bool, events: Seq<EventView>)
    requires
        forall|i: int| 0 <= i < events.len() ==> (#[trigger] events[i]).wf(),
    ensures
        RunView::after(cycles_only, events).wf(),
    decreases events.len(),
{
    if events.len() > 0 {
        let front = events.drop_last();
        assert forall|i: int| 0 <= i < front.len() implies (#[trigger] front[i]).wf() by {}
        lemma_every_run_is_well_formed(cycles_only, front);
        lemma_next_preserves_wf(RunView::after(cycles_only, front), events.last());
    }
}

/// Every run that has completed has emitted a complete chain: its records
/// obey every rule of the chain, from the first, which starts at the
/// program's entry, to the last, which says that the program has halted.
pub proof fn lemma_completed_run_has_complete_chain(cycles_only: bool, events: Seq<EventView>)
    requires
        forall|i: int| 0 <= i < events.len() ==> (#[trigger] events[i]).wf(),
    ensures
        RunView::after(cycles_only, events).phase is Completed ==> complete_chain(
            RunView::after(cycles_only, events).entry_pc,
            RunView::after(cycles_only, events).history,
        ),
{
    lemma_every_run_is_well_formed(cycles_only, events);
}

/// At every moment of every run, the cycles counted are the trace events
/// of the records emitted, and the execution records counted are the
/// records with trace events: the chain and the accountant agree on them.
pub proof fn lemma_cycles_are_the_events_of_the_records(cycles_only: bool, events: Seq<EventView>)
    requires
        forall|i: int| 0 <= i < events.len() ==> (#[trigger] events[i]).wf(),
    ensures
        RunView::after(cycles_only, events).cycles.total_cycles == total_events(
            RunView::after(cycles_only, events).history,
        ),
        RunView::after(cycles_only, events).cycles.execution_records == executed(
            RunView::after(cycles_only, events).history,
        ),
        RunView::after(cycles_only, events).chain.execution_chunk == executed(
            RunView::after(cycles_only, events).history,
        ),
        RunView::after(cycles_only, events).chain.chunk == RunView::after(
            cycles_only,
            events,
        ).history.len(),
{
    lemma_every_run_is_well_formed(cycles_only, events);
    let run = RunView::after(cycles_only, events);
    if run.history.len() > 0 {
        lemma_well_chained_counts(run.entry_pc, run.history, run.history.len() - 1);
        assert(run.history.take(run.history.len() as int) == run.history);
    }
}

/// The batch of which the engine reports the end is the last: the run
/// completes or fails with it, and it completes only where the latest
/// record says that the program has halted.
pub proof fn lemma_reported_end_ends_the_run(run: RunView, records: Seq<RecordView>)
    requires
        run.phase is Running,
    ensures
        ({
            let after = run.next(EventView::Batch { records, done: true }).0;
            &&& after.phase is Completed || after.phase is Faulted
            &&& after.phase is Completed ==> after.chain.halted() && after.chain.next_pc == 0
        }),
{
}

/// A batch of which the engine does not report the end leaves the run
/// running only where the program has not halted.
pub proof fn lemma_run_goes_on_before_halt(run: RunView, records: Seq<RecordView>)
    requires
        run.phase is Running,
    ensures
        ({
            let after = run.next(EventView::Batch { records, done: false }).0;
            &&& after.phase is Running || after.phase is Faulted
            &&& after.phase is Running ==> !after.chain.halted()
        }),
{
}

/// A run that has completed or failed stays as it is: every event is
/// rejected, and no further batch is asked for.
pub proof fn lemma_ended_run_stays(run: RunView, event: EventView)
    requires
        run.phase is Completed || run.phase is Faulted,
    ensures
        run.next(event) == (run, ActionView::Reject),
{
}

/// A failed run asks for no output: the machine asks the driver to write
/// an artifact only with the event that completes the run.
pub proof fn lemma_artifact_only_on_completion(run: RunView, event: EventView)
    ensures
        run.next(event).1 is Finish ==> run.phase is Running && run.next(event).0.phase
            is Completed,
        run.next(event).0.phase is Faulted && !(run.phase is Faulted) ==> run.next(event).1
            is Abort,
{
}

/// The events of a run that loads a program and then runs it batch by
/// batch: the load, and one event for each batch, given as its records and
/// whether the engine reported the end with it.
pub open spec fn events_of_run(
    entry_pc: u32,
    input: Seq<u8>,
    batches: Seq<(Seq<RecordView>, bool)>,
) -> Seq<EventView> {
    seq![EventView::Loaded { entry_pc, input }] + Seq::new(
        batches.len(),
        |i: int| EventView::Batch { records: batches[i].0, done: batches[i].1 },
    )
}

/// The records of all the batches, in the order of emission.
pub open spec fn records_of(batches: Seq<(Seq<RecordView>, bool)>) -> Seq<RecordView>
    decreases batches.len(),
{
    if batches.len() == 0 {
        Seq::empty()
    } else {
        records_of(batches.drop_last()) + batches.last().0
    }
}

/// The history of a run is what the engine emitted: while a run is
/// running, and when it completes, its history holds the records of all
/// its batches, in the order of emission, and its entry is the program's.
pub proof fn lemma_history_is_what_was_emitted(
    cycles_only: bool,
    entry_pc: u32,
    input: Seq<u8>,
    batches: Seq<(Seq<RecordView>, bool)>,
)
    ensures
        ({
            let events = events_of_run(entry_pc, input, batches);
            let run = RunView::after(cycles_only, events);
            let before = RunView::after(cycles_only, events.drop_last());
            run.phase is Running || (run.phase is Completed && before.phase is Running) ==> {
                &&& run.entry_pc == entry_pc
                &&& run.history == records_of(batches)
            }
        }),
    decreases batches.len(),
{
    let events = events_of_run(entry_pc, input, batches);
    if batches.len() > 0 {
        let front = batches.drop_last();
        assert(events.drop_last() =~= events_of_run(entry_pc, input, front));
        lemma_history_is_what_was_emitted(cycles_only, entry_pc, input, front);
    }
}

/// Two runs that see the same events go the same way: the state of a run
/// and the actions that it asks for depend on nothing but the events, and
/// of the records on nothing but their public values and the number of
/// their trace events.
pub proof fn lemma_same_events_same_run(
    cycles_only: bool,
    first: Seq<EventView>,
    second: Seq<EventView>,
    event: EventView,
)
    requires
        first =~= second,
    ensures
        RunView::after(cycles_only, first) == RunView::after(cycles_only, second),
        RunView::after(cycles_only, first).next(event) == RunView::after(cycles_only, second).next(
            event,
        ),
{
}

} // verus!
