use proof_of_proof::cycles::{cycles_per_second, CycleAccountant};
use proof_of_proof::record::{ExecutionRecord, PublicValues};

fn record(events: usize) -> ExecutionRecord<u16> {
    ExecutionRecord {
        cpu_events: vec![0u16; events],
        public_values: PublicValues {
            start_pc: 0,
            next_pc: 0,
            chunk: 0,
            execution_chunk: 0,
            exit_code: 0,
        },
    }
}

#[test]
fn new_accountant_is_at_zero() {
    let totals = CycleAccountant::new();
    assert_eq!(totals, CycleAccountant { total_cycles: 0, execution_records: 0 });
}

#[test]
fn accumulate_adds_the_events_and_counts_executing_records() {
    let mut totals = CycleAccountant::new();
    totals.accumulate(&record(5));
    assert_eq!(totals, CycleAccountant { total_cycles: 5, execution_records: 1 });
    totals.accumulate(&record(0));
    assert_eq!(totals, CycleAccountant { total_cycles: 5, execution_records: 1 });
    totals.accumulate(&record(7));
    assert_eq!(totals, CycleAccountant { total_cycles: 12, execution_records: 2 });
}

#[test]
fn total_is_the_sum_over_the_records() {
    let counts = [3usize, 0, 11, 1, 0, 1000];
    let mut totals = CycleAccountant::new();
    for count in counts {
        totals.accumulate(&record(count));
    }
    assert_eq!(totals.total_cycles, counts.iter().sum::<usize>() as u128);
    assert_eq!(totals.execution_records, 4);
}

const SECOND: u128 = 1_000_000_000;

#[test]
fn rate_is_the_quotient_rounded_down() {
    assert_eq!(cycles_per_second(10, 3 * SECOND), 3);
    assert_eq!(cycles_per_second(1_000_000, 4 * SECOND), 250_000);
    assert_eq!(cycles_per_second(3, 10 * SECOND), 0);
    assert_eq!(cycles_per_second(0, 5 * SECOND), 0);
    assert_eq!(cycles_per_second(u128::MAX, SECOND), u128::MAX);
}

#[test]
fn elapsed_time_is_rounded_down_to_whole_seconds() {
    assert_eq!(cycles_per_second(100, 2 * SECOND - 1), 100);
    assert_eq!(cycles_per_second(100, 2 * SECOND), 50);
    assert_eq!(cycles_per_second(100, 2 * SECOND + 999_999_999), 50);
    assert_eq!(cycles_per_second(100, 3 * SECOND), 33);
}

#[test]
fn rate_under_one_second_is_zero() {
    assert_eq!(cycles_per_second(10, 0), 0);
    assert_eq!(cycles_per_second(10, 1), 0);
    assert_eq!(cycles_per_second(10, SECOND - 1), 0);
    assert_eq!(cycles_per_second(10, SECOND), 10);
    assert_eq!(cycles_per_second(u128::MAX, 0), 0);
    let mut totals = CycleAccountant::new();
    totals.accumulate(&record(9));
    assert_eq!(totals.rate(0), 0);
    assert_eq!(totals.rate(2 * SECOND), 4);
}
