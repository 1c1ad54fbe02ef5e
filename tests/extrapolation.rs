use log_sampling::estimate::{
    estimated_size, extrapolate, extrapolate_sorted, select_range, BlockRange, Estimate,
    EstimateError,
};
use log_sampling::record::Record;

fn rec(block: u64, log_count: u64, data_len: u64, topic_count: u64) -> Record {
    Record { block, log_count, data_len, topic_count }
}

const ALL: BlockRange = BlockRange { start: 0, end: None };

#[test]
fn two_records_extrapolate_first_over_span() {
    for second in [rec(10, 0, 0, 0), rec(10, 999, 12345, 77), rec(10, u64::MAX, u64::MAX, u64::MAX)] {
        let e = extrapolate(&[rec(0, 10, 100, 2), second], ALL).unwrap();
        assert_eq!(e.total_blocks, 10);
        assert_eq!(e.total_logs, 100);
        assert_eq!(e.total_data, 1000);
        assert_eq!(e.total_topics, 20);
        assert_eq!(e.samples, 2);
        assert_eq!(e.first_block, 0);
        assert_eq!(e.last_block, 10);
    }
}

#[test]
fn duplicate_block_uses_last_written_and_adds_no_span() {
    let a = rec(5, 1, 10, 100);
    let b = rec(5, 3, 30, 300);
    let c = rec(15, 7, 70, 700);
    let with_dup = extrapolate(&[a, b, c], ALL).unwrap();
    let without = extrapolate(&[b, c], ALL).unwrap();
    assert_eq!(with_dup.total_blocks, without.total_blocks);
    assert_eq!(with_dup.total_logs, without.total_logs);
    assert_eq!(with_dup.total_data, without.total_data);
    assert_eq!(with_dup.total_topics, without.total_topics);
    assert_eq!(with_dup.total_blocks, 10);
    assert_eq!(with_dup.total_logs, 30);
    assert_eq!(with_dup.total_data, 300);
    assert_eq!(with_dup.total_topics, 3000);
}

#[test]
fn duplicate_written_after_later_block_still_wins() {
    let e = extrapolate(&[rec(5, 1, 0, 0), rec(15, 0, 0, 0), rec(5, 2, 0, 0)], ALL).unwrap();
    assert_eq!(e.total_logs, 20);
}

#[test]
fn shuffled_input_gives_same_totals() {
    let sorted = vec![rec(0, 4, 40, 8), rec(3, 1, 5, 2), rec(10, 6, 60, 12), rec(12, 2, 9, 1)];
    let shuffled = vec![sorted[2], sorted[0], sorted[3], sorted[1]];
    let a = extrapolate(&sorted, ALL).unwrap();
    let b = extrapolate(&shuffled, ALL).unwrap();
    assert_eq!(a, b);
    assert_eq!(a.total_blocks, 12);
    assert_eq!(a.total_logs, 4 * 3 + 7 + 6 * 2);
    assert_eq!(a.total_data, 40 * 3 + 5 * 7 + 60 * 2);
    assert_eq!(a.total_topics, 8 * 3 + 2 * 7 + 12 * 2);
}

#[test]
fn range_filter_applies_before_count_and_sum() {
    let records = [rec(1, 100, 0, 0), rec(20, 1, 2, 3), rec(30, 5, 5, 5), rec(40, 9, 9, 9)];
    let e = extrapolate(&records, BlockRange { start: 10, end: Some(35) }).unwrap();
    assert_eq!(e.samples, 2);
    assert_eq!(e.first_block, 20);
    assert_eq!(e.last_block, 30);
    assert_eq!(e.total_blocks, 10);
    assert_eq!(e.total_logs, 10);
    let r = extrapolate(&records, BlockRange { start: 35, end: None });
    assert_eq!(r, Err(EstimateError::InsufficientData));
    assert_eq!(select_range(&records, BlockRange { start: 20, end: Some(40) }), vec![records[1], records[2]]);
}

#[test]
fn fewer_than_two_records_is_insufficient() {
    assert_eq!(extrapolate(&[], ALL), Err(EstimateError::InsufficientData));
    assert_eq!(extrapolate(&[rec(4, 1, 1, 1)], ALL), Err(EstimateError::InsufficientData));
    assert_eq!(
        extrapolate(&[rec(4, 1, 1, 1), rec(9, 1, 1, 1)], BlockRange { start: 5, end: None }),
        Err(EstimateError::InsufficientData)
    );
}

#[test]
fn largest_values_do_not_overflow() {
    let e = extrapolate(&[rec(0, u64::MAX, u64::MAX, u64::MAX), rec(u64::MAX, 0, 0, 0)], ALL).unwrap();
    let m = u64::MAX as u128;
    assert_eq!(e.total_blocks, u64::MAX);
    assert_eq!(e.total_logs, m * m);
    assert_eq!(e.total_data, m * m);
    assert_eq!(estimated_size(e.total_logs, e.total_data, e.total_topics), None);
}

#[test]
fn sorted_input_extrapolates_directly() {
    let e = extrapolate_sorted(&[rec(2, 3, 4, 5), rec(2, 1, 1, 1), rec(6, 0, 0, 0)]);
    assert_eq!(
        e,
        Estimate {
            samples: 3,
            first_block: 2,
            last_block: 6,
            total_blocks: 4,
            total_logs: 4,
            total_data: 4,
            total_topics: 4,
        }
    );
}

#[test]
fn size_estimate_scenario() {
    assert_eq!(estimated_size(1000, 5000, 200), Some(64400));
    assert_eq!(estimated_size(0, 0, 0), Some(0));
    assert_eq!(estimated_size(1, 0, 0), Some(53));
    assert_eq!(estimated_size(0, 0, 1), Some(32));
    assert_eq!(estimated_size(u128::MAX, 0, 0), None);
    assert_eq!(estimated_size(0, u128::MAX, 1), None);
}

#[test]
fn shuffled_input_with_identical_duplicates_gives_same_totals() {
    let a = rec(7, 2, 20, 4);
    let b = rec(1, 5, 50, 10);
    let c = rec(30, 1, 1, 1);
    let first = extrapolate(&[a, b, a, c, b], ALL).unwrap();
    let second = extrapolate(&[c, a, b, b, a], ALL).unwrap();
    assert_eq!(first, second);
    assert_eq!(first.total_blocks, 29);
    assert_eq!(first.total_logs, 5 * 6 + 2 * 23);
}
