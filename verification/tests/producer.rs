use jira_etl::asyncs;
use jira_etl::pipeline::producer::{batch_range, BatchPlan, PushError};

#[test]
fn test_range_above_break() {
    assert_eq!(batch_range(12, 10).start, 1);
    assert_eq!(batch_range(12, 10).end, 3);
}

#[test]
fn test_range_below_break() {
    assert_eq!(batch_range(9, 10).start, 1);
    assert_eq!(batch_range(9, 10).end, 2);
}

#[test]
fn range_exact_multiple_has_no_extra_batch() {
    assert_eq!(batch_range(20, 10), 1..3);
    assert_eq!(batch_range(21, 10), 1..4);
}

#[test]
fn range_without_items_still_has_one_batch() {
    assert_eq!(batch_range(0, 10), 1..2);
}

#[test]
fn range_batch_size_one() {
    assert_eq!(batch_range(5, 1), 1..6);
}

#[test]
fn plan_refuses_empty_input() {
    assert!(matches!(BatchPlan::start(0, 10), Err(PushError::NoData)));
}

#[test]
fn plan_hands_out_consecutive_batches() {
    let mut plan = match BatchPlan::start(25, 10) {
        Ok(p) => p,
        Err(_) => panic!("items to push"),
    };
    assert_eq!(plan.total(), 25);
    assert_eq!(plan.next_batch(), Some((1, 0)));
    assert_eq!(plan.next_batch(), Some((2, 10)));
    assert_eq!(plan.next_batch(), Some((3, 20)));
    assert_eq!(plan.next_batch(), None);
    assert_eq!(plan.next_batch(), None);
}

#[test]
fn plan_batches_cover_every_item_once() {
    for (total, size) in [(1u32, 10u32), (10, 10), (11, 10), (99, 7), (100, 25)] {
        let mut plan = match BatchPlan::start(total, size) {
            Ok(p) => p,
            Err(_) => panic!("items to push"),
        };
        let mut seen = vec![0u32; total as usize];
        while let Some((_, start)) = plan.next_batch() {
            assert!(start < total);
            for i in start..(start + size).min(total) {
                seen[i as usize] += 1;
            }
        }
        assert!(seen.iter().all(|c| *c == 1));
    }
}

#[test]
fn fixed_fetch_range() {
    assert_eq!(asyncs::batch_range(0), 1..1);
    assert_eq!(asyncs::batch_range(9), 1..1);
    assert_eq!(asyncs::batch_range(10), 1..2);
    assert_eq!(asyncs::batch_range(18), 1..2);
    assert_eq!(asyncs::batch_range(19), 1..3);
    assert_eq!(asyncs::BATCH_SIZE, 10);
}
