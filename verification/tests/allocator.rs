use segment_id::id_generator::{IdSegment, SegmentBuffer};
use segment_id::models::IdError;
use segment_id::store::DrsModel;

fn store_with(tag: &str, initial: u64, step: u64) -> DrsModel {
    let mut drs = DrsModel::new();
    drs.create(tag, initial, step).unwrap();
    drs
}

#[test]
fn fresh_tag_one_id() {
    let mut drs = store_with("orders", 1, 100);
    let mut buf = SegmentBuffer::new("orders".to_string());
    let ids = buf.take(1, &mut drs).unwrap();
    assert_eq!(ids, vec![1]);
    assert_eq!(drs.get("orders").unwrap().max_id, 101);
}

#[test]
fn exhaust_a_segment() {
    let mut drs = store_with("orders", 1, 100);
    let mut buf = SegmentBuffer::new("orders".to_string());
    let ids = buf.take(100, &mut drs).unwrap();
    let expected: Vec<u64> = (1..=100).collect();
    assert_eq!(ids, expected);
    assert_eq!(drs.get("orders").unwrap().max_id, 101);
    // the drained slot is refilled in the background: [101, 201)
    let target = buf.begin_refill().expect("standby refill should be schedulable");
    let (lo, hi) = drs.reserve("orders").unwrap();
    assert_eq!((lo, hi), (101, 201));
    buf.install_segment(target, lo, hi).unwrap();
    assert_eq!(drs.get("orders").unwrap().max_id, 201);
}

#[test]
fn cross_segment_batch() {
    let mut drs = store_with("orders", 1, 100);
    let mut buf = SegmentBuffer::new("orders".to_string());
    let ids = buf.take(150, &mut drs).unwrap();
    let expected: Vec<u64> = (1..=150).collect();
    assert_eq!(ids, expected);
    // two reservations were needed
    assert_eq!(drs.get("orders").unwrap().max_id, 201);
}

#[test]
fn batch_is_exact_and_strictly_increasing() {
    let mut drs = store_with("t", 1, 3);
    let mut buf = SegmentBuffer::new("t".to_string());
    let ids = buf.take(7, &mut drs).unwrap();
    assert_eq!(ids.len(), 7);
    for w in ids.windows(2) {
        assert!(w[0] < w[1]);
    }
}

#[test]
fn transient_failure_while_active_drains() {
    let mut drs = store_with("t", 1, 10);
    let mut buf = SegmentBuffer::new("t".to_string());
    let ids = buf.take(5, &mut drs).unwrap();
    assert_eq!(ids, vec![1, 2, 3, 4, 5]);
    drs.fail_next_reserve();
    // the active segment keeps serving to completion without a round-trip
    let ids2 = buf.take(5, &mut drs).unwrap();
    assert_eq!(ids2, vec![6, 7, 8, 9, 10]);
    // drained: the next demand needs a refill and surfaces the failure
    let e = buf.take(1, &mut drs).unwrap_err();
    assert_eq!(e, IdError::Transient);
    // the store recovered: the next contiguous range follows
    let ids3 = buf.take(1, &mut drs).unwrap();
    assert_eq!(ids3, vec![11]);
}

#[test]
fn cold_tag_initial_refill_failure_surfaces_transient() {
    let mut drs = store_with("cold", 1, 100);
    let mut buf = SegmentBuffer::new("cold".to_string());
    drs.fail_next_reserve();
    let e = buf.take(1, &mut drs).unwrap_err();
    assert_eq!(e, IdError::Transient);
    // a retry on a healthy store succeeds
    let ids = buf.take(1, &mut drs).unwrap();
    assert_eq!(ids, vec![1]);
}

#[test]
fn step_one_still_correct() {
    let mut drs = store_with("one", 1, 1);
    let mut buf = SegmentBuffer::new("one".to_string());
    for expected in 1..=3u64 {
        let ids = buf.take(1, &mut drs).unwrap();
        assert_eq!(ids, vec![expected]);
        // one store round-trip per id
        assert_eq!(drs.get("one").unwrap().max_id, 1 + expected);
    }
}

#[test]
fn restart_gap_never_duplicates() {
    let mut drs = store_with("r", 1, 1000);
    let mut buf = SegmentBuffer::new("r".to_string());
    let first = buf.take(500, &mut drs).unwrap();
    assert_eq!(*first.last().unwrap(), 500);
    // the process crashes holding [1, 1001) at cursor 501
    drop(buf);
    let mut restarted = SegmentBuffer::new("r".to_string());
    let next = restarted.take(1, &mut drs).unwrap();
    // ids 501..=1000 are lost (an acceptable gap); nothing repeats
    assert_eq!(next, vec![1001]);
}

#[test]
fn reserve_ranges_abut_and_never_overlap() {
    let mut drs = store_with("t", 7, 13);
    let (lo1, hi1) = drs.reserve("t").unwrap();
    let (lo2, hi2) = drs.reserve("t").unwrap();
    assert_eq!((lo1, hi1), (7, 20));
    assert_eq!(lo2, hi1);
    assert_eq!(hi2, 33);
    assert!(hi1 <= lo2 || hi2 <= lo1);
}

#[test]
fn reservations_tile_the_row() {
    let mut drs = store_with("t", 5, 4);
    let mut expected_lo = 5u64;
    for _ in 0..6 {
        let (lo, hi) = drs.reserve("t").unwrap();
        assert_eq!(lo, expected_lo);
        assert_eq!(hi, lo + 4);
        expected_lo = hi;
    }
    assert_eq!(drs.get("t").unwrap().max_id, expected_lo);
}

#[test]
fn create_existing_tag_always_already_exists() {
    let mut drs = store_with("dup", 1, 10);
    assert_eq!(drs.create("dup", 1, 10).unwrap_err(), IdError::AlreadyExists);
    // idempotent only in its error
    assert_eq!(drs.create("dup", 99, 7).unwrap_err(), IdError::AlreadyExists);
    assert_eq!(drs.get("dup").unwrap().max_id, 1);
    assert_eq!(drs.get("dup").unwrap().step, 10);
}

#[test]
fn unknown_tag_on_reserve_and_get() {
    let mut drs = DrsModel::new();
    assert_eq!(drs.get("nope").unwrap_err(), IdError::UnknownTag);
    assert_eq!(drs.reserve("nope").unwrap_err(), IdError::UnknownTag);
}

#[test]
fn exhausted_when_the_row_overflows() {
    let mut drs = store_with("edge", u64::MAX - 5, 10);
    assert_eq!(drs.reserve("edge").unwrap_err(), IdError::Exhausted);
    let mut buf = SegmentBuffer::new("edge".to_string());
    assert_eq!(buf.take(1, &mut drs).unwrap_err(), IdError::Exhausted);
}

#[test]
fn at_most_one_refill_per_slot() {
    let mut buf = SegmentBuffer::new("t".to_string());
    assert!(buf.should_schedule_refill());
    let target = buf.begin_refill().expect("first refill claim succeeds");
    // a second task cannot claim the slot while the first is in flight
    assert!(buf.begin_refill().is_none());
    assert!(!buf.should_schedule_refill());
    // the task fails: the guard is released and a retry can be scheduled
    buf.refill_failed(target);
    assert!(buf.should_schedule_refill());
    assert!(buf.begin_refill().is_some());
}

#[test]
fn install_without_a_claimed_refill_is_internal() {
    let mut buf = SegmentBuffer::new("t".to_string());
    assert_eq!(buf.install_segment(1, 1, 101).unwrap_err(), IdError::Internal);
}

#[test]
fn install_out_of_order_is_internal() {
    let mut drs = store_with("t", 1, 10);
    let mut buf = SegmentBuffer::new("t".to_string());
    let ids = buf.take(3, &mut drs).unwrap();
    assert_eq!(ids, vec![1, 2, 3]);
    let target = buf.begin_refill().expect("standby is empty");
    // a range below what was already issued must be refused
    assert_eq!(buf.install_segment(target, 0, 2).unwrap_err(), IdError::Internal);
}

#[test]
fn fresh_buffer_serves_nothing_without_a_segment() {
    let mut buf = SegmentBuffer::new("t".to_string());
    assert!(!buf.active_ready());
    let claimed = buf.claim_from_active(5);
    assert!(claimed.is_empty());
}

#[test]
fn segment_constructor_covers_one_step() {
    let seg = IdSegment::new(1, 100);
    assert_eq!(seg.next_id, 1);
    assert_eq!(seg.step, 100);
    assert_eq!(seg.max_id, 101);
}
