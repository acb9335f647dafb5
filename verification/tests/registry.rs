use segment_id::api::{BatchGetIdRequest, CreateIdRequest, GetIdRequest};
use segment_id::id_generator::IdGenerator;
use segment_id::models::{IdError, IdSegments};
use segment_id::store::DrsModel;

fn store_with(tag: &str, initial: u64, step: u64) -> DrsModel {
    let mut drs = DrsModel::new();
    drs.create(tag, initial, step).unwrap();
    drs
}

#[test]
fn registry_serves_a_fresh_tag() {
    let mut drs = store_with("orders", 1, 100);
    let mut gen = IdGenerator::new();
    let ids = gen.get_id("orders", Some(1), &mut drs).unwrap();
    assert_eq!(ids, vec![1]);
    assert_eq!(drs.get("orders").unwrap().max_id, 101);
}

#[test]
fn registry_count_defaults_to_one() {
    let mut drs = store_with("orders", 1, 100);
    let mut gen = IdGenerator::new();
    let ids = gen.get_id("orders", None, &mut drs).unwrap();
    assert_eq!(ids, vec![1]);
}

#[test]
fn registry_rejects_an_unknown_tag() {
    let mut drs = store_with("orders", 1, 100);
    let mut gen = IdGenerator::new();
    let e = gen.get_id("users", Some(1), &mut drs).unwrap_err();
    assert_eq!(e, IdError::UnknownTag);
}

#[test]
fn contention_from_empty_start() {
    // one hundred callers each draw one id from an empty start
    let mut drs = store_with("hot", 1, 1000);
    let mut gen = IdGenerator::new();
    let mut all: Vec<u64> = Vec::new();
    for _ in 0..100 {
        let ids = gen.get_id("hot", Some(1), &mut drs).unwrap();
        assert_eq!(ids.len(), 1);
        all.push(ids[0]);
    }
    let expected: Vec<u64> = (1..=100).collect();
    assert_eq!(all, expected);
    // exactly one reservation was observed
    assert_eq!(drs.get("hot").unwrap().max_id, 1001);
}

#[test]
fn tags_are_independent() {
    let mut drs = store_with("a", 1, 10);
    drs.create("b", 500, 10).unwrap();
    let mut gen = IdGenerator::new();
    assert_eq!(gen.get_id("a", Some(3), &mut drs).unwrap(), vec![1, 2, 3]);
    assert_eq!(gen.get_id("b", Some(2), &mut drs).unwrap(), vec![500, 501]);
    assert_eq!(gen.get_id("a", Some(1), &mut drs).unwrap(), vec![4]);
}

#[test]
fn registry_batch_crosses_segments() {
    let mut drs = store_with("batch", 1, 40);
    let mut gen = IdGenerator::new();
    let ids = gen.get_id("batch", Some(100), &mut drs).unwrap();
    let expected: Vec<u64> = (1..=100).collect();
    assert_eq!(ids, expected);
    assert_eq!(drs.get("batch").unwrap().max_id, 121);
}

#[test]
fn row_constructor_keeps_its_fields() {
    let row = IdSegments::new("orders", 1, 10000);
    assert_eq!(row.biz_tag, "orders");
    assert_eq!(row.max_id, 1);
    assert_eq!(row.step, 10000);
}

#[test]
fn create_request_defaults() {
    let req = CreateIdRequest { biz_tag: "orders".to_string(), step: None, initial_id: None };
    assert_eq!(req.effective_initial_id(), 1);
    assert_eq!(req.effective_step(), 10000);
    let req2 = CreateIdRequest {
        biz_tag: "orders".to_string(),
        step: Some(50),
        initial_id: Some(7),
    };
    assert_eq!(req2.effective_initial_id(), 7);
    assert_eq!(req2.effective_step(), 50);
}

#[test]
fn request_shapes_carry_their_fields() {
    let g = GetIdRequest { biz_tag: "orders".to_string() };
    assert_eq!(g.biz_tag, "orders");
    let b = BatchGetIdRequest { biz_tag: "orders".to_string(), count: Some(5) };
    assert_eq!(b.count, Some(5));
}

#[test]
fn granted_range_is_the_last_step() {
    let mut drs = store_with("g", 1, 25);
    let (lo, hi) = drs.reserve("g").unwrap();
    let row = drs.get("g").unwrap();
    assert_eq!(row.granted_range(), (lo, hi));
    assert_eq!(row.granted_range(), (1, 26));
}
