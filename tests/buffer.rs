use etl_router::buffer::{BufferedRecord, StageBuffer};
use etl_router::manager::{BufferManager, BufferSettings, CapacityExceeded};
use etl_router::record::Record;

fn rec(source: &str, tag: &str) -> BufferedRecord {
    BufferedRecord {
        record: Record::new(tag.to_string()),
        source_id: source.to_string(),
        pipeline_id: "p1".to_string(),
        target_stage_id: "sink-a".to_string(),
        buffered_at: 0,
        retry_count: 0,
    }
}

fn tags(batch: &[BufferedRecord]) -> Vec<String> {
    batch.iter().map(|r| r.record.record_type.clone()).collect()
}

#[test]
fn three_records_drain_in_order() {
    let mut m = BufferManager::with_limits(10, 5, 3, 800);
    for t in ["r1", "r2", "r3"] {
        assert!(m.buffer_for_stage("sink-a", rec("src", t)).is_ok());
    }
    assert_eq!(m.get_total_buffered(), 3);
    let batch = m.get_batch("sink-a", 10);
    assert_eq!(tags(&batch), vec!["r1", "r2", "r3"]);
    assert_eq!(m.get_total_buffered(), 0);
}

#[test]
fn global_limit_refuses_third_push() {
    let mut m = BufferManager::with_limits(2, 10, 5, 800);
    assert!(m.buffer_for_stage("a", rec("s", "1")).is_ok());
    assert!(m.buffer_for_stage("b", rec("s", "2")).is_ok());
    assert_eq!(m.buffer_for_stage("c", rec("s", "3")), Err(CapacityExceeded::GlobalFull));
    assert_eq!(m.get_total_buffered(), 2);
}

#[test]
fn stage_limit_refuses_push() {
    let mut m = BufferManager::with_limits(100, 1, 5, 800);
    assert!(m.buffer_for_stage("a", rec("s", "1")).is_ok());
    assert_eq!(m.buffer_for_stage("a", rec("s", "2")), Err(CapacityExceeded::StageFull));
    assert!(m.buffer_for_stage("b", rec("s", "3")).is_ok());
    assert_eq!(m.get_total_buffered(), 2);
    assert_eq!(m.get_stage_buffer_size("a"), 1);
}

#[test]
fn total_is_sum_of_stage_sizes() {
    let mut m = BufferManager::with_limits(100, 10, 50, 800);
    for i in 0..4 {
        m.buffer_for_stage("x", rec("s", &i.to_string())).unwrap();
    }
    for i in 0..3 {
        m.buffer_for_stage("y", rec("s", &i.to_string())).unwrap();
    }
    m.get_batch("x", 1);
    let stages = m.get_stages_with_data();
    let sum: usize = stages.iter().map(|s| m.get_stage_buffer_size(s)).sum();
    assert_eq!(sum, m.get_total_buffered());
    assert_eq!(m.get_total_buffered(), 6);
}

#[test]
fn get_batch_respects_size_and_unknown_stage() {
    let mut m = BufferManager::with_limits(100, 10, 50, 800);
    for t in ["a", "b", "c"] {
        m.buffer_for_stage("s1", rec("src", t)).unwrap();
    }
    let first = m.get_batch("s1", 2);
    assert_eq!(tags(&first), vec!["a", "b"]);
    assert_eq!(m.get_total_buffered(), 1);
    assert!(m.get_batch("nowhere", 5).is_empty());
    assert_eq!(tags(&m.get_batch("s1", 0)), Vec::<String>::new());
}

#[test]
fn batch_push_admits_up_to_limits() {
    let mut m = BufferManager::with_limits(100, 3, 50, 800);
    let recs = vec![rec("s", "1"), rec("s", "2"), rec("s", "3"), rec("s", "4")];
    assert_eq!(m.buffer_batch_for_stage("st", recs), Ok(3));
    assert_eq!(m.get_total_buffered(), 3);
    let mut g = BufferManager::with_limits(2, 10, 50, 800);
    assert_eq!(g.buffer_batch_for_stage("st", vec![rec("s", "1"), rec("s", "2"), rec("s", "3")]), Ok(2));
    assert_eq!(g.buffer_batch_for_stage("st", vec![rec("s", "4")]), Err(CapacityExceeded::GlobalFull));
    assert_eq!(tags(&g.get_batch("st", 10)), vec!["1", "2"]);
}

#[test]
fn return_to_buffer_bumps_retries_and_drops_overflow() {
    let mut m = BufferManager::with_limits(100, 2, 50, 800);
    m.buffer_for_stage("st", rec("s", "head")).unwrap();
    let admitted = m.return_to_buffer("st", vec![rec("s", "r1"), rec("s", "r2")]);
    assert_eq!(admitted, 1);
    let batch = m.get_batch("st", 10);
    assert_eq!(tags(&batch), vec!["head", "r1"]);
    assert_eq!(batch[0].retry_count, 0);
    assert_eq!(batch[1].retry_count, 1);
}

#[test]
fn backpressure_and_credits() {
    let mut m = BufferManager::with_limits(10, 10, 5, 800);
    assert!(!m.should_backpressure("src"));
    assert_eq!(m.available_credits("src"), 5);
    for i in 0..5 {
        m.buffer_for_stage("st", rec("src", &i.to_string())).unwrap();
    }
    // five of five records from "src": 1.0 > 0.8
    assert!(m.should_backpressure("src"));
    assert_eq!(m.available_credits("src"), 0);
    assert!(!m.should_backpressure("other"));
    assert_eq!(m.available_credits("other"), 5);
    for i in 0..4 {
        m.buffer_for_stage("st", rec("other", &i.to_string())).unwrap();
    }
    // nine of ten globally: 0.9 > 0.8
    assert!(m.should_backpressure("other"));
    assert_eq!(m.available_credits("other"), 1);
}

#[test]
fn credits_bounded_when_source_pressured() {
    let mut m = BufferManager::with_limits(1000, 100, 10, 500);
    for i in 0..6 {
        m.buffer_for_stage("st", rec("s", &i.to_string())).unwrap();
    }
    assert!(m.should_backpressure("s"));
    assert!(m.available_credits("s") * 1000 <= (1000 - 500) * 10);
}

#[test]
fn default_limits() {
    let m = BufferManager::default();
    assert_eq!(m.max_total_records(), 100_000);
    assert_eq!(m.max_per_stage(), 10_000);
    assert_eq!(m.max_per_source(), 5_000);
    assert_eq!(m.backpressure_threshold_permille(), 800);
    let n = BufferManager::new(BufferSettings {
        max_total_records: 7,
        max_per_stage: 3,
        max_per_source: 2,
        backpressure_threshold_permille: 900,
    });
    assert_eq!(n.max_total_records(), 7);
    assert_eq!(n.get_total_buffered(), 0);
}

#[test]
fn stage_buffer_basics() {
    let mut b = StageBuffer::new(2);
    assert!(b.push(rec("s", "1")));
    assert!(b.push(rec("s", "2")));
    assert!(b.is_full());
    assert!(!b.push(rec("s", "3")));
    assert_eq!(b.len(), 2);
    assert_eq!(tags(&b.pop_batch(1)), vec!["1"]);
    assert_eq!(b.len(), 1);
}

#[test]
fn batch_push_on_full_stage_with_global_room_is_ok_zero() {
    let mut m = BufferManager::with_limits(100, 1, 50, 800);
    m.buffer_for_stage("st", rec("s", "1")).unwrap();
    assert_eq!(m.buffer_batch_for_stage("st", vec![rec("s", "2")]), Ok(0));
    assert_eq!(m.get_total_buffered(), 1);
}

#[test]
fn credits_return_after_drain() {
    let mut m = BufferManager::with_limits(100, 10, 4, 800);
    m.buffer_batch_for_stage("st", vec![rec("a", "1"), rec("b", "2"), rec("a", "3")]).unwrap();
    assert_eq!(m.available_credits("a"), 2);
    assert_eq!(m.available_credits("b"), 3);
    m.get_batch("st", 2);
    assert_eq!(m.available_credits("a"), 3);
    assert_eq!(m.available_credits("b"), 4);
    let stages = m.get_stages_with_data();
    assert_eq!(stages, vec!["st".to_string()]);
}
