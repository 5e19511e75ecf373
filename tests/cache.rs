use droute::cache::{RecordStatus, RespCache};
use droute::message::{Message, Query, Record};

fn query(id: u16, name: &str) -> Message {
    Message {
        id,
        queries: vec![Query { name: name.to_string(), query_type: 1, query_class: 1 }],
        answers: vec![],
        wire: vec![],
    }
}

fn answer(id: u16, name: &str, ttls: &[u32]) -> Message {
    let mut m = query(id, name);
    m.answers = ttls.iter().map(|t| Record { ttl: *t, data: vec![93, 184, 216, 34] }).collect();
    m.wire = vec![0x84, 0x00, ttls.len() as u8];
    m
}

#[test]
fn min_ttl_is_smallest_answer_ttl() {
    assert_eq!(answer(1, "a.", &[300, 60, 120]).min_ttl(), 60);
    assert_eq!(answer(1, "a.", &[]).min_ttl(), 0);
}

#[test]
fn same_question_ignores_id() {
    assert!(query(1, "a.").same_question(&query(2, "a.")));
    assert!(!query(1, "a.").same_question(&query(1, "b.")));
}

#[test]
fn lookup_of_unknown_question_is_missing() {
    let c = RespCache::new(4);
    assert_eq!(c.lookup(&query(1, "a."), 0), RecordStatus::Missing);
}

#[test]
fn stored_answer_is_fresh_then_stale() {
    let mut c = RespCache::new(4);
    let a = answer(7, "a.", &[300, 60]);
    c.store(a.clone(), 1000);
    assert_eq!(c.lookup(&query(9, "a."), 1059), RecordStatus::Fresh(a.clone()));
    assert_eq!(c.lookup(&query(9, "a."), 1060), RecordStatus::Stale(a.clone()));
    assert_eq!(c.lookup(&query(9, "a."), 5000), RecordStatus::Stale(a));
}

#[test]
fn answer_without_records_is_stale_at_once() {
    let mut c = RespCache::new(4);
    c.store(answer(7, "a.", &[]), 10);
    assert!(matches!(c.lookup(&query(1, "a."), 10), RecordStatus::Stale(_)));
}

#[test]
fn store_overwrites_same_question() {
    let mut c = RespCache::new(4);
    c.store(answer(1, "a.", &[10]), 0);
    c.store(answer(2, "a.", &[100]), 50);
    assert_eq!(c.len(), 1);
    assert_eq!(c.lookup(&query(3, "a."), 60), RecordStatus::Fresh(answer(2, "a.", &[100])));
}

#[test]
fn size_never_exceeds_capacity() {
    let mut c = RespCache::new(3);
    for i in 0..10u64 {
        c.store(answer(1, &format!("n{}.", i), &[100]), i);
        assert!(c.len() <= 3);
    }
    assert_eq!(c.len(), 3);
    assert_eq!(c.lookup(&query(1, "n0."), 10), RecordStatus::Missing);
    assert!(matches!(c.lookup(&query(1, "n9."), 10), RecordStatus::Fresh(_)));
}

#[test]
fn oldest_stored_is_evicted_first() {
    let mut c = RespCache::new(2);
    c.store(answer(1, "a.", &[100]), 0);
    c.store(answer(1, "b.", &[100]), 1);
    c.store(answer(1, "a.", &[100]), 2);
    c.store(answer(1, "c.", &[100]), 3);
    assert_eq!(c.lookup(&query(1, "b."), 4), RecordStatus::Missing);
    assert!(matches!(c.lookup(&query(1, "a."), 4), RecordStatus::Fresh(_)));
}

#[test]
fn zero_capacity_keeps_nothing() {
    let mut c = RespCache::new(0);
    c.store(answer(1, "a.", &[100]), 0);
    assert_eq!(c.len(), 0);
    assert_eq!(c.lookup(&query(1, "a."), 0), RecordStatus::Missing);
}

#[test]
fn duplicate_copies_everything() {
    let a = answer(5, "a.", &[1, 2]);
    assert_eq!(a.duplicate(), a);
    let mut b = a.duplicate();
    b.set_id(6);
    assert_eq!(b.id(), 6);
    assert_eq!(a.id(), 5);
}
