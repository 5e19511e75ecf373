use droute::error::DrouteError;
use droute::message::{Message, Query, Record};
use droute::pool::ClientPool;
use droute::race::{race, Race};
use droute::registry::{IpAddress, Plan, SocketAddress, Upstream, UpstreamKind, Upstreams};

fn udp(tag: &str, timeout: u64) -> Upstream {
    Upstream {
        tag: tag.to_string(),
        method: UpstreamKind::Udp(SocketAddress { ip: IpAddress::V6([0, 0, 0, 0, 0, 0, 0, 1]), port: 53 }),
        timeout,
    }
}

fn query(id: u16) -> Message {
    Message { id, queries: vec![Query { name: "example.com.".to_string(), query_type: 1, query_class: 1 }], answers: vec![], wire: vec![] }
}

fn answer(id: u16, ttl: u32) -> Message {
    let mut m = query(id);
    m.answers = vec![Record { ttl, data: vec![1, 2, 3, 4] }];
    m.wire = vec![0x81, 0x80, ttl as u8];
    m
}

fn registry() -> Upstreams<&'static str> {
    Upstreams::new(vec![udp("a", 3), udp("b", 5)], 8).ok().unwrap()
}

#[test]
fn first_query_goes_upstream() {
    let u = registry();
    assert_eq!(u.final_resolve(&query(1), 0), Plan::Query);
}

#[test]
fn fresh_entry_is_answered_without_sending() {
    let mut u = registry();
    let tag = "a".to_string();
    let lease = u.begin_query(&tag).ok().unwrap();
    assert_eq!(lease.timeout, 3);
    assert_eq!(lease.client, None);
    let r = u.complete_query(&tag, lease.id, Ok(("client", answer(1, 60))), 100);
    assert_eq!(r, Ok(answer(1, 60)));
    assert_eq!(u.final_resolve(&query(4242), 120), Plan::Reply(answer(4242, 60)));
}

#[test]
fn stale_entry_is_answered_and_refreshed() {
    let mut u = registry();
    let tag = "a".to_string();
    let lease = u.begin_query(&tag).ok().unwrap();
    u.complete_query(&tag, lease.id, Ok(("client", answer(1, 60))), 100).ok().unwrap();
    assert_eq!(u.final_resolve(&query(77), 200), Plan::ReplyAndRefresh(answer(77, 60)));
    let lease = u.begin_query(&tag).ok().unwrap();
    assert_eq!(lease.client, Some("client"));
    u.complete_query(&tag, lease.id, Ok(("client", answer(2, 60))), 200).ok().unwrap();
    assert_eq!(u.final_resolve(&query(78), 210), Plan::Reply(answer(78, 60)));
}

#[test]
fn response_id_follows_the_query() {
    let mut u = registry();
    let tag = "b".to_string();
    let lease = u.begin_query(&tag).ok().unwrap();
    u.complete_query(&tag, lease.id, Ok(("c", answer(9999, 30))), 0).ok().unwrap();
    match u.final_resolve(&query(1), 1) {
        Plan::Reply(m) => assert_eq!(m.id(), 1),
        other => panic!("unexpected plan {:?}", other),
    }
}

#[test]
fn miss_answer_carries_the_query_id() {
    let mut u = registry();
    let tag = "a".to_string();
    let lease = u.begin_query(&tag).ok().unwrap();
    let r = u.complete_resolve(&tag, lease.id, Ok(("client", answer(500, 60))), 10, &query(31));
    assert_eq!(r, Ok(answer(31, 60)));
    assert_eq!(u.final_resolve(&query(32), 11), Plan::Reply(answer(32, 60)));
}

#[test]
fn returned_client_is_reused() {
    let mut u = registry();
    let tag = "b".to_string();
    let lease = u.begin_query(&tag).ok().unwrap();
    u.return_client(&tag, lease.id, "ready");
    let again = u.begin_query(&tag).ok().unwrap();
    assert_eq!((again.id, again.client), (lease.id, Some("ready")));
}

#[test]
fn failed_query_drops_its_client() {
    let mut u = registry();
    let tag = "a".to_string();
    let first = u.begin_query(&tag).ok().unwrap();
    assert_eq!(u.complete_query(&tag, first.id, Err(DrouteError::Timeout), 0), Err(DrouteError::Timeout));
    assert_eq!(u.final_resolve(&query(1), 0), Plan::Query);
    let second = u.begin_query(&tag).ok().unwrap();
    assert_eq!(second.client, None);
    assert_ne!(second.id, first.id);
}

#[test]
fn pool_never_lends_one_client_twice() {
    let mut p: ClientPool<u8> = ClientPool::new();
    let (a, ca) = p.acquire().ok().unwrap();
    let (b, cb) = p.acquire().ok().unwrap();
    assert_ne!(a, b);
    assert_eq!((ca, cb), (None, None));
    p.release(a, 10);
    let (c, cc) = p.acquire().ok().unwrap();
    assert_eq!((c, cc), (a, Some(10)));
    let (d, cd) = p.acquire().ok().unwrap();
    assert!(d != b && d != c && cd.is_none());
    p.discard(b);
}

#[test]
fn race_returns_the_only_success() {
    let r = race(vec![Err(DrouteError::Timeout), Ok(answer(3, 10)), Err(DrouteError::Transport)]);
    assert_eq!(r, Ok(answer(3, 10)));
}

#[test]
fn race_of_failures_returns_the_last() {
    let r = race(vec![Err(DrouteError::Timeout), Err(DrouteError::ClientCreation), Err(DrouteError::Transport)]);
    assert_eq!(r, Err(DrouteError::AllBranchesFailed(Box::new(DrouteError::Transport))));
}

#[test]
fn race_stops_at_first_success() {
    let mut state = Race::new(3);
    assert_eq!(state.on_branch(Err(DrouteError::Timeout)), None);
    assert_eq!(state.on_branch(Ok(answer(1, 5))), Some(Ok(answer(1, 5))));
}
