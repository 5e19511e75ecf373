use droute::default_timeout;
use droute::error::DrouteError;
use droute::registry::{IpAddress, Route, SocketAddress, Upstream, UpstreamKind, Upstreams};

fn addr() -> SocketAddress {
    SocketAddress { ip: IpAddress::V4([1, 1, 1, 1]), port: 53 }
}

fn udp(tag: &str) -> Upstream {
    Upstream { tag: tag.to_string(), method: UpstreamKind::Udp(addr()), timeout: default_timeout() }
}

fn https(tag: &str) -> Upstream {
    Upstream {
        tag: tag.to_string(),
        method: UpstreamKind::Https { name: "cloudflare-dns.com".to_string(), addr: addr(), no_sni: false },
        timeout: 2,
    }
}

fn hybrid(tag: &str, members: &[&str]) -> Upstream {
    Upstream {
        tag: tag.to_string(),
        method: UpstreamKind::Hybrid(members.iter().map(|m| m.to_string()).collect()),
        timeout: default_timeout(),
    }
}

fn build(list: Vec<Upstream>) -> Result<Upstreams<u32>, DrouteError> {
    Upstreams::new(list, 16)
}

#[test]
fn default_timeout_is_five_seconds() {
    assert_eq!(default_timeout(), 5);
}

#[test]
fn acyclic_registry_validates() {
    let u = build(vec![udp("a"), https("b"), hybrid("h", &["a", "b"])]).ok().unwrap();
    assert_eq!(u.hybrid_check(), Ok(true));
}

#[test]
fn registry_without_hybrids_validates() {
    assert!(build(vec![udp("a"), udp("b")]).is_ok());
}

#[test]
fn empty_registry_validates() {
    assert!(build(vec![]).is_ok());
}

#[test]
fn self_reference_is_recursion() {
    let r = build(vec![hybrid("h", &["h"])]);
    assert!(matches!(r, Err(DrouteError::HybridRecursion(ref t)) if t == "h"));
}

#[test]
fn two_step_cycle_is_recursion() {
    let r = build(vec![udp("a"), hybrid("x", &["a", "y"]), hybrid("y", &["x"])]);
    assert!(matches!(r, Err(DrouteError::HybridRecursion(_))));
}

#[test]
fn long_cycle_is_recursion() {
    let r = build(vec![hybrid("p", &["q"]), hybrid("q", &["r"]), hybrid("r", &["s"]), hybrid("s", &["p"])]);
    assert!(matches!(r, Err(DrouteError::HybridRecursion(_))));
}

#[test]
fn empty_hybrid_is_refused() {
    let r = build(vec![udp("a"), hybrid("e", &[])]);
    assert!(matches!(r, Err(DrouteError::EmptyHybrid(ref t)) if t == "e"));
}

#[test]
fn empty_hybrid_below_another_is_refused() {
    let r = build(vec![hybrid("top", &["e"]), hybrid("e", &[])]);
    assert!(matches!(r, Err(DrouteError::EmptyHybrid(ref t)) if t == "e"));
}

#[test]
fn undefined_member_is_missing() {
    let r = build(vec![udp("a"), hybrid("h", &["a", "nowhere"])]);
    assert!(matches!(r, Err(DrouteError::MissingTag(ref t)) if t == "nowhere"));
}

#[test]
fn diamond_validates() {
    let r = build(vec![
        udp("leaf"),
        hybrid("left", &["leaf"]),
        hybrid("right", &["leaf"]),
        hybrid("top", &["left", "right"]),
    ]);
    assert!(r.is_ok());
}

#[test]
fn same_member_twice_validates() {
    assert!(build(vec![udp("a"), hybrid("h", &["a", "a"])]).is_ok());
}

#[test]
fn later_entry_replaces_earlier() {
    assert!(build(vec![hybrid("a", &[]), udp("a")]).is_ok());
    let r = build(vec![udp("a"), hybrid("a", &[])]);
    assert!(matches!(r, Err(DrouteError::EmptyHybrid(ref t)) if t == "a"));
}

#[test]
fn exists_tag_reports_missing() {
    let u = build(vec![udp("a")]).ok().unwrap();
    assert_eq!(u.exists_tag(&"a".to_string()), Ok(true));
    assert_eq!(u.exists_tag(&"b".to_string()), Err(DrouteError::MissingTag("b".to_string())));
}

#[test]
fn resolve_routes_hybrids_to_a_race() {
    let u = build(vec![udp("a"), udp("b"), hybrid("h", &["b", "a"])]).ok().unwrap();
    assert_eq!(u.resolve(&"h".to_string()), Route::Race(vec!["b".to_string(), "a".to_string()]));
    assert_eq!(u.resolve(&"a".to_string()), Route::Direct);
}
