use rust_proxy_server::address::{NetLocation, SocketAddr};
use rust_proxy_server::error::Error;
use rust_proxy_server::resolver::{lookup_host, Resolver};
use rust_proxy_server::udp_relay::{
    transfer_one_direction, CopyAction, CopyBuffer, CopyVerdict, CopyWatch, RouteStep,
    RoutingTable, TransferState,
};

const SECOND: u64 = 1_000_000_000;

fn at(text: &str) -> NetLocation {
    NetLocation::from_str(text, None).unwrap()
}

// ------------------------------ resolver ----------------------------

#[test]
fn literals_resolve_at_once() {
    let mut r = Resolver::new();
    assert_eq!(r.resolve(&at("1.2.3.4:5"), 0), Some(SocketAddr::V4([1, 2, 3, 4], 5)));
    assert_eq!(r.resolve(&at("host:5"), 0), None);
    assert_eq!(r.tcp_congestion(), "");
    assert_eq!(Resolver::with_tcp_congestion("bbr".to_string()).tcp_congestion(), "bbr");
}

#[test]
fn ipv4_is_preferred() {
    let a = SocketAddr::V6([1; 16], 5, 0);
    let b = SocketAddr::V4([1, 1, 1, 1], 5);
    let c = SocketAddr::V4([2, 2, 2, 2], 5);
    assert_eq!(lookup_host(&[a, b, c]), Ok(b));
    assert_eq!(lookup_host(&[a]), Ok(a));
    assert_eq!(lookup_host(&[]), Err(Error::NoAddresses));
}

#[test]
fn names_are_cached_for_a_minute() {
    let mut r = Resolver::new();
    let host = at("host:5");
    let addr = SocketAddr::V4([1, 1, 1, 1], 5);
    assert_eq!(r.looked_up(&host, &[], 0), Err(Error::NoAddresses));
    assert_eq!(r.resolve(&host, 0), None);
    assert_eq!(r.looked_up(&host, &[addr], SECOND), Ok(addr));
    assert_eq!(r.resolve(&host, SECOND), Some(addr));
    assert_eq!(r.resolve(&host, 61 * SECOND - 1), Some(addr));
    assert_eq!(r.resolve(&host, 61 * SECOND), None);
    // Another port is another name.
    assert_eq!(r.resolve(&at("host:6"), SECOND), None);
}

#[test]
fn the_cache_forgets_what_is_not_used() {
    let mut r = Resolver::new();
    let addr = SocketAddr::V4([1, 1, 1, 1], 5);
    for i in 0..1024 {
        r.looked_up(&at(&format!("h{}:1", i)), &[addr], 0).unwrap();
    }
    // Name 0 is used again, so that name 1 is the first to go.
    assert_eq!(r.resolve(&at("h0:1"), 1), Some(addr));
    r.looked_up(&at("more:1"), &[addr], 0).unwrap();
    assert_eq!(r.resolve(&at("h0:1"), 1), Some(addr));
    assert_eq!(r.resolve(&at("h1:1"), 1), None);
    assert_eq!(r.resolve(&at("h2:1"), 1), Some(addr));
}

// ------------------------------ copying -----------------------------

fn read_message(c: &mut CopyBuffer, data: &[u8]) {
    c.read_space()[..data.len()].copy_from_slice(data);
    c.message_read(data.len());
}

#[test]
fn messages_are_copied_one_by_one() {
    let mut c = CopyBuffer::new(false);
    c.begin();
    assert_eq!(c.poll_copy(), CopyAction::Read);
    read_message(&mut c, &[1, 2]);
    assert_eq!(c.poll_copy(), CopyAction::Write);
    assert_eq!(c.message(), &[1, 2]);
    c.message_written();
    // After a read and a write the next message comes before any flush.
    assert_eq!(c.poll_copy(), CopyAction::Read);
    c.read_blocked();
    assert_eq!(c.poll_copy(), CopyAction::Flush);
    c.flushed();
    assert_eq!(c.poll_copy(), CopyAction::Read);
    c.read_blocked();
    assert_eq!(c.poll_copy(), CopyAction::Wait);
    assert_eq!(c.read_count(), 2);
}

#[test]
fn a_blocked_writer_keeps_its_message() {
    let mut c = CopyBuffer::new(false);
    c.begin();
    assert_eq!(c.poll_copy(), CopyAction::Read);
    read_message(&mut c, &[7]);
    assert_eq!(c.poll_copy(), CopyAction::Write);
    c.write_blocked();
    assert_eq!(c.poll_copy(), CopyAction::Wait);
    c.begin();
    assert_eq!(c.poll_copy(), CopyAction::Write);
    assert_eq!(c.message(), &[7]);
}

#[test]
fn copying_ends_with_its_reader() {
    let mut c = CopyBuffer::new(true);
    c.begin();
    assert_eq!(c.poll_copy(), CopyAction::Read);
    c.message_read(0);
    assert_eq!(c.poll_copy(), CopyAction::Flush);
    c.flushed();
    assert_eq!(c.poll_copy(), CopyAction::Finish);
}

#[test]
fn pings_go_between_messages() {
    let mut c = CopyBuffer::new(false);
    c.set_ping(true);
    c.begin();
    assert_eq!(c.poll_copy(), CopyAction::Read);
    c.read_blocked();
    assert_eq!(c.poll_copy(), CopyAction::Ping);
    c.ping_blocked();
    assert_eq!(c.poll_copy(), CopyAction::Wait);
    c.begin();
    assert_eq!(c.poll_copy(), CopyAction::Read);
    c.read_blocked();
    assert_eq!(c.poll_copy(), CopyAction::Ping);
    c.pinged(true);
    assert_eq!(c.poll_copy(), CopyAction::Flush);
    // A message makes a ping needless.
    let mut c = CopyBuffer::new(false);
    c.set_ping(true);
    c.begin();
    assert_eq!(c.poll_copy(), CopyAction::Read);
    read_message(&mut c, &[1]);
    assert_eq!(c.poll_copy(), CopyAction::Write);
    c.message_written();
    assert_eq!(c.poll_copy(), CopyAction::Read);
}

#[test]
fn directions_shut_down_behind_their_last_message() {
    assert_eq!(transfer_one_direction(TransferState::Running), TransferState::ShuttingDown);
    assert_eq!(transfer_one_direction(TransferState::ShuttingDown), TransferState::Done);
    assert_eq!(transfer_one_direction(TransferState::Done), TransferState::Done);
}

#[test]
fn copying_ends_for_want_of_traffic() {
    let mut w = CopyWatch::new(0);
    assert_eq!(w.observe(0, 0, false, false, 199 * SECOND), CopyVerdict::Continue);
    assert_eq!(w.observe(5, 0, false, false, 300 * SECOND), CopyVerdict::Continue);
    assert_eq!(w.observe(5, 0, false, true, 301 * SECOND), CopyVerdict::SecondEnded);
    assert_eq!(w.observe(5, 0, true, true, 301 * SECOND), CopyVerdict::FirstEnded);
    assert_eq!(w.observe(5, 0, true, true, 500 * SECOND), CopyVerdict::Idle);
}

// ------------------------------ routing -----------------------------

#[test]
fn destinations_have_one_route_each() {
    let mut t: RoutingTable<&str> = RoutingTable::new(0);
    assert!(t.is_empty());
    assert_eq!(t.touch(&at("a:1"), 0), None);
    t.insert(at("a:1"), "first", 0);
    t.insert(at("b:1"), "second", 0);
    assert_eq!(t.touch(&at("b:1"), 5), Some(&"second"));
    assert_eq!(t.touch(&at("a:1"), 5), Some(&"first"));
    assert_eq!(t.touch(&at("a:2"), 5), None);
    assert!(!t.is_empty());
    assert_eq!(t.drain(), vec!["first", "second"]);
    assert!(t.is_empty());
}

#[test]
fn packets_are_routed() {
    let mut t: RoutingTable<u8> = RoutingTable::new(0);
    let addr = SocketAddr::V4([1, 2, 3, 4], 5);
    let end = NetLocation::unspecified();
    assert!(matches!(t.route_packet(&end, Some(addr), 0), RouteStep::End));
    assert!(matches!(t.route_packet(&end, None, 0), RouteStep::End));
    assert!(matches!(t.route_packet(&at("a:1"), None, 0), RouteStep::Skip));
    assert!(matches!(t.route_packet(&at("a:1"), Some(addr), 0), RouteStep::Open(a) if a == addr));
    t.insert(at("a:1"), 7, 0);
    // A packet that finds its route keeps it from getting idle; one that does not resolve
    // leaves it alone.
    assert!(matches!(t.route_packet(&at("a:1"), None, 50 * SECOND), RouteStep::Skip));
    let step = t.route_packet(&at("a:1"), Some(addr), 100 * SECOND);
    assert!(matches!(step, RouteStep::Known(7, a) if a == addr));
    assert!(t.cleanup(300 * SECOND).is_empty());
    assert_eq!(t.cleanup(311 * SECOND), vec![7]);
    assert!(matches!(t.route_packet(&at("a:1"), Some(addr), 0), RouteStep::Open(_)));
}

#[test]
fn idle_routes_are_dropped() {
    let mut t: RoutingTable<u8> = RoutingTable::new(0);
    t.insert(at("a:1"), 1, 0);
    t.insert(at("b:1"), 2, 0);
    t.insert(at("c:1"), 3, 0);
    t.touch(&at("b:1"), 100 * SECOND);
    assert!(t.cleanup(9 * SECOND).is_empty());
    assert!(t.cleanup(200 * SECOND).is_empty());
    assert!(t.cleanup(209 * SECOND).is_empty());
    assert_eq!(t.cleanup(210 * SECOND), vec![1, 3]);
    assert_eq!(t.touch(&at("b:1"), 210 * SECOND), Some(&2));
    assert_eq!(t.touch(&at("a:1"), 210 * SECOND), None);
}
