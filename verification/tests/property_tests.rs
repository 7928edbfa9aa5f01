// Property scenarios: the fault model, counters, truncation, reordering,
// and each error kind on an input that produces it.

use simnet::addr::{Ip, SockAddr};
use simnet::endpoint::Endpoint;
use simnet::net::{Config, NetError, NetSim, RecvPoll};
use simnet::shim::{recv_copy_len, UDPMessage};

const MS: u64 = 1_000_000;

fn two_nodes() -> (NetSim, Endpoint, Endpoint, SockAddr, SockAddr) {
    let mut net = NetSim::new();
    net.create_node(1);
    net.set_ip(1, Ip::v4(10, 0, 0, 1));
    net.create_node(2);
    net.set_ip(2, Ip::v4(10, 0, 0, 2));
    let addr1 = SockAddr::v4(10, 0, 0, 1, 1);
    let addr2 = SockAddr::v4(10, 0, 0, 2, 1);
    let ep1 = Endpoint::bind_sync(&mut net, 1, addr1).unwrap();
    let ep2 = Endpoint::bind_sync(&mut net, 2, addr2).unwrap();
    (net, ep1, ep2, addr1, addr2)
}

/// A Bernoulli draw at rate 1.0 always hits and at 0.0 never does; with
/// those outcomes, 1000 sends produce 0 and 1000 deliveries, and
/// `msg_count` counts only the admitted sends.
#[test]
fn packet_loss() {
    let (mut net, ep1, ep2, _addr1, addr2) = two_nodes();

    let loss_rate: f64 = 1.0;
    for _ in 0..1000 {
        let lost = loss_rate >= 1.0;
        ep1.send_to(&mut net, addr2, 1, &[1], lost, MS).unwrap();
    }
    assert_eq!(net.flights_len(), 0);
    assert_eq!(net.stat().msg_count, 0);

    let loss_rate: f64 = 0.0;
    for _ in 0..1000 {
        let lost = loss_rate >= 1.0;
        ep1.send_to(&mut net, addr2, 1, &[1], lost, MS).unwrap();
    }
    assert_eq!(net.flights_len(), 1000);
    assert_eq!(net.stat().msg_count, 1000);

    for _ in 0..1000 {
        net.fire_next();
    }
    let mut delivered = 0;
    while ep2.recv_from_raw_sync(&mut net, 1).is_ok() {
        delivered += 1;
    }
    assert_eq!(delivered, 1000);
}

/// No message is delivered while the directed link is clogged at admission
/// time; unclogging restores the path, and the drop is silent.
#[test]
fn clogged_link_drops() {
    let (mut net, ep1, ep2, _addr1, addr2) = two_nodes();

    net.disconnect2(1, 2);
    ep1.send_to(&mut net, addr2, 1, &[1], false, MS).unwrap();
    assert_eq!(net.flights_len(), 0);
    assert_eq!(net.stat().msg_count, 0);

    net.connect2(1, 2);
    ep1.send_to(&mut net, addr2, 1, &[1], false, MS).unwrap();
    assert_eq!(net.flights_len(), 1);
    net.fire_next();
    let (_, from) = ep2.recv_from_raw_sync(&mut net, 1).unwrap();
    assert_eq!(from, SockAddr::v4(10, 0, 0, 1, 1));
}

/// No message is delivered while either endpoint's node is clogged at
/// admission time; an intra-node send bypasses the fault checks.
#[test]
fn clogged_node_drops() {
    let (mut net, ep1, _ep2, _addr1, addr2) = two_nodes();

    net.disconnect(2);
    ep1.send_to(&mut net, addr2, 1, &[1], false, MS).unwrap();
    assert_eq!(net.flights_len(), 0);

    net.connect(2);
    net.disconnect(1);
    ep1.send_to(&mut net, addr2, 1, &[1], false, MS).unwrap();
    assert_eq!(net.flights_len(), 0);
    assert_eq!(net.stat().msg_count, 0);

    // intra-node: node 1 to itself passes even while clogged
    let local = Endpoint::bind_sync(&mut net, 1, SockAddr::v4(10, 0, 0, 1, 2)).unwrap();
    ep1.send_to(&mut net, local.addr, 9, &[9], false, MS).unwrap();
    assert_eq!(net.flights_len(), 1);
    net.fire_next();
    let (_, from) = local.recv_from_raw_sync(&mut net, 9).unwrap();
    assert_eq!(from, SockAddr::v4(10, 0, 0, 1, 1));
}

/// Round trip: the received bytes equal the sent bytes, truncated only when
/// the receive buffer is smaller.
#[test]
fn round_trip_truncation() {
    let (mut net, ep1, ep2, _addr1, addr2) = two_nodes();

    ep1.send_to(&mut net, addr2, 3, &[10, 20, 30, 40, 50], false, MS).unwrap();
    net.fire_next();
    let sid = ep2.recv_begin(&mut net, 3);
    let msg = match net.recv_poll(sid) {
        RecvPoll::Ready(m) => m,
        _ => panic!("delivery expected"),
    };
    let mut small = vec![0u8; 3];
    let (len, _) = msg.read_into(&mut small);
    assert_eq!(len, 3);
    assert_eq!(&small[..], &[10, 20, 30]);

    ep1.send_to(&mut net, addr2, 3, &[10, 20, 30, 40, 50], false, MS).unwrap();
    net.fire_next();
    let mut big = vec![0u8; 8];
    let sid = ep2.recv_begin(&mut net, 3);
    let msg = match net.recv_poll(sid) {
        RecvPoll::Ready(m) => m,
        _ => panic!("delivery expected"),
    };
    let (len, _) = msg.read_into(&mut big);
    assert_eq!(len, 5);
    assert_eq!(&big[..len], &[10, 20, 30, 40, 50]);
    assert_eq!(&big[len..], &[0, 0, 0]);
}

/// With distinct latency draws, two sends arrive in the reverse order, yet
/// the receive of each tag sees its own message.
#[test]
fn reorder_on_tag() {
    let (mut net, ep1, ep2, _addr1, addr2) = two_nodes();

    ep1.send_to(&mut net, addr2, 1, &[1], false, 9 * MS).unwrap();
    ep1.send_to(&mut net, addr2, 2, &[2], false, MS).unwrap();
    net.fire_next();
    net.fire_next();

    // tag 2 was delivered first; each receive still gets its own payload
    let mut buf = vec![0u8; 4];
    let sid = ep2.recv_begin(&mut net, 1);
    match net.recv_poll(sid) {
        RecvPoll::Ready(m) => {
            let (len, _) = m.read_into(&mut buf);
            assert_eq!(&buf[..len], &[1]);
        },
        _ => panic!("tag 1 expected"),
    }
    let sid = ep2.recv_begin(&mut net, 2);
    match net.recv_poll(sid) {
        RecvPoll::Ready(m) => {
            let (len, _) = m.read_into(&mut buf);
            assert_eq!(&buf[..len], &[2]);
        },
        _ => panic!("tag 2 expected"),
    }
}

/// A receive for one tag never claims a message of another tag, and serves
/// the same tag in delivery order.
#[test]
fn tag_isolation_fifo() {
    let (mut net, ep1, ep2, _addr1, addr2) = two_nodes();

    ep1.send_to(&mut net, addr2, 7, &[1], false, MS).unwrap();
    net.fire_next();
    ep1.send_to(&mut net, addr2, 8, &[2], false, MS).unwrap();
    net.fire_next();
    ep1.send_to(&mut net, addr2, 7, &[3], false, MS).unwrap();
    net.fire_next();

    let (b, _) = ep2.recv_from_raw_sync(&mut net, 7).unwrap();
    assert_eq!(&b[..], &[1]);
    let (b, _) = ep2.recv_from_raw_sync(&mut net, 7).unwrap();
    assert_eq!(&b[..], &[3]);
    let (b, _) = ep2.recv_from_raw_sync(&mut net, 8).unwrap();
    assert_eq!(&b[..], &[2]);
}

/// Each error kind, on an input that produces it.
#[test]
fn error_kinds() {
    let mut net = NetSim::new();
    net.create_node(1);
    net.set_ip(1, Ip::v4(10, 0, 0, 1));

    // AddrNotAvailable: an IP the node may not bind
    let err = Endpoint::bind_sync(&mut net, 1, SockAddr::v4(9, 9, 9, 9, 1)).unwrap_err();
    assert_eq!(err, NetError::AddrNotAvailable);

    // AddrInUse: the same address twice
    let ep = Endpoint::bind_sync(&mut net, 1, SockAddr::v4(10, 0, 0, 1, 5)).unwrap();
    let err = Endpoint::bind_sync(&mut net, 1, SockAddr::v4(10, 0, 0, 1, 5)).unwrap_err();
    assert_eq!(err, NetError::AddrInUse);

    // NotConnected: no peer stored, and the reserved port as a UDP tag
    assert_eq!(ep.peer_addr().unwrap_err(), NetError::NotConnected);
    assert_eq!(ep.send(&mut net, 1, &[0], false, MS).unwrap_err(), NetError::NotConnected);
    let unbound = Endpoint { node: 1, addr: SockAddr::v4(10, 0, 0, 1, 0), peer: None };
    assert_eq!(unbound.udp_tag().unwrap_err(), NetError::NotConnected);
    assert_eq!(ep.udp_tag().unwrap(), 5);

    // WouldBlock: nothing pending
    assert_eq!(ep.recv_from_raw_sync(&mut net, 1).unwrap_err(), NetError::WouldBlock);

    // BrokenPipe at the facade is RecvPoll::Down from the core
    net.reset_node(1);
    let sid = ep.recv_begin(&mut net, 1);
    assert!(matches!(net.recv_poll(sid), RecvPoll::Down));
}

/// A reset removes the node's clogs along with its endpoints, and its
/// addresses can be bound again.
#[test]
fn reset_clears_faults() {
    let (mut net, ep1, _ep2, addr1, addr2) = two_nodes();

    net.disconnect(1);
    net.disconnect2(1, 2);
    ep1.send_to(&mut net, addr2, 1, &[1], false, MS).unwrap();
    assert_eq!(net.flights_len(), 0);

    net.reset_node(1);
    let ep1 = Endpoint::bind_sync(&mut net, 1, addr1).unwrap();
    ep1.send_to(&mut net, addr2, 1, &[1], false, MS).unwrap();
    assert_eq!(net.flights_len(), 1);
}

/// Ephemeral ports are monotonic per node, never reused, and shared between
/// `allocate_local_port` and ephemeral binds.
#[test]
fn ephemeral_ports() {
    let mut net = NetSim::new();
    net.create_node(1);
    net.set_ip(1, Ip::v4(10, 0, 0, 1));
    assert_eq!(net.next_local_port(1), 1);
    assert_eq!(net.next_local_port(1), 2);
    let ep = Endpoint::bind_sync(&mut net, 1, SockAddr::v4(0, 0, 0, 0, 0)).unwrap();
    assert_eq!(ep.local_addr().unwrap().port, 3);
    assert_eq!(ep.allocate_local_port(&mut net), 4);
    // closing does not recycle the port
    ep.close(&mut net);
    let ep = Endpoint::bind_sync(&mut net, 1, SockAddr::v4(0, 0, 0, 0, 0)).unwrap();
    assert_eq!(ep.local_addr().unwrap().port, 5);
}

/// `recv_ready` reports a pending match (or a gone endpoint) without
/// consuming anything.
#[test]
fn recv_ready_check() {
    let (mut net, ep1, ep2, _addr1, addr2) = two_nodes();
    assert!(!ep2.recv_ready(&net, 1));
    ep1.send_to(&mut net, addr2, 1, &[1], false, MS).unwrap();
    assert!(!ep2.recv_ready(&net, 1));
    net.fire_next();
    assert!(ep2.recv_ready(&net, 1));
    assert!(!ep2.recv_ready(&net, 2));
    assert!(ep2.recv_ready(&net, 1));
    ep2.recv_from_raw_sync(&mut net, 1).unwrap();
    assert!(!ep2.recv_ready(&net, 1));
}

/// The configuration is hot-swappable and the default matches one to ten
/// milliseconds.
#[test]
fn config_update() {
    let mut net = NetSim::new();
    assert_eq!(net.config, Config { latency_lo_ns: MS, latency_hi_ns: 10 * MS });
    net.update_config(Config { latency_lo_ns: 0, latency_hi_ns: 1 });
    assert_eq!(net.config.latency_hi_ns, 1);
}

/// The UDP shim's payload round-trips, and its truncation arithmetic
/// matches the receive path's.
#[test]
fn udp_shim_payload() {
    let boxed = UDPMessage::payload(vec![1, 2, 3]);
    assert_eq!(boxed.into_payload(), vec![1, 2, 3]);
    assert_eq!(recv_copy_len(5, 3), (3, true));
    assert_eq!(recv_copy_len(3, 5), (3, false));
}

/// The IPv4 constructor packs octets exactly.
#[test]
fn ip_formula() {
    assert_eq!(Ip::v4(10, 0, 0, 1), Ip::V4(0x0a00_0001));
    assert_eq!(Ip::v4(127, 0, 0, 1), Ip::V4(0x7f00_0001));
    assert_eq!(
        SockAddr::v4(255, 255, 255, 255, 7),
        SockAddr { ip: Ip::V4(0xffff_ffff), port: 7 }
    );
}
