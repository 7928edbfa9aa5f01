// The original test scenarios, driven synchronously: random draws enter as
// plain values (loss outcome, latency), and delivery timers are fired
// explicitly with `fire_next`.

use simnet::addr::{Ip, SockAddr};
use simnet::endpoint::Endpoint;
use simnet::net::{NetSim, RecvPoll};

const MS: u64 = 1_000_000;

fn two_nodes() -> (NetSim, Endpoint, Endpoint, SockAddr, SockAddr) {
    let mut net = NetSim::new();
    net.create_node(1);
    net.set_ip(1, Ip::v4(10, 0, 0, 1));
    net.create_node(2);
    net.set_ip(2, Ip::v4(10, 0, 0, 2));
    let addr1 = SockAddr::v4(10, 0, 0, 1, 1);
    let addr2 = SockAddr::v4(10, 0, 0, 2, 1);
    let ep1 = Endpoint::bind_sync(&mut net, 1, addr1).unwrap();
    let ep2 = Endpoint::bind_sync(&mut net, 2, addr2).unwrap();
    (net, ep1, ep2, addr1, addr2)
}

fn recv_now(net: &mut NetSim, ep: &Endpoint, tag: u64, buf: &mut Vec<u8>) -> (usize, SockAddr) {
    let sid = ep.recv_begin(net, tag);
    match net.recv_poll(sid) {
        RecvPoll::Ready(msg) => msg.read_into(buf),
        RecvPoll::Pending => panic!("receive still pending"),
        RecvPoll::Down => panic!("network is down"),
    }
}

#[test]
fn send_recv() {
    let (mut net, ep1, ep2, addr1, _addr2) = two_nodes();
    let addr2 = SockAddr::v4(10, 0, 0, 2, 1);

    // the receiver parks first, waiting for tag 2
    let mut buf = vec![0u8; 0x10];
    let sid2 = ep2.recv_begin(&mut net, 2);

    ep1.send_to(&mut net, addr2, 1, &[1], false, 5 * MS).unwrap();
    net.fire_next();
    net.advance_to(1000 * MS);
    ep1.send_to(&mut net, addr2, 2, &[2], false, 5 * MS).unwrap();
    net.fire_next();

    let msg = match net.recv_poll(sid2) {
        RecvPoll::Ready(m) => m,
        _ => panic!("tag 2 should have been delivered"),
    };
    let (len, from) = msg.read_into(&mut buf);
    assert_eq!(len, 1);
    assert_eq!(from, addr1);
    assert_eq!(buf[0], 2);

    let (len, from) = recv_now(&mut net, &ep2, 1, &mut buf);
    assert_eq!(len, 1);
    assert_eq!(from, addr1);
    assert_eq!(buf[0], 1);
}

#[test]
fn receiver_drop() {
    let (mut net, ep1, ep2, addr1, addr2) = two_nodes();

    // a receive whose timeout elapses before the delivery
    let sid = ep2.recv_begin(&mut net, 1);
    ep1.send_to(&mut net, addr2, 1, &[1], false, 5 * MS).unwrap();
    assert!(matches!(net.recv_poll(sid), RecvPoll::Pending));
    net.cancel_recv(sid);

    net.fire_next();

    // receive again should succeed with the parked message
    let mut buf = vec![0u8; 0x10];
    let (len, from) = recv_now(&mut net, &ep2, 1, &mut buf);
    assert_eq!(len, 1);
    assert_eq!(from, addr1);
    assert_eq!(buf[0], 1);
}

#[test]
fn reset() {
    let mut net = NetSim::new();
    net.create_node(1);
    net.set_ip(1, Ip::v4(10, 0, 0, 1));
    let addr1 = SockAddr::v4(10, 0, 0, 1, 1);
    let ep = Endpoint::bind_sync(&mut net, 1, addr1).unwrap();

    // a parked receive is outstanding when the node is reset
    let sid = ep.recv_begin(&mut net, 1);
    assert!(matches!(net.recv_poll(sid), RecvPoll::Pending));
    net.reset_node(1);
    assert!(matches!(net.recv_poll(sid), RecvPoll::Down));

    // every subsequent receive on the endpoint reports the network down
    let sid = ep.recv_begin(&mut net, 1);
    assert!(matches!(net.recv_poll(sid), RecvPoll::Down));
}

#[test]
fn bind() {
    let mut net = NetSim::new();
    net.create_node(1);
    let ip = Ip::v4(10, 0, 0, 1);
    net.set_ip(1, ip);

    // unspecified
    let ep = Endpoint::bind_sync(&mut net, 1, SockAddr::v4(0, 0, 0, 0, 0)).unwrap();
    let addr = ep.local_addr().unwrap();
    assert_eq!(addr.ip, ip);
    assert_ne!(addr.port, 0);

    // unspecified v6
    let ep = Endpoint::bind_sync(&mut net, 1, SockAddr { ip: Ip::V6(0), port: 0 }).unwrap();
    let addr = ep.local_addr().unwrap();
    assert_eq!(addr.ip, ip);
    assert_ne!(addr.port, 0);

    // localhost
    let ep = Endpoint::bind_sync(&mut net, 1, SockAddr::v4(127, 0, 0, 1, 0)).unwrap();
    let addr = ep.local_addr().unwrap();
    assert_eq!(addr.ip, Ip::v4(127, 0, 0, 1));
    assert_ne!(addr.port, 0);

    // localhost v6
    let ep = Endpoint::bind_sync(&mut net, 1, SockAddr { ip: Ip::V6(1), port: 0 }).unwrap();
    let addr = ep.local_addr().unwrap();
    assert_eq!(addr.ip, Ip::V6(1));
    assert_ne!(addr.port, 0);

    // wrong IP
    let err = Endpoint::bind_sync(&mut net, 1, SockAddr::v4(10, 0, 0, 2, 0)).unwrap_err();
    assert_eq!(err, simnet::net::NetError::AddrNotAvailable);

    // drop and reuse port
    let ep = Endpoint::bind_sync(&mut net, 1, SockAddr::v4(10, 0, 0, 1, 100)).unwrap();
    ep.close(&mut net);
    let ep = Endpoint::bind_sync(&mut net, 1, SockAddr::v4(10, 0, 0, 1, 100)).unwrap();
    ep.close(&mut net);
}

#[test]
fn connect_send_recv() {
    let mut net = NetSim::new();
    net.create_node(1);
    net.set_ip(1, Ip::v4(10, 0, 0, 1));
    net.create_node(2);
    net.set_ip(2, Ip::v4(10, 0, 0, 2));
    let addr1 = SockAddr::v4(10, 0, 0, 1, 1);

    let ep1 = Endpoint::bind_sync(&mut net, 1, addr1).unwrap();
    assert_eq!(ep1.local_addr().unwrap(), addr1);

    let ep2 = Endpoint::connect(&mut net, 2, addr1).unwrap();
    assert_eq!(ep2.peer_addr().unwrap(), addr1);

    ep2.send(&mut net, 1, b"ping", false, 5 * MS).unwrap();
    net.fire_next();

    let mut buf = vec![0u8; 0x10];
    let sid = ep1.recv_begin(&mut net, 1);
    let msg = match net.recv_poll(sid) {
        RecvPoll::Ready(m) => m,
        _ => panic!("ping should have arrived"),
    };
    let (len, from) = msg.read_into(&mut buf);
    assert_eq!(&buf[..len], b"ping");

    ep1.send_to(&mut net, from, 1, b"pong", false, 5 * MS).unwrap();
    net.fire_next();

    // the reply must come from the connected peer
    let sid = ep2.recv_begin(&mut net, 1);
    let msg = match net.recv_poll(sid) {
        RecvPoll::Ready(m) => m,
        _ => panic!("pong should have arrived"),
    };
    let (len, from) = msg.read_into(&mut buf);
    assert_eq!(from, ep2.peer_addr().unwrap());
    assert_eq!(&buf[..len], b"pong");
}
