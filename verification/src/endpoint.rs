use vstd::prelude::*;
use crate::addr::{Ip, SockAddr};
use crate::mailbox::{has_msg, MailboxView, Waiter};
use crate::net::{BindingView, NetError, NetSim, NodeEntry, Stat};
use crate::payload::{bytes_copy_from_slice, bytes_view, Message};

verus! {

/// A user-visible handle to a bound address: the owning node, the resolved
/// local address, and the peer a `connect` stored. Dropping the handle is
/// the caller's signal to `close` the address.
#[derive(Debug)]
pub struct Endpoint {
    pub node: u64,
    pub addr: SockAddr,
    pub peer: Option<SockAddr>,
}

/// The local address `connect` binds: loopback when the peer is loopback,
/// else unspecified (normalized to the node's IP), always an ephemeral port.
pub open spec fn connect_req(peer: SockAddr) -> SockAddr {
    SockAddr {
        ip: if peer.ip.is_loopback() {
            Ip::V4(0x7f00_0001)
        } else {
            Ip::V4(0)
        },
        port: 0,
    }
}

impl Endpoint {
    /// Binds an endpoint for `node` at the requested address (`bind` of the
    /// async facade differs only by a scheduling jitter).
    pub fn bind_sync(net: &mut NetSim, node: u64, req: SockAddr) -> (r: Result<
        Endpoint,
        NetError,
    >)
        requires
            old(net).wf(),
        ensures
            final(net).wf(),
            old(net).bind_ip_rejected(node, req) ==> (r matches Err(e) && e
                == NetError::AddrNotAvailable) && *final(net) == *old(net),
            !old(net).bind_ip_rejected(node, req) ==> {
                let a = old(net).bind_addr(node, req);
                &&& final(net).nodes_map() == if req.port == 0 {
                    old(net).nodes_map().insert(
                        node,
                        NodeEntry {
                            node,
                            ip: old(net).node_ip(node),
                            next_port: crate::net::port_succ(old(net).cur_port(node)),
                        },
                    )
                } else {
                    old(net).nodes_map()
                }
                &&& old(net).bound(a) ==> (r matches Err(e) && e == NetError::AddrInUse) && final(net).by_addr() == old(net).by_addr()
                &&& !old(net).bound(a) ==> (r matches Ok(ep) && ep.node == node && ep.addr == a
                    && ep.peer is None) && final(net).by_addr() == old(net).by_addr().insert(
                    a,
                    BindingView {
                        node,
                        mailbox: MailboxView {
                            pending: Seq::empty(),
                            waiters: Seq::empty(),
                        },
                    },
                )
                &&& final(net).slots_map() == old(net).slots_map()
                &&& *final(net) == (NetSim {
                    bindings: final(net).bindings,
                    nodes: final(net).nodes,
                    ..*old(net)
                })
            },
    {
        match net.bind(node, req) {
            Ok(a) => Ok(Endpoint { node, addr: a, peer: None }),
            Err(e) => Err(e),
        }
    }

    /// Connects to a peer: binds an ephemeral local address (loopback if the
    /// peer is loopback, else the node's IP) and stores the peer for `send`
    /// and `recv`.
    pub fn connect(net: &mut NetSim, node: u64, peer: SockAddr) -> (r: Result<Endpoint, NetError>)
        requires
            old(net).wf(),
        ensures
            final(net).wf(),
            old(net).bind_ip_rejected(node, connect_req(peer)) ==> (r matches Err(e) && e
                == NetError::AddrNotAvailable) && *final(net) == *old(net),
            !old(net).bind_ip_rejected(node, connect_req(peer)) ==> {
                let a = old(net).bind_addr(node, connect_req(peer));
                &&& final(net).nodes_map() == old(net).nodes_map().insert(
                    node,
                    NodeEntry {
                        node,
                        ip: old(net).node_ip(node),
                        next_port: crate::net::port_succ(old(net).cur_port(node)),
                    },
                )
                &&& old(net).bound(a) ==> (r matches Err(e) && e == NetError::AddrInUse) && final(net).by_addr() == old(net).by_addr()
                &&& !old(net).bound(a) ==> (r matches Ok(ep) && ep.node == node && ep.addr == a
                    && ep.peer == Some(peer)) && final(net).by_addr() == old(net).by_addr().insert(
                    a,
                    BindingView {
                        node,
                        mailbox: MailboxView {
                            pending: Seq::empty(),
                            waiters: Seq::empty(),
                        },
                    },
                )
                &&& final(net).slots_map() == old(net).slots_map()
                &&& *final(net) == (NetSim {
                    bindings: final(net).bindings,
                    nodes: final(net).nodes,
                    ..*old(net)
                })
            },
    {
        let req = if peer.ip.loopback() {
            SockAddr { ip: Ip::V4(0x7f00_0001), port: 0 }
        } else {
            SockAddr { ip: Ip::V4(0), port: 0 }
        };
        match net.bind(node, req) {
            Ok(a) => Ok(Endpoint { node, addr: a, peer: Some(peer) }),
            Err(e) => Err(e),
        }
    }

    /// The local socket address.
    pub fn local_addr(&self) -> (r: Result<SockAddr, NetError>)
        ensures
            r == Ok::<SockAddr, NetError>(self.addr),
    {
        Ok(self.addr)
    }

    /// The peer this endpoint was connected to; `NotConnected` when none.
    pub fn peer_addr(&self) -> (r: Result<SockAddr, NetError>)
        ensures
            self.peer matches Some(p) ==> r == Ok::<SockAddr, NetError>(p),
            self.peer is None ==> r == Err::<SockAddr, NetError>(NetError::NotConnected),
    {
        match self.peer {
            Some(p) => Ok(p),
            None => Err(NetError::NotConnected),
        }
    }

    /// The tag under which UDP datagrams reach this endpoint: its port, by
    /// the shim's convention. `NotConnected` on the reserved port 0.
    pub fn udp_tag(&self) -> (r: Result<u64, NetError>)
        ensures
            self.addr.port == 0 ==> r == Err::<u64, NetError>(NetError::NotConnected),
            self.addr.port != 0 ==> r == Ok::<u64, NetError>(self.addr.port as u64),
    {
        if self.addr.port == 0 {
            Err(NetError::NotConnected)
        } else {
            Ok(self.addr.port as u64)
        }
    }

    /// A fresh, never-reused port number of this endpoint's node.
    pub fn allocate_local_port(&self, net: &mut NetSim) -> (p: u32)
        requires
            old(net).wf(),
        ensures
            final(net).wf(),
            p == crate::net::port_succ(old(net).cur_port(self.node)),
            final(net).nodes_map() == old(net).nodes_map().insert(
                self.node,
                NodeEntry { node: self.node, ip: old(net).node_ip(self.node), next_port: p },
            ),
            *final(net) == (NetSim { nodes: final(net).nodes, ..*old(net) }),
    {
        net.next_local_port(self.node)
    }

    /// Sends an opaque payload to `dst` (the admitted message goes in
    /// flight; a drop is silent). `lost` and `latency` are the fault and
    /// latency draws. Sends never fail.
    pub fn send_to_raw_sync(
        &self,
        net: &mut NetSim,
        dst: SockAddr,
        tag: u64,
        data: bytes::Bytes,
        lost: bool,
        latency: u64,
    )
        requires
            old(net).wf(),
            old(net).bound_to(self.node, self.addr),
            old(net).config.latency_lo_ns <= latency,
            latency < old(net).config.latency_hi_ns || latency == old(net).config.latency_lo_ns,
            old(net).now + latency <= u64::MAX,
            old(net).stat.msg_count < u64::MAX,
        ensures
            final(net).wf(),
            !old(net).admits(self.node, dst, lost) ==> *final(net) == *old(net),
            old(net).admits(self.node, dst, lost) ==> {
                &&& final(net).flights_seq() =~= old(net).flights_seq().push(
                    crate::net::FlightView {
                        deliver_at: (old(net).now + latency) as u64,
                        dst,
                        msg: crate::payload::MessageView {
                            tag,
                            from: self.addr,
                            data: bytes_view(data),
                        },
                    },
                )
                &&& final(net).stat.msg_count == old(net).stat.msg_count + 1
                &&& *final(net) == (NetSim {
                    flights: final(net).flights,
                    stat: (Stat { msg_count: final(net).stat.msg_count }),
                    ..*old(net)
                })
            },
    {
        net.send(self.node, self.addr, dst, tag, data, lost, latency);
    }

    /// Sends bytes with a tag to `dst`: wraps them in an owned payload and
    /// hands them to the core. Sends never fail; drops are silent.
    pub fn send_to(
        &self,
        net: &mut NetSim,
        dst: SockAddr,
        tag: u64,
        buf: &[u8],
        lost: bool,
        latency: u64,
    ) -> (r: Result<(), NetError>)
        requires
            old(net).wf(),
            old(net).bound_to(self.node, self.addr),
            old(net).config.latency_lo_ns <= latency,
            latency < old(net).config.latency_hi_ns || latency == old(net).config.latency_lo_ns,
            old(net).now + latency <= u64::MAX,
            old(net).stat.msg_count < u64::MAX,
        ensures
            final(net).wf(),
            r is Ok,
            !old(net).admits(self.node, dst, lost) ==> *final(net) == *old(net),
            old(net).admits(self.node, dst, lost) ==> {
                &&& final(net).flights_seq() =~= old(net).flights_seq().push(
                    crate::net::FlightView {
                        deliver_at: (old(net).now + latency) as u64,
                        dst,
                        msg: crate::payload::MessageView { tag, from: self.addr, data: buf@ },
                    },
                )
                &&& final(net).stat.msg_count == old(net).stat.msg_count + 1
                &&& *final(net) == (NetSim {
                    flights: final(net).flights,
                    stat: (Stat { msg_count: final(net).stat.msg_count }),
                    ..*old(net)
                })
            },
    {
        let data = bytes_copy_from_slice(buf);
        net.send(self.node, self.addr, dst, tag, data, lost, latency);
        Ok(())
    }

    /// Sends bytes to the connected peer; `NotConnected` without a peer.
    pub fn send(
        &self,
        net: &mut NetSim,
        tag: u64,
        buf: &[u8],
        lost: bool,
        latency: u64,
    ) -> (r: Result<(), NetError>)
        requires
            old(net).wf(),
            old(net).bound_to(self.node, self.addr),
            old(net).config.latency_lo_ns <= latency,
            latency < old(net).config.latency_hi_ns || latency == old(net).config.latency_lo_ns,
            old(net).now + latency <= u64::MAX,
            old(net).stat.msg_count < u64::MAX,
        ensures
            final(net).wf(),
            self.peer is None ==> (r matches Err(e) && e == NetError::NotConnected) && *final(net)
                == *old(net),
            self.peer matches Some(peer) ==> {
                &&& r is Ok
                &&& !old(net).admits(self.node, peer, lost) ==> *final(net) == *old(net)
                &&& old(net).admits(self.node, peer, lost) ==> {
                    &&& final(net).flights_seq() =~= old(net).flights_seq().push(
                        crate::net::FlightView {
                            deliver_at: (old(net).now + latency) as u64,
                            dst: peer,
                            msg: crate::payload::MessageView {
                                tag,
                                from: self.addr,
                                data: buf@,
                            },
                        },
                    )
                    &&& final(net).stat.msg_count == old(net).stat.msg_count + 1
                }
            },
    {
        match self.peer {
            None => Err(NetError::NotConnected),
            Some(peer) => self.send_to(net, peer, tag, buf, lost, latency),
        }
    }

    /// Starts an asynchronous receive for `tag` and returns its rendezvous
    /// slot; the caller polls the slot with `NetSim::recv_poll` and abandons
    /// it with `NetSim::cancel_recv`.
    pub fn recv_begin(&self, net: &mut NetSim, tag: u64) -> (sid: u64)
        requires
            old(net).wf(),
            old(net).next_slot < u64::MAX,
        ensures
            final(net).wf(),
            sid == old(net).next_slot,
            final(net).has_slot(sid),
            final(net).slot(sid).tag == tag,
            final(net).slot(sid).addr == self.addr,
            !old(net).bound_to(self.node, self.addr) ==> final(net).slot(sid).state is Closed,
            (old(net).bound_to(self.node, self.addr) && has_msg(
                old(net).mbox(self.addr).pending,
                tag,
            )) ==> final(net).slot(sid).state == crate::net::SlotStateView::Fulfilled(
                old(net).mbox(self.addr).pending[crate::mailbox::first_msg_idx(
                    old(net).mbox(self.addr).pending,
                    tag,
                )],
            ),
            (old(net).bound_to(self.node, self.addr) && !has_msg(
                old(net).mbox(self.addr).pending,
                tag,
            )) ==> final(net).slot(sid).state is Waiting && final(net).mbox(self.addr).waiters
                =~= old(net).mbox(self.addr).waiters.push(Waiter { tag, slot: sid }),
    {
        let sid = net.recv(self.node, self.addr, tag);
        proof {
            if old(net).bound_to(self.node, self.addr) && !has_msg(
                old(net).mbox(self.addr).pending,
                tag,
            ) {
                assert(net.mbox(self.addr) == net.by_addr()[self.addr].mailbox);
            }
        }
        sid
    }

    /// Synchronous receive: the first pending message for `tag`, or
    /// `WouldBlock` when none is pending (or the endpoint is gone). Never
    /// parks a waiter.
    pub fn recv_from_raw_sync(&self, net: &mut NetSim, tag: u64) -> (r: Result<
        (bytes::Bytes, SockAddr),
        NetError,
    >)
        requires
            old(net).wf(),
        ensures
            final(net).wf(),
            !(old(net).bound_to(self.node, self.addr) && has_msg(
                old(net).mbox(self.addr).pending,
                tag,
            )) ==> (r matches Err(e) && e == NetError::WouldBlock) && *final(net) == *old(net),
            (old(net).bound_to(self.node, self.addr) && has_msg(
                old(net).mbox(self.addr).pending,
                tag,
            )) ==> {
                let m = old(net).mbox(self.addr).pending[crate::mailbox::first_msg_idx(
                    old(net).mbox(self.addr).pending,
                    tag,
                )];
                &&& r matches Ok(got) && bytes_view(got.0) == m.data && got.1 == m.from && m.tag
                    == tag
                &&& final(net).mbox(self.addr).pending =~= old(net).mbox(
                    self.addr,
                ).pending.remove(
                    crate::mailbox::first_msg_idx(old(net).mbox(self.addr).pending, tag),
                )
            },
    {
        match net.recv_sync(self.node, self.addr, tag) {
            None => Err(NetError::WouldBlock),
            Some(m) => {
                proof {
                    assert(net.mbox(self.addr) == net.by_addr()[self.addr].mailbox);
                }
                let Message { tag: _, from, data } = m;
                Ok((data, from))
            },
        }
    }

    /// Whether a receive for `tag` would complete without suspending.
    pub fn recv_ready(&self, net: &NetSim, tag: u64) -> (r: bool)
        requires
            net.wf(),
        ensures
            r == (!net.bound_to(self.node, self.addr) || has_msg(
                net.mbox(self.addr).pending,
                tag,
            )),
    {
        net.recv_ready(self.node, self.addr, tag)
    }

    /// Releases the endpoint's address (what dropping the handle means):
    /// pending messages are dropped and parked receivers resolve with
    /// `BrokenPipe`. A no-op after a reset already removed the mailbox.
    pub fn close(&self, net: &mut NetSim)
        requires
            old(net).wf(),
        ensures
            final(net).wf(),
            !final(net).bound_to(self.node, self.addr),
            !old(net).bound_to(self.node, self.addr) ==> *final(net) == *old(net),
            old(net).bound_to(self.node, self.addr) ==> final(net).by_addr() == old(net).by_addr().remove(self.addr),
    {
        net.close(self.node, self.addr);
        proof {
            if old(net).bound_to(self.node, self.addr) {
                assert(!net.by_addr().dom().contains(self.addr));
            }
        }
    }
}

} // verus!
