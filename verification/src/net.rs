use vstd::prelude::*;
use crate::addr::{Ip, SockAddr};
use crate::keyed::{entry_map, keys_distinct, lemma_entry_map_dom, lemma_entry_map_index,
    lemma_entry_map_push, lemma_entry_map_remove, lemma_entry_map_update,
    lemma_push_distinct, lemma_remove_distinct};
use crate::mailbox::{has_msg, has_waiter, waiter_slots_distinct, Mailbox, MailboxView, Waiter};
use crate::payload::{Message, MessageView};

verus! {

/// Errors the simulated network surfaces to callers.
#[derive(Clone, Copy, Debug, PartialEq, Eq, Structural)]
pub enum NetError {
    /// Bind to an address that does not belong to the node and is not loopback.
    AddrNotAvailable,
    /// Bind to an address that already has a mailbox.
    AddrInUse,
    /// An operation that needs a peer on an endpoint that has none.
    NotConnected,
    /// A receive woken because the endpoint or its node was closed or reset.
    BrokenPipe,
    /// A synchronous receive with no matching message pending.
    WouldBlock,
}

/// Network configuration: the latency range `[lo, hi)` (nanoseconds) from
/// which each admitted send's delay is drawn. The packet-loss probability
/// lives with the random source outside the network; only each draw's
/// outcome enters here.
#[derive(Clone, Copy, Debug, PartialEq, Eq, Structural)]
pub struct Config {
    pub latency_lo_ns: u64,
    pub latency_hi_ns: u64,
}

impl Default for Config {
    /// One to ten milliseconds.
    fn default() -> (c: Config)
        ensures
            c == (Config { latency_lo_ns: 1_000_000u64, latency_hi_ns: 10_000_000u64 }),
    {
        Config { latency_lo_ns: 1_000_000, latency_hi_ns: 10_000_000 }
    }
}

/// Statistics of the simulated network.
#[derive(Clone, Copy, Debug, PartialEq, Eq, Structural)]
pub struct Stat {
    /// Number of sends that passed fault admission.
    pub msg_count: u64,
}

/// A directed clogged link.
#[derive(Clone, Copy, Debug, PartialEq, Eq, Structural)]
pub struct Link {
    pub src: u64,
    pub dst: u64,
}

/// What the network knows of a node: its IP, if one was set, and the last
/// ephemeral port handed out (ports start at 1; 0 means none yet).
#[derive(Clone, Copy, Debug)]
pub struct NodeEntry {
    pub node: u64,
    pub ip: Option<Ip>,
    pub next_port: u32,
}

/// A bound address: its owning node and its mailbox.
pub struct Binding {
    pub addr: SockAddr,
    pub node: u64,
    pub mailbox: Mailbox,
}

/// The mathematical content of a `Binding` (minus its key).
#[verifier::ext_equal]
pub struct BindingView {
    pub node: u64,
    pub mailbox: MailboxView,
}

impl View for Binding {
    type V = BindingView;

    open spec fn view(&self) -> BindingView {
        BindingView { node: self.node, mailbox: self.mailbox@ }
    }
}

/// The state of a rendezvous slot: a parked receiver still waiting, a
/// message handed over but not yet taken, or a close notice ("network is
/// down").
pub enum SlotState {
    Waiting,
    Fulfilled(Message),
    Closed,
}

/// A rendezvous slot: one per receive call, keyed by a never-reused id.
pub struct SlotEntry {
    pub id: u64,
    pub tag: u64,
    pub addr: SockAddr,
    pub state: SlotState,
}

/// The mathematical content of a `SlotState`.
#[verifier::ext_equal]
pub enum SlotStateView {
    Waiting,
    Fulfilled(MessageView),
    Closed,
}

/// The mathematical content of a `SlotEntry` (minus its key).
#[verifier::ext_equal]
pub struct SlotView {
    pub tag: u64,
    pub addr: SockAddr,
    pub state: SlotStateView,
}

impl View for SlotEntry {
    type V = SlotView;

    open spec fn view(&self) -> SlotView {
        SlotView {
            tag: self.tag,
            addr: self.addr,
            state: match self.state {
                SlotState::Waiting => SlotStateView::Waiting,
                SlotState::Fulfilled(m) => SlotStateView::Fulfilled(m@),
                SlotState::Closed => SlotStateView::Closed,
            },
        }
    }
}

/// An admitted send on its way: the instant its delivery timer fires, its
/// destination, and the message.
pub struct Flight {
    pub deliver_at: u64,
    pub dst: SockAddr,
    pub msg: Message,
}

/// The mathematical content of a `Flight`.
#[verifier::ext_equal]
pub struct FlightView {
    pub deliver_at: u64,
    pub dst: SockAddr,
    pub msg: MessageView,
}

impl View for Flight {
    type V = FlightView;

    open spec fn view(&self) -> FlightView {
        FlightView { deliver_at: self.deliver_at, dst: self.dst, msg: self.msg@ }
    }
}

/// Key and value projections for the three keyed lists.
pub open spec fn binding_key() -> spec_fn(Binding) -> SockAddr {
    |b: Binding| b.addr
}

pub open spec fn binding_val() -> spec_fn(Binding) -> BindingView {
    |b: Binding| b@
}

pub open spec fn node_key() -> spec_fn(NodeEntry) -> u64 {
    |e: NodeEntry| e.node
}

pub open spec fn node_val() -> spec_fn(NodeEntry) -> NodeEntry {
    |e: NodeEntry| e
}

pub open spec fn slot_key() -> spec_fn(SlotEntry) -> u64 {
    |e: SlotEntry| e.id
}

pub open spec fn slot_val() -> spec_fn(SlotEntry) -> SlotView {
    |e: SlotEntry| e@
}

/// The simulated network: endpoint registry, node registry, fault model,
/// in-flight sends, rendezvous slots, clock, and statistics.
pub struct NetSim {
    pub bindings: Vec<Binding>,
    pub nodes: Vec<NodeEntry>,
    pub clogged_nodes: Vec<u64>,
    pub clogged_links: Vec<Link>,
    pub config: Config,
    pub stat: Stat,
    pub flights: Vec<Flight>,
    pub slots: Vec<SlotEntry>,
    pub next_slot: u64,
    pub now: u64,
}

impl NetSim {
    /// The endpoint table: address to owning node and mailbox.
    pub open spec fn by_addr(self) -> Map<SockAddr, BindingView> {
        entry_map(self.bindings@, binding_key(), binding_val())
    }

    /// The node registry.
    pub open spec fn nodes_map(self) -> Map<u64, NodeEntry> {
        entry_map(self.nodes@, node_key(), node_val())
    }

    /// The rendezvous slots.
    pub open spec fn slots_map(self) -> Map<u64, SlotView> {
        entry_map(self.slots@, slot_key(), slot_val())
    }

    /// The in-flight sends, oldest first.
    pub open spec fn flights_seq(self) -> Seq<FlightView> {
        self.flights@.map_values(|f: Flight| f@)
    }

    pub open spec fn bound(self, a: SockAddr) -> bool {
        self.by_addr().dom().contains(a)
    }

    pub open spec fn bound_to(self, node: u64, a: SockAddr) -> bool {
        self.bound(a) && self.by_addr()[a].node == node
    }

    pub open spec fn mbox(self, a: SockAddr) -> MailboxView {
        self.by_addr()[a].mailbox
    }

    pub open spec fn has_node(self, n: u64) -> bool {
        self.nodes_map().dom().contains(n)
    }

    pub open spec fn node_ip(self, n: u64) -> Option<Ip> {
        if self.has_node(n) {
            self.nodes_map()[n].ip
        } else {
            None
        }
    }

    /// The last ephemeral port handed out on `n` (0 if none yet).
    pub open spec fn cur_port(self, n: u64) -> u32 {
        if self.has_node(n) {
            self.nodes_map()[n].next_port
        } else {
            0
        }
    }

    pub open spec fn clogged_node(self, n: u64) -> bool {
        self.clogged_nodes@.contains(n)
    }

    pub open spec fn clogged_link(self, src: u64, dst: u64) -> bool {
        self.clogged_links@.contains(Link { src, dst })
    }

    pub open spec fn has_slot(self, id: u64) -> bool {
        self.slots_map().dom().contains(id)
    }

    pub open spec fn slot(self, id: u64) -> SlotView {
        self.slots_map()[id]
    }

    /// Everything except the endpoint table and the slots is unchanged.
    pub open spec fn same_but_endpoints(self, other: NetSim) -> bool {
        &&& other.nodes@ == self.nodes@
        &&& other.clogged_nodes@ == self.clogged_nodes@
        &&& other.clogged_links@ == self.clogged_links@
        &&& other.config == self.config
        &&& other.stat == self.stat
        &&& other.flights@ == self.flights@
        &&& other.now == self.now
    }

    /// Well-formedness: the registries' keys are distinct; every waiter is
    /// backed by a live `Waiting` slot of its own mailbox, no slot twice; a
    /// pending message and a waiter for the same tag never coexist; a
    /// fulfilled slot holds a message of its own tag; slot ids stay below
    /// the allocation counter; no in-flight send's timer is in the past.
    pub open spec fn wf(self) -> bool {
        &&& keys_distinct(self.bindings@, binding_key())
        &&& keys_distinct(self.nodes@, node_key())
        &&& keys_distinct(self.slots@, slot_key())
        &&& (forall|i: int, j: int|
            0 <= i < j < self.clogged_nodes@.len() ==> self.clogged_nodes@[i]
                != self.clogged_nodes@[j])
        &&& (forall|i: int, j: int|
            0 <= i < j < self.clogged_links@.len() ==> self.clogged_links@[i]
                != self.clogged_links@[j])
        &&& (forall|a: SockAddr|
            #[trigger] self.bound(a) ==> waiter_slots_distinct(self.mbox(a).waiters))
        &&& (forall|a: SockAddr, k: int|
            self.bound(a) && 0 <= k < self.mbox(a).waiters.len() ==> {
                let w = #[trigger] self.mbox(a).waiters[k];
                &&& self.has_slot(w.slot)
                &&& self.slot(w.slot).tag == w.tag
                &&& self.slot(w.slot).addr == a
                &&& self.slot(w.slot).state is Waiting
            })
        &&& (forall|a: SockAddr, i: int, k: int|
            #![trigger self.mbox(a).pending[i].tag, self.mbox(a).waiters[k].tag]
            self.bound(a) && 0 <= i < self.mbox(a).pending.len() && 0 <= k < self.mbox(
                a,
            ).waiters.len() ==> self.mbox(a).pending[i].tag != self.mbox(a).waiters[k].tag)
        &&& (forall|id: u64|
            #[trigger] self.has_slot(id) ==> match self.slot(id).state {
                SlotStateView::Fulfilled(m) => m.tag == self.slot(id).tag,
                _ => true,
            })
        &&& (forall|i: int|
            0 <= i < self.slots@.len() ==> #[trigger] self.slots@[i].id < self.next_slot)
        &&& (forall|i: int|
            0 <= i < self.flights@.len() ==> #[trigger] self.flights@[i].deliver_at >= self.now)
    }

    /// Re-establishes the relational half of `wf` when the endpoint table
    /// and the slot table are unchanged as maps (the raw lists may have been
    /// reordered or rebuilt).
    pub proof fn lemma_wf_relational(pre: NetSim, post: NetSim)
        requires
            pre.wf(),
            post.by_addr() == pre.by_addr(),
            post.slots_map() == pre.slots_map(),
            keys_distinct(post.bindings@, binding_key()),
            keys_distinct(post.nodes@, node_key()),
            keys_distinct(post.slots@, slot_key()),
            forall|i: int, j: int|
                0 <= i < j < post.clogged_nodes@.len() ==> post.clogged_nodes@[i]
                    != post.clogged_nodes@[j],
            forall|i: int, j: int|
                0 <= i < j < post.clogged_links@.len() ==> post.clogged_links@[i]
                    != post.clogged_links@[j],
            forall|i: int|
                0 <= i < post.slots@.len() ==> #[trigger] post.slots@[i].id < post.next_slot,
            forall|i: int|
                0 <= i < post.flights@.len() ==> #[trigger] post.flights@[i].deliver_at
                    >= post.now,
        ensures
            post.wf(),
    {
        assert forall|a: SockAddr| #[trigger] post.bound(a) implies waiter_slots_distinct(
            post.mbox(a).waiters,
        ) by {
            assert(pre.bound(a));
            assert(post.mbox(a) == pre.mbox(a));
        }
        assert forall|a: SockAddr, k: int|
            post.bound(a) && 0 <= k < post.mbox(a).waiters.len() implies {
            let w = #[trigger] post.mbox(a).waiters[k];
            &&& post.has_slot(w.slot)
            &&& post.slot(w.slot).tag == w.tag
            &&& post.slot(w.slot).addr == a
            &&& post.slot(w.slot).state is Waiting
        } by {
            assert(pre.bound(a));
            assert(post.mbox(a) == pre.mbox(a));
            let w = pre.mbox(a).waiters[k];
            assert(pre.has_slot(w.slot));
            assert(post.slot(w.slot) == pre.slot(w.slot));
        }
        assert forall|a: SockAddr, i: int, k: int|
            post.bound(a) && 0 <= i < post.mbox(a).pending.len() && 0 <= k < post.mbox(
                a,
            ).waiters.len() implies #[trigger] post.mbox(a).pending[i].tag != #[trigger] post.mbox(
            a,
        ).waiters[k].tag by {
            assert(pre.bound(a));
            assert(post.mbox(a) == pre.mbox(a));
            assert(pre.mbox(a).pending[i].tag != pre.mbox(a).waiters[k].tag);
        }
        assert forall|id: u64| #[trigger] post.has_slot(id) implies match post.slot(id).state {
            SlotStateView::Fulfilled(m) => m.tag == post.slot(id).tag,
            _ => true,
        } by {
            assert(pre.has_slot(id));
            assert(post.slot(id) == pre.slot(id));
        }
    }

    /// A fresh, empty network at time zero with the default configuration.
    pub fn new() -> (net: NetSim)
        ensures
            net.wf(),
            net.by_addr() == Map::<SockAddr, BindingView>::empty(),
            net.nodes_map() == Map::<u64, NodeEntry>::empty(),
            net.slots_map() == Map::<u64, SlotView>::empty(),
            net.flights_seq() =~= Seq::<FlightView>::empty(),
            net.clogged_nodes@ =~= Seq::<u64>::empty(),
            net.clogged_links@ =~= Seq::<Link>::empty(),
            forall|n: u64| !net.clogged_node(n),
            forall|a: u64, b: u64| !net.clogged_link(a, b),
            net.config == (Config { latency_lo_ns: 1_000_000u64, latency_hi_ns: 10_000_000u64 }),
            net.stat.msg_count == 0,
            net.now == 0,
            net.next_slot == 0,
    {
        let net = NetSim {
            bindings: Vec::new(),
            nodes: Vec::new(),
            clogged_nodes: Vec::new(),
            clogged_links: Vec::new(),
            config: Config::default(),
            stat: Stat { msg_count: 0 },
            flights: Vec::new(),
            slots: Vec::new(),
            next_slot: 0,
            now: 0,
        };
        net
    }

    /// The statistics.
    pub fn stat(&self) -> (s: Stat)
        ensures
            s == self.stat,
    {
        Stat { msg_count: self.stat.msg_count }
    }

    /// The current simulated instant (nanoseconds).
    pub fn now(&self) -> (t: u64)
        ensures
            t == self.now,
    {
        self.now
    }

    /// Whether `addr` currently has a mailbox owned by `node` (callers test
    /// this before sending: a send from an unbound source is a programming
    /// error).
    pub fn is_bound(&self, node: u64, addr: SockAddr) -> (r: bool)
        requires
            self.wf(),
        ensures
            r == self.bound_to(node, addr),
    {
        match self.find_binding(addr) {
            Some(i) => self.bindings[i].node == node,
            None => false,
        }
    }

    /// The instant the next delivery timer fires, if any send is in flight.
    pub fn next_fire_at(&self) -> (r: Option<u64>)
        requires
            self.wf(),
        ensures
            self.flights@.len() == 0 ==> r is None,
            self.flights@.len() > 0 ==> r == Some(
                self.flights_seq()[earliest_idx(self.flights_seq())].deliver_at,
            ),
    {
        let len = self.flights.len();
        if len == 0 {
            return None;
        }
        let mut k: usize = 0;
        let mut i: usize = 1;
        while i < len
            invariant
                1 <= i <= len,
                k < i,
                len == self.flights@.len(),
                forall|j: int| 0 <= j < i ==> #[trigger] self.flights@[j].deliver_at
                    >= self.flights@[k as int].deliver_at,
                forall|j: int| 0 <= j < k ==> #[trigger] self.flights@[j].deliver_at
                    > self.flights@[k as int].deliver_at,
            decreases len - i,
        {
            if self.flights[i].deliver_at < self.flights[k].deliver_at {
                k = i;
            }
            i += 1;
        }
        proof {
            lemma_earliest_idx(self.flights_seq());
            let e = earliest_idx(self.flights_seq());
            assert forall|j: int|
                0 <= j < self.flights@.len() implies #[trigger] self.flights_seq()[j].deliver_at
                == self.flights@[j].deliver_at by {}
            if (k as int) < e {
                assert(self.flights_seq()[k as int].deliver_at
                    > self.flights_seq()[e].deliver_at);
                assert(self.flights@[e].deliver_at >= self.flights@[k as int].deliver_at);
                assert(false);
            } else if e < k as int {
                assert(self.flights@[e].deliver_at > self.flights@[k as int].deliver_at);
                assert(self.flights_seq()[e].deliver_at
                    >= self.flights_seq()[k as int].deliver_at);
                assert(false);
            }
        }
        Some(self.flights[k].deliver_at)
    }

    /// How many admitted sends still await their delivery timer.
    pub fn flights_len(&self) -> (n: usize)
        ensures
            n == self.flights_seq().len(),
    {
        self.flights.len()
    }

    /// Replaces the configuration.
    pub fn update_config(&mut self, c: Config)
        requires
            old(self).wf(),
            c.latency_lo_ns <= c.latency_hi_ns,
        ensures
            final(self).wf(),
            *final(self) == (NetSim { config: c, ..*old(self) }),
    {
        self.config = c;
        proof {
            Self::lemma_wf_relational(*old(self), *self);
        }
    }

    /// Index of the node registry entry for `n`, tied to the registry map.
    fn find_node(&self, n: u64) -> (r: Option<usize>)
        requires
            keys_distinct(self.nodes@, node_key()),
        ensures
            match r {
                Some(i) => {
                    &&& i < self.nodes@.len()
                    &&& self.nodes@[i as int].node == n
                    &&& self.has_node(n)
                    &&& self.nodes_map()[n] == self.nodes@[i as int]
                },
                None => !self.has_node(n),
            },
    {
        let len = self.nodes.len();
        let mut i: usize = 0;
        while i < len
            invariant
                i <= len,
                len == self.nodes@.len(),
                forall|j: int| 0 <= j < i ==> self.nodes@[j].node != n,
            decreases len - i,
        {
            if self.nodes[i].node == n {
                proof {
                    lemma_entry_map_index(self.nodes@, node_key(), node_val(), i as int);
                }
                return Some(i);
            }
            i += 1;
        }
        proof {
            lemma_entry_map_dom(self.nodes@, node_key(), node_val());
            if self.has_node(n) {
                let j = choose|j: int|
                    0 <= j < self.nodes@.len() && node_key()(#[trigger] self.nodes@[j]) == n;
                assert(self.nodes@[j].node != n);
            }
        }
        None
    }

    /// Index of the binding for address `a`, tied to the endpoint table map.
    fn find_binding(&self, a: SockAddr) -> (r: Option<usize>)
        requires
            keys_distinct(self.bindings@, binding_key()),
        ensures
            match r {
                Some(i) => {
                    &&& i < self.bindings@.len()
                    &&& self.bindings@[i as int].addr == a
                    &&& self.bound(a)
                    &&& self.by_addr()[a] == self.bindings@[i as int]@
                },
                None => !self.bound(a),
            },
    {
        let len = self.bindings.len();
        let mut i: usize = 0;
        while i < len
            invariant
                i <= len,
                len == self.bindings@.len(),
                forall|j: int| 0 <= j < i ==> self.bindings@[j].addr != a,
            decreases len - i,
        {
            if self.bindings[i].addr == a {
                proof {
                    lemma_entry_map_index(self.bindings@, binding_key(), binding_val(), i as int);
                }
                return Some(i);
            }
            i += 1;
        }
        proof {
            lemma_entry_map_dom(self.bindings@, binding_key(), binding_val());
            if self.bound(a) {
                let j = choose|j: int|
                    0 <= j < self.bindings@.len() && binding_key()(#[trigger] self.bindings@[j])
                        == a;
                assert(self.bindings@[j].addr != a);
            }
        }
        None
    }

    /// Index of the slot entry with id `id`, tied to the slot map.
    fn find_slot(&self, id: u64) -> (r: Option<usize>)
        requires
            keys_distinct(self.slots@, slot_key()),
        ensures
            match r {
                Some(i) => {
                    &&& i < self.slots@.len()
                    &&& self.slots@[i as int].id == id
                    &&& self.has_slot(id)
                    &&& self.slot(id) == self.slots@[i as int]@
                },
                None => !self.has_slot(id),
            },
    {
        let len = self.slots.len();
        let mut i: usize = 0;
        while i < len
            invariant
                i <= len,
                len == self.slots@.len(),
                forall|j: int| 0 <= j < i ==> self.slots@[j].id != id,
            decreases len - i,
        {
            if self.slots[i].id == id {
                proof {
                    lemma_entry_map_index(self.slots@, slot_key(), slot_val(), i as int);
                }
                return Some(i);
            }
            i += 1;
        }
        proof {
            lemma_entry_map_dom(self.slots@, slot_key(), slot_val());
            if self.has_slot(id) {
                let j = choose|j: int|
                    0 <= j < self.slots@.len() && slot_key()(#[trigger] self.slots@[j]) == id;
                assert(self.slots@[j].id != id);
            }
        }
        None
    }

    /// Makes a node known to the network. Nothing changes when it already is.
    pub fn create_node(&mut self, n: u64)
        requires
            old(self).wf(),
        ensures
            final(self).wf(),
            final(self).nodes_map() == if old(self).has_node(n) {
                old(self).nodes_map()
            } else {
                old(self).nodes_map().insert(n, NodeEntry { node: n, ip: None, next_port: 0 })
            },
            final(self).node_ip(n) == old(self).node_ip(n),
            *final(self) == (NetSim { nodes: final(self).nodes, ..*old(self) }),
    {
        let found = self.find_node(n);
        if found.is_none() {
            let e = NodeEntry { node: n, ip: None, next_port: 0 };
            proof {
                lemma_entry_map_dom(self.nodes@, node_key(), node_val());
                assert forall|i: int| 0 <= i < self.nodes@.len() implies #[trigger] node_key()(
                    self.nodes@[i],
                ) != node_key()(e) by {}
                lemma_entry_map_push(self.nodes@, node_key(), node_val(), e);
            }
            self.nodes.push(e);
        }
        proof {
            Self::lemma_wf_relational(*old(self), *self);
        }
    }

    /// Sets (or first records) the IP address of a node.
    pub fn set_ip(&mut self, n: u64, ip: Ip)
        requires
            old(self).wf(),
        ensures
            final(self).wf(),
            final(self).nodes_map() == old(self).nodes_map().insert(
                n,
                NodeEntry { node: n, ip: Some(ip), next_port: old(self).cur_port(n) },
            ),
            final(self).node_ip(n) == Some(ip),
            *final(self) == (NetSim { nodes: final(self).nodes, ..*old(self) }),
    {
        match self.find_node(n) {
            Some(i) => {
                let e = NodeEntry { node: n, ip: Some(ip), next_port: self.nodes[i].next_port };
                proof {
                    lemma_entry_map_update(self.nodes@, node_key(), node_val(), i as int, e);
                }
                self.nodes[i] = e;
            },
            None => {
                let e = NodeEntry { node: n, ip: Some(ip), next_port: 0 };
                proof {
                    lemma_entry_map_dom(self.nodes@, node_key(), node_val());
                    assert forall|i: int|
                        0 <= i < self.nodes@.len() implies #[trigger] node_key()(self.nodes@[i])
                        != node_key()(e) by {
                        if self.nodes@[i].node == n {
                            assert(node_key()(self.nodes@[i]) == n);
                            assert(self.has_node(n));
                        }
                    }
                    lemma_entry_map_push(self.nodes@, node_key(), node_val(), e);
                }
                self.nodes.push(e);
            },
        }
        proof {
            Self::lemma_wf_relational(*old(self), *self);
        }
    }

    /// The IP address of a node, if one was set.
    pub fn get_ip(&self, n: u64) -> (r: Option<Ip>)
        requires
            self.wf(),
        ensures
            r == self.node_ip(n),
    {
        match self.find_node(n) {
            Some(i) => self.nodes[i].ip,
            None => None,
        }
    }

    /// The next unused port number for this node. Ports are handed out
    /// monotonically from 1 and never reused (the counter wraps only as a
    /// theoretical matter).
    pub fn next_local_port(&mut self, n: u64) -> (p: u32)
        requires
            old(self).wf(),
        ensures
            final(self).wf(),
            p == port_succ(old(self).cur_port(n)),
            final(self).nodes_map() == old(self).nodes_map().insert(
                n,
                NodeEntry { node: n, ip: old(self).node_ip(n), next_port: p },
            ),
            final(self).cur_port(n) == p,
            *final(self) == (NetSim { nodes: final(self).nodes, ..*old(self) }),
    {
        match self.find_node(n) {
            Some(i) => {
                let cur = self.nodes[i].next_port;
                let p = if cur == u32::MAX {
                    0
                } else {
                    cur + 1
                };
                let e = NodeEntry { node: n, ip: self.nodes[i].ip, next_port: p };
                proof {
                    lemma_entry_map_update(self.nodes@, node_key(), node_val(), i as int, e);
                }
                self.nodes[i] = e;
                proof {
                    Self::lemma_wf_relational(*old(self), *self);
                }
                p
            },
            None => {
                let e = NodeEntry { node: n, ip: None, next_port: 1 };
                proof {
                    lemma_entry_map_dom(self.nodes@, node_key(), node_val());
                    assert forall|i: int|
                        0 <= i < self.nodes@.len() implies #[trigger] node_key()(self.nodes@[i])
                        != node_key()(e) by {
                        if self.nodes@[i].node == n {
                            assert(node_key()(self.nodes@[i]) == n);
                            assert(self.has_node(n));
                        }
                    }
                    lemma_entry_map_push(self.nodes@, node_key(), node_val(), e);
                }
                self.nodes.push(e);
                proof {
                    Self::lemma_wf_relational(*old(self), *self);
                }
                1
            },
        }
    }
}

impl NetSim {
    fn clogged_nodes_contains(&self, n: u64) -> (r: bool)
        ensures
            r == self.clogged_node(n),
    {
        let len = self.clogged_nodes.len();
        let mut i: usize = 0;
        while i < len
            invariant
                i <= len,
                len == self.clogged_nodes@.len(),
                forall|j: int| 0 <= j < i ==> self.clogged_nodes@[j] != n,
            decreases len - i,
        {
            if self.clogged_nodes[i] == n {
                return true;
            }
            i += 1;
        }
        proof {
            if self.clogged_node(n) {
                let j = choose|j: int|
                    0 <= j < self.clogged_nodes@.len() && self.clogged_nodes@[j] == n;
                assert(self.clogged_nodes@[j] != n);
            }
        }
        false
    }

    fn clogged_links_contains(&self, l: Link) -> (r: bool)
        ensures
            r == self.clogged_link(l.src, l.dst),
    {
        let len = self.clogged_links.len();
        let mut i: usize = 0;
        while i < len
            invariant
                i <= len,
                len == self.clogged_links@.len(),
                forall|j: int| 0 <= j < i ==> self.clogged_links@[j] != l,
            decreases len - i,
        {
            if self.clogged_links[i] == l {
                return true;
            }
            i += 1;
        }
        proof {
            if self.clogged_link(l.src, l.dst) {
                let j = choose|j: int|
                    0 <= j < self.clogged_links@.len() && self.clogged_links@[j] == (Link {
                        src: l.src,
                        dst: l.dst,
                    });
                assert(self.clogged_links@[j] != l);
            }
        }
        false
    }

    /// Clogs a node: sends from or to it are dropped at admission.
    pub fn clog_node(&mut self, n: u64)
        requires
            old(self).wf(),
        ensures
            final(self).wf(),
            forall|m: u64|
                #[trigger] final(self).clogged_node(m) == (old(self).clogged_node(m) || m == n),
            *final(self) == (NetSim { clogged_nodes: final(self).clogged_nodes, ..*old(self) }),
    {
        if !self.clogged_nodes_contains(n) {
            proof {
                lemma_push_distinct(self.clogged_nodes@, n);
            }
            self.clogged_nodes.push(n);
        }
        proof {
            Self::lemma_wf_relational(*old(self), *self);
        }
    }

    /// Unclogs a node.
    pub fn unclog_node(&mut self, n: u64)
        requires
            old(self).wf(),
        ensures
            final(self).wf(),
            forall|m: u64|
                #[trigger] final(self).clogged_node(m) == (old(self).clogged_node(m) && m != n),
            *final(self) == (NetSim { clogged_nodes: final(self).clogged_nodes, ..*old(self) }),
    {
        let len = self.clogged_nodes.len();
        let mut i: usize = 0;
        while i < len
            invariant
                i <= len,
                len == self.clogged_nodes@.len(),
                *self == *old(self),
                forall|j: int| 0 <= j < i ==> self.clogged_nodes@[j] != n,
            decreases len - i,
        {
            if self.clogged_nodes[i] == n {
                proof {
                    lemma_remove_distinct(self.clogged_nodes@, i as int);
                }
                self.clogged_nodes.remove(i);
                proof {
                    Self::lemma_wf_relational(*old(self), *self);
                }
                return;
            }
            i += 1;
        }
        proof {
            assert forall|m: u64|
                #[trigger] self.clogged_node(m) == (old(self).clogged_node(m) && m != n) by {
                if self.clogged_node(m) && m == n {
                    let j = choose|j: int|
                        0 <= j < self.clogged_nodes@.len() && self.clogged_nodes@[j] == m;
                    assert(self.clogged_nodes@[j] != n);
                }
            }
        }
    }

    /// Clogs the directed link from `src` to `dst`.
    pub fn clog_link(&mut self, src: u64, dst: u64)
        requires
            old(self).wf(),
        ensures
            final(self).wf(),
            forall|a: u64, b: u64|
                #[trigger] final(self).clogged_link(a, b) == (old(self).clogged_link(a, b) || (a
                    == src && b == dst)),
            *final(self) == (NetSim { clogged_links: final(self).clogged_links, ..*old(self) }),
    {
        let l = Link { src, dst };
        if !self.clogged_links_contains(l) {
            proof {
                lemma_push_distinct(self.clogged_links@, l);
            }
            self.clogged_links.push(l);
        }
        proof {
            Self::lemma_wf_relational(*old(self), *self);
        }
    }

    /// Unclogs the directed link from `src` to `dst`.
    pub fn unclog_link(&mut self, src: u64, dst: u64)
        requires
            old(self).wf(),
        ensures
            final(self).wf(),
            forall|a: u64, b: u64|
                #[trigger] final(self).clogged_link(a, b) == (old(self).clogged_link(a, b) && !(a
                    == src && b == dst)),
            *final(self) == (NetSim { clogged_links: final(self).clogged_links, ..*old(self) }),
    {
        let l = Link { src, dst };
        let len = self.clogged_links.len();
        let mut i: usize = 0;
        while i < len
            invariant
                i <= len,
                len == self.clogged_links@.len(),
                *self == *old(self),
                forall|j: int| 0 <= j < i ==> self.clogged_links@[j] != l,
            decreases len - i,
        {
            if self.clogged_links[i] == l {
                proof {
                    lemma_remove_distinct(self.clogged_links@, i as int);
                }
                self.clogged_links.remove(i);
                proof {
                    Self::lemma_wf_relational(*old(self), *self);
                }
                return;
            }
            i += 1;
        }
        proof {
            assert forall|a: u64, b: u64|
                #[trigger] self.clogged_link(a, b) == (old(self).clogged_link(a, b) && !(a == src
                    && b == dst)) by {
                if self.clogged_link(a, b) && a == src && b == dst {
                    let j = choose|j: int|
                        0 <= j < self.clogged_links@.len() && self.clogged_links@[j] == (Link {
                            src: a,
                            dst: b,
                        });
                    assert(self.clogged_links@[j] != l);
                }
            }
        }
    }

    /// Connects a node to the network (undoes `disconnect`).
    pub fn connect(&mut self, n: u64)
        requires
            old(self).wf(),
        ensures
            final(self).wf(),
            forall|m: u64|
                #[trigger] final(self).clogged_node(m) == (old(self).clogged_node(m) && m != n),
            *final(self) == (NetSim { clogged_nodes: final(self).clogged_nodes, ..*old(self) }),
    {
        self.unclog_node(n);
    }

    /// Disconnects a node from the network: clogs it.
    pub fn disconnect(&mut self, n: u64)
        requires
            old(self).wf(),
        ensures
            final(self).wf(),
            forall|m: u64|
                #[trigger] final(self).clogged_node(m) == (old(self).clogged_node(m) || m == n),
            *final(self) == (NetSim { clogged_nodes: final(self).clogged_nodes, ..*old(self) }),
    {
        self.clog_node(n);
    }

    /// Connects a pair of nodes: unclogs the link in both directions.
    pub fn connect2(&mut self, node1: u64, node2: u64)
        requires
            old(self).wf(),
        ensures
            final(self).wf(),
            forall|a: u64, b: u64|
                #[trigger] final(self).clogged_link(a, b) == (old(self).clogged_link(a, b) && !(a
                    == node1 && b == node2) && !(a == node2 && b == node1)),
            *final(self) == (NetSim { clogged_links: final(self).clogged_links, ..*old(self) }),
    {
        self.unclog_link(node1, node2);
        self.unclog_link(node2, node1);
    }

    /// Disconnects a pair of nodes: clogs the link in both directions.
    pub fn disconnect2(&mut self, node1: u64, node2: u64)
        requires
            old(self).wf(),
        ensures
            final(self).wf(),
            forall|a: u64, b: u64|
                #[trigger] final(self).clogged_link(a, b) == (old(self).clogged_link(a, b) || (a
                    == node1 && b == node2) || (a == node2 && b == node1)),
            *final(self) == (NetSim { clogged_links: final(self).clogged_links, ..*old(self) }),
    {
        self.clog_link(node1, node2);
        self.clog_link(node2, node1);
    }
}

impl NetSim {
    /// Whether a bind by `node` to `req` is refused with `AddrNotAvailable`:
    /// the IP is specified but is neither the node's IP nor loopback, or it
    /// is unspecified and the node has no IP to substitute.
    pub open spec fn bind_ip_rejected(self, node: u64, req: SockAddr) -> bool {
        if req.ip.is_unspecified() {
            self.node_ip(node) is None
        } else {
            !req.ip.is_loopback() && self.node_ip(node) != Some(req.ip)
        }
    }

    /// The IP a bind resolves to: unspecified becomes the node's IP,
    /// loopback and the node's own IP stay as requested.
    pub open spec fn bind_ip(self, node: u64, req: SockAddr) -> Ip {
        if req.ip.is_unspecified() {
            self.node_ip(node)->Some_0
        } else {
            req.ip
        }
    }

    /// The port a bind resolves to: port 0 asks for a fresh ephemeral port.
    pub open spec fn bind_port(self, node: u64, req: SockAddr) -> u32 {
        if req.port == 0 {
            port_succ(self.cur_port(node))
        } else {
            req.port
        }
    }

    /// The address a bind resolves to.
    pub open spec fn bind_addr(self, node: u64, req: SockAddr) -> SockAddr {
        SockAddr { ip: self.bind_ip(node, req), port: self.bind_port(node, req) }
    }

    /// Installs a mailbox for `node` under the requested address, after
    /// normalization, and returns the resolved address. Fails with
    /// `AddrNotAvailable` for an IP the node may not bind, `AddrInUse` for
    /// an address that already has a mailbox. A request for an ephemeral
    /// port advances the node's port counter even if the bind then fails.
    pub fn bind(&mut self, node: u64, req: SockAddr) -> (r: Result<SockAddr, NetError>)
        requires
            old(self).wf(),
        ensures
            final(self).wf(),
            old(self).bind_ip_rejected(node, req) ==> r == Err::<SockAddr, NetError>(
                NetError::AddrNotAvailable,
            ) && *final(self) == *old(self),
            !old(self).bind_ip_rejected(node, req) ==> {
                let a = old(self).bind_addr(node, req);
                &&& final(self).nodes_map() == if req.port == 0 {
                    old(self).nodes_map().insert(
                        node,
                        NodeEntry {
                            node,
                            ip: old(self).node_ip(node),
                            next_port: port_succ(old(self).cur_port(node)),
                        },
                    )
                } else {
                    old(self).nodes_map()
                }
                &&& old(self).bound(a) ==> r == Err::<SockAddr, NetError>(NetError::AddrInUse)
                    && final(self).by_addr() == old(self).by_addr()
                &&& !old(self).bound(a) ==> r == Ok::<SockAddr, NetError>(a)
                    && final(self).by_addr() == old(self).by_addr().insert(
                    a,
                    BindingView {
                        node,
                        mailbox: MailboxView {
                            pending: Seq::empty(),
                            waiters: Seq::empty(),
                        },
                    },
                )
                &&& final(self).slots_map() == old(self).slots_map()
                &&& *final(self) == (NetSim {
                    bindings: final(self).bindings,
                    nodes: final(self).nodes,
                    ..*old(self)
                })
            },
    {
        let rip: Ip;
        if req.ip.unspecified() {
            match self.get_ip(node) {
                Some(ip) => {
                    rip = ip;
                },
                None => {
                    return Err(NetError::AddrNotAvailable);
                },
            }
        } else if req.ip.loopback() {
            rip = req.ip;
        } else {
            match self.get_ip(node) {
                Some(nip) => {
                    if req.ip == nip {
                        rip = req.ip;
                    } else {
                        return Err(NetError::AddrNotAvailable);
                    }
                },
                None => {
                    return Err(NetError::AddrNotAvailable);
                },
            }
        }
        let rport: u32 = if req.port == 0 {
            self.next_local_port(node)
        } else {
            req.port
        };
        let a = SockAddr { ip: rip, port: rport };
        proof {
            assert(a == old(self).bind_addr(node, req));
        }
        match self.find_binding(a) {
            Some(_) => Err(NetError::AddrInUse),
            None => {
                let ghost pre = *self;
                let b = Binding { addr: a, node, mailbox: Mailbox::new() };
                proof {
                    lemma_entry_map_dom(self.bindings@, binding_key(), binding_val());
                    assert forall|i: int|
                        0 <= i < self.bindings@.len() implies #[trigger] binding_key()(
                        self.bindings@[i],
                    ) != binding_key()(b) by {
                        if self.bindings@[i].addr == a {
                            assert(binding_key()(self.bindings@[i]) == a);
                            assert(self.bound(a));
                        }
                    }
                    lemma_entry_map_push(self.bindings@, binding_key(), binding_val(), b);
                }
                self.bindings.push(b);
                proof {
                    assert(self.by_addr() == pre.by_addr().insert(a, b@));
                    assert(b@.mailbox =~= (MailboxView {
                        pending: Seq::<crate::payload::MessageView>::empty(),
                        waiters: Seq::<Waiter>::empty(),
                    }));
                    self.lemma_wf_after_bind(pre, a, b@);
                }
                Ok(a)
            },
        }
    }

    /// `wf` survives installing a fresh, empty mailbox.
    proof fn lemma_wf_after_bind(self, pre: NetSim, a: SockAddr, bv: BindingView)
        requires
            pre.wf(),
            bv.mailbox.waiters.len() == 0,
            bv.mailbox.pending.len() == 0,
            self.by_addr() == pre.by_addr().insert(a, bv),
            keys_distinct(self.bindings@, binding_key()),
            self.nodes@ == pre.nodes@,
            self.slots@ == pre.slots@,
            self.clogged_nodes@ == pre.clogged_nodes@,
            self.clogged_links@ == pre.clogged_links@,
            self.flights@ == pre.flights@,
            self.next_slot == pre.next_slot,
            self.now == pre.now,
        ensures
            self.wf(),
    {
        assert(self.slots_map() == pre.slots_map());
        assert forall|x: SockAddr| #[trigger] self.bound(x) implies waiter_slots_distinct(
            self.mbox(x).waiters,
        ) by {
            if x != a {
                assert(pre.bound(x));
                assert(self.mbox(x) == pre.mbox(x));
            }
        }
        assert forall|x: SockAddr, k: int|
            self.bound(x) && 0 <= k < self.mbox(x).waiters.len() implies {
            let w = #[trigger] self.mbox(x).waiters[k];
            &&& self.has_slot(w.slot)
            &&& self.slot(w.slot).tag == w.tag
            &&& self.slot(w.slot).addr == x
            &&& self.slot(w.slot).state is Waiting
        } by {
            assert(x != a);
            assert(pre.bound(x));
            assert(self.mbox(x) == pre.mbox(x));
            let w = pre.mbox(x).waiters[k];
            assert(pre.has_slot(w.slot));
        }
        assert forall|x: SockAddr, i: int, k: int|
            self.bound(x) && 0 <= i < self.mbox(x).pending.len() && 0 <= k < self.mbox(
                x,
            ).waiters.len() implies #[trigger] self.mbox(x).pending[i].tag != #[trigger] self.mbox(
            x,
        ).waiters[k].tag by {
            assert(x != a);
            assert(pre.bound(x));
            assert(self.mbox(x) == pre.mbox(x));
            assert(pre.mbox(x).pending[i].tag != pre.mbox(x).waiters[k].tag);
        }
        assert forall|id: u64| #[trigger] self.has_slot(id) implies match self.slot(id).state {
            SlotStateView::Fulfilled(m) => m.tag == self.slot(id).tag,
            _ => true,
        } by {
            assert(pre.has_slot(id));
            assert(self.slot(id) == pre.slot(id));
        }
    }
}

/// Some waiter of the list is bound to rendezvous slot `id`.
pub open spec fn waiter_refs(ws: Seq<Waiter>, id: u64) -> bool {
    exists|k: int| 0 <= k < ws.len() && ws[k].slot == id
}

impl NetSim {
    /// Marks slot `id` closed ("network is down"), keeping its tag and
    /// address; does nothing when no such slot exists.
    fn set_slot_closed(&mut self, id: u64)
        requires
            keys_distinct(old(self).slots@, slot_key()),
        ensures
            keys_distinct(final(self).slots@, slot_key()),
            old(self).has_slot(id) ==> final(self).slots_map() == old(self).slots_map().insert(
                id,
                (SlotView { state: SlotStateView::Closed, ..old(self).slot(id) }),
            ),
            !old(self).has_slot(id) ==> final(self).slots@ == old(self).slots@,
            final(self).slots@.len() == old(self).slots@.len(),
            forall|i: int|
                0 <= i < old(self).slots@.len() ==> #[trigger] final(self).slots@[i].id == old(self).slots@[i].id,
            *final(self) == (NetSim { slots: final(self).slots, ..*old(self) }),
    {
        match self.find_slot(id) {
            Some(j) => {
                let tag = self.slots[j].tag;
                let addr = self.slots[j].addr;
                let e = SlotEntry { id, tag, addr, state: SlotState::Closed };
                proof {
                    lemma_entry_map_update(self.slots@, slot_key(), slot_val(), j as int, e);
                }
                self.slots[j] = e;
                proof {
                    assert(final(self).slots_map() == old(self).slots_map().insert(
                        id,
                        (SlotView { state: SlotStateView::Closed, ..old(self).slot(id) }),
                    ));
                }
            },
            None => {},
        }
    }

    /// Removes the mailbox of `a` when `node` owns it: pending messages are
    /// dropped and every parked receiver's slot is closed, so those
    /// receivers resolve with `BrokenPipe`. Does nothing when `a` is not
    /// bound by `node` (a drop after a reset, for instance).
    pub fn close(&mut self, node: u64, a: SockAddr)
        requires
            old(self).wf(),
        ensures
            final(self).wf(),
            !old(self).bound_to(node, a) ==> *final(self) == *old(self),
            old(self).bound_to(node, a) ==> {
                &&& final(self).bindings@.len() == old(self).bindings@.len() - 1
                &&& final(self).by_addr() == old(self).by_addr().remove(a)
                &&& final(self).slots_map().dom() == old(self).slots_map().dom()
                &&& forall|id: u64|
                    #[trigger] old(self).has_slot(id) ==> final(self).slot(id) == if waiter_refs(
                        old(self).mbox(a).waiters,
                        id,
                    ) {
                        (SlotView { state: SlotStateView::Closed, ..old(self).slot(id) })
                    } else {
                        old(self).slot(id)
                    }
                &&& *final(self) == (NetSim {
                    bindings: final(self).bindings,
                    slots: final(self).slots,
                    ..*old(self)
                })
            },
    {
        let i = match self.find_binding(a) {
            None => {
                return ;
            },
            Some(i) => i,
        };
        if self.bindings[i].node != node {
            return ;
        }
        proof {
            lemma_entry_map_remove(self.bindings@, binding_key(), binding_val(), i as int);
        }
        let b = self.bindings.remove(i);
        let ghost mid = *self;
        let ghost ws = b.mailbox.waiters@;
        proof {
            assert(mid.by_addr() == old(self).by_addr().remove(a));
            assert(ws == old(self).mbox(a).waiters);
            assert(waiter_slots_distinct(ws));
        }
        let waiters = b.mailbox.waiters;
        let n = waiters.len();
        let mut k: usize = 0;
        while k < n
            invariant
                k <= n,
                n == ws.len(),
                waiters@ == ws,
                self.bindings == mid.bindings,
                self.nodes == mid.nodes,
                self.clogged_nodes == mid.clogged_nodes,
                self.clogged_links == mid.clogged_links,
                self.config == mid.config,
                self.stat == mid.stat,
                self.flights == mid.flights,
                self.next_slot == mid.next_slot,
                self.now == mid.now,
                keys_distinct(self.slots@, slot_key()),
                self.slots@.len() == old(self).slots@.len(),
                forall|i: int|
                    0 <= i < old(self).slots@.len() ==> #[trigger] self.slots@[i].id == old(self).slots@[i].id,
                self.slots_map().dom() == old(self).slots_map().dom(),
                forall|id: u64|
                    #[trigger] old(self).has_slot(id) ==> self.slot(id) == if exists|j: int|
                        0 <= j < k && ws[j].slot == id {
                        (SlotView { state: SlotStateView::Closed, ..old(self).slot(id) })
                    } else {
                        old(self).slot(id)
                    },
            decreases n - k,
        {
            let ghost prev = *self;
            let id = waiters[k].slot;
            proof {
                assert(old(self).bound(a) && 0 <= k < old(self).mbox(a).waiters.len());
                assert(old(self).mbox(a).waiters[k as int] == ws[k as int]);
                assert(old(self).has_slot(id));
                // No earlier waiter closed this slot: their slot ids differ.
                assert(!(exists|j: int| 0 <= j < k && ws[j].slot == id)) by {
                    if exists|j: int| 0 <= j < k && ws[j].slot == id {
                        let j = choose|j: int| 0 <= j < k && ws[j].slot == id;
                        assert(ws[j].slot != ws[k as int].slot);
                    }
                }
                assert(self.slot(id) == old(self).slot(id));
                assert(self.has_slot(id)) by {
                    lemma_entry_map_dom(self.slots@, slot_key(), slot_val());
                    lemma_entry_map_dom(old(self).slots@, slot_key(), slot_val());
                }
            }
            self.set_slot_closed(id);
            proof {
                assert(self.slot(id) == (SlotView {
                    state: SlotStateView::Closed,
                    ..old(self).slot(id)
                })) by {
                    assert(prev.slots_map().dom().contains(id));
                    assert(prev.slot(id) == old(self).slot(id));
                }
                assert forall|id2: u64| #[trigger] old(self).has_slot(id2) implies self.slot(id2)
                    == if exists|j: int| 0 <= j < k + 1 && ws[j].slot == id2 {
                    (SlotView { state: SlotStateView::Closed, ..old(self).slot(id2) })
                } else {
                    old(self).slot(id2)
                } by {
                    assert(prev.slots_map().dom().contains(id));
                    if id2 == id {
                        assert(ws[k as int].slot == id2);
                    } else {
                        assert(self.slot(id2) == prev.slot(id2));
                        if exists|j: int| 0 <= j < k + 1 && ws[j].slot == id2 {
                            let j = choose|j: int| 0 <= j < k + 1 && ws[j].slot == id2;
                            assert(j < k);
                            assert(exists|j: int| 0 <= j < k && ws[j].slot == id2);
                        } else {
                            assert(!(exists|j: int| 0 <= j < k && ws[j].slot == id2));
                        }
                    }
                }
                assert(self.slots_map().dom() == old(self).slots_map().dom()) by {
                    assert(prev.slots_map().dom().contains(id));
                    assert(self.slots_map() == prev.slots_map().insert(id, self.slot(id)));
                    assert(self.slots_map().dom() =~= prev.slots_map().dom());
                }
            }
            k += 1;
        }
        proof {
            self.lemma_wf_after_close(*old(self), mid, node, a, ws);
        }
    }

    /// `wf` survives removing a mailbox and closing its waiters' slots.
    proof fn lemma_wf_after_close(
        self,
        pre: NetSim,
        mid: NetSim,
        node: u64,
        a: SockAddr,
        ws: Seq<Waiter>,
    )
        requires
            pre.wf(),
            pre.bound_to(node, a),
            ws == pre.mbox(a).waiters,
            self.by_addr() == pre.by_addr().remove(a),
            keys_distinct(self.bindings@, binding_key()),
            keys_distinct(self.nodes@, node_key()),
            keys_distinct(self.slots@, slot_key()),
            self.nodes@ == pre.nodes@,
            self.clogged_nodes@ == pre.clogged_nodes@,
            self.clogged_links@ == pre.clogged_links@,
            self.flights@ == pre.flights@,
            self.next_slot == pre.next_slot,
            self.now == pre.now,
            self.slots@.len() == pre.slots@.len(),
            forall|i: int|
                0 <= i < pre.slots@.len() ==> #[trigger] self.slots@[i].id == pre.slots@[i].id,
            self.slots_map().dom() == pre.slots_map().dom(),
            forall|id: u64|
                #[trigger] pre.has_slot(id) ==> self.slot(id) == if waiter_refs(ws, id) {
                    (SlotView { state: SlotStateView::Closed, ..pre.slot(id) })
                } else {
                    pre.slot(id)
                },
        ensures
            self.wf(),
    {
        assert forall|i: int|
            0 <= i < self.slots@.len() implies #[trigger] self.slots@[i].id < self.next_slot by {
            assert(pre.slots@[i].id < pre.next_slot);
        }
        assert forall|x: SockAddr| #[trigger] self.bound(x) implies waiter_slots_distinct(
            self.mbox(x).waiters,
        ) by {
            assert(pre.bound(x));
            assert(self.mbox(x) == pre.mbox(x));
        }
        assert forall|x: SockAddr, k: int|
            self.bound(x) && 0 <= k < self.mbox(x).waiters.len() implies {
            let w = #[trigger] self.mbox(x).waiters[k];
            &&& self.has_slot(w.slot)
            &&& self.slot(w.slot).tag == w.tag
            &&& self.slot(w.slot).addr == x
            &&& self.slot(w.slot).state is Waiting
        } by {
            assert(pre.bound(x));
            assert(x != a);
            assert(self.mbox(x) == pre.mbox(x));
            let w = pre.mbox(x).waiters[k];
            assert(pre.has_slot(w.slot));
            assert(pre.slot(w.slot).addr == x);
            // A slot of mailbox `x` is never a slot of the closed mailbox
            // `a`, so it was not touched.
            assert(!waiter_refs(ws, w.slot)) by {
                if waiter_refs(ws, w.slot) {
                    let j = choose|j: int| 0 <= j < ws.len() && ws[j].slot == w.slot;
                    assert(pre.slot(ws[j].slot).addr == a);
                }
            }
            assert(self.slot(w.slot) == pre.slot(w.slot));
        }
        assert forall|x: SockAddr, i: int, k: int|
            self.bound(x) && 0 <= i < self.mbox(x).pending.len() && 0 <= k < self.mbox(
                x,
            ).waiters.len() implies #[trigger] self.mbox(x).pending[i].tag != #[trigger] self.mbox(
            x,
        ).waiters[k].tag by {
            assert(pre.bound(x));
            assert(self.mbox(x) == pre.mbox(x));
            assert(pre.mbox(x).pending[i].tag != pre.mbox(x).waiters[k].tag);
        }
        assert forall|id: u64| #[trigger] self.has_slot(id) implies match self.slot(id).state {
            SlotStateView::Fulfilled(m) => m.tag == self.slot(id).tag,
            _ => true,
        } by {
            assert(pre.has_slot(id));
            if !waiter_refs(ws, id) {
                assert(self.slot(id) == pre.slot(id));
            }
        }
    }
}

impl NetSim {
    /// Index of some binding owned by `n`, or `None` when the node owns none.
    fn find_binding_of_node(&self, n: u64) -> (r: Option<usize>)
        requires
            keys_distinct(self.bindings@, binding_key()),
        ensures
            match r {
                Some(i) => {
                    &&& i < self.bindings@.len()
                    &&& self.bindings@[i as int].node == n
                    &&& self.bound_to(n, self.bindings@[i as int].addr)
                },
                None => forall|x: SockAddr|
                    #[trigger] self.bound(x) ==> self.by_addr()[x].node != n,
            },
    {
        let len = self.bindings.len();
        let mut i: usize = 0;
        while i < len
            invariant
                i <= len,
                len == self.bindings@.len(),
                forall|j: int| 0 <= j < i ==> self.bindings@[j].node != n,
            decreases len - i,
        {
            if self.bindings[i].node == n {
                proof {
                    lemma_entry_map_index(self.bindings@, binding_key(), binding_val(), i as int);
                }
                return Some(i);
            }
            i += 1;
        }
        proof {
            lemma_entry_map_dom(self.bindings@, binding_key(), binding_val());
            assert forall|x: SockAddr| #[trigger] self.bound(x) implies self.by_addr()[x].node
                != n by {
                let j = choose|j: int|
                    0 <= j < self.bindings@.len() && binding_key()(#[trigger] self.bindings@[j])
                        == x;
                lemma_entry_map_index(self.bindings@, binding_key(), binding_val(), j);
                assert(self.bindings@[j].node != n);
            }
        }
        None
    }

    /// Removes every clogged link touching `n`.
    fn remove_links_of(&mut self, n: u64)
        requires
            old(self).wf(),
        ensures
            final(self).wf(),
            forall|a: u64, b: u64|
                #[trigger] final(self).clogged_link(a, b) == (old(self).clogged_link(a, b) && a
                    != n && b != n),
            *final(self) == (NetSim { clogged_links: final(self).clogged_links, ..*old(self) }),
    {
        let mut i: usize = 0;
        while i < self.clogged_links.len()
            invariant
                old(self).wf(),
                *self == (NetSim { clogged_links: self.clogged_links, ..*old(self) }),
                i <= self.clogged_links@.len(),
                forall|a2: int, b2: int|
                    0 <= a2 < b2 < self.clogged_links@.len() ==> self.clogged_links@[a2]
                        != self.clogged_links@[b2],
                forall|l: Link| self.clogged_links@.contains(l) ==> old(self).clogged_links@.contains(l),
                forall|l: Link|
                    old(self).clogged_links@.contains(l) && l.src != n && l.dst != n ==> self
                        .clogged_links@.contains(l),
                forall|j: int| 0 <= j < i ==> self.clogged_links@[j].src != n
                    && self.clogged_links@[j].dst != n,
            decreases self.clogged_links@.len() - i,
        {
            let l = self.clogged_links[i];
            if l.src == n || l.dst == n {
                proof {
                    lemma_remove_distinct(self.clogged_links@, i as int);
                }
                self.clogged_links.remove(i);
            } else {
                i += 1;
            }
        }
        proof {
            assert forall|a: u64, b: u64|
                #[trigger] self.clogged_link(a, b) == (old(self).clogged_link(a, b) && a != n && b
                    != n) by {
                let l = Link { src: a, dst: b };
                if self.clogged_links@.contains(l) {
                    let j = choose|j: int|
                        0 <= j < self.clogged_links@.len() && self.clogged_links@[j] == l;
                    assert(self.clogged_links@[j].src != n && self.clogged_links@[j].dst != n);
                }
            }
            Self::lemma_wf_relational(*old(self), *self);
        }
    }

    /// Resets a node: closes every endpoint it owns (their parked receivers
    /// resolve with `BrokenPipe`), unclogs the node, and removes every
    /// clogged link touching it.
    pub fn reset_node(&mut self, n: u64)
        requires
            old(self).wf(),
        ensures
            final(self).wf(),
            forall|x: SockAddr|
                #[trigger] final(self).bound(x) <==> (old(self).bound(x) && old(self).by_addr()[x].node != n),
            forall|x: SockAddr|
                #[trigger] final(self).bound(x) ==> final(self).by_addr()[x] == old(self).by_addr()[x],
            final(self).slots_map().dom() == old(self).slots_map().dom(),
            forall|id: u64|
                #[trigger] old(self).has_slot(id) ==> (final(self).slot(id) == old(self).slot(id)
                    || final(self).slot(id) == (SlotView {
                    state: SlotStateView::Closed,
                    ..old(self).slot(id)
                })),
            forall|x: SockAddr, k: int|
                old(self).bound(x) && old(self).by_addr()[x].node == n && 0 <= k < old(self).mbox(
                    x,
                ).waiters.len() ==> final(self).slot(
                    (#[trigger] old(self).mbox(x).waiters[k]).slot,
                ).state is Closed,
            forall|m: u64|
                #[trigger] final(self).clogged_node(m) == (old(self).clogged_node(m) && m != n),
            forall|a: u64, b: u64|
                #[trigger] final(self).clogged_link(a, b) == (old(self).clogged_link(a, b) && a
                    != n && b != n),
            *final(self) == (NetSim {
                bindings: final(self).bindings,
                slots: final(self).slots,
                clogged_nodes: final(self).clogged_nodes,
                clogged_links: final(self).clogged_links,
                ..*old(self)
            }),
    {
        let mut done = false;
        while !done
            invariant
                self.wf(),
                forall|x: SockAddr|
                    #[trigger] self.bound(x) ==> old(self).bound(x) && self.by_addr()[x] == old(self).by_addr()[x],
                forall|x: SockAddr|
                    old(self).bound(x) && old(self).by_addr()[x].node != n ==> #[trigger] self
                        .bound(x),
                self.slots_map().dom() == old(self).slots_map().dom(),
                forall|id: u64|
                    #[trigger] old(self).has_slot(id) ==> (self.slot(id) == old(self).slot(id)
                        || self.slot(id) == (SlotView {
                        state: SlotStateView::Closed,
                        ..old(self).slot(id)
                    })),
                forall|x: SockAddr, k: int|
                    old(self).bound(x) && old(self).by_addr()[x].node == n && !self.bound(x) && 0
                        <= k < old(self).mbox(x).waiters.len() ==> self.slot(
                        (#[trigger] old(self).mbox(x).waiters[k]).slot,
                    ).state is Closed,
                *self == (NetSim { bindings: self.bindings, slots: self.slots, ..*old(self) }),
                done ==> forall|x: SockAddr|
                    #[trigger] self.bound(x) ==> self.by_addr()[x].node != n,
            decreases self.bindings@.len() + if done {
                0int
            } else {
                1int
            },
        {
            let i = match self.find_binding_of_node(n) {
                None => {
                    done = true;
                    continue ;
                },
                Some(i) => i,
            };
            let a = self.bindings[i].addr;
            let ghost cur = *self;
            proof {
                lemma_entry_map_index(self.bindings@, binding_key(), binding_val(), i as int);
            }
            self.close(n, a);
            proof {
                assert(self.by_addr() == cur.by_addr().remove(a));
                assert forall|x: SockAddr| #[trigger] self.bound(x) implies old(self).bound(x)
                    && self.by_addr()[x] == old(self).by_addr()[x] by {
                    assert(cur.bound(x));
                    assert(self.by_addr()[x] == cur.by_addr()[x]);
                }
                assert forall|x: SockAddr|
                    old(self).bound(x) && old(self).by_addr()[x].node != n implies #[trigger] self
                    .bound(x) by {
                    assert(cur.bound(x));
                    assert(cur.by_addr()[x] == old(self).by_addr()[x]);
                    assert(cur.by_addr()[a].node == n);
                    assert(x != a);
                }
                assert forall|id: u64| #[trigger] old(self).has_slot(id) implies (self.slot(id)
                    == old(self).slot(id) || self.slot(id) == (SlotView {
                    state: SlotStateView::Closed,
                    ..old(self).slot(id)
                })) by {
                    assert(cur.has_slot(id));
                    if waiter_refs(cur.mbox(a).waiters, id) {
                        assert(self.slot(id) == (SlotView {
                            state: SlotStateView::Closed,
                            ..cur.slot(id)
                        }));
                    } else {
                        assert(self.slot(id) == cur.slot(id));
                    }
                }
                assert forall|x: SockAddr, k: int|
                    old(self).bound(x) && old(self).by_addr()[x].node == n && !self.bound(x) && 0
                        <= k < old(self).mbox(x).waiters.len() implies self.slot(
                        (#[trigger] old(self).mbox(x).waiters[k]).slot,
                    ).state is Closed by {
                    let w = old(self).mbox(x).waiters[k];
                    if x == a {
                        assert(cur.mbox(a) == old(self).mbox(a));
                        assert(waiter_refs(cur.mbox(a).waiters, w.slot)) by {
                            assert(cur.mbox(a).waiters[k] == w);
                        }
                        assert(cur.has_slot(w.slot)) by {
                            assert(cur.bound(a) && 0 <= k < cur.mbox(a).waiters.len());
                        }
                        assert(self.slot(w.slot) == (SlotView {
                            state: SlotStateView::Closed,
                            ..cur.slot(w.slot)
                        }));
                    } else {
                        assert(!cur.bound(x));
                        assert(cur.slot(w.slot).state is Closed);
                        assert(cur.has_slot(w.slot)) by {
                            assert(old(self).bound(x) && 0 <= k < old(self).mbox(x).waiters.len());
                            assert(old(self).has_slot(w.slot));
                        }
                        if waiter_refs(cur.mbox(a).waiters, w.slot) {
                            assert(self.slot(w.slot) == (SlotView {
                                state: SlotStateView::Closed,
                                ..cur.slot(w.slot)
                            }));
                        } else {
                            assert(self.slot(w.slot) == cur.slot(w.slot));
                        }
                    }
                }
            }
        }
        let ghost exit = *self;
        self.unclog_node(n);
        let ghost exit2 = *self;
        self.remove_links_of(n);
        proof {
            assert forall|m: u64|
                #[trigger] self.clogged_node(m) == (old(self).clogged_node(m) && m != n) by {
                assert(self.clogged_nodes == exit2.clogged_nodes);
                assert(exit2.clogged_node(m) == (exit.clogged_node(m) && m != n));
                assert(exit.clogged_node(m) == old(self).clogged_node(m));
            }
            assert forall|a: u64, b: u64|
                #[trigger] self.clogged_link(a, b) == (old(self).clogged_link(a, b) && a != n && b
                    != n) by {
                assert(self.clogged_link(a, b) == (exit2.clogged_link(a, b) && a != n && b != n));
                assert(exit2.clogged_links == exit.clogged_links);
                assert(exit2.clogged_link(a, b) == exit.clogged_link(a, b));
                assert(exit.clogged_link(a, b) == old(self).clogged_link(a, b));
            }
            assert(self.bindings == exit.bindings);
            assert(self.slots == exit.slots);
            assert(self.by_addr() == exit.by_addr());
            assert(self.slots_map() == exit.slots_map());
            assert forall|x: SockAddr| #[trigger] self.bound(x) implies (old(self).bound(x)
                && old(self).by_addr()[x].node != n && self.by_addr()[x] == old(self).by_addr()[x]) by {
                assert(exit.bound(x));
                assert(exit.by_addr()[x].node != n);
                assert(exit.by_addr()[x] == old(self).by_addr()[x]);
            }
            assert forall|x: SockAddr|
                old(self).bound(x) && old(self).by_addr()[x].node != n implies #[trigger] self
                .bound(x) by {
                assert(exit.bound(x));
            }
            assert forall|id: u64| #[trigger] old(self).has_slot(id) implies (self.slot(id) == old(self).slot(id) || self.slot(id) == (SlotView {
                state: SlotStateView::Closed,
                ..old(self).slot(id)
            })) by {
                assert(self.slot(id) == exit.slot(id));
            }
            assert forall|x: SockAddr, k: int|
                old(self).bound(x) && old(self).by_addr()[x].node == n && 0 <= k < old(self).mbox(
                    x,
                ).waiters.len() implies self.slot(
                (#[trigger] old(self).mbox(x).waiters[k]).slot,
            ).state is Closed by {
                let w = old(self).mbox(x).waiters[k];
                assert(!exit.bound(x));
                assert(exit.slot(w.slot).state is Closed);
                assert(self.slot(w.slot) == exit.slot(w.slot));
            }
        }
    }
}

/// Index of the in-flight send whose timer fires next: the first one with
/// the least `deliver_at`.
pub open spec fn earliest_idx(s: Seq<FlightView>) -> int
    decreases s.len(),
{
    if s.len() <= 1 {
        0
    } else {
        let r = earliest_idx(s.drop_last());
        if s.last().deliver_at < s[r].deliver_at {
            s.len() - 1
        } else {
            r
        }
    }
}

/// `earliest_idx` is the first index achieving the minimum.
pub proof fn lemma_earliest_idx(s: Seq<FlightView>)
    requires
        s.len() > 0,
    ensures
        0 <= earliest_idx(s) < s.len(),
        forall|j: int| 0 <= j < s.len() ==> #[trigger] s[j].deliver_at >= s[earliest_idx(
            s,
        )].deliver_at,
        forall|j: int| 0 <= j < earliest_idx(s) ==> #[trigger] s[j].deliver_at > s[earliest_idx(
            s,
        )].deliver_at,
    decreases s.len(),
{
    if s.len() > 1 {
        lemma_earliest_idx(s.drop_last());
        assert forall|j: int| 0 <= j < s.len() - 1 implies s.drop_last()[j] == s[j] by {}
        assert(s[s.len() - 1] == s.last());
    }
}

/// How a message lands in its destination mailbox: with no mailbox it
/// vanishes; with a waiter for its tag the first such waiter leaves and its
/// slot is fulfilled; otherwise the message joins the pending queue. Only
/// the endpoint table and the slots are constrained.
pub open spec fn delivered(pre: NetSim, post: NetSim, dst: SockAddr, msg: MessageView) -> bool {
    if !pre.bound(dst) {
        post.by_addr() == pre.by_addr() && post.slots_map() == pre.slots_map()
    } else {
        let m = pre.mbox(dst);
        if has_waiter(m.waiters, msg.tag) {
            let k = crate::mailbox::first_waiter_idx(m.waiters, msg.tag);
            let w = m.waiters[k];
            &&& post.by_addr() == pre.by_addr().insert(
                dst,
                BindingView {
                    node: pre.by_addr()[dst].node,
                    mailbox: MailboxView { pending: m.pending, waiters: m.waiters.remove(k) },
                },
            )
            &&& post.slots_map() == pre.slots_map().insert(
                w.slot,
                (SlotView { state: SlotStateView::Fulfilled(msg), ..pre.slots_map()[w.slot] }),
            )
        } else {
            &&& post.by_addr() == pre.by_addr().insert(
                dst,
                BindingView {
                    node: pre.by_addr()[dst].node,
                    mailbox: MailboxView { pending: m.pending.push(msg), waiters: m.waiters },
                },
            )
            &&& post.slots_map() == pre.slots_map()
        }
    }
}

impl NetSim {
    /// Whether a send to `dst` passes fault admission: the destination must
    /// have a mailbox; an intra-node send then always passes, and an
    /// inter-node send passes when neither node is clogged, the directed
    /// link is not clogged, and the packet-loss draw missed.
    pub open spec fn admits(self, src_node: u64, dst: SockAddr, lost: bool) -> bool {
        &&& self.bound(dst)
        &&& (self.by_addr()[dst].node == src_node || {
            &&& !self.clogged_node(src_node)
            &&& !self.clogged_node(self.by_addr()[dst].node)
            &&& !self.clogged_link(src_node, self.by_addr()[dst].node)
            &&& !lost
        })
    }

    /// Sends a tagged message from `src` (which must be bound by
    /// `src_node`) to `dst`. `lost` is the outcome of the packet-loss draw
    /// and `latency` the latency draw from the configured range. A send
    /// that fails admission leaves the network exactly as it was — drops
    /// are silent; an admitted one is counted and put in flight, to be
    /// delivered when its timer fires.
    pub fn send(
        &mut self,
        src_node: u64,
        src: SockAddr,
        dst: SockAddr,
        tag: u64,
        data: bytes::Bytes,
        lost: bool,
        latency: u64,
    )
        requires
            old(self).wf(),
            old(self).bound_to(src_node, src),
            old(self).config.latency_lo_ns <= latency,
            latency < old(self).config.latency_hi_ns || latency == old(self).config.latency_lo_ns,
            old(self).now + latency <= u64::MAX,
            old(self).stat.msg_count < u64::MAX,
        ensures
            final(self).wf(),
            !old(self).admits(src_node, dst, lost) ==> *final(self) == *old(self),
            old(self).admits(src_node, dst, lost) ==> {
                &&& final(self).flights_seq() =~= old(self).flights_seq().push(
                    FlightView {
                        deliver_at: (old(self).now + latency) as u64,
                        dst,
                        msg: MessageView {
                            tag,
                            from: src,
                            data: crate::payload::bytes_view(data),
                        },
                    },
                )
                &&& final(self).stat.msg_count == old(self).stat.msg_count + 1
                &&& *final(self) == (NetSim {
                    flights: final(self).flights,
                    stat: (Stat { msg_count: final(self).stat.msg_count }),
                    ..*old(self)
                })
            },
    {
        let pass: bool = match self.find_binding(dst) {
            None => false,
            Some(i) => {
                let dn = self.bindings[i].node;
                if dn == src_node {
                    true
                } else {
                    !self.clogged_nodes_contains(src_node) && !self.clogged_nodes_contains(dn)
                        && !self.clogged_links_contains(Link { src: src_node, dst: dn }) && !lost
                }
            },
        };
        if !pass {
            return ;
        }
        let deliver_at = self.now + latency;
        let f = Flight { deliver_at, dst, msg: Message { tag, from: src, data } };
        self.flights.push(f);
        self.stat.msg_count = self.stat.msg_count + 1;
        proof {
            assert(self.flights_seq() =~= old(self).flights_seq().push(f@));
            assert forall|i: int|
                0 <= i < self.flights@.len() implies #[trigger] self.flights@[i].deliver_at
                >= self.now by {
                if i < old(self).flights@.len() {
                    assert(old(self).flights@[i].deliver_at >= old(self).now);
                }
            }
            Self::lemma_wf_relational(*old(self), *self);
        }
    }

    /// `wf` survives handing a message to a waiter: the first waiter for
    /// its tag leaves the mailbox and its slot is fulfilled.
    proof fn lemma_wf_after_fulfill(self, pre: NetSim, dst: SockAddr, msg: MessageView)
        requires
            pre.wf(),
            pre.bound(dst),
            has_waiter(pre.mbox(dst).waiters, msg.tag),
            keys_distinct(self.bindings@, binding_key()),
            keys_distinct(self.slots@, slot_key()),
            self.by_addr() == pre.by_addr().insert(
                dst,
                BindingView {
                    node: pre.by_addr()[dst].node,
                    mailbox: MailboxView {
                        pending: pre.mbox(dst).pending,
                        waiters: pre.mbox(dst).waiters.remove(
                            crate::mailbox::first_waiter_idx(pre.mbox(dst).waiters, msg.tag),
                        ),
                    },
                },
            ),
            self.slots_map() == pre.slots_map().insert(
                pre.mbox(dst).waiters[crate::mailbox::first_waiter_idx(
                    pre.mbox(dst).waiters,
                    msg.tag,
                )].slot,
                (SlotView {
                    state: SlotStateView::Fulfilled(msg),
                    ..pre.slots_map()[pre.mbox(dst).waiters[crate::mailbox::first_waiter_idx(
                        pre.mbox(dst).waiters,
                        msg.tag,
                    )].slot]
                }),
            ),
            self.nodes@ == pre.nodes@,
            self.clogged_nodes@ == pre.clogged_nodes@,
            self.clogged_links@ == pre.clogged_links@,
            self.flights@ == pre.flights@,
            self.next_slot == pre.next_slot,
            self.now == pre.now,
            forall|i: int|
                0 <= i < self.slots@.len() ==> #[trigger] self.slots@[i].id < self.next_slot,
        ensures
            self.wf(),
    {
        let ws = pre.mbox(dst).waiters;
        let k = crate::mailbox::first_waiter_idx(ws, msg.tag);
        crate::mailbox::lemma_first_waiter_idx(ws, msg.tag);
        let w = ws[k];
        assert(pre.has_slot(w.slot) && pre.slot(w.slot).tag == w.tag && pre.slot(w.slot).addr
            == dst && pre.slot(w.slot).state is Waiting) by {
            assert(pre.bound(dst) && 0 <= k < pre.mbox(dst).waiters.len());
        }
        assert forall|x: SockAddr| #[trigger] self.bound(x) implies waiter_slots_distinct(
            self.mbox(x).waiters,
        ) by {
            assert(pre.bound(x));
            if x == dst {
                assert forall|a: int, b: int|
                    0 <= a < b < self.mbox(x).waiters.len() implies #[trigger] self.mbox(
                    x,
                ).waiters[a].slot != #[trigger] self.mbox(x).waiters[b].slot by {
                    let a0 = if a < k {
                        a
                    } else {
                        a + 1
                    };
                    let b0 = if b < k {
                        b
                    } else {
                        b + 1
                    };
                    assert(self.mbox(x).waiters[a] == ws[a0] && self.mbox(x).waiters[b]
                        == ws[b0]);
                    assert(ws[a0].slot != ws[b0].slot);
                }
            } else {
                assert(self.mbox(x) == pre.mbox(x));
            }
        }
        assert forall|x: SockAddr, k2: int|
            self.bound(x) && 0 <= k2 < self.mbox(x).waiters.len() implies {
            let w2 = #[trigger] self.mbox(x).waiters[k2];
            &&& self.has_slot(w2.slot)
            &&& self.slot(w2.slot).tag == w2.tag
            &&& self.slot(w2.slot).addr == x
            &&& self.slot(w2.slot).state is Waiting
        } by {
            assert(pre.bound(x));
            if x == dst {
                let k0 = if k2 < k {
                    k2
                } else {
                    k2 + 1
                };
                let w2 = ws[k0];
                assert(self.mbox(x).waiters[k2] == w2);
                assert(pre.has_slot(w2.slot) && pre.slot(w2.slot).tag == w2.tag && pre.slot(
                    w2.slot,
                ).addr == x && pre.slot(w2.slot).state is Waiting) by {
                    assert(pre.mbox(dst).waiters[k0] == w2);
                }
                assert(w2.slot != w.slot) by {
                    assert(ws[k0].slot != ws[k].slot);
                }
                assert(self.slot(w2.slot) == pre.slot(w2.slot));
            } else {
                assert(self.mbox(x) == pre.mbox(x));
                let w2 = pre.mbox(x).waiters[k2];
                assert(pre.has_slot(w2.slot) && pre.slot(w2.slot).tag == w2.tag && pre.slot(
                    w2.slot,
                ).addr == x && pre.slot(w2.slot).state is Waiting);
                assert(w2.slot != w.slot) by {
                    if w2.slot == w.slot {
                        assert(pre.slot(w.slot).addr == dst);
                    }
                }
                assert(self.slot(w2.slot) == pre.slot(w2.slot));
            }
        }
        assert forall|x: SockAddr, i: int, k2: int|
            self.bound(x) && 0 <= i < self.mbox(x).pending.len() && 0 <= k2 < self.mbox(
                x,
            ).waiters.len() implies #[trigger] self.mbox(x).pending[i].tag != #[trigger] self.mbox(
            x,
        ).waiters[k2].tag by {
            assert(pre.bound(x));
            if x == dst {
                let k0 = if k2 < k {
                    k2
                } else {
                    k2 + 1
                };
                assert(self.mbox(x).waiters[k2] == ws[k0]);
                assert(pre.mbox(x).pending[i].tag != pre.mbox(x).waiters[k0].tag);
            } else {
                assert(self.mbox(x) == pre.mbox(x));
                assert(pre.mbox(x).pending[i].tag != pre.mbox(x).waiters[k2].tag);
            }
        }
        assert forall|id: u64| #[trigger] self.has_slot(id) implies match self.slot(id).state {
            SlotStateView::Fulfilled(m) => m.tag == self.slot(id).tag,
            _ => true,
        } by {
            if id == w.slot {
                assert(self.slot(id).tag == pre.slot(w.slot).tag);
                assert(pre.slot(w.slot).tag == w.tag);
                assert(w.tag == msg.tag);
            } else {
                assert(pre.has_slot(id));
                assert(self.slot(id) == pre.slot(id));
            }
        }
    }

    /// `wf` survives parking a message in the pending queue when no waiter
    /// matches its tag.
    proof fn lemma_wf_after_park(self, pre: NetSim, dst: SockAddr, msg: MessageView)
        requires
            pre.wf(),
            pre.bound(dst),
            !has_waiter(pre.mbox(dst).waiters, msg.tag),
            keys_distinct(self.bindings@, binding_key()),
            self.by_addr() == pre.by_addr().insert(
                dst,
                BindingView {
                    node: pre.by_addr()[dst].node,
                    mailbox: MailboxView {
                        pending: pre.mbox(dst).pending.push(msg),
                        waiters: pre.mbox(dst).waiters,
                    },
                },
            ),
            self.slots@ == pre.slots@,
            self.nodes@ == pre.nodes@,
            self.clogged_nodes@ == pre.clogged_nodes@,
            self.clogged_links@ == pre.clogged_links@,
            self.flights@ == pre.flights@,
            self.next_slot == pre.next_slot,
            self.now == pre.now,
        ensures
            self.wf(),
    {
        assert(self.slots_map() == pre.slots_map());
        assert forall|x: SockAddr| #[trigger] self.bound(x) implies waiter_slots_distinct(
            self.mbox(x).waiters,
        ) by {
            assert(pre.bound(x));
            if x != dst {
                assert(self.mbox(x) == pre.mbox(x));
            } else {
                assert(self.mbox(x).waiters == pre.mbox(x).waiters);
            }
        }
        assert forall|x: SockAddr, k2: int|
            self.bound(x) && 0 <= k2 < self.mbox(x).waiters.len() implies {
            let w2 = #[trigger] self.mbox(x).waiters[k2];
            &&& self.has_slot(w2.slot)
            &&& self.slot(w2.slot).tag == w2.tag
            &&& self.slot(w2.slot).addr == x
            &&& self.slot(w2.slot).state is Waiting
        } by {
            assert(pre.bound(x));
            if x == dst {
                assert(self.mbox(x).waiters == pre.mbox(x).waiters);
            } else {
                assert(self.mbox(x) == pre.mbox(x));
            }
            let w2 = pre.mbox(x).waiters[k2];
            assert(pre.has_slot(w2.slot) && pre.slot(w2.slot).tag == w2.tag && pre.slot(
                w2.slot,
            ).addr == x && pre.slot(w2.slot).state is Waiting);
        }
        assert forall|x: SockAddr, i: int, k2: int|
            self.bound(x) && 0 <= i < self.mbox(x).pending.len() && 0 <= k2 < self.mbox(
                x,
            ).waiters.len() implies #[trigger] self.mbox(x).pending[i].tag != #[trigger] self.mbox(
            x,
        ).waiters[k2].tag by {
            assert(pre.bound(x));
            if x == dst {
                assert(self.mbox(x).waiters == pre.mbox(x).waiters);
                if i < pre.mbox(dst).pending.len() {
                    assert(self.mbox(x).pending[i] == pre.mbox(x).pending[i]);
                    assert(pre.mbox(x).pending[i].tag != pre.mbox(x).waiters[k2].tag);
                } else {
                    assert(self.mbox(x).pending[i] == msg);
                    if msg.tag == pre.mbox(x).waiters[k2].tag {
                        assert(has_waiter(pre.mbox(dst).waiters, msg.tag));
                    }
                }
            } else {
                assert(self.mbox(x) == pre.mbox(x));
                assert(pre.mbox(x).pending[i].tag != pre.mbox(x).waiters[k2].tag);
            }
        }
        assert forall|id: u64| #[trigger] self.has_slot(id) implies match self.slot(id).state {
            SlotStateView::Fulfilled(m) => m.tag == self.slot(id).tag,
            _ => true,
        } by {
            assert(pre.has_slot(id));
            assert(self.slot(id) == pre.slot(id));
        }
    }

    /// Delivers `msg` into the mailbox of `dst` (the timer callback). A
    /// missing mailbox makes this a no-op.
    fn deliver(&mut self, dst: SockAddr, msg: Message)
        requires
            old(self).wf(),
        ensures
            final(self).wf(),
            delivered(*old(self), *final(self), dst, msg@),
            *final(self) == (NetSim {
                bindings: final(self).bindings,
                slots: final(self).slots,
                ..*old(self)
            }),
    {
        let i = match self.find_binding(dst) {
            None => {
                return ;
            },
            Some(i) => i,
        };
        let ghost pre = *self;
        let tag = msg.tag;
        let ghost ws = pre.mbox(dst).waiters;
        proof {
            assert(pre.by_addr()[dst] == pre.bindings@[i as int]@);
        }
        let b = &mut self.bindings[i];
        let w_opt = b.mailbox.take_first_waiter(tag);
        match w_opt {
            None => {
                b.mailbox.push_pending(msg);
                proof {
                    lemma_entry_map_update(
                        pre.bindings@,
                        binding_key(),
                        binding_val(),
                        i as int,
                        *final(b),
                    );
                    assert(self.by_addr() =~= pre.by_addr().insert(
                        dst,
                        BindingView {
                            node: pre.by_addr()[dst].node,
                            mailbox: MailboxView {
                                pending: pre.mbox(dst).pending.push(msg@),
                                waiters: pre.mbox(dst).waiters,
                            },
                        },
                    ));
                    self.lemma_wf_after_park(pre, dst, msg@);
                }
            },
            Some(w) => {
                proof {
                    crate::mailbox::lemma_first_waiter_idx(ws, tag);
                    lemma_entry_map_update(
                        pre.bindings@,
                        binding_key(),
                        binding_val(),
                        i as int,
                        *final(b),
                    );
                    assert(self.by_addr() =~= pre.by_addr().insert(
                        dst,
                        BindingView {
                            node: pre.by_addr()[dst].node,
                            mailbox: MailboxView {
                                pending: pre.mbox(dst).pending,
                                waiters: ws.remove(
                                    crate::mailbox::first_waiter_idx(ws, tag),
                                ),
                            },
                        },
                    ));
                    assert(pre.bound(dst) && 0 <= crate::mailbox::first_waiter_idx(ws, tag)
                        < pre.mbox(dst).waiters.len());
                    assert(pre.has_slot(w.slot));
                }
                let j = match self.find_slot(w.slot) {
                    None => {
                        proof {
                            assert(self.slots@ == pre.slots@);
                            assert(false);
                        }
                        return ;
                    },
                    Some(j) => j,
                };
                let sl_tag = self.slots[j].tag;
                let sl_addr = self.slots[j].addr;
                let e = SlotEntry { id: w.slot, tag: sl_tag, addr: sl_addr, state: SlotState::Fulfilled(msg) };
                proof {
                    lemma_entry_map_update(self.slots@, slot_key(), slot_val(), j as int, e);
                }
                self.slots[j] = e;
                proof {
                    assert(self.slots_map() =~= pre.slots_map().insert(
                        w.slot,
                        (SlotView {
                            state: SlotStateView::Fulfilled(msg@),
                            ..pre.slots_map()[w.slot]
                        }),
                    ));
                    assert forall|i2: int|
                        0 <= i2 < self.slots@.len() implies #[trigger] self.slots@[i2].id
                        < self.next_slot by {
                        assert(pre.slots@[i2].id < pre.next_slot);
                    }
                    self.lemma_wf_after_fulfill(pre, dst, msg@);
                }
            },
        }
    }

    /// Fires the next delivery timer: removes the in-flight send with the
    /// least `deliver_at` (ties to the oldest), advances the clock to that
    /// instant, and delivers its message.
    pub fn fire_next(&mut self)
        requires
            old(self).wf(),
            old(self).flights@.len() > 0,
        ensures
            final(self).wf(),
            ({
                let k = earliest_idx(old(self).flights_seq());
                let f = old(self).flights_seq()[k];
                &&& final(self).now == f.deliver_at
                &&& final(self).flights_seq() =~= old(self).flights_seq().remove(k)
                &&& delivered(*old(self), *final(self), f.dst, f.msg)
                &&& *final(self) == (NetSim {
                    bindings: final(self).bindings,
                    slots: final(self).slots,
                    flights: final(self).flights,
                    now: f.deliver_at,
                    ..*old(self)
                })
            }),
    {
        let len = self.flights.len();
        let mut k: usize = 0;
        let mut i: usize = 1;
        while i < len
            invariant
                1 <= i <= len,
                k < i,
                len == self.flights@.len(),
                forall|j: int| 0 <= j < i ==> #[trigger] self.flights@[j].deliver_at
                    >= self.flights@[k as int].deliver_at,
                forall|j: int| 0 <= j < k ==> #[trigger] self.flights@[j].deliver_at
                    > self.flights@[k as int].deliver_at,
            decreases len - i,
        {
            if self.flights[i].deliver_at < self.flights[k].deliver_at {
                k = i;
            }
            i += 1;
        }
        proof {
            lemma_earliest_idx(self.flights_seq());
            let e = earliest_idx(self.flights_seq());
            assert forall|j: int|
                0 <= j < self.flights@.len() implies #[trigger] self.flights_seq()[j].deliver_at
                == self.flights@[j].deliver_at by {}
            if (k as int) < e {
                assert(self.flights_seq()[k as int].deliver_at
                    > self.flights_seq()[e].deliver_at);
                assert(self.flights@[e].deliver_at >= self.flights@[k as int].deliver_at);
                assert(false);
            } else if e < k as int {
                assert(self.flights@[e].deliver_at > self.flights@[k as int].deliver_at);
                assert(self.flights_seq()[e].deliver_at
                    >= self.flights_seq()[k as int].deliver_at);
                assert(false);
            }
            assert(k as int == e);
        }
        let f = self.flights.remove(k);
        proof {
            assert(f.deliver_at >= self.now) by {
                assert(old(self).flights@[k as int].deliver_at >= old(self).now);
            }
        }
        self.now = f.deliver_at;
        let ghost mid = *self;
        proof {
            assert(mid.flights_seq() =~= old(self).flights_seq().remove(k as int));
            assert forall|j: int|
                0 <= j < mid.flights@.len() implies #[trigger] mid.flights@[j].deliver_at
                >= mid.now by {
                let j0 = if j < k as int {
                    j
                } else {
                    j + 1
                };
                assert(mid.flights@[j] == old(self).flights@[j0]);
                assert(old(self).flights@[j0].deliver_at >= old(self).flights@[k as int].deliver_at);
            }
            Self::lemma_wf_relational(*old(self), mid);
        }
        self.deliver(f.dst, f.msg);
        proof {
            assert(mid.by_addr() == old(self).by_addr());
            assert(mid.slots_map() == old(self).slots_map());
            assert(old(self).flights_seq()[earliest_idx(old(self).flights_seq())] == f@);
        }
    }
}

/// What polling a rendezvous slot yields: nothing yet, the message, or the
/// news that the endpoint is gone (`BrokenPipe` at the facade).
pub enum RecvPoll {
    Pending,
    Ready(Message),
    Down,
}

impl NetSim {
    /// Starts a receive for `tag` on `addr` and returns a fresh rendezvous
    /// slot id. When `addr` is not bound by `node` (closed or reset), the
    /// slot is born closed, so polling it reports the network down. When a
    /// pending message matches, the slot is fulfilled with the first one, in
    /// delivery order. Otherwise a waiter is parked; a later delivery or a
    /// close resolves the slot.
    pub fn recv(&mut self, node: u64, addr: SockAddr, tag: u64) -> (sid: u64)
        requires
            old(self).wf(),
            old(self).next_slot < u64::MAX,
        ensures
            final(self).wf(),
            sid == old(self).next_slot,
            final(self).next_slot == old(self).next_slot + 1,
            final(self).has_slot(sid),
            final(self).slot(sid).tag == tag,
            final(self).slot(sid).addr == addr,
            !old(self).bound_to(node, addr) ==> {
                &&& final(self).slot(sid).state is Closed
                &&& final(self).by_addr() == old(self).by_addr()
                &&& final(self).slots_map() == old(self).slots_map().insert(
                    sid,
                    SlotView { tag, addr, state: SlotStateView::Closed },
                )
            },
            (old(self).bound_to(node, addr) && has_msg(old(self).mbox(addr).pending, tag)) ==> {
                let kk = crate::mailbox::first_msg_idx(old(self).mbox(addr).pending, tag);
                &&& final(self).slot(sid).state == SlotStateView::Fulfilled(
                    old(self).mbox(addr).pending[kk],
                )
                &&& final(self).slots_map() == old(self).slots_map().insert(
                    sid,
                    SlotView {
                        tag,
                        addr,
                        state: SlotStateView::Fulfilled(old(self).mbox(addr).pending[kk]),
                    },
                )
                &&& final(self).by_addr() == old(self).by_addr().insert(
                    addr,
                    BindingView {
                        node: old(self).by_addr()[addr].node,
                        mailbox: MailboxView {
                            pending: old(self).mbox(addr).pending.remove(kk),
                            waiters: old(self).mbox(addr).waiters,
                        },
                    },
                )
            },
            (old(self).bound_to(node, addr) && !has_msg(old(self).mbox(addr).pending, tag)) ==> {
                &&& final(self).slot(sid).state is Waiting
                &&& final(self).slots_map() == old(self).slots_map().insert(
                    sid,
                    SlotView { tag, addr, state: SlotStateView::Waiting },
                )
                &&& final(self).by_addr() == old(self).by_addr().insert(
                    addr,
                    BindingView {
                        node: old(self).by_addr()[addr].node,
                        mailbox: MailboxView {
                            pending: old(self).mbox(addr).pending,
                            waiters: old(self).mbox(addr).waiters.push(
                                Waiter { tag, slot: sid },
                            ),
                        },
                    },
                )
            },
            *final(self) == (NetSim {
                bindings: final(self).bindings,
                slots: final(self).slots,
                next_slot: final(self).next_slot,
                ..*old(self)
            }),
    {
        let sid = self.next_slot;
        self.next_slot = sid + 1;
        proof {
            // No existing slot, and so no parked waiter, carries the fresh id.
            lemma_entry_map_dom(self.slots@, slot_key(), slot_val());
            assert forall|i: int| 0 <= i < self.slots@.len() implies #[trigger] slot_key()(
                self.slots@[i],
            ) != sid by {
                assert(self.slots@[i].id < sid);
            }
        }
        let bound_i: Option<usize> = match self.find_binding(addr) {
            Some(i) => {
                if self.bindings[i].node == node {
                    Some(i)
                } else {
                    None
                }
            },
            None => None,
        };
        match bound_i {
            None => {
                let e = SlotEntry { id: sid, tag, addr, state: SlotState::Closed };
                proof {
                    lemma_entry_map_push(self.slots@, slot_key(), slot_val(), e);
                }
                self.slots.push(e);
                proof {
                    assert(self.slot(sid) =~= (SlotView {
                        tag,
                        addr,
                        state: SlotStateView::Closed,
                    }));
                    self.lemma_wf_after_new_slot(*old(self), sid);
                }
            },
            Some(i) => {
                let ghost pre = *self;
                let b = &mut self.bindings[i];
                let m_opt = b.mailbox.take_first_pending(tag);
                match m_opt {
                    Some(m) => {
                        proof {
                            crate::mailbox::lemma_first_msg_idx(pre.mbox(addr).pending, tag);
                            lemma_entry_map_update(
                                pre.bindings@,
                                binding_key(),
                                binding_val(),
                                i as int,
                                *final(b),
                            );
                            assert(self.by_addr() =~= pre.by_addr().insert(
                                addr,
                                BindingView {
                                    node: pre.by_addr()[addr].node,
                                    mailbox: MailboxView {
                                        pending: pre.mbox(addr).pending.remove(
                                            crate::mailbox::first_msg_idx(
                                                pre.mbox(addr).pending,
                                                tag,
                                            ),
                                        ),
                                        waiters: pre.mbox(addr).waiters,
                                    },
                                },
                            ));
                        }
                        let e = SlotEntry { id: sid, tag, addr, state: SlotState::Fulfilled(m) };
                        proof {
                            lemma_entry_map_push(self.slots@, slot_key(), slot_val(), e);
                        }
                        self.slots.push(e);
                        proof {
                            self.lemma_wf_after_recv_taken(*old(self), node, addr, tag, sid);
                        }
                    },
                    None => {
                        b.mailbox.push_waiter(Waiter { tag, slot: sid });
                        proof {
                            lemma_entry_map_update(
                                pre.bindings@,
                                binding_key(),
                                binding_val(),
                                i as int,
                                *final(b),
                            );
                            assert(self.by_addr() =~= pre.by_addr().insert(
                                addr,
                                BindingView {
                                    node: pre.by_addr()[addr].node,
                                    mailbox: MailboxView {
                                        pending: pre.mbox(addr).pending,
                                        waiters: pre.mbox(addr).waiters.push(
                                            Waiter { tag, slot: sid },
                                        ),
                                    },
                                },
                            ));
                        }
                        let e = SlotEntry { id: sid, tag, addr, state: SlotState::Waiting };
                        proof {
                            lemma_entry_map_push(self.slots@, slot_key(), slot_val(), e);
                        }
                        self.slots.push(e);
                        proof {
                            self.lemma_wf_after_recv_parked(*old(self), node, addr, tag, sid);
                        }
                    },
                }
            },
        }
        sid
    }

    /// `wf` survives adding a fresh slot that is already resolved (closed or
    /// fulfilled with a message of its own tag) while the endpoint table is
    /// unchanged as a map.
    proof fn lemma_wf_after_new_slot(self, pre: NetSim, sid: u64)
        requires
            pre.wf(),
            sid == pre.next_slot,
            self.next_slot == pre.next_slot + 1,
            keys_distinct(self.bindings@, binding_key()),
            keys_distinct(self.nodes@, node_key()),
            keys_distinct(self.slots@, slot_key()),
            self.by_addr() == pre.by_addr(),
            self.slots_map() == pre.slots_map().insert(sid, self.slots_map()[sid]),
            !(self.slots_map()[sid].state is Waiting),
            self.slots_map()[sid].state matches SlotStateView::Fulfilled(m) ==> m.tag
                == self.slots_map()[sid].tag,
            self.slots@ == pre.slots@.push(self.slots@.last()),
            self.slots@.last().id == sid,
            self.nodes@ == pre.nodes@,
            self.clogged_nodes@ == pre.clogged_nodes@,
            self.clogged_links@ == pre.clogged_links@,
            self.flights@ == pre.flights@,
            self.now == pre.now,
        ensures
            self.wf(),
    {
        assert forall|i: int|
            0 <= i < self.slots@.len() implies #[trigger] self.slots@[i].id < self.next_slot by {
            if i < pre.slots@.len() {
                assert(self.slots@[i] == pre.slots@[i]);
                assert(pre.slots@[i].id < pre.next_slot);
            } else {
                assert(self.slots@[i] == self.slots@.last());
            }
        }
        assert forall|x: SockAddr| #[trigger] self.bound(x) implies waiter_slots_distinct(
            self.mbox(x).waiters,
        ) by {
            assert(pre.bound(x));
            assert(self.mbox(x) == pre.mbox(x));
        }
        assert forall|x: SockAddr, k: int|
            self.bound(x) && 0 <= k < self.mbox(x).waiters.len() implies {
            let w = #[trigger] self.mbox(x).waiters[k];
            &&& self.has_slot(w.slot)
            &&& self.slot(w.slot).tag == w.tag
            &&& self.slot(w.slot).addr == x
            &&& self.slot(w.slot).state is Waiting
        } by {
            assert(pre.bound(x));
            assert(self.mbox(x) == pre.mbox(x));
            let w = pre.mbox(x).waiters[k];
            assert(pre.has_slot(w.slot) && pre.slot(w.slot).tag == w.tag && pre.slot(
                w.slot,
            ).addr == x && pre.slot(w.slot).state is Waiting);
            assert(w.slot != sid) by {
                crate::keyed::lemma_entry_map_dom(pre.slots@, slot_key(), slot_val());
                let j = choose|j: int|
                    0 <= j < pre.slots@.len() && slot_key()(#[trigger] pre.slots@[j]) == w.slot;
                assert(pre.slots@[j].id < pre.next_slot);
            }
            assert(self.slot(w.slot) == pre.slot(w.slot));
        }
        assert forall|x: SockAddr, i: int, k: int|
            self.bound(x) && 0 <= i < self.mbox(x).pending.len() && 0 <= k < self.mbox(
                x,
            ).waiters.len() implies #[trigger] self.mbox(x).pending[i].tag != #[trigger] self.mbox(
            x,
        ).waiters[k].tag by {
            assert(pre.bound(x));
            assert(self.mbox(x) == pre.mbox(x));
            assert(pre.mbox(x).pending[i].tag != pre.mbox(x).waiters[k].tag);
        }
        assert forall|id: u64| #[trigger] self.has_slot(id) implies match self.slot(id).state {
            SlotStateView::Fulfilled(m) => m.tag == self.slot(id).tag,
            _ => true,
        } by {
            if id != sid {
                assert(pre.has_slot(id));
                assert(self.slot(id) == pre.slot(id));
            }
        }
    }

    /// `wf` survives a receive that took the first matching pending message
    /// into a fresh fulfilled slot.
    proof fn lemma_wf_after_recv_taken(
        self,
        pre: NetSim,
        node: u64,
        addr: SockAddr,
        tag: u64,
        sid: u64,
    )
        requires
            pre.wf(),
            pre.bound_to(node, addr),
            has_msg(pre.mbox(addr).pending, tag),
            sid == pre.next_slot,
            self.next_slot == pre.next_slot + 1,
            keys_distinct(self.bindings@, binding_key()),
            keys_distinct(self.nodes@, node_key()),
            keys_distinct(self.slots@, slot_key()),
            self.by_addr() == pre.by_addr().insert(
                addr,
                BindingView {
                    node: pre.by_addr()[addr].node,
                    mailbox: MailboxView {
                        pending: pre.mbox(addr).pending.remove(
                            crate::mailbox::first_msg_idx(pre.mbox(addr).pending, tag),
                        ),
                        waiters: pre.mbox(addr).waiters,
                    },
                },
            ),
            self.slots_map() == pre.slots_map().insert(
                sid,
                SlotView {
                    tag,
                    addr,
                    state: SlotStateView::Fulfilled(
                        pre.mbox(addr).pending[crate::mailbox::first_msg_idx(
                            pre.mbox(addr).pending,
                            tag,
                        )],
                    ),
                },
            ),
            self.slots@ == pre.slots@.push(self.slots@.last()),
            self.slots@.last().id == sid,
            self.nodes@ == pre.nodes@,
            self.clogged_nodes@ == pre.clogged_nodes@,
            self.clogged_links@ == pre.clogged_links@,
            self.flights@ == pre.flights@,
            self.now == pre.now,
        ensures
            self.wf(),
    {
        let p = pre.mbox(addr).pending;
        let kk = crate::mailbox::first_msg_idx(p, tag);
        crate::mailbox::lemma_first_msg_idx(p, tag);
        assert forall|i: int|
            0 <= i < self.slots@.len() implies #[trigger] self.slots@[i].id < self.next_slot by {
            if i < pre.slots@.len() {
                assert(self.slots@[i] == pre.slots@[i]);
                assert(pre.slots@[i].id < pre.next_slot);
            } else {
                assert(self.slots@[i] == self.slots@.last());
            }
        }
        assert forall|x: SockAddr| #[trigger] self.bound(x) implies waiter_slots_distinct(
            self.mbox(x).waiters,
        ) by {
            assert(pre.bound(x));
            if x == addr {
                assert(self.mbox(x).waiters == pre.mbox(x).waiters);
            } else {
                assert(self.mbox(x) == pre.mbox(x));
            }
        }
        assert forall|x: SockAddr, k: int|
            self.bound(x) && 0 <= k < self.mbox(x).waiters.len() implies {
            let w = #[trigger] self.mbox(x).waiters[k];
            &&& self.has_slot(w.slot)
            &&& self.slot(w.slot).tag == w.tag
            &&& self.slot(w.slot).addr == x
            &&& self.slot(w.slot).state is Waiting
        } by {
            assert(pre.bound(x));
            if x == addr {
                assert(self.mbox(x).waiters == pre.mbox(x).waiters);
            } else {
                assert(self.mbox(x) == pre.mbox(x));
            }
            let w = pre.mbox(x).waiters[k];
            assert(pre.has_slot(w.slot) && pre.slot(w.slot).tag == w.tag && pre.slot(
                w.slot,
            ).addr == x && pre.slot(w.slot).state is Waiting);
            assert(w.slot != sid) by {
                crate::keyed::lemma_entry_map_dom(pre.slots@, slot_key(), slot_val());
                let j = choose|j: int|
                    0 <= j < pre.slots@.len() && slot_key()(#[trigger] pre.slots@[j]) == w.slot;
                assert(pre.slots@[j].id < pre.next_slot);
            }
            assert(self.slot(w.slot) == pre.slot(w.slot));
        }
        assert forall|x: SockAddr, i: int, k: int|
            self.bound(x) && 0 <= i < self.mbox(x).pending.len() && 0 <= k < self.mbox(
                x,
            ).waiters.len() implies #[trigger] self.mbox(x).pending[i].tag != #[trigger] self.mbox(
            x,
        ).waiters[k].tag by {
            assert(pre.bound(x));
            if x == addr {
                assert(self.mbox(x).waiters == pre.mbox(x).waiters);
                let i0 = if i < kk {
                    i
                } else {
                    i + 1
                };
                assert(self.mbox(x).pending[i] == p[i0]);
                assert(pre.mbox(x).pending[i0].tag != pre.mbox(x).waiters[k].tag);
            } else {
                assert(self.mbox(x) == pre.mbox(x));
                assert(pre.mbox(x).pending[i].tag != pre.mbox(x).waiters[k].tag);
            }
        }
        assert forall|id: u64| #[trigger] self.has_slot(id) implies match self.slot(id).state {
            SlotStateView::Fulfilled(m) => m.tag == self.slot(id).tag,
            _ => true,
        } by {
            if id == sid {
                assert(p[kk].tag == tag);
            } else {
                assert(pre.has_slot(id));
                assert(self.slot(id) == pre.slot(id));
            }
        }
    }

    /// `wf` survives a receive that parked a fresh waiter with a fresh
    /// waiting slot.
    proof fn lemma_wf_after_recv_parked(
        self,
        pre: NetSim,
        node: u64,
        addr: SockAddr,
        tag: u64,
        sid: u64,
    )
        requires
            pre.wf(),
            pre.bound_to(node, addr),
            !has_msg(pre.mbox(addr).pending, tag),
            sid == pre.next_slot,
            self.next_slot == pre.next_slot + 1,
            keys_distinct(self.bindings@, binding_key()),
            keys_distinct(self.nodes@, node_key()),
            keys_distinct(self.slots@, slot_key()),
            self.by_addr() == pre.by_addr().insert(
                addr,
                BindingView {
                    node: pre.by_addr()[addr].node,
                    mailbox: MailboxView {
                        pending: pre.mbox(addr).pending,
                        waiters: pre.mbox(addr).waiters.push(Waiter { tag, slot: sid }),
                    },
                },
            ),
            self.slots_map() == pre.slots_map().insert(
                sid,
                SlotView { tag, addr, state: SlotStateView::Waiting },
            ),
            self.slots@ == pre.slots@.push(self.slots@.last()),
            self.slots@.last().id == sid,
            self.nodes@ == pre.nodes@,
            self.clogged_nodes@ == pre.clogged_nodes@,
            self.clogged_links@ == pre.clogged_links@,
            self.flights@ == pre.flights@,
            self.now == pre.now,
        ensures
            self.wf(),
    {
        let ws = pre.mbox(addr).waiters;
        assert forall|i: int|
            0 <= i < self.slots@.len() implies #[trigger] self.slots@[i].id < self.next_slot by {
            if i < pre.slots@.len() {
                assert(self.slots@[i] == pre.slots@[i]);
                assert(pre.slots@[i].id < pre.next_slot);
            } else {
                assert(self.slots@[i] == self.slots@.last());
            }
        }
        // Every pre-existing waiter's slot id is below the fresh id.
        assert forall|x: SockAddr, k: int|
            pre.bound(x) && 0 <= k < pre.mbox(x).waiters.len() implies (
        #[trigger] pre.mbox(x).waiters[k]).slot != sid by {
            let w = pre.mbox(x).waiters[k];
            assert(pre.has_slot(w.slot));
            crate::keyed::lemma_entry_map_dom(pre.slots@, slot_key(), slot_val());
            let j = choose|j: int|
                0 <= j < pre.slots@.len() && slot_key()(#[trigger] pre.slots@[j]) == w.slot;
            assert(pre.slots@[j].id < pre.next_slot);
        }
        assert forall|x: SockAddr| #[trigger] self.bound(x) implies waiter_slots_distinct(
            self.mbox(x).waiters,
        ) by {
            assert(pre.bound(x));
            if x == addr {
                assert(waiter_slots_distinct(ws));
                assert forall|a: int, b: int|
                    0 <= a < b < self.mbox(x).waiters.len() implies #[trigger] self.mbox(
                    x,
                ).waiters[a].slot != #[trigger] self.mbox(x).waiters[b].slot by {
                    if b < ws.len() {
                        assert(self.mbox(x).waiters[a] == ws[a] && self.mbox(x).waiters[b]
                            == ws[b]);
                        assert(ws[a].slot != ws[b].slot);
                    } else {
                        assert(self.mbox(x).waiters[a] == ws[a]);
                        assert(self.mbox(x).waiters[b].slot == sid);
                        assert(ws[a].slot != sid) by {
                            assert(pre.mbox(addr).waiters[a] == ws[a]);
                        }
                    }
                }
            } else {
                assert(self.mbox(x) == pre.mbox(x));
            }
        }
        assert forall|x: SockAddr, k: int|
            self.bound(x) && 0 <= k < self.mbox(x).waiters.len() implies {
            let w = #[trigger] self.mbox(x).waiters[k];
            &&& self.has_slot(w.slot)
            &&& self.slot(w.slot).tag == w.tag
            &&& self.slot(w.slot).addr == x
            &&& self.slot(w.slot).state is Waiting
        } by {
            assert(pre.bound(x));
            if x == addr && k == ws.len() {
                assert(self.mbox(x).waiters[k] == (Waiter { tag, slot: sid }));
                assert(self.slot(sid) == (SlotView {
                    tag,
                    addr,
                    state: SlotStateView::Waiting,
                }));
            } else {
                let w = if x == addr {
                    ws[k]
                } else {
                    pre.mbox(x).waiters[k]
                };
                if x == addr {
                    assert(self.mbox(x).waiters[k] == ws[k]);
                    assert(pre.mbox(addr).waiters[k] == ws[k]);
                } else {
                    assert(self.mbox(x) == pre.mbox(x));
                }
                assert(pre.has_slot(w.slot) && pre.slot(w.slot).tag == w.tag && pre.slot(
                    w.slot,
                ).addr == x && pre.slot(w.slot).state is Waiting);
                assert(w.slot != sid) by {
                    crate::keyed::lemma_entry_map_dom(pre.slots@, slot_key(), slot_val());
                    let j = choose|j: int|
                        0 <= j < pre.slots@.len() && slot_key()(#[trigger] pre.slots@[j])
                            == w.slot;
                    assert(pre.slots@[j].id < pre.next_slot);
                }
                assert(self.slot(w.slot) == pre.slot(w.slot));
            }
        }
        assert forall|x: SockAddr, i: int, k: int|
            self.bound(x) && 0 <= i < self.mbox(x).pending.len() && 0 <= k < self.mbox(
                x,
            ).waiters.len() implies #[trigger] self.mbox(x).pending[i].tag != #[trigger] self.mbox(
            x,
        ).waiters[k].tag by {
            assert(pre.bound(x));
            if x == addr {
                assert(self.mbox(x).pending == pre.mbox(x).pending);
                if k < ws.len() {
                    assert(self.mbox(x).waiters[k] == ws[k]);
                    assert(pre.mbox(x).pending[i].tag != pre.mbox(x).waiters[k].tag);
                } else {
                    assert(self.mbox(x).waiters[k].tag == tag);
                    if pre.mbox(x).pending[i].tag == tag {
                        assert(has_msg(pre.mbox(addr).pending, tag));
                    }
                }
            } else {
                assert(self.mbox(x) == pre.mbox(x));
                assert(pre.mbox(x).pending[i].tag != pre.mbox(x).waiters[k].tag);
            }
        }
        assert forall|id: u64| #[trigger] self.has_slot(id) implies match self.slot(id).state {
            SlotStateView::Fulfilled(m) => m.tag == self.slot(id).tag,
            _ => true,
        } by {
            if id != sid {
                assert(pre.has_slot(id));
                assert(self.slot(id) == pre.slot(id));
            }
        }
    }
}

impl NetSim {
    /// `wf` survives dropping a slot that is not `Waiting` (no waiter can
    /// reference it) while the endpoint table is unchanged as a map.
    proof fn lemma_wf_after_slot_drop(self, pre: NetSim, sid: u64)
        requires
            pre.wf(),
            pre.has_slot(sid),
            !(pre.slot(sid).state is Waiting),
            keys_distinct(self.bindings@, binding_key()),
            keys_distinct(self.nodes@, node_key()),
            keys_distinct(self.slots@, slot_key()),
            self.by_addr() == pre.by_addr(),
            self.slots_map() == pre.slots_map().remove(sid),
            self.nodes@ == pre.nodes@,
            self.clogged_nodes@ == pre.clogged_nodes@,
            self.clogged_links@ == pre.clogged_links@,
            self.flights@ == pre.flights@,
            self.next_slot == pre.next_slot,
            self.now == pre.now,
            forall|i: int|
                0 <= i < self.slots@.len() ==> #[trigger] self.slots@[i].id < self.next_slot,
        ensures
            self.wf(),
    {
        assert forall|x: SockAddr| #[trigger] self.bound(x) implies waiter_slots_distinct(
            self.mbox(x).waiters,
        ) by {
            assert(pre.bound(x));
            assert(self.mbox(x) == pre.mbox(x));
        }
        assert forall|x: SockAddr, k: int|
            self.bound(x) && 0 <= k < self.mbox(x).waiters.len() implies {
            let w = #[trigger] self.mbox(x).waiters[k];
            &&& self.has_slot(w.slot)
            &&& self.slot(w.slot).tag == w.tag
            &&& self.slot(w.slot).addr == x
            &&& self.slot(w.slot).state is Waiting
        } by {
            assert(pre.bound(x));
            assert(self.mbox(x) == pre.mbox(x));
            let w = pre.mbox(x).waiters[k];
            assert(pre.has_slot(w.slot) && pre.slot(w.slot).tag == w.tag && pre.slot(
                w.slot,
            ).addr == x && pre.slot(w.slot).state is Waiting);
            assert(w.slot != sid);
            assert(self.slot(w.slot) == pre.slot(w.slot));
        }
        assert forall|x: SockAddr, i: int, k: int|
            self.bound(x) && 0 <= i < self.mbox(x).pending.len() && 0 <= k < self.mbox(
                x,
            ).waiters.len() implies #[trigger] self.mbox(x).pending[i].tag != #[trigger] self.mbox(
            x,
        ).waiters[k].tag by {
            assert(pre.bound(x));
            assert(self.mbox(x) == pre.mbox(x));
            assert(pre.mbox(x).pending[i].tag != pre.mbox(x).waiters[k].tag);
        }
        assert forall|id: u64| #[trigger] self.has_slot(id) implies match self.slot(id).state {
            SlotStateView::Fulfilled(m) => m.tag == self.slot(id).tag,
            _ => true,
        } by {
            assert(pre.has_slot(id));
            assert(self.slot(id) == pre.slot(id));
        }
    }

    /// Polls a rendezvous slot. A waiting slot stays; a fulfilled slot
    /// yields its message and is retired; a closed or unknown slot reports
    /// the network down and is retired.
    pub fn recv_poll(&mut self, sid: u64) -> (r: RecvPoll)
        requires
            old(self).wf(),
        ensures
            final(self).wf(),
            !old(self).has_slot(sid) ==> r is Down && *final(self) == *old(self),
            old(self).has_slot(sid) && old(self).slot(sid).state is Waiting ==> r is Pending
                && *final(self) == *old(self),
            old(self).has_slot(sid) && !(old(self).slot(sid).state is Waiting) ==> {
                &&& (old(self).slot(sid).state matches SlotStateView::Fulfilled(m) ==> r matches
                    RecvPoll::Ready(got) && got@ == m && m.tag == old(self).slot(sid).tag)
                &&& (old(self).slot(sid).state is Closed ==> r is Down)
                &&& final(self).slots_map() == old(self).slots_map().remove(sid)
                &&& final(self).by_addr() == old(self).by_addr()
                &&& *final(self) == (NetSim { slots: final(self).slots, ..*old(self) })
            },
    {
        let j = match self.find_slot(sid) {
            None => {
                return RecvPoll::Down;
            },
            Some(j) => j,
        };
        let waiting = match &self.slots[j].state {
            SlotState::Waiting => true,
            _ => false,
        };
        if waiting {
            return RecvPoll::Pending;
        }
        proof {
            lemma_entry_map_remove(self.slots@, slot_key(), slot_val(), j as int);
        }
        let e = self.slots.remove(j);
        proof {
            assert forall|i: int|
                0 <= i < self.slots@.len() implies #[trigger] self.slots@[i].id
                < self.next_slot by {
                let i0 = if i < j as int {
                    i
                } else {
                    i + 1
                };
                assert(self.slots@[i] == old(self).slots@[i0]);
                assert(old(self).slots@[i0].id < old(self).next_slot);
            }
            self.lemma_wf_after_slot_drop(*old(self), sid);
        }
        match e.state {
            SlotState::Fulfilled(m) => RecvPoll::Ready(m),
            _ => RecvPoll::Down,
        }
    }

    /// Abandons a receive: the dropped receiver's waiter (if still parked)
    /// leaves its mailbox and the slot is retired. Pending messages are
    /// untouched, so a message this receive would have claimed stays for the
    /// next receive of its tag.
    pub fn cancel_recv(&mut self, sid: u64)
        requires
            old(self).wf(),
        ensures
            final(self).wf(),
            !old(self).has_slot(sid) ==> *final(self) == *old(self),
            old(self).has_slot(sid) ==> {
                &&& final(self).slots_map() == old(self).slots_map().remove(sid)
                &&& final(self).by_addr().dom() == old(self).by_addr().dom()
                &&& forall|x: SockAddr|
                    #[trigger] old(self).bound(x) ==> final(self).mbox(x).pending == old(self).mbox(x).pending && final(self).by_addr()[x].node == old(self).by_addr()[x].node
                &&& forall|x: SockAddr|
                    #[trigger] old(self).bound(x) && x != old(self).slot(sid).addr ==> final(self).mbox(x) == old(self).mbox(x)
                &&& (old(self).slot(sid).state is Waiting && old(self).bound(
                    old(self).slot(sid).addr,
                ) && waiter_refs(old(self).mbox(old(self).slot(sid).addr).waiters, sid)) ==> {
                    let a = old(self).slot(sid).addr;
                    let ws = old(self).mbox(a).waiters;
                    let k = choose|k: int| 0 <= k < ws.len() && ws[k].slot == sid;
                    final(self).mbox(a).waiters =~= ws.remove(k)
                }
                &&& *final(self) == (NetSim {
                    bindings: final(self).bindings,
                    slots: final(self).slots,
                    ..*old(self)
                })
            },
    {
        let j = match self.find_slot(sid) {
            None => {
                return ;
            },
            Some(j) => j,
        };
        let waiting = match &self.slots[j].state {
            SlotState::Waiting => true,
            _ => false,
        };
        let a = self.slots[j].addr;
        let ghost pre = *old(self);
        if waiting {
            match self.find_binding(a) {
                Some(i) => {
                    proof {
                        assert(waiter_slots_distinct(pre.mbox(a).waiters));
                        assert(pre.by_addr()[a] == pre.bindings@[i as int]@);
                    }
                    let b = &mut self.bindings[i];
                    let _removed = b.mailbox.remove_waiter_of_slot(sid);
                    proof {
                        lemma_entry_map_update(
                            pre.bindings@,
                            binding_key(),
                            binding_val(),
                            i as int,
                            *final(b),
                        );
                        let ws = pre.mbox(a).waiters;
                        if waiter_refs(ws, sid) {
                            let k = choose|k: int| 0 <= k < ws.len() && ws[k].slot == sid;
                            assert(self.by_addr() =~= pre.by_addr().insert(
                                a,
                                BindingView {
                                    node: pre.by_addr()[a].node,
                                    mailbox: MailboxView {
                                        pending: pre.mbox(a).pending,
                                        waiters: ws.remove(k),
                                    },
                                },
                            ));
                        } else {
                            assert((*final(b))@ =~= pre.bindings@[i as int]@);
                            assert(self.by_addr() =~= pre.by_addr());
                        }
                    }
                },
                None => {
                    proof {
                        assert(self.by_addr() == pre.by_addr());
                        assert(!pre.bound(a));
                    }
                },
            }
        }
        proof {
            assert(self.slots@ == pre.slots@);
            lemma_entry_map_remove(self.slots@, slot_key(), slot_val(), j as int);
        }
        let _ = self.slots.remove(j);
        proof {
            assert forall|i: int|
                0 <= i < self.slots@.len() implies #[trigger] self.slots@[i].id
                < self.next_slot by {
                let i0 = if i < j as int {
                    i
                } else {
                    i + 1
                };
                assert(self.slots@[i] == pre.slots@[i0]);
                assert(pre.slots@[i0].id < pre.next_slot);
            }
            self.lemma_wf_after_cancel(pre, sid, j as int);
        }
    }

    /// `wf` survives abandoning a receive.
    proof fn lemma_wf_after_cancel(self, pre: NetSim, sid: u64, j: int)
        requires
            pre.wf(),
            0 <= j < pre.slots@.len(),
            pre.slots@[j].id == sid,
            pre.has_slot(sid),
            pre.slot(sid) == pre.slots@[j]@,
            keys_distinct(self.bindings@, binding_key()),
            keys_distinct(self.nodes@, node_key()),
            keys_distinct(self.slots@, slot_key()),
            self.slots_map() == pre.slots_map().remove(sid),
            (self.by_addr() == pre.by_addr() && (pre.slot(sid).state is Waiting ==> (!pre.bound(
                pre.slot(sid).addr,
            ) || !waiter_refs(pre.mbox(pre.slot(sid).addr).waiters, sid)))) || (pre.slot(
                sid,
            ).state is Waiting && pre.bound(pre.slot(sid).addr) && {
                let a = pre.slot(sid).addr;
                let ws = pre.mbox(a).waiters;
                &&& waiter_refs(ws, sid)
                &&& self.by_addr() == pre.by_addr().insert(
                    a,
                    BindingView {
                        node: pre.by_addr()[a].node,
                        mailbox: MailboxView {
                            pending: pre.mbox(a).pending,
                            waiters: ws.remove(
                                choose|k: int| 0 <= k < ws.len() && ws[k].slot == sid,
                            ),
                        },
                    },
                )
            }),
            self.nodes@ == pre.nodes@,
            self.clogged_nodes@ == pre.clogged_nodes@,
            self.clogged_links@ == pre.clogged_links@,
            self.flights@ == pre.flights@,
            self.next_slot == pre.next_slot,
            self.now == pre.now,
            forall|i: int|
                0 <= i < self.slots@.len() ==> #[trigger] self.slots@[i].id < self.next_slot,
        ensures
            self.wf(),
    {
        let a = pre.slot(sid).addr;
        let ws = if pre.bound(a) {
            pre.mbox(a).waiters
        } else {
            Seq::empty()
        };
        let k = choose|k: int| 0 <= k < ws.len() && ws[k].slot == sid;
        assert forall|x: SockAddr| #[trigger] self.bound(x) implies waiter_slots_distinct(
            self.mbox(x).waiters,
        ) by {
            assert(pre.bound(x));
            if self.by_addr() == pre.by_addr() || x != a {
                assert(self.mbox(x) == pre.mbox(x));
            } else {
                assert(waiter_slots_distinct(ws));
                assert forall|c: int, d: int|
                    0 <= c < d < self.mbox(x).waiters.len() implies #[trigger] self.mbox(
                    x,
                ).waiters[c].slot != #[trigger] self.mbox(x).waiters[d].slot by {
                    let c0 = if c < k {
                        c
                    } else {
                        c + 1
                    };
                    let d0 = if d < k {
                        d
                    } else {
                        d + 1
                    };
                    assert(self.mbox(x).waiters[c] == ws[c0] && self.mbox(x).waiters[d]
                        == ws[d0]);
                    assert(ws[c0].slot != ws[d0].slot);
                }
            }
        }
        assert forall|x: SockAddr, k2: int|
            self.bound(x) && 0 <= k2 < self.mbox(x).waiters.len() implies {
            let w = #[trigger] self.mbox(x).waiters[k2];
            &&& self.has_slot(w.slot)
            &&& self.slot(w.slot).tag == w.tag
            &&& self.slot(w.slot).addr == x
            &&& self.slot(w.slot).state is Waiting
        } by {
            assert(pre.bound(x));
            let w = if self.by_addr() == pre.by_addr() || x != a {
                pre.mbox(x).waiters[k2]
            } else {
                ws[if k2 < k {
                    k2
                } else {
                    k2 + 1
                }]
            };
            if self.by_addr() == pre.by_addr() || x != a {
                assert(self.mbox(x) == pre.mbox(x));
                assert(self.mbox(x).waiters[k2] == w);
            } else {
                assert(self.mbox(x).waiters[k2] == w);
                assert(pre.mbox(a).waiters[if k2 < k {
                    k2
                } else {
                    k2 + 1
                }] == w);
            }
            assert(pre.has_slot(w.slot) && pre.slot(w.slot).tag == w.tag && pre.slot(
                w.slot,
            ).addr == x && pre.slot(w.slot).state is Waiting);
            assert(w.slot != sid) by {
                if w.slot == sid {
                    // The surviving waiter's slot is `Waiting` and belongs to
                    // this very mailbox, yet the waiter bound to `sid` was
                    // removed (or never existed): contradiction either way.
                    assert(pre.slot(sid).state is Waiting);
                    assert(pre.slot(sid).addr == x);
                    assert(x == a);
                    if self.by_addr() == pre.by_addr() && (pre.slot(sid).state is Waiting ==> (
                    !pre.bound(a) || !waiter_refs(pre.mbox(a).waiters, sid))) {
                        assert(pre.bound(a));
                        assert(!waiter_refs(pre.mbox(a).waiters, sid));
                        assert(pre.mbox(x).waiters[k2].slot == sid);
                        assert(waiter_refs(pre.mbox(a).waiters, sid));
                        assert(false);
                    } else {
                        let k2x = if k2 < k {
                            k2
                        } else {
                            k2 + 1
                        };
                        assert(ws[k2x].slot == ws[k].slot);
                        assert(k2x != k);
                        assert(false);
                    }
                }
            }
            assert(self.slot(w.slot) == pre.slot(w.slot));
        }
        assert forall|x: SockAddr, i: int, k2: int|
            self.bound(x) && 0 <= i < self.mbox(x).pending.len() && 0 <= k2 < self.mbox(
                x,
            ).waiters.len() implies #[trigger] self.mbox(x).pending[i].tag != #[trigger] self.mbox(
            x,
        ).waiters[k2].tag by {
            assert(pre.bound(x));
            if self.by_addr() == pre.by_addr() || x != a {
                assert(self.mbox(x) == pre.mbox(x));
                assert(pre.mbox(x).pending[i].tag != pre.mbox(x).waiters[k2].tag);
            } else {
                let k0 = if k2 < k {
                    k2
                } else {
                    k2 + 1
                };
                assert(self.mbox(x).waiters[k2] == ws[k0]);
                assert(self.mbox(x).pending == pre.mbox(x).pending);
                assert(pre.mbox(x).pending[i].tag != pre.mbox(x).waiters[k0].tag);
            }
        }
        assert forall|id: u64| #[trigger] self.has_slot(id) implies match self.slot(id).state {
            SlotStateView::Fulfilled(m) => m.tag == self.slot(id).tag,
            _ => true,
        } by {
            assert(pre.has_slot(id));
            assert(self.slot(id) == pre.slot(id));
        }
    }

    /// Non-blocking receive: removes and returns the first pending message
    /// for `tag`, in delivery order. `None` when nothing matches or the
    /// address is not bound by `node`. Never parks a waiter.
    pub fn recv_sync(&mut self, node: u64, addr: SockAddr, tag: u64) -> (r: Option<Message>)
        requires
            old(self).wf(),
        ensures
            final(self).wf(),
            !old(self).bound_to(node, addr) ==> r is None && *final(self) == *old(self),
            old(self).bound_to(node, addr) && !has_msg(old(self).mbox(addr).pending, tag) ==> r
                is None && *final(self) == *old(self),
            (old(self).bound_to(node, addr) && has_msg(old(self).mbox(addr).pending, tag)) ==> {
                let kk = crate::mailbox::first_msg_idx(old(self).mbox(addr).pending, tag);
                &&& r matches Some(m) && m@ == old(self).mbox(addr).pending[kk]
                &&& final(self).by_addr() == old(self).by_addr().insert(
                    addr,
                    BindingView {
                        node: old(self).by_addr()[addr].node,
                        mailbox: MailboxView {
                            pending: old(self).mbox(addr).pending.remove(kk),
                            waiters: old(self).mbox(addr).waiters,
                        },
                    },
                )
                &&& *final(self) == (NetSim { bindings: final(self).bindings, ..*old(self) })
            },
            r matches Some(m) ==> m@.tag == tag,
    {
        let i = match self.find_binding(addr) {
            None => {
                return None;
            },
            Some(i) => i,
        };
        if self.bindings[i].node != node {
            return None;
        }
        if !self.bindings[i].mailbox.has_pending(tag) {
            return None;
        }
        let ghost pre = *self;
        let b = &mut self.bindings[i];
        let m_opt = b.mailbox.take_first_pending(tag);
        proof {
            lemma_entry_map_update(pre.bindings@, binding_key(), binding_val(), i as int, *final(b));
        }
        match m_opt {
            None => {
                proof {
                    assert(false);
                }
                None
            },
            Some(m) => {
                proof {
                    crate::mailbox::lemma_first_msg_idx(pre.mbox(addr).pending, tag);
                    assert(self.by_addr() =~= pre.by_addr().insert(
                        addr,
                        BindingView {
                            node: pre.by_addr()[addr].node,
                            mailbox: MailboxView {
                                pending: pre.mbox(addr).pending.remove(
                                    crate::mailbox::first_msg_idx(pre.mbox(addr).pending, tag),
                                ),
                                waiters: pre.mbox(addr).waiters,
                            },
                        },
                    ));
                    self.lemma_wf_after_pending_taken(pre, addr, tag);
                }
                Some(m)
            },
        }
    }

    /// `wf` survives removing one pending message.
    proof fn lemma_wf_after_pending_taken(self, pre: NetSim, addr: SockAddr, tag: u64)
        requires
            pre.wf(),
            pre.bound(addr),
            has_msg(pre.mbox(addr).pending, tag),
            keys_distinct(self.bindings@, binding_key()),
            self.by_addr() == pre.by_addr().insert(
                addr,
                BindingView {
                    node: pre.by_addr()[addr].node,
                    mailbox: MailboxView {
                        pending: pre.mbox(addr).pending.remove(
                            crate::mailbox::first_msg_idx(pre.mbox(addr).pending, tag),
                        ),
                        waiters: pre.mbox(addr).waiters,
                    },
                },
            ),
            self.slots@ == pre.slots@,
            self.nodes@ == pre.nodes@,
            self.clogged_nodes@ == pre.clogged_nodes@,
            self.clogged_links@ == pre.clogged_links@,
            self.flights@ == pre.flights@,
            self.next_slot == pre.next_slot,
            self.now == pre.now,
        ensures
            self.wf(),
    {
        let p = pre.mbox(addr).pending;
        let kk = crate::mailbox::first_msg_idx(p, tag);
        crate::mailbox::lemma_first_msg_idx(p, tag);
        assert(self.slots_map() == pre.slots_map());
        assert forall|x: SockAddr| #[trigger] self.bound(x) implies waiter_slots_distinct(
            self.mbox(x).waiters,
        ) by {
            assert(pre.bound(x));
            if x == addr {
                assert(self.mbox(x).waiters == pre.mbox(x).waiters);
            } else {
                assert(self.mbox(x) == pre.mbox(x));
            }
        }
        assert forall|x: SockAddr, k: int|
            self.bound(x) && 0 <= k < self.mbox(x).waiters.len() implies {
            let w = #[trigger] self.mbox(x).waiters[k];
            &&& self.has_slot(w.slot)
            &&& self.slot(w.slot).tag == w.tag
            &&& self.slot(w.slot).addr == x
            &&& self.slot(w.slot).state is Waiting
        } by {
            assert(pre.bound(x));
            if x == addr {
                assert(self.mbox(x).waiters == pre.mbox(x).waiters);
            } else {
                assert(self.mbox(x) == pre.mbox(x));
            }
            let w = pre.mbox(x).waiters[k];
            assert(pre.has_slot(w.slot) && pre.slot(w.slot).tag == w.tag && pre.slot(
                w.slot,
            ).addr == x && pre.slot(w.slot).state is Waiting);
        }
        assert forall|x: SockAddr, i: int, k: int|
            self.bound(x) && 0 <= i < self.mbox(x).pending.len() && 0 <= k < self.mbox(
                x,
            ).waiters.len() implies #[trigger] self.mbox(x).pending[i].tag != #[trigger] self.mbox(
            x,
        ).waiters[k].tag by {
            assert(pre.bound(x));
            if x == addr {
                assert(self.mbox(x).waiters == pre.mbox(x).waiters);
                let i0 = if i < kk {
                    i
                } else {
                    i + 1
                };
                assert(self.mbox(x).pending[i] == p[i0]);
                assert(pre.mbox(x).pending[i0].tag != pre.mbox(x).waiters[k].tag);
            } else {
                assert(self.mbox(x) == pre.mbox(x));
                assert(pre.mbox(x).pending[i].tag != pre.mbox(x).waiters[k].tag);
            }
        }
        assert forall|id: u64| #[trigger] self.has_slot(id) implies match self.slot(id).state {
            SlotStateView::Fulfilled(m) => m.tag == self.slot(id).tag,
            _ => true,
        } by {
            assert(pre.has_slot(id));
            assert(self.slot(id) == pre.slot(id));
        }
    }

    /// Whether a receive for `tag` on `addr` would complete without
    /// suspending: a matching message is pending, or the endpoint is gone
    /// (the receive then completes at once with `BrokenPipe`).
    pub fn recv_ready(&self, node: u64, addr: SockAddr, tag: u64) -> (r: bool)
        requires
            self.wf(),
        ensures
            r == (!self.bound_to(node, addr) || has_msg(self.mbox(addr).pending, tag)),
    {
        match self.find_binding(addr) {
            None => true,
            Some(i) => {
                if self.bindings[i].node != node {
                    true
                } else {
                    self.bindings[i].mailbox.has_pending(tag)
                }
            },
        }
    }

    /// Advances the clock to `t`. The external scheduler fires every timer
    /// in order, so it never advances past a pending delivery.
    pub fn advance_to(&mut self, t: u64)
        requires
            old(self).wf(),
            t >= old(self).now,
            forall|i: int| 0 <= i < old(self).flights@.len() ==> #[trigger] old(self).flights@[i].deliver_at >= t,
        ensures
            final(self).wf(),
            *final(self) == (NetSim { now: t, ..*old(self) }),
    {
        self.now = t;
        proof {
            Self::lemma_wf_relational(*old(self), *self);
        }
    }
}

/// The successor of an ephemeral-port counter value (wrapping, a theoretical
/// concern only).
pub open spec fn port_succ(p: u32) -> u32 {
    if p == u32::MAX {
        0
    } else {
        (p + 1) as u32
    }
}

} // verus!
