//! A deterministic, in-process simulated network for testing distributed
//! protocols. Logical nodes exchange tagged messages through a central
//! simulator that models latency, packet loss, partitions, and node resets.
//!
//! The engine is a state machine: random draws (the packet-loss outcome and
//! the latency) and the firing of delivery timers enter as plain values, so
//! every run is reproducible and every operation carries a proved contract —
//! at-most-one delivery per admitted send, exact tag matching, FIFO service
//! per tag, and clean suspension, cancellation, and teardown of receivers.
//! An asynchronous facade and the UDP syscall boundary sit outside the
//! verified core and only draw randomness, run the event loop, and adapt
//! types at the edges.

#![verifier::loop_isolation(false)]

pub mod addr;
pub mod endpoint;
pub mod keyed;
pub mod laws;
pub mod mailbox;
pub mod net;
pub mod payload;
pub mod shim;
