use vstd::prelude::*;

verus! {

/// The payload the UDP syscall shim moves through a mailbox: a datagram's
/// raw bytes. (The shim uses a socket's port as its tag, so unmodified UDP
/// code maps onto tag-matched mailboxes.)
pub enum UDPMessage {
    Payload(Vec<u8>),
}

impl UDPMessage {
    /// Wraps a datagram's bytes.
    pub fn payload(v: Vec<u8>) -> (r: Box<UDPMessage>)
        ensures
            *r == UDPMessage::Payload(v),
    {
        Box::new(UDPMessage::Payload(v))
    }

    /// Unwraps the datagram's bytes.
    pub fn into_payload(self) -> (v: Vec<u8>)
        ensures
            self == UDPMessage::Payload(v),
    {
        match self {
            Self::Payload(v) => v,
        }
    }
}

/// How many of a datagram's bytes a receive buffer of length `buf_len`
/// takes, and whether the datagram was truncated (`MSG_TRUNC` at the shim).
pub fn recv_copy_len(payload_len: usize, buf_len: usize) -> (r: (usize, bool))
    ensures
        r.0 == if payload_len <= buf_len {
            payload_len as int
        } else {
            buf_len as int
        },
        r.1 == (r.0 < payload_len),
{
    if payload_len <= buf_len {
        (payload_len, false)
    } else {
        (buf_len, true)
    }
}

} // verus!
