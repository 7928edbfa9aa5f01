use vstd::prelude::*;

verus! {

/// An IP address of the simulated network: IPv4 as its 32-bit value,
/// IPv6 as its 128-bit value.
#[derive(Clone, Copy, Debug, PartialEq, Eq, Structural, Hash)]
pub enum Ip {
    V4(u32),
    V6(u128),
}

/// A socket address. Ports are a node-local `u32` counter value; port 0 is
/// reserved as the "new connection" sentinel and is what an ephemeral bind
/// request carries.
#[derive(Clone, Copy, Debug, PartialEq, Eq, Structural, Hash)]
pub struct SockAddr {
    pub ip: Ip,
    pub port: u32,
}

impl Ip {
    /// Loopback: `127.0.0.0/8` for IPv4, `::1` for IPv6.
    pub open spec fn is_loopback(self) -> bool {
        match self {
            Ip::V4(x) => x / 0x100_0000 == 127,
            Ip::V6(x) => x == 1,
        }
    }

    /// Unspecified: `0.0.0.0` or `::`.
    pub open spec fn is_unspecified(self) -> bool {
        match self {
            Ip::V4(x) => x == 0,
            Ip::V6(x) => x == 0,
        }
    }

    /// Runtime test for a loopback address.
    pub fn loopback(&self) -> (r: bool)
        ensures
            r == self.is_loopback(),
    {
        match self {
            Ip::V4(x) => *x / 0x100_0000 == 127,
            Ip::V6(x) => *x == 1,
        }
    }

    /// Runtime test for the unspecified address.
    pub fn unspecified(&self) -> (r: bool)
        ensures
            r == self.is_unspecified(),
    {
        match self {
            Ip::V4(x) => *x == 0,
            Ip::V6(x) => *x == 0,
        }
    }

    /// The 32-bit value of the IPv4 address `a.b.c.d`.
    pub open spec fn v4_value(a: u8, b: u8, c: u8, d: u8) -> u32 {
        ((a as u32) * 0x100_0000 + (b as u32) * 0x1_0000 + (c as u32) * 0x100 + (d as u32)) as u32
    }

    /// Builds an IPv4 address from its four octets.
    pub fn v4(a: u8, b: u8, c: u8, d: u8) -> (r: Ip)
        ensures
            r == Ip::V4(Ip::v4_value(a, b, c, d)),
    {
        Ip::V4(
            (a as u32) * 0x100_0000 + (b as u32) * 0x1_0000 + (c as u32) * 0x100 + (d as u32),
        )
    }
}

impl SockAddr {
    /// Builds an IPv4 socket address from octets and a port.
    pub fn v4(a: u8, b: u8, c: u8, d: u8, port: u32) -> (r: SockAddr)
        ensures
            r.ip == Ip::V4(Ip::v4_value(a, b, c, d)),
            r.port == port,
    {
        SockAddr { ip: Ip::v4(a, b, c, d), port }
    }
}

} // verus!
