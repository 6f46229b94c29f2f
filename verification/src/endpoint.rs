//! Endpoints as peers advertise them: an address, a port and capability
//! flags.

use vstd::prelude::*;
use crate::netaddr::NetAddr;

verus! {

/// No capability.
pub const NODE_NONE: u64 = 0;

/// The node serves the complete block chain.
pub const NODE_NETWORK: u64 = 0x1;

/// The node answers the `getutxo` request.
pub const NODE_GETUTXO: u64 = 0x2;

/// The node handles bloom-filtered connections.
pub const NODE_BLOOM: u64 = 0x4;

/// The node can be asked for blocks and transactions with witness data.
pub const NODE_WITNESS: u64 = 0x8;

/// The node supports Xtreme Thinblocks.
pub const NODE_XTHIN: u64 = 0x10;

/// The node serves the last 288 blocks only.
pub const NODE_NETWORK_LIMITED: u64 = 0x400;

/// A set of capability flags, one bit each. Bits without a name here are
/// kept as they came.
#[derive(Clone, Copy, Debug, PartialEq, Eq, Structural)]
pub struct ServiceFlags {
    pub bits: u64,
}

impl ServiceFlags {
    /// Whether every bit of `mask` is set.
    pub open spec fn has(self, mask: u64) -> bool {
        self.bits & mask == mask
    }

    /// The flags with exactly the bits of `bits`.
    pub fn from_bits(bits: u64) -> (r: Self)
        ensures
            r.bits == bits,
    {
        ServiceFlags { bits }
    }

    /// The empty set.
    pub fn none() -> (r: Self)
        ensures
            r.bits == NODE_NONE,
    {
        ServiceFlags { bits: NODE_NONE }
    }

    /// All bits, named or not.
    pub fn to_bits(&self) -> (r: u64)
        ensures
            r == self.bits,
    {
        self.bits
    }

    /// Computes [`ServiceFlags::has`].
    pub fn contains(&self, mask: u64) -> (r: bool)
        ensures
            r == self.has(mask),
    {
        self.bits & mask == mask
    }

    /// These flags and those of `mask`. No other bit changes.
    pub fn with(&self, mask: u64) -> (r: Self)
        ensures
            r.bits == self.bits | mask,
            r.has(mask),
            forall|m: u64| self.has(m) ==> r.has(m),
    {
        let bits: u64 = self.bits;
        assert((bits | mask) & mask == mask) by (bit_vector);
        assert forall|m: u64| bits & m == m implies (bits | mask) & m == m by {
            assert(bits & m == m ==> (bits | mask) & m == m) by (bit_vector);
        }
        ServiceFlags { bits: bits | mask }
    }

    /// These flags but those of `mask`. No other bit changes.
    pub fn without(&self, mask: u64) -> (r: Self)
        ensures
            r.bits == self.bits & !mask,
            r.bits & mask == 0,
    {
        let bits: u64 = self.bits;
        assert((bits & !mask) & mask == 0) by (bit_vector);
        ServiceFlags { bits: bits & !mask }
    }
}

/// One endpoint: an address, a TCP port and the capabilities advertised for
/// it.
#[derive(Clone, Copy, Debug, PartialEq, Eq, Structural)]
pub struct Service {
    pub inner: NetAddr,
    pub port: u16,
    pub services: ServiceFlags,
}

impl Service {
    /// Address and port: what tells two endpoints apart.
    pub open spec fn key(self) -> (NetAddr, u16) {
        (self.inner, self.port)
    }

    /// An endpoint from its parts.
    pub fn new(inner: NetAddr, port: u16, services: ServiceFlags) -> (r: Self)
        ensures
            r == (Service { inner, port, services }),
    {
        Service { inner, port, services }
    }

    /// Whether both have the same address and port.
    pub fn same_endpoint(&self, other: &Service) -> (r: bool)
        ensures
            r == (self.key() == other.key()),
    {
        self.inner == other.inner && self.port == other.port
    }
}

/// An endpoint and the time, in seconds since the epoch, at which it was
/// last seen alive.
#[derive(Clone, Copy, Debug, PartialEq, Eq, Structural)]
pub struct Address {
    pub inner: Service,
    pub time: i64,
}

impl Address {
    /// An address entry from its parts.
    pub fn new(inner: Service, time: i64) -> (r: Self)
        ensures
            r == (Address { inner, time }),
    {
        Address { inner, time }
    }
}

} // verus!
