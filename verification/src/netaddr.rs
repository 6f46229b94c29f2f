//! Network addresses, endpoints, capability flags and ban targets.

use vstd::prelude::*;

verus! {

/// A value whose meaning the protocol leaves open; it is carried unchanged.
#[derive(Clone, Copy, Debug, PartialEq, Eq, Structural)]
pub struct Unknown<T> {
    pub inner: T,
}

impl<T> Unknown<T> {
    /// Wraps `inner`.
    pub fn new(inner: T) -> (r: Self)
        ensures
            r.inner == inner,
    {
        Unknown { inner }
    }

    /// Hands the wrapped value back.
    pub fn into_inner(self) -> (r: T)
        ensures
            r == self.inner,
    {
        self.inner
    }
}

/// An IP address as the 128 bits of its IPv6 form; an IPv4 address lies in
/// the mapped range `::ffff:0:0/96`. `scope_id` is the zone of a link-local
/// IPv6 address, 0 where there is none.
#[derive(Clone, Copy, Debug, PartialEq, Eq, Structural)]
pub struct NetAddr {
    pub ip: u128,
    pub scope_id: Unknown<u32>,
}

/// The upper 96 bits of every IPv4-mapped address, shifted down by 32.
pub const V4_MAPPED_PREFIX: u128 = 0xffff;

impl NetAddr {
    /// The mapped form of the IPv4 address `a.b.c.d`.
    pub open spec fn spec_ipv4(a: u8, b: u8, c: u8, d: u8) -> NetAddr {
        NetAddr {
            ip: (0xffff_0000_0000u128 + a as u128 * 0x100_0000 + b as u128 * 0x1_0000 + c as u128
                * 0x100 + d as u128) as u128,
            scope_id: Unknown { inner: 0 },
        }
    }

    /// An address from its 128 bits and its scope.
    pub fn new(ip: u128, scope_id: u32) -> (r: Self)
        ensures
            r == (NetAddr { ip, scope_id: Unknown { inner: scope_id } }),
    {
        NetAddr { ip, scope_id: Unknown { inner: scope_id } }
    }

    /// The IPv4 address `a.b.c.d` in mapped form.
    pub fn from_ipv4(a: u8, b: u8, c: u8, d: u8) -> (r: Self)
        ensures
            r == Self::spec_ipv4(a, b, c, d),
            r.is_ipv4(),
    {
        let ip: u128 = 0xffff_0000_0000u128 + a as u128 * 0x100_0000 + b as u128 * 0x1_0000
            + c as u128 * 0x100 + d as u128;
        assert(ip >> 32 == 0xffff) by (bit_vector)
            requires
                0xffff_0000_0000u128 <= ip < 0x1_0000_0000_0000u128,
        ;
        NetAddr { ip, scope_id: Unknown { inner: 0 } }
    }

    /// Whether the address lies in the IPv4-mapped range.
    pub open spec fn is_ipv4(self) -> bool {
        self.ip >> 32 == V4_MAPPED_PREFIX
    }

    /// `::` or an address of `0.0.0.0/8`.
    pub open spec fn is_unspecified(self) -> bool {
        self.ip == 0 || self.ip >> 24 == 0xffff00
    }

    /// `::1` or an address of `127.0.0.0/8`.
    pub open spec fn is_loopback(self) -> bool {
        self.ip == 1 || self.ip >> 24 == 0xffff7f
    }

    /// An address of `10.0.0.0/8`, `172.16.0.0/12` or `192.168.0.0/16`.
    pub open spec fn is_private(self) -> bool {
        self.ip >> 24 == 0xffff0a || self.ip >> 20 == 0xffffac1 || self.ip >> 16 == 0xffffc0a8
    }

    /// An address of `169.254.0.0/16` or of `fe80::/10`.
    pub open spec fn is_link_local(self) -> bool {
        self.ip >> 16 == 0xffffa9fe || self.ip >> 118 == 0x3fa
    }

    /// An address of `fc00::/7`.
    pub open spec fn is_unique_local(self) -> bool {
        self.ip >> 121 == 0x7e
    }

    /// An address of `224.0.0.0/4` or of `ff00::/8`, or `255.255.255.255`.
    pub open spec fn is_multicast(self) -> bool {
        self.ip >> 28 == 0xffffe || self.ip >> 120 == 0xff || self.ip == 0xffff_ffff_ffff
    }

    /// Whether the address can be reached over the public network: it is in
    /// none of the reserved ranges above.
    pub open spec fn is_routable(self) -> bool {
        !self.is_unspecified() && !self.is_loopback() && !self.is_private()
            && !self.is_link_local() && !self.is_unique_local() && !self.is_multicast()
    }

    /// Computes [`NetAddr::is_ipv4`].
    pub fn ipv4(&self) -> (r: bool)
        ensures
            r == self.is_ipv4(),
    {
        self.ip >> 32 == V4_MAPPED_PREFIX
    }

    /// Computes [`NetAddr::is_routable`].
    pub fn routable(&self) -> (r: bool)
        ensures
            r == self.is_routable(),
    {
        let ip: u128 = self.ip;
        let unspecified: bool = ip == 0 || ip >> 24 == 0xffff00;
        let loopback: bool = ip == 1 || ip >> 24 == 0xffff7f;
        let private: bool = ip >> 24 == 0xffff0a || ip >> 20 == 0xffffac1 || ip >> 16
            == 0xffffc0a8;
        let link_local: bool = ip >> 16 == 0xffffa9fe || ip >> 118 == 0x3fa;
        let unique_local: bool = ip >> 121 == 0x7e;
        let multicast: bool = ip >> 28 == 0xffffe || ip >> 120 == 0xff || ip == 0xffff_ffff_ffff;
        !unspecified && !loopback && !private && !link_local && !unique_local && !multicast
    }

    /// Whether both addresses have the same bits and the same scope.
    pub fn same(&self, other: &NetAddr) -> (r: bool)
        ensures
            r == (*self == *other),
    {
        self.ip == other.ip && self.scope_id.inner == other.scope_id.inner
    }
}

/// The mask that keeps the first `len` bits of an address; every bit from
/// 128 on.
pub open spec fn prefix_mask(len: u8) -> u128 {
    if len == 0 {
        0
    } else if len >= 128 {
        u128::MAX
    } else {
        u128::MAX << ((128 - len) as u32)
    }
}

/// Computes [`prefix_mask`].
pub fn mask_of(len: u8) -> (r: u128)
    ensures
        r == prefix_mask(len),
{
    if len == 0 {
        0
    } else if len >= 128 {
        u128::MAX
    } else {
        let shift: u32 = 128 - len as u32;
        u128::MAX << shift
    }
}

/// The number of leading bits, out of the 128 that every address has
/// here, that `prefix_len` bits mean in the family of `addr`. An IPv4
/// address has 32 bits, which follow the 96 of the mapped range; any other
/// address has 128. A prefix longer than the family allows names all its
/// bits.
pub open spec fn family_prefix(addr: NetAddr, prefix_len: u8) -> u8 {
    if addr.is_ipv4() {
        if prefix_len > 32 {
            128
        } else {
            (prefix_len + 96) as u8
        }
    } else if prefix_len > 128 {
        128
    } else {
        prefix_len
    }
}

/// Computes [`family_prefix`].
pub fn prefix_in_family(addr: &NetAddr, prefix_len: u8) -> (r: u8)
    ensures
        r == family_prefix(*addr, prefix_len),
        r <= 128,
        addr.is_ipv4() ==> r >= 96,
{
    if addr.ipv4() {
        if prefix_len > 32 {
            128
        } else {
            prefix_len + 96
        }
    } else if prefix_len > 128 {
        128
    } else {
        prefix_len
    }
}

/// A range of addresses: those that agree with `network` in their first
/// `prefix_len` bits.
#[derive(Clone, Copy, Debug, PartialEq, Eq, Structural)]
pub struct SubNet {
    pub network: NetAddr,
    pub prefix_len: u8,
}

impl SubNet {
    /// Whether `addr` lies in the range. The scope plays no part.
    pub open spec fn contains(self, addr: NetAddr) -> bool {
        addr.ip & prefix_mask(self.prefix_len) == self.network.ip & prefix_mask(self.prefix_len)
    }

    /// The one representative of all values that describe the same range:
    /// host bits cleared, no scope, a prefix length of at most 128.
    pub open spec fn canonical(self) -> SubNet {
        SubNet {
            network: NetAddr {
                ip: self.network.ip & prefix_mask(self.prefix_len),
                scope_id: Unknown { inner: 0 },
            },
            prefix_len: if self.prefix_len >= 128 {
                128
            } else {
                self.prefix_len
            },
        }
    }

    /// The range of the first `prefix_len` bits of `network`, in canonical
    /// form.
    pub fn new(network: NetAddr, prefix_len: u8) -> (r: Self)
        ensures
            r == (SubNet { network, prefix_len }).canonical(),
    {
        (SubNet { network, prefix_len }).normalized()
    }

    /// Computes [`SubNet::contains`].
    pub fn includes(&self, addr: &NetAddr) -> (r: bool)
        ensures
            r == self.contains(*addr),
    {
        let mask: u128 = mask_of(self.prefix_len);
        addr.ip & mask == self.network.ip & mask
    }

    /// Computes [`SubNet::canonical`].
    pub fn normalized(&self) -> (r: Self)
        ensures
            r == self.canonical(),
    {
        let mask: u128 = mask_of(self.prefix_len);
        let len: u8 = if self.prefix_len >= 128 {
            128
        } else {
            self.prefix_len
        };
        SubNet { network: NetAddr { ip: self.network.ip & mask, scope_id: Unknown { inner: 0 } }, prefix_len: len }
    }

    /// A canonical range is its own canonical form, and holds the same
    /// addresses as every value it stands for.
    pub proof fn lemma_canonical(self, addr: NetAddr)
        ensures
            self.canonical().canonical() == self.canonical(),
            self.canonical().contains(addr) == self.contains(addr),
    {
        let m: u128 = prefix_mask(self.prefix_len);
        let n: u128 = self.network.ip;
        assert((n & m) & m == n & m) by (bit_vector);
        assert(prefix_mask(self.canonical().prefix_len) == m);
    }
}

/// What a ban names: one address, or a range of them.
#[derive(Clone, Copy, Debug, PartialEq, Eq, Structural)]
pub enum BanAddr {
    /// One address.
    Net(NetAddr),
    /// Every address of a range.
    Sub(SubNet),
}

impl BanAddr {
    /// Whether a ban on this target applies to `addr`.
    pub open spec fn covers(self, addr: NetAddr) -> bool {
        match self {
            BanAddr::Net(a) => a == addr,
            BanAddr::Sub(s) => s.contains(addr),
        }
    }

    /// The form under which the ban table files this target.
    pub open spec fn canonical(self) -> BanAddr {
        match self {
            BanAddr::Net(a) => BanAddr::Net(a),
            BanAddr::Sub(s) => BanAddr::Sub(s.canonical()),
        }
    }

    /// The ban target for the range around `addr` that `prefix_len` bits
    /// name in the family of `addr`, in canonical form. It covers `addr`.
    pub fn range(addr: &NetAddr, prefix_len: u8) -> (r: BanAddr)
        ensures
            r == BanAddr::Sub(
                (SubNet { network: *addr, prefix_len: family_prefix(*addr, prefix_len) }).canonical(),
            ),
            r == r.canonical(),
            r.covers(*addr),
    {
        let bits: u8 = prefix_in_family(addr, prefix_len);
        proof {
            (SubNet { network: *addr, prefix_len: bits }).lemma_canonical(*addr);
        }
        BanAddr::Sub(SubNet::new(*addr, bits))
    }

    /// Computes [`BanAddr::covers`].
    pub fn applies_to(&self, addr: &NetAddr) -> (r: bool)
        ensures
            r == self.covers(*addr),
    {
        match self {
            BanAddr::Net(a) => *a == *addr,
            BanAddr::Sub(s) => s.includes(addr),
        }
    }

    /// Computes [`BanAddr::canonical`].
    pub fn normalized(&self) -> (r: Self)
        ensures
            r == self.canonical(),
    {
        match self {
            BanAddr::Net(a) => BanAddr::Net(*a),
            BanAddr::Sub(s) => BanAddr::Sub(s.normalized()),
        }
    }

    /// Whether both name the same target.
    pub fn same(&self, other: &BanAddr) -> (r: bool)
        ensures
            r == (*self == *other),
    {
        *self == *other
    }

    /// Filing a target under its canonical form changes nothing about the
    /// addresses it covers.
    pub proof fn lemma_canonical(self, addr: NetAddr)
        ensures
            self.canonical().canonical() == self.canonical(),
            self.canonical().covers(addr) == self.covers(addr),
    {
        match self {
            BanAddr::Net(a) => {},
            BanAddr::Sub(s) => {
                s.lemma_canonical(addr);
            },
        }
    }
}

/// Why a target was banned.
#[derive(Clone, Copy, Debug, PartialEq, Eq, Structural)]
pub enum BanReason {
    /// No reason was recorded.
    BanReasonUnknown,
    /// The peer broke the protocol.
    BanReasonNodeMisbehaving,
    /// An operator asked for the ban.
    BanReasonManuallyAdded,
}

/// The identity of one peer slot.
#[derive(Clone, Copy, Debug, PartialEq, Eq, Structural)]
pub struct Node {
    pub id: u64,
}

/// A serialized message; its bytes mean nothing here.
#[derive(Clone, Debug)]
pub struct RawNetMessage {
    pub payload: Vec<u8>,
}

impl View for RawNetMessage {
    type V = Seq<u8>;

    open spec fn view(&self) -> Seq<u8> {
        self.payload@
    }
}

} // verus!
