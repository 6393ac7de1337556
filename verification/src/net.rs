//! Addresses, networks and endpoints.

use vstd::arithmetic::power2::pow2;
use vstd::prelude::*;
use crate::bytes::network_order;

verus! {

/// An IP address, as the number its octets spell in network order.
#[derive(Debug, Clone, Copy, PartialEq, Eq, PartialOrd, Ord, Hash, Structural)]
pub enum IpAddr {
    /// An IPv4 address.
    V4(u32),
    /// An IPv6 address.
    V6(u128),
}

/// The `count` lowest bytes of a number, highest first.
pub open spec fn big_endian(value: int, count: nat) -> Seq<u8>
    decreases count,
{
    if count == 0 {
        Seq::empty()
    } else {
        big_endian(value / 256, (count - 1) as nat).push((value % 256) as u8)
    }
}

/// The bytes of a number, highest first.
pub fn be_bytes(value: u128, count: usize) -> (bytes: Vec<u8>)
    ensures
        bytes@ == big_endian(value as int, count as nat),
    decreases count,
{
    if count == 0 {
        Vec::new()
    } else {
        let mut bytes = be_bytes(value / 256, count - 1);
        bytes.push((value % 256) as u8);
        bytes
    }
}

impl IpAddr {
    /// The IPv4 address `a.b.c.d`.
    pub fn v4(a: u8, b: u8, c: u8, d: u8) -> (address: Self)
        ensures
            address == IpAddr::V4((a * 0x100_0000 + b * 0x1_0000 + c * 0x100 + d) as u32),
    {
        IpAddr::V4(a as u32 * 0x100_0000 + b as u32 * 0x1_0000 + c as u32 * 0x100 + d as u32)
    }

    /// The octets in network order.
    pub open spec fn octets(self) -> Seq<u8> {
        match self {
            IpAddr::V4(value) => big_endian(value as int, 4),
            IpAddr::V6(value) => big_endian(value as int, 16),
        }
    }

    /// The octets in network order.
    pub fn to_octets(&self) -> (octets: Vec<u8>)
        ensures
            octets@ == self.octets(),
    {
        match *self {
            IpAddr::V4(value) => be_bytes(value as u128, 4),
            IpAddr::V6(value) => be_bytes(value, 16),
        }
    }

    /// Whether this address sorts strictly before another: IPv4 before IPv6,
    /// then by the octets.
    pub open spec fn sorts_before(self, other: IpAddr) -> bool {
        match (self, other) {
            (IpAddr::V4(a), IpAddr::V4(b)) => a < b,
            (IpAddr::V4(_), IpAddr::V6(_)) => true,
            (IpAddr::V6(_), IpAddr::V4(_)) => false,
            (IpAddr::V6(a), IpAddr::V6(b)) => a < b,
        }
    }

    /// Whether this address sorts strictly before another.
    pub fn is_before(&self, other: &IpAddr) -> (before: bool)
        ensures
            before == self.sorts_before(*other),
    {
        match (*self, *other) {
            (IpAddr::V4(a), IpAddr::V4(b)) => a < b,
            (IpAddr::V4(_), IpAddr::V6(_)) => true,
            (IpAddr::V6(_), IpAddr::V4(_)) => false,
            (IpAddr::V6(a), IpAddr::V6(b)) => a < b,
        }
    }
}

/// One endpoint of a conversation: an address and a port.
pub type Endpoint = (IpAddr, u16);

/// Whether an endpoint sorts before or with another: by address, then by port.
pub open spec fn endpoint_at_most(a: Endpoint, b: Endpoint) -> bool {
    a.0.sorts_before(b.0) || (a.0 == b.0 && a.1 <= b.1)
}

/// Whether an endpoint sorts before or with another.
pub fn endpoint_le(a: &Endpoint, b: &Endpoint) -> (le: bool)
    ensures
        le == endpoint_at_most(*a, *b),
{
    a.0.is_before(&b.0) || (a.0 == b.0 && a.1 <= b.1)
}

/// Whether two endpoints are the same.
pub fn same_endpoint(a: &Endpoint, b: &Endpoint) -> (same: bool)
    ensures
        same == (*a == *b),
{
    a.0 == b.0 && a.1 == b.1
}

/// The order of endpoints is total: of two endpoints one sorts at or before the
/// other, and both ways only when they are the same.
pub proof fn lemma_endpoint_order(a: Endpoint, b: Endpoint)
    ensures
        endpoint_at_most(a, b) || endpoint_at_most(b, a),
        endpoint_at_most(a, b) && endpoint_at_most(b, a) ==> a == b,
{
}

/// The protocol of a conversation.
#[derive(Debug, Clone, Copy, PartialEq, Eq, PartialOrd, Ord, Hash, Structural)]
pub enum Protocol {
    /// TCP.
    Tcp,
    /// UDP.
    Udp,
    /// ICMP, for either address family.
    Icmp,
    /// Any other protocol over IP.
    Ip,
}

impl Protocol {
    /// Where the protocol stands among the protocols.
    pub open spec fn rank(self) -> u8 {
        match self {
            Protocol::Tcp => 0,
            Protocol::Udp => 1,
            Protocol::Icmp => 2,
            Protocol::Ip => 3,
        }
    }

    /// Where the protocol stands among the protocols.
    pub fn number(self) -> (number: u8)
        ensures
            number == self.rank(),
    {
        match self {
            Protocol::Tcp => 0,
            Protocol::Udp => 1,
            Protocol::Icmp => 2,
            Protocol::Ip => 3,
        }
    }
}

/// Who is talking to whom: the five values that tell conversations apart.
#[derive(Debug, Clone, Copy, PartialEq, Eq, Hash, Structural)]
pub struct NetTuple {
    /// Where the packet came from.
    pub src_ip: IpAddr,
    /// The port it came from, where the protocol has ports.
    pub src_port: Option<u16>,
    /// Where the packet is going.
    pub dest_ip: IpAddr,
    /// The port it is going to, where the protocol has ports.
    pub dest_port: Option<u16>,
    /// The protocol.
    pub proto: Protocol,
}

impl NetTuple {
    /// The endpoint the packet came from; a missing port counts as zero.
    pub open spec fn source(self) -> Endpoint {
        (self.src_ip, if let Some(port) = self.src_port { port } else { 0 })
    }

    /// The endpoint the packet is going to; a missing port counts as zero.
    pub open spec fn destination(self) -> Endpoint {
        (self.dest_ip, if let Some(port) = self.dest_port { port } else { 0 })
    }

    /// The same conversation in the other direction.
    pub open spec fn reversed(self) -> NetTuple {
        NetTuple {
            src_ip: self.dest_ip,
            src_port: self.dest_port,
            dest_ip: self.src_ip,
            dest_port: self.src_port,
            proto: self.proto,
        }
    }
}

/// A network: an address and how many of its leading bits matter.
#[derive(Debug, Clone, Copy, PartialEq, Eq, Hash, Structural)]
pub struct IpNetwork {
    address: IpAddr,
    prefix: u8,
}

impl IpNetwork {
    /// An address inside the network.
    pub closed spec fn base(self) -> IpAddr {
        self.address
    }

    /// How many leading bits matter.
    pub closed spec fn prefix(self) -> int {
        self.prefix as int
    }

    /// A prefix is never longer than the address it applies to.
    #[verifier::type_invariant]
    spec fn prefix_fits(self) -> bool {
        self.prefix <= match self.address {
            IpAddr::V4(_) => 32u8,
            IpAddr::V6(_) => 128u8,
        }
    }

    /// Whether an address agrees with the network on every bit that matters.
    pub open spec fn covers(self, address: IpAddr) -> bool {
        match (self.base(), address) {
            (IpAddr::V4(net), IpAddr::V4(host)) => net as int / pow2((32 - self.prefix()) as nat) as int
                == host as int / pow2((32 - self.prefix()) as nat) as int,
            (IpAddr::V6(net), IpAddr::V6(host)) => net as int / pow2((128 - self.prefix()) as nat) as int
                == host as int / pow2((128 - self.prefix()) as nat) as int,
            _ => false,
        }
    }

    /// The network of the first `prefix` bits of an address, or none where the
    /// address has fewer.
    pub fn new(address: IpAddr, prefix: u8) -> (network: Option<Self>)
        ensures
            network is Some <==> prefix <= match address {
                IpAddr::V4(_) => 32u8,
                IpAddr::V6(_) => 128u8,
            },
            network matches Some(network) ==> network.base() == address && network.prefix()
                == prefix,
    {
        let width: u8 = match address {
            IpAddr::V4(_) => 32,
            IpAddr::V6(_) => 128,
        };
        if prefix <= width {
            Some(Self { address, prefix })
        } else {
            None
        }
    }

    /// The network of exactly one address.
    pub fn host(address: IpAddr) -> (network: Self)
        ensures
            network.base() == address,
            network.prefix() == (match address {
                IpAddr::V4(_) => 32int,
                IpAddr::V6(_) => 128int,
            }),
    {
        match address {
            IpAddr::V4(_) => Self { address, prefix: 32 },
            IpAddr::V6(_) => Self { address, prefix: 128 },
        }
    }

    /// How many leading bits matter.
    pub fn prefix_len(&self) -> (prefix: u8)
        ensures
            prefix == self.prefix(),
    {
        self.prefix
    }

    /// Whether an address lies in the network.
    pub fn contains(&self, address: IpAddr) -> (inside: bool)
        ensures
            inside == self.covers(address),
    {
        proof {
            use_type_invariant(self);
        }
        match (self.address, address) {
            (IpAddr::V4(net), IpAddr::V4(host)) => {
                let shift: u32 = 32 - self.prefix as u32;
                proof {
                    lemma_shift_bound(net as int, host as int, shift as nat);
                }
                if shift == 32 {
                    proof {
                        vstd::arithmetic::power2::lemma2_to64();
                    }
                    true
                } else {
                    proof {
                        vstd::bits::lemma_u32_shr_is_div(net, shift);
                        vstd::bits::lemma_u32_shr_is_div(host, shift);
                    }
                    net >> shift == host >> shift
                }
            },
            (IpAddr::V6(net), IpAddr::V6(host)) => {
                let shift: u128 = 128 - self.prefix as u128;
                if shift == 128 {
                    proof {
                        lemma_all_below_pow2_128(net);
                        lemma_all_below_pow2_128(host);
                    }
                    true
                } else {
                    proof {
                        vstd::bits::lemma_u128_shr_is_div(net, shift);
                        vstd::bits::lemma_u128_shr_is_div(host, shift);
                    }
                    net >> shift == host >> shift
                }
            },
            _ => false,
        }
    }
}

proof fn lemma_shift_bound(net: int, host: int, shift: nat)
    requires
        0 <= net <= u32::MAX,
        0 <= host <= u32::MAX,
    ensures
        shift == 32 ==> net / pow2(shift) as int == 0 && host / pow2(shift) as int == 0,
{
    vstd::arithmetic::power2::lemma2_to64();
}

proof fn lemma_all_below_pow2_128(value: u128)
    ensures
        value as int / pow2(128) as int == 0,
{
    vstd::arithmetic::power2::lemma2_to64();
    vstd::arithmetic::power2::lemma_pow2_adds(64, 64);
    assert(pow2(128) == 0x1_0000_0000_0000_0000 * 0x1_0000_0000_0000_0000);
    vstd::arithmetic::div_mod::lemma_basic_div(value as int, pow2(128) as int);
}

/// A network with no leading bits to match covers every address of its family
/// and none of the other.
pub proof fn law_an_empty_prefix_covers_its_family(network: IpNetwork, address: IpAddr)
    requires
        network.prefix() == 0,
    ensures
        network.covers(address) <==> (network.base() is V4 <==> address is V4),
{
    match (network.base(), address) {
        (IpAddr::V4(net), IpAddr::V4(host)) => {
            lemma_shift_bound(net as int, host as int, 32);
        },
        (IpAddr::V6(net), IpAddr::V6(host)) => {
            lemma_all_below_pow2_128(net);
            lemma_all_below_pow2_128(host);
        },
        _ => {},
    }
}

/// A network of one address covers that address alone.
pub proof fn law_a_host_network_covers_one_address(network: IpNetwork, address: IpAddr)
    requires
        network.prefix() == (match network.base() {
            IpAddr::V4(_) => 32int,
            IpAddr::V6(_) => 128int,
        }),
    ensures
        network.covers(address) <==> address == network.base(),
{
    vstd::arithmetic::power2::lemma2_to64();
    assert(pow2(0) == 1);
    assert(forall|x: int| #[trigger] (x / pow2(0) as int) == x);
}

proof fn lemma_big_endian(value: int, count: nat)
    ensures
        big_endian(value, count).len() == count,
    decreases count,
{
    if count > 0 {
        lemma_big_endian(value / 256, (count - 1) as nat);
    }
}

proof fn lemma_octets_spell(value: int, count: nat)
    requires
        0 <= value,
        value < pow2(8 * count),
    ensures
        network_order(big_endian(value, count)) == value,
    decreases count,
{
    if count == 0 {
        vstd::arithmetic::power2::lemma2_to64();
    } else {
        vstd::arithmetic::power2::lemma_pow2_adds(8, (8 * (count - 1)) as nat);
        vstd::arithmetic::power2::lemma2_to64();
        let bound = pow2((8 * (count - 1)) as nat) as int;
        assert(value / 256 < bound) by (nonlinear_arith)
            requires
                0 <= value,
                value < 256 * bound,
        ;
        lemma_octets_spell(value / 256, (count - 1) as nat);
        let bytes = big_endian(value, count);
        assert(bytes.drop_last() =~= big_endian(value / 256, (count - 1) as nat));
    }
}

/// The octets of an address are its bytes, highest first: four or sixteen of them, which
/// spell the address back.
pub proof fn law_octets_spell_the_address(address: IpAddr)
    ensures
        match address {
            IpAddr::V4(value) => {
                &&& address.octets().len() == 4
                &&& network_order(address.octets()) == value
            },
            IpAddr::V6(value) => {
                &&& address.octets().len() == 16
                &&& network_order(address.octets()) == value
            },
        },
{
    vstd::arithmetic::power2::lemma2_to64();
    match address {
        IpAddr::V4(value) => {
            lemma_big_endian(value as int, 4);
            lemma_octets_spell(value as int, 4);
        },
        IpAddr::V6(value) => {
            vstd::arithmetic::power2::lemma_pow2_adds(64, 64);
            lemma_big_endian(value as int, 16);
            lemma_octets_spell(value as int, 16);
        },
    }
}

/// Addresses are in one order: of two that differ exactly one comes first, and every
/// IPv4 address comes before every IPv6 address.
pub proof fn law_addresses_are_in_one_order(a: IpAddr, b: IpAddr, c: IpAddr)
    ensures
        a == b || a.sorts_before(b) || b.sorts_before(a),
        !(a.sorts_before(b) && b.sorts_before(a)),
        !a.sorts_before(a),
        a.sorts_before(b) && b.sorts_before(c) ==> a.sorts_before(c),
        a is V4 && b is V6 ==> a.sorts_before(b),
        forall|x: u32, y: u32|
            x < y ==> #[trigger] IpAddr::V4(x).sorts_before(IpAddr::V4(y)),
        forall|x: u128, y: u128|
            x < y ==> #[trigger] IpAddr::V6(x).sorts_before(IpAddr::V6(y)),
{
}

/// A network is a block of addresses of its own family: as many as its free bits spell,
/// from a multiple of that number on, with its own address among them.
pub proof fn law_a_network_is_one_block(network: IpNetwork, host: IpAddr)
    requires
        0 <= network.prefix(),
        network.base() is V4 ==> network.prefix() <= 32,
        network.base() is V6 ==> network.prefix() <= 128,
    ensures
        network.covers(network.base()),
        network.covers(host) ==> (network.base() is V4 <==> host is V4),
        match (network.base(), host) {
            (IpAddr::V4(net), IpAddr::V4(at)) => {
                let size = pow2((32 - network.prefix()) as nat) as int;
                let first = net - net as int % size;
                network.covers(host) <==> first <= at < first + size
            },
            (IpAddr::V6(net), IpAddr::V6(at)) => {
                let size = pow2((128 - network.prefix()) as nat) as int;
                let first = net - net as int % size;
                network.covers(host) <==> first <= at < first + size
            },
            _ => true,
        },
{
    match (network.base(), host) {
        (IpAddr::V4(net), IpAddr::V4(at)) => {
            let bits = (32 - network.prefix()) as nat;
            vstd::arithmetic::power2::lemma_pow2_pos(bits);
            lemma_same_block(net as int, at as int, pow2(bits) as int);
        },
        (IpAddr::V6(net), IpAddr::V6(at)) => {
            let bits = (128 - network.prefix()) as nat;
            vstd::arithmetic::power2::lemma_pow2_pos(bits);
            lemma_same_block(net as int, at as int, pow2(bits) as int);
        },
        _ => {},
    }
}

proof fn lemma_same_block(net: int, at: int, size: int)
    requires
        0 <= net,
        0 <= at,
        size > 0,
    ensures
        net / size == at / size <==> net - net % size <= at < net - net % size + size,
{
    let p = net / size;
    let q = at / size;
    vstd::arithmetic::div_mod::lemma_fundamental_div_mod(net, size);
    vstd::arithmetic::div_mod::lemma_fundamental_div_mod(at, size);
    vstd::arithmetic::div_mod::lemma_mod_bound(net, size);
    vstd::arithmetic::div_mod::lemma_mod_bound(at, size);
    if p < q {
        assert(size * q >= size * p + size) by (nonlinear_arith)
            requires
                p < q,
                size > 0,
        ;
    }
    if q < p {
        assert(size * p >= size * q + size) by (nonlinear_arith)
            requires
                q < p,
                size > 0,
        ;
    }
}

/// The other direction of a conversation swaps its ends and nothing else, and turned
/// around twice it is itself. A port that is missing counts as zero.
pub proof fn law_the_other_direction_swaps_the_ends(tuple: NetTuple)
    ensures
        tuple.reversed().source() == tuple.destination(),
        tuple.reversed().destination() == tuple.source(),
        tuple.reversed().proto == tuple.proto,
        tuple.reversed().reversed() == tuple,
        tuple.source().0 == tuple.src_ip,
        tuple.destination().0 == tuple.dest_ip,
        tuple.src_port == Some(tuple.source().1) || (tuple.src_port is None && tuple.source().1
            == 0),
        tuple.dest_port == Some(tuple.destination().1) || (tuple.dest_port is None
            && tuple.destination().1 == 0),
{
}

/// Each protocol has a number of its own.
pub proof fn law_protocols_are_told_apart(a: Protocol, b: Protocol)
    ensures
        a.rank() == b.rank() ==> a == b,
        a.rank() <= 3,
{
}

/// Endpoints are in one order, by address and then by port.
pub proof fn law_endpoints_are_in_one_order(a: Endpoint, b: Endpoint, c: Endpoint)
    ensures
        endpoint_at_most(a, a),
        endpoint_at_most(a, b) && endpoint_at_most(b, c) ==> endpoint_at_most(a, c),
        endpoint_at_most(a, b) && endpoint_at_most(b, a) ==> a == b,
        a.0.sorts_before(b.0) ==> endpoint_at_most(a, b) && !endpoint_at_most(b, a),
        a.0 == b.0 ==> (endpoint_at_most(a, b) <==> a.1 <= b.1),
{
    law_addresses_are_in_one_order(a.0, b.0, c.0);
}

} // verus!
