//! Network addresses.

use vstd::prelude::*;

verus! {

/// An IP address, held as the number of its IPv6 form, the first byte
/// counting most. An IPv4 address `a.b.c.d` is held as the IPv6 address that
/// it is mapped to, `::ffff:a.b.c.d`.
pub type IpAddr = u128;

/// Identifier of a simulated node. Every node of a simulation has an address
/// of its own.
pub type NodeId = IpAddr;

/// The number of the address `::ffff:0.0.0.0`, from which the IPv4 addresses
/// count.
pub const MAPPED: u128 = 0xffff_0000_0000;

/// A socket endpoint: an address and a port. The address is of the IPv4 or
/// of the IPv6 form.
#[derive(Clone, Copy, Debug, PartialEq, Eq, PartialOrd, Ord, Hash, Structural)]
pub struct SocketAddr {
    /// The address of the host.
    pub ip: IpAddr,
    /// The port on the host.
    pub port: u16,
    /// Whether the address is of the IPv6 form. An address of the IPv4 form
    /// is one that an IPv4 address is mapped to.
    pub v6: bool,
    /// The scope of an address of the IPv6 form: the number of the link that
    /// the address is good on, or zero.
    pub scope: u32,
}

/// Identifier of one side of a connection.
pub type PeerId = SocketAddr;

/// Whether the number is that of an address that an IPv4 address is mapped
/// to.
pub open spec fn is_mapped(ip: IpAddr) -> bool {
    MAPPED <= ip <= MAPPED + 0xffff_ffff
}

/// The last four bytes of the address: of an address of the IPv4 form, the
/// IPv4 address as a number.
pub open spec fn low(ip: IpAddr) -> u32 {
    (ip % 0x1_0000_0000) as u32
}

/// The endpoint at the node `node` and the port `port`, of the IPv4 form
/// where the node has one.
pub open spec fn endpoint(node: NodeId, port: u16) -> SocketAddr {
    SocketAddr { ip: node, port, v6: !is_mapped(node), scope: 0 }
}

/// The endpoint `0.0.0.0:0`, which stands where no remote endpoint applies.
pub open spec fn unspecified() -> SocketAddr {
    SocketAddr { ip: MAPPED, port: 0, v6: false, scope: 0 }
}

/// The number that stands for the address `a.b.c.d`.
pub open spec fn ip_of(a: u8, b: u8, c: u8, d: u8) -> int {
    a * 0x100_0000 + b * 0x1_0000 + c * 0x100 + d
}

/// The octet at place `i` of `ip`, counted from the left; `i` is 0 to 3.
pub open spec fn octet_of(ip: u32, i: int) -> int {
    if i == 0 {
        ip as int / 0x100_0000
    } else if i == 1 {
        ip as int / 0x1_0000 % 0x100
    } else if i == 2 {
        ip as int / 0x100 % 0x100
    } else {
        ip as int % 0x100
    }
}

/// The octets of the number that four octets make are those four.
pub proof fn lemma_octets(ip: u32, a: u32, b: u32, c: u32, d: u32)
    requires
        a < 0x100,
        b < 0x100,
        c < 0x100,
        d < 0x100,
        ip == a * 0x100_0000 + b * 0x1_0000 + c * 0x100 + d,
    ensures
        octet_of(ip, 0) == a,
        octet_of(ip, 1) == b,
        octet_of(ip, 2) == c,
        octet_of(ip, 3) == d,
{
    let low = a * 0x1_0000 + b * 0x100 + c;
    let mid = a * 0x100 + b;
    assert(ip == 0x100 * low + d);
    assert(ip / 0x100 == low && ip % 0x100 == d);
    assert(low == 0x100 * mid + c);
    assert(low / 0x100 == mid && low % 0x100 == c);
    assert(mid / 0x100 == a && mid % 0x100 == b);
    assert(ip as int / 0x1_0000 == mid) by {
        assert(ip == 0x1_0000 * mid + (0x100 * c + d));
    }
    assert(ip as int / 0x100_0000 == a) by {
        assert(ip == 0x100_0000 * a + (0x1_0000 * b + 0x100 * c + d));
    }
}

/// An address is the number that its four octets make.
pub proof fn lemma_ip_of_octets(ip: u32)
    ensures
        ip == octet_of(ip, 0) * 0x100_0000 + octet_of(ip, 1) * 0x1_0000 + octet_of(ip, 2) * 0x100
            + octet_of(ip, 3),
        0 <= octet_of(ip, 0) < 0x100,
        0 <= octet_of(ip, 1) < 0x100,
        0 <= octet_of(ip, 2) < 0x100,
        0 <= octet_of(ip, 3) < 0x100,
{
    let x = ip as int;
    let q1 = x / 0x100;
    let q2 = x / 0x1_0000;
    let q3 = x / 0x100_0000;
    assert(x == 0x100 * q1 + x % 0x100);
    assert(q1 / 0x100 == q2) by {
        assert(x == 0x1_0000 * q2 + x % 0x1_0000);
        assert(q1 == 0x100 * (q1 / 0x100) + q1 % 0x100);
    }
    assert(q2 / 0x100 == q3) by {
        assert(x == 0x100_0000 * q3 + x % 0x100_0000);
        assert(x == 0x1_0000 * q2 + x % 0x1_0000);
        assert(q2 == 0x100 * (q2 / 0x100) + q2 % 0x100);
    }
    assert(q1 == 0x100 * q2 + q1 % 0x100);
    assert(q2 == 0x100 * q3 + q2 % 0x100);
}

/// Two IPv4 addresses with the same octets are the same.
pub proof fn lemma_same_quad(v: u32, w: u32)
    requires
        octet_of(v, 0) == octet_of(w, 0),
        octet_of(v, 1) == octet_of(w, 1),
        octet_of(v, 2) == octet_of(w, 2),
        octet_of(v, 3) == octet_of(w, 3),
    ensures
        v == w,
{
    lemma_ip_of_octets(v);
    lemma_ip_of_octets(w);
}

/// An address that an IPv4 address is mapped to is made of the number that
/// the IPv4 addresses count from and its last four bytes.
pub proof fn lemma_low(ip: IpAddr)
    requires
        is_mapped(ip),
    ensures
        ip == MAPPED + low(ip),
{
    let r = ip - MAPPED;
    assert(ip == 0x1_0000_0000 * 0xffff + r);
    assert(0 <= r < 0x1_0000_0000);
    assert(ip as int % 0x1_0000_0000 == r);
}

impl SocketAddr {
    /// Whether the endpoint is one that an address can have: of the IPv6
    /// form, or of the IPv4 form with an address that has one.
    pub open spec fn wf(self) -> bool {
        self.v6 || (is_mapped(self.ip) && self.scope == 0)
    }

    /// The endpoint at `ip` and `port`, of the IPv4 form where the address
    /// has one.
    pub fn new(ip: IpAddr, port: u16) -> (addr: SocketAddr)
        ensures
            addr == endpoint(ip, port),
            addr.wf(),
    {
        SocketAddr { ip, port, v6: !(MAPPED <= ip && ip <= MAPPED + 0xffff_ffff), scope: 0 }
    }

    /// The endpoint of the IPv6 form at the address with the number `ip`
    /// and `port`.
    pub fn v6(ip: IpAddr, port: u16) -> (addr: SocketAddr)
        ensures
            addr == (SocketAddr { ip, port, v6: true, scope: 0 }),
            addr.wf(),
    {
        SocketAddr { ip, port, v6: true, scope: 0 }
    }

    /// The endpoint of the IPv6 form at the address with the number `ip`
    /// and `port`, good on the link `scope`.
    pub fn scoped(ip: IpAddr, port: u16, scope: u32) -> (addr: SocketAddr)
        ensures
            addr == (SocketAddr { ip, port, v6: true, scope }),
            addr.wf(),
    {
        SocketAddr { ip, port, v6: true, scope }
    }

    /// The scope of the endpoint.
    pub fn scope(&self) -> (scope: u32)
        ensures
            scope == self.scope,
    {
        self.scope
    }

    /// The endpoint at the IPv4 address `a.b.c.d` and `port`.
    pub fn from_octets(a: u8, b: u8, c: u8, d: u8, port: u16) -> (addr: SocketAddr)
        ensures
            addr.ip == MAPPED + ip_of(a, b, c, d),
            addr.port == port,
            !addr.v6,
            addr.scope == 0,
            addr.wf(),
            low(addr.ip) == ip_of(a, b, c, d),
            octet_of(low(addr.ip), 0) == a,
            octet_of(low(addr.ip), 1) == b,
            octet_of(low(addr.ip), 2) == c,
            octet_of(low(addr.ip), 3) == d,
    {
        let a: u32 = a as u32;
        let b: u32 = b as u32;
        let c: u32 = c as u32;
        let d: u32 = d as u32;
        let ip: u32 = a * 0x100_0000 + b * 0x1_0000 + c * 0x100 + d;
        proof {
            lemma_octets(ip, a, b, c, d);
        }
        SocketAddr { ip: MAPPED + ip as u128, port, v6: false, scope: 0 }
    }

    /// The endpoint `0.0.0.0:0`, which stands where no remote endpoint applies.
    pub fn unspecified() -> (addr: SocketAddr)
        ensures
            addr == unspecified(),
    {
        SocketAddr { ip: MAPPED, port: 0, v6: false, scope: 0 }
    }

    /// The address of the endpoint.
    pub fn ip(&self) -> (ip: IpAddr)
        ensures
            ip == self.ip,
    {
        self.ip
    }

    /// The port of the endpoint.
    pub fn port(&self) -> (port: u16)
        ensures
            port == self.port,
    {
        self.port
    }

    /// Whether the address is of the IPv6 form.
    pub fn is_v6(&self) -> (v6: bool)
        ensures
            v6 == self.v6,
    {
        self.v6
    }

    /// The last four bytes of the address, from the left: the octets of an
    /// address of the IPv4 form.
    pub fn octets(&self) -> (o: [u8; 4])
        ensures
            forall|i: int| 0 <= i < 4 ==> o[i] == octet_of(low(self.ip), i),
    {
        let ip: u32 = (self.ip % 0x1_0000_0000) as u32;
        proof {
            lemma_ip_of_octets(ip);
        }
        [
            (ip / 0x100_0000) as u8,
            (ip / 0x1_0000 % 0x100) as u8,
            (ip / 0x100 % 0x100) as u8,
            (ip % 0x100) as u8,
        ]
    }
}

} // verus!
