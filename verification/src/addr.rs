//! IP addresses and socket addresses as plain octets.

pub mod text;

use vstd::prelude::*;

verus! {

/// An IPv4 address, most significant octet first.
#[derive(Debug, Clone, Copy, PartialEq, Eq, Hash)]
pub struct Ipv4Addr {
    pub octets: [u8; 4],
}

/// An IPv6 address, most significant octet first.
#[derive(Debug, Clone, Copy, PartialEq, Eq, Hash)]
pub struct Ipv6Addr {
    pub octets: [u8; 16],
}

/// An address of either family.
#[derive(Debug, Clone, Copy, PartialEq, Eq, Hash)]
pub enum IpAddr {
    V4(Ipv4Addr),
    V6(Ipv6Addr),
}

/// An address and a port.
#[derive(Debug, Clone, Copy, PartialEq, Eq, Hash)]
pub struct SocketAddr {
    pub ip: IpAddr,
    pub port: u16,
}

/// The four bytes of `s` from index `i` on, as an address.
pub open spec fn v4_at(s: Seq<u8>, i: int) -> Ipv4Addr {
    Ipv4Addr { octets: [s[i], s[i + 1], s[i + 2], s[i + 3]] }
}

/// The sixteen bytes of `s` from index `i` on, as an address.
pub open spec fn v6_at(s: Seq<u8>, i: int) -> Ipv6Addr {
    Ipv6Addr {
        octets: [
            s[i],
            s[i + 1],
            s[i + 2],
            s[i + 3],
            s[i + 4],
            s[i + 5],
            s[i + 6],
            s[i + 7],
            s[i + 8],
            s[i + 9],
            s[i + 10],
            s[i + 11],
            s[i + 12],
            s[i + 13],
            s[i + 14],
            s[i + 15],
        ],
    }
}

/// Two IPv4 addresses with the same octets are the same address.
pub proof fn lemma_v4_ext(a: Ipv4Addr, b: Ipv4Addr)
    requires
        a.octets@ == b.octets@,
    ensures
        a == b,
{
    assert forall|i: int| 0 <= i < 4 implies a.octets[i] == b.octets[i] by {
        assert(a.octets@[i] == b.octets@[i]);
    }
    assert(a.octets =~= b.octets);
}

/// Two IPv6 addresses with the same octets are the same address.
pub proof fn lemma_v6_ext(a: Ipv6Addr, b: Ipv6Addr)
    requires
        a.octets@ == b.octets@,
    ensures
        a == b,
{
    assert forall|i: int| 0 <= i < 16 implies a.octets[i] == b.octets[i] by {
        assert(a.octets@[i] == b.octets@[i]);
    }
    assert(a.octets =~= b.octets);
}

/// The octets of an address read from `s` are the bytes of `s`.
pub proof fn lemma_v6_at(s: Seq<u8>, i: int)
    requires
        0 <= i,
        i + 16 <= s.len(),
    ensures
        v6_at(s, i).octets@ == s.subrange(i, i + 16),
{
    assert(v6_at(s, i).octets@ =~= s.subrange(i, i + 16));
}

/// Read an IPv4 address from the four bytes at `i`.
pub fn get_v4(b: &[u8], i: usize) -> (r: Ipv4Addr)
    requires
        i + 4 <= b@.len(),
    ensures
        r == v4_at(b@, i as int),
{
    assert(b.len() == b@.len());
    Ipv4Addr { octets: [b[i], b[i + 1], b[i + 2], b[i + 3]] }
}

/// Read an IPv6 address from the sixteen bytes at `i`.
pub fn get_v6(b: &[u8], i: usize) -> (r: Ipv6Addr)
    requires
        i + 16 <= b@.len(),
    ensures
        r == v6_at(b@, i as int),
{
    assert(b.len() == b@.len());
    Ipv6Addr {
        octets: [
            b[i],
            b[i + 1],
            b[i + 2],
            b[i + 3],
            b[i + 4],
            b[i + 5],
            b[i + 6],
            b[i + 7],
            b[i + 8],
            b[i + 9],
            b[i + 10],
            b[i + 11],
            b[i + 12],
            b[i + 13],
            b[i + 14],
            b[i + 15],
        ],
    }
}

impl Ipv4Addr {
    /// 127.0.0.0/8.
    pub open spec fn spec_loopback(self) -> bool {
        self.octets[0] == 127
    }

    /// 10.0.0.0/8, 172.16.0.0/12 and 192.168.0.0/16.
    pub open spec fn spec_private(self) -> bool {
        ||| self.octets[0] == 10
        ||| self.octets[0] == 172 && 16 <= self.octets[1] <= 31
        ||| self.octets[0] == 192 && self.octets[1] == 168
    }

    /// 169.254.0.0/16.
    pub open spec fn spec_link_local(self) -> bool {
        self.octets[0] == 169 && self.octets[1] == 254
    }

    /// 224.0.0.0/4.
    pub open spec fn spec_multicast(self) -> bool {
        224 <= self.octets[0] <= 239
    }

    /// 255.255.255.255.
    pub open spec fn spec_broadcast(self) -> bool {
        self.octets@ == seq![255u8, 255, 255, 255]
    }

    /// 0.0.0.0.
    pub open spec fn spec_unspecified(self) -> bool {
        self.octets@ == seq![0u8, 0, 0, 0]
    }

    /// 100.64.0.0/10, the shared address space of carrier-grade NAT.
    pub open spec fn spec_shared(self) -> bool {
        self.octets[0] == 100 && 64 <= self.octets[1] <= 127
    }

    /// Globally routable unicast: not loopback, private, link-local,
    /// multicast, broadcast, unspecified or shared.
    pub open spec fn spec_public(self) -> bool {
        !(self.spec_loopback() || self.spec_private() || self.spec_link_local()
            || self.spec_multicast() || self.spec_broadcast() || self.spec_unspecified()
            || self.spec_shared())
    }

    /// Address `a.b.c.d`.
    #[must_use]
    pub fn new(a: u8, b: u8, c: u8, d: u8) -> (r: Self)
        ensures
            r.octets@ == seq![a, b, c, d],
    {
        let r = Ipv4Addr { octets: [a, b, c, d] };
        assert(r.octets@ =~= seq![a, b, c, d]);
        r
    }

    /// Whether both addresses are the same.
    #[must_use]
    pub fn same(&self, other: &Self) -> (r: bool)
        ensures
            r == (*self == *other),
    {
        let a = self.octets;
        let b = other.octets;
        let r = a[0] == b[0] && a[1] == b[1] && a[2] == b[2] && a[3] == b[3];
        proof {
            if r {
                assert(self.octets@ =~= other.octets@);
                lemma_v4_ext(*self, *other);
            }
        }
        r
    }

    #[must_use]
    pub fn is_loopback(&self) -> (r: bool)
        ensures
            r == self.spec_loopback(),
    {
        self.octets[0] == 127
    }

    #[must_use]
    pub fn is_private(&self) -> (r: bool)
        ensures
            r == self.spec_private(),
    {
        let a = self.octets[0];
        let b = self.octets[1];
        a == 10 || (a == 172 && 16 <= b && b <= 31) || (a == 192 && b == 168)
    }

    #[must_use]
    pub fn is_link_local(&self) -> (r: bool)
        ensures
            r == self.spec_link_local(),
    {
        self.octets[0] == 169 && self.octets[1] == 254
    }

    #[must_use]
    pub fn is_multicast(&self) -> (r: bool)
        ensures
            r == self.spec_multicast(),
    {
        224 <= self.octets[0] && self.octets[0] <= 239
    }

    #[must_use]
    pub fn is_broadcast(&self) -> (r: bool)
        ensures
            r == self.spec_broadcast(),
    {
        let o = self.octets;
        let r = o[0] == 255 && o[1] == 255 && o[2] == 255 && o[3] == 255;
        proof {
            if r {
                assert(self.octets@ =~= seq![255u8, 255, 255, 255]);
            }
        }
        r
    }

    #[must_use]
    pub fn is_unspecified(&self) -> (r: bool)
        ensures
            r == self.spec_unspecified(),
    {
        let o = self.octets;
        let r = o[0] == 0 && o[1] == 0 && o[2] == 0 && o[3] == 0;
        proof {
            if r {
                assert(self.octets@ =~= seq![0u8, 0, 0, 0]);
            }
        }
        r
    }

    /// Whether the address lies in the shared (carrier-grade NAT) space.
    #[must_use]
    pub fn is_shared(&self) -> (r: bool)
        ensures
            r == self.spec_shared(),
    {
        self.octets[0] == 100 && 64 <= self.octets[1] && self.octets[1] <= 127
    }

    /// Whether the address is globally routable unicast.
    #[must_use]
    pub fn is_public(&self) -> (r: bool)
        ensures
            r == self.spec_public(),
    {
        !(self.is_loopback() || self.is_private() || self.is_link_local() || self.is_multicast()
            || self.is_broadcast() || self.is_unspecified() || self.is_shared())
    }
}

impl Ipv6Addr {
    /// `::1`.
    pub open spec fn spec_loopback(self) -> bool {
        forall|i: int| 0 <= i < 16 ==> self.octets@[i] == if i == 15 { 1u8 } else { 0u8 }
    }

    /// `::`.
    pub open spec fn spec_unspecified(self) -> bool {
        forall|i: int| 0 <= i < 16 ==> self.octets@[i] == 0
    }

    /// `ff00::/8`.
    pub open spec fn spec_multicast(self) -> bool {
        self.octets[0] == 255
    }

    /// `fc00::/7`, unique local addresses.
    pub open spec fn spec_unique_local(self) -> bool {
        252 <= self.octets[0] <= 253
    }

    /// `fe80::/10`, link-local unicast addresses.
    pub open spec fn spec_link_local(self) -> bool {
        self.octets[0] == 254 && 128 <= self.octets[1] <= 191
    }

    /// The IPv4 address that an IPv4-mapped address (`::ffff:0:0/96`)
    /// stands for. A host socket connected to a mapped address talks IPv4.
    pub open spec fn spec_mapped(self) -> Option<Ipv4Addr> {
        if (forall|i: int| 0 <= i < 10 ==> self.octets@[i] == 0) && self.octets[10] == 255
            && self.octets[11] == 255 {
            Some(v4_at(self.octets@, 12))
        } else {
            None
        }
    }

    /// Globally routable unicast: for a mapped address, that the IPv4
    /// address inside is; else not loopback, multicast, unspecified, unique
    /// local or link-local.
    pub open spec fn spec_public(self) -> bool {
        match self.spec_mapped() {
            Some(ip) => ip.spec_public(),
            None => !(self.spec_loopback() || self.spec_multicast() || self.spec_unspecified()
                || self.spec_unique_local() || self.spec_link_local()),
        }
    }

    /// Address made of eight 16-bit groups.
    #[must_use]
    pub fn new(a: u16, b: u16, c: u16, d: u16, e: u16, f: u16, g: u16, h: u16) -> (r: Self)
        ensures
            r.octets@ == crate::wire::be16(a) + crate::wire::be16(b) + crate::wire::be16(c)
                + crate::wire::be16(d) + crate::wire::be16(e) + crate::wire::be16(f)
                + crate::wire::be16(g) + crate::wire::be16(h),
    {
        let r = Ipv6Addr {
            octets: [
                (a / 256) as u8,
                (a % 256) as u8,
                (b / 256) as u8,
                (b % 256) as u8,
                (c / 256) as u8,
                (c % 256) as u8,
                (d / 256) as u8,
                (d % 256) as u8,
                (e / 256) as u8,
                (e % 256) as u8,
                (f / 256) as u8,
                (f % 256) as u8,
                (g / 256) as u8,
                (g % 256) as u8,
                (h / 256) as u8,
                (h % 256) as u8,
            ],
        };
        assert(r.octets@ =~= crate::wire::be16(a) + crate::wire::be16(b) + crate::wire::be16(c)
            + crate::wire::be16(d) + crate::wire::be16(e) + crate::wire::be16(f)
            + crate::wire::be16(g) + crate::wire::be16(h));
        r
    }

    /// Whether both addresses are the same.
    #[must_use]
    pub fn same(&self, other: &Self) -> (r: bool)
        ensures
            r == (*self == *other),
    {
        let mut i: usize = 0;
        while i < 16
            invariant
                i <= 16,
                forall|j: int| 0 <= j < i ==> self.octets@[j] == other.octets@[j],
            decreases 16 - i,
        {
            if self.octets[i] != other.octets[i] {
                return false;
            }
            i += 1;
        }
        proof {
            assert(self.octets@ =~= other.octets@);
            lemma_v6_ext(*self, *other);
        }
        true
    }

    /// Whether the first `n` octets are zero.
    fn leading_zeros(&self, n: usize) -> (r: bool)
        requires
            n <= 16,
        ensures
            r == (forall|i: int| 0 <= i < n ==> self.octets@[i] == 0),
    {
        let mut i: usize = 0;
        while i < n
            invariant
                i <= n <= 16,
                forall|j: int| 0 <= j < i ==> self.octets@[j] == 0,
            decreases n - i,
        {
            if self.octets[i] != 0 {
                return false;
            }
            i += 1;
        }
        true
    }

    #[must_use]
    pub fn is_loopback(&self) -> (r: bool)
        ensures
            r == self.spec_loopback(),
    {
        self.leading_zeros(15) && self.octets[15] == 1
    }

    #[must_use]
    pub fn is_unspecified(&self) -> (r: bool)
        ensures
            r == self.spec_unspecified(),
    {
        self.leading_zeros(15) && self.octets[15] == 0
    }

    #[must_use]
    pub fn is_multicast(&self) -> (r: bool)
        ensures
            r == self.spec_multicast(),
    {
        self.octets[0] == 255
    }

    #[must_use]
    pub fn is_unique_local(&self) -> (r: bool)
        ensures
            r == self.spec_unique_local(),
    {
        252 <= self.octets[0] && self.octets[0] <= 253
    }

    #[must_use]
    pub fn is_link_local(&self) -> (r: bool)
        ensures
            r == self.spec_link_local(),
    {
        self.octets[0] == 254 && 128 <= self.octets[1] && self.octets[1] <= 191
    }

    /// The IPv4 address that an IPv4-mapped address stands for.
    #[must_use]
    pub fn mapped(&self) -> (r: Option<Ipv4Addr>)
        ensures
            r == self.spec_mapped(),
    {
        let o = self.octets;
        if self.leading_zeros(10) && o[10] == 255 && o[11] == 255 {
            Some(Ipv4Addr { octets: [o[12], o[13], o[14], o[15]] })
        } else {
            None
        }
    }

    /// Whether the address is globally routable unicast.
    #[must_use]
    pub fn is_public(&self) -> (r: bool)
        ensures
            r == self.spec_public(),
    {
        match self.mapped() {
            Some(ip) => ip.is_public(),
            None => !(self.is_loopback() || self.is_multicast() || self.is_unspecified()
                || self.is_unique_local() || self.is_link_local()),
        }
    }
}

impl IpAddr {
    /// Loopback: `127.0.0.0/8`, `::1`, or an IPv4-mapped address of the
    /// former.
    pub open spec fn spec_loopback(self) -> bool {
        match self {
            IpAddr::V4(ip) => ip.spec_loopback(),
            IpAddr::V6(ip) => ip.spec_loopback() || (ip.spec_mapped() matches Some(m)
                && m.spec_loopback()),
        }
    }

    #[must_use]
    pub fn is_ipv4(&self) -> (r: bool)
        ensures
            r == (self is V4),
    {
        match self {
            IpAddr::V4(_) => true,
            IpAddr::V6(_) => false,
        }
    }

    /// Whether the address is loopback, also in its IPv4-mapped form.
    #[must_use]
    pub fn is_loopback(&self) -> (r: bool)
        ensures
            r == self.spec_loopback(),
    {
        match self {
            IpAddr::V4(ip) => ip.is_loopback(),
            IpAddr::V6(ip) => match ip.mapped() {
                Some(m) => m.is_loopback() || ip.is_loopback(),
                None => ip.is_loopback(),
            },
        }
    }

    /// Whether both are the same address of the same family.
    #[must_use]
    pub fn same(&self, other: &Self) -> (r: bool)
        ensures
            r == (*self == *other),
    {
        match (self, other) {
            (IpAddr::V4(a), IpAddr::V4(b)) => a.same(b),
            (IpAddr::V6(a), IpAddr::V6(b)) => a.same(b),
            _ => false,
        }
    }
}

impl SocketAddr {
    #[must_use]
    pub fn new(ip: IpAddr, port: u16) -> (r: Self)
        ensures
            r == (SocketAddr { ip, port }),
    {
        SocketAddr { ip, port }
    }
}

/// Which IPv4 addresses are public, by their value: all but those of the
/// loopback, private, link-local, shared and multicast ranges, and the
/// first and the last of all.
pub proof fn law_public_v4(ip: Ipv4Addr)
    ensures
        ({
            let v = ip.octets[0] * 0x100_0000 + ip.octets[1] * 0x1_0000 + ip.octets[2] * 0x100
                + ip.octets[3];
            ip.spec_public() <==> !(v == 0 || 0x0a00_0000 <= v <= 0x0aff_ffff || 0x6440_0000 <= v
                <= 0x647f_ffff || 0x7f00_0000 <= v <= 0x7fff_ffff || 0xa9fe_0000 <= v
                <= 0xa9fe_ffff || 0xac10_0000 <= v <= 0xac1f_ffff || 0xc0a8_0000 <= v
                <= 0xc0a8_ffff || 0xe000_0000 <= v <= 0xefff_ffff || v == 0xffff_ffff)
        }),
{
    let o = ip.octets;
    let v = o[0] * 0x100_0000 + o[1] * 0x1_0000 + o[2] * 0x100 + o[3];
    if v == 0 {
        assert(o@ =~= seq![0u8, 0, 0, 0]);
    }
    if v == 0xffff_ffff {
        assert(o@ =~= seq![255u8, 255, 255, 255]);
    }
    if ip.spec_broadcast() {
        assert(o@[0] == 255 && o@[1] == 255 && o@[2] == 255 && o@[3] == 255);
    }
    if ip.spec_unspecified() {
        assert(o@[0] == 0 && o@[1] == 0 && o@[2] == 0 && o@[3] == 0);
    }
}

/// Which IPv6 addresses are public: a mapped one where the IPv4 address in
/// it is; else all but `::`, `::1`, and those whose first group lies in the
/// unique local, link-local and multicast ranges.
pub proof fn law_public_v6(ip: Ipv6Addr)
    ensures
        ({
            let first = ip.octets[0] * 0x100 + ip.octets[1];
            let high = ip.octets@.take(15);
            let zeros = Seq::new(15, |i: int| 0u8);
            let mapped = ip.octets@.take(12) == seq![0u8, 0, 0, 0, 0, 0, 0, 0, 0, 0, 255, 255];
            if mapped {
                ip.spec_public() <==> v4_at(ip.octets@, 12).spec_public()
            } else {
                ip.spec_public() <==> !((high == zeros && ip.octets[15] <= 1) || 0xfc00 <= first
                    <= 0xfdff || 0xfe80 <= first <= 0xfebf || first >= 0xff00)
            }
        }),
{
    let o = ip.octets@;
    let m = seq![0u8, 0, 0, 0, 0, 0, 0, 0, 0, 0, 255, 255];
    let zeros = Seq::new(15, |i: int| 0u8);
    if ip.spec_mapped() is Some {
        assert(o.take(12) =~= m);
    }
    if o.take(12) == m {
        assert forall|i: int| 0 <= i < 10 implies o[i] == 0 by {
            assert(o.take(12)[i] == m[i]);
        }
        assert(o.take(12)[10] == 255 && o.take(12)[11] == 255);
    }
    if o.take(15) == zeros {
        assert forall|i: int| 0 <= i < 15 implies o[i] == 0 by {
            assert(o.take(15)[i] == zeros[i]);
        }
    }
    if ip.spec_loopback() || ip.spec_unspecified() {
        assert(o.take(15) =~= zeros);
    }
}

/// Which addresses are loopback: 127.0.0.0/8, mapped or not, and `::1`.
pub proof fn law_loopback(ip: IpAddr)
    ensures
        ip.spec_loopback() <==> (match ip {
            IpAddr::V4(a) => a.octets[0] == 127,
            IpAddr::V6(a) => {
                ||| a.octets@ == Seq::new(15, |i: int| 0u8) + seq![1u8]
                ||| a.octets@.take(13) == seq![
                    0u8,
                    0,
                    0,
                    0,
                    0,
                    0,
                    0,
                    0,
                    0,
                    0,
                    255,
                    255,
                    127,
                ]
            },
        }),
{
    if let IpAddr::V6(a) = ip {
        let o = a.octets@;
        let one = Seq::new(15, |i: int| 0u8) + seq![1u8];
        let m = seq![0u8, 0, 0, 0, 0, 0, 0, 0, 0, 0, 255, 255, 127];
        if a.spec_loopback() {
            assert(o =~= one);
        }
        if a.spec_mapped() matches Some(x) && x.spec_loopback() {
            assert(o.take(13) =~= m);
        }
        if o == one {
            assert forall|i: int| 0 <= i < 16 implies o[i] == if i == 15 { 1u8 } else { 0u8 } by {}
        }
        if o.take(13) == m {
            assert forall|i: int| 0 <= i < 10 implies o[i] == 0 by {
                assert(o.take(13)[i] == m[i]);
            }
            assert(o.take(13)[10] == 255 && o.take(13)[11] == 255 && o.take(13)[12] == 127);
        }
    }
}

} // verus!
