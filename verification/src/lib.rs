//! presto-pasta: user-mode NAT datapath for sandboxes.
//!
//! Translates L2 frames on a caller-provided tap fd to native host
//! sockets (outbound TCP/UDP, ICMP echo, DNS forwarding). The host
//! kernel runs the real TCP stack; presto-pasta only rewrites headers and
//! moves payload. The caller owns the network namespace and the tap
//! device configuration.
//!
//! This crate holds the datapath's logic, which never performs I/O
//! itself: [`uring::EventLoop`] is a state machine that is fed
//! completions and answers and says what to do next.

pub mod addr;
pub mod buf;
pub mod dns;
pub mod flow;
pub mod frame;
pub mod netdev;
pub mod proto;
pub mod stats;
pub mod tap;
pub mod tcp;
pub mod uring;
pub mod wire;

use vstd::prelude::*;

use addr::{IpAddr, Ipv4Addr, Ipv6Addr, SocketAddr};

verus! {

/// Destination of a new guest flow, presented to the caller's policy
/// before the host socket is created.
#[derive(Debug, Clone, Copy, PartialEq, Eq)]
pub struct FlowDst {
    /// IP protocol number (`IPPROTO_TCP`, `IPPROTO_UDP`, ICMP/ICMPv6).
    pub proto: u8,
    pub ip: IpAddr,
    pub port: u16,
}

impl FlowDst {
    /// Globally routable unicast: not loopback, private, link-local,
    /// unique local, shared, multicast, broadcast or unspecified. An
    /// IPv4-mapped address counts as the IPv4 address it stands for.
    pub open spec fn spec_public(self) -> bool {
        match self.ip {
            IpAddr::V4(ip) => ip.spec_public(),
            IpAddr::V6(ip) => ip.spec_public(),
        }
    }

    /// True for globally routable unicast destinations: loopback,
    /// private (RFC 1918), link-local, ULA, shared (CGNAT), multicast,
    /// broadcast and unspecified addresses are all non-public, also in
    /// their IPv4-mapped form, by which a host socket reaches them. Useful
    /// for an "internet only" policy that keeps the sandbox away from
    /// host-local services, LANs and VPN subnets.
    #[must_use]
    pub fn is_public(&self) -> (r: bool)
        ensures
            r == self.spec_public(),
    {
        match self.ip {
            IpAddr::V4(ip) => ip.is_public(),
            IpAddr::V6(ip) => ip.is_public(),
        }
    }
}

/// Stands for the caller's per-flow policy callback: each new flow is put
/// to the caller, who may refuse it.
#[derive(Debug, Clone, Copy, PartialEq, Eq)]
pub struct FlowFilter {}

/// Addresses presto-pasta uses to synthesize headers and to recognize
/// gateway-addressed traffic (DNS). Must match what the caller
/// configured on the tap interface.
#[derive(Debug, Clone, Copy)]
pub struct Config {
    pub guest4: Ipv4Addr,
    pub gateway4: Ipv4Addr,
    pub guest6: Ipv6Addr,
    pub gateway6: Ipv6Addr,
    /// MAC the caller assigned to the gateway neighbor entry.
    pub gateway_mac: [u8; 6],
    /// Forward DNS queries addressed to the gateway to the host resolver.
    pub dns_forward: bool,
    /// Number of buffers in the pool: one for the tap, one per flow.
    pub buffers: usize,
    /// Put each new guest flow to the caller; a refused flow is not
    /// opened (the guest sees an unreachable host). `None` applies the
    /// default policy: refuse loopback destinations (`127.0.0.0/8`, also
    /// IPv4-mapped, and `::1`), allow everything else. DNS to the gateway address is forwarded by presto-pasta
    /// itself and is filtered on the gateway address, not on the host
    /// resolver's.
    pub allow_flow: Option<FlowFilter>,
    /// NAT64 /96 prefix that carries the guest's IPv4 traffic on
    /// IPv6-only hosts.
    pub nat64_prefix: Option<Ipv6Addr>,
}

/// An IPv4 address embedded in the last 32 bits of a /96 prefix.
pub open spec fn nat64_embed(prefix: Ipv6Addr, ip: Ipv4Addr) -> Ipv6Addr {
    addr::v6_at(prefix.octets@.subrange(0, 12) + ip.octets@, 0)
}

impl Config {
    /// Where a flow to `target` connects to on the host.
    pub open spec fn spec_nat64_target(self, target: SocketAddr) -> SocketAddr {
        match (self.nat64_prefix, target.ip) {
            (Some(prefix), IpAddr::V4(ip)) => if ip.spec_loopback() {
                target
            } else {
                SocketAddr { ip: IpAddr::V6(nat64_embed(prefix, ip)), port: target.port }
            },
            _ => target,
        }
    }

    /// Where a flow to `target` connects to on the host: with a NAT64
    /// prefix an IPv4 target is embedded in it. Loopback targets stay as
    /// they are, so a resolver on the host's loopback is still reached.
    #[must_use]
    pub fn nat64_target(&self, target: SocketAddr) -> (r: SocketAddr)
        ensures
            r == self.spec_nat64_target(target),
    {
        match (self.nat64_prefix, target.ip) {
            (Some(prefix), IpAddr::V4(ip)) => {
                if ip.is_loopback() {
                    return target;
                }
                let p = prefix.octets;
                let o = ip.octets;
                let mapped = Ipv6Addr {
                    octets: [
                        p[0],
                        p[1],
                        p[2],
                        p[3],
                        p[4],
                        p[5],
                        p[6],
                        p[7],
                        p[8],
                        p[9],
                        p[10],
                        p[11],
                        o[0],
                        o[1],
                        o[2],
                        o[3],
                    ],
                };
                assert(mapped == nat64_embed(prefix, ip)) by {
                    addr::lemma_v6_at(prefix.octets@.subrange(0, 12) + ip.octets@, 0);
                    assert(mapped.octets@ =~= nat64_embed(prefix, ip).octets@);
                    addr::lemma_v6_ext(mapped, nat64_embed(prefix, ip));
                }
                SocketAddr { ip: IpAddr::V6(mapped), port: target.port }
            },
            _ => target,
        }
    }
}

impl Default for Config {
    fn default() -> (r: Self)
        ensures
            r.guest4.octets@ == seq![169u8, 254, 1, 2],
            r.gateway4.octets@ == seq![169u8, 254, 1, 1],
            r.guest6.octets@ == seq![
                0u8, 0x64, 0xff, 0x9b, 0, 1, 0x4b, 0x8e, 0x47, 0x2e, 0xa5, 0xc8, 0xa9, 0xfe, 1, 2,
            ],
            r.gateway6.octets@ == seq![
                0u8, 0x64, 0xff, 0x9b, 0, 1, 0x4b, 0x8e, 0x47, 0x2e, 0xa5, 0xc8, 0xa9, 0xfe, 1, 1,
            ],
            r.gateway_mac@ == seq![0x9au8, 0x55, 0x9a, 0x55, 0x9a, 0x55],
            r.dns_forward,
            r.buffers == 64,
            r.allow_flow is None,
            r.nat64_prefix is None,
    {
        let r = Config {
            guest4: Ipv4Addr::new(169, 254, 1, 2),
            gateway4: Ipv4Addr::new(169, 254, 1, 1),
            guest6: Ipv6Addr::new(0x64, 0xff9b, 0x1, 0x4b8e, 0x472e, 0xa5c8, 0xa9fe, 0x0102),
            gateway6: Ipv6Addr::new(0x64, 0xff9b, 0x1, 0x4b8e, 0x472e, 0xa5c8, 0xa9fe, 0x0101),
            gateway_mac: [0x9a, 0x55, 0x9a, 0x55, 0x9a, 0x55],
            dns_forward: true,
            buffers: 64,
            allow_flow: None,
            nat64_prefix: None,
        };
        assert(r.gateway_mac@ =~= seq![0x9au8, 0x55, 0x9a, 0x55, 0x9a, 0x55]);
        assert(r.guest6.octets@ =~= seq![
            0u8, 0x64, 0xff, 0x9b, 0, 1, 0x4b, 0x8e, 0x47, 0x2e, 0xa5, 0xc8, 0xa9, 0xfe, 1, 2,
        ]);
        assert(r.gateway6.octets@ =~= seq![
            0u8, 0x64, 0xff, 0x9b, 0, 1, 0x4b, 0x8e, 0x47, 0x2e, 0xa5, 0xc8, 0xa9, 0xfe, 1, 1,
        ]);
        r
    }
}

/// A public destination is never one that the default policy refuses:
/// neither a loopback address nor an IPv4-mapped one.
pub proof fn law_public_not_loopback(d: FlowDst)
    requires
        d.spec_public(),
    ensures
        !d.ip.spec_loopback(),
        d.ip matches IpAddr::V4(ip) ==> !ip.spec_loopback(),
        d.ip matches IpAddr::V6(ip) ==> !ip.spec_loopback() && (ip.spec_mapped() matches Some(m)
            ==> !m.spec_loopback()),
{
    if let IpAddr::V6(ip) = d.ip {
        if ip.spec_loopback() {
            assert(ip.octets@[10] == 0);
        }
    }
}

/// An IPv4-mapped destination is as public, and as much loopback, as the
/// IPv4 address it stands for.
pub proof fn law_mapped_as_ipv4(d: FlowDst, ip: Ipv6Addr, m: Ipv4Addr)
    requires
        d.ip == IpAddr::V6(ip),
        ip.spec_mapped() == Some(m),
    ensures
        d.spec_public() == (FlowDst { ip: IpAddr::V4(m), ..d }).spec_public(),
        d.ip.spec_loopback() == IpAddr::V4(m).spec_loopback(),
{
    if ip.spec_loopback() {
        assert(ip.octets@[10] == 0);
    }
}

/// With a NAT64 prefix every IPv4 target but loopback leaves as IPv6: the
/// last 32 bits are the target's address, the first 96 the prefix's, and
/// the port stays. Everything else is left alone.
pub proof fn law_nat64_target(c: Config, t: SocketAddr)
    ensures
        ({
            let r = c.spec_nat64_target(t);
            &&& r.port == t.port
            &&& c.nat64_prefix is None || t.ip is V6 ==> r == t
            &&& t.ip.spec_loopback() ==> r == t
            &&& c.nat64_prefix matches Some(p) ==> t.ip matches IpAddr::V4(ip) ==> (
            !ip.spec_loopback() ==> (r.ip matches IpAddr::V6(m) && m.octets@.subrange(0, 12)
                == p.octets@.subrange(0, 12) && m.octets@.subrange(12, 16) == ip.octets@))
        }),
{
    if let (Some(p), IpAddr::V4(ip)) = (c.nat64_prefix, t.ip) {
        let whole = p.octets@.subrange(0, 12) + ip.octets@;
        addr::lemma_v6_at(whole, 0);
        let m = nat64_embed(p, ip);
        assert(m.octets@ =~= whole);
        assert(m.octets@.subrange(0, 12) =~= p.octets@.subrange(0, 12));
        assert(m.octets@.subrange(12, 16) =~= ip.octets@);
    }
}

} // verus!
