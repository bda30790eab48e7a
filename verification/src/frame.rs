//! Frames on the tap: reading what the guest sent and building what it is
//! sent.

use vstd::prelude::*;

use crate::addr::{IpAddr, Ipv4Addr, Ipv6Addr};
use crate::buf;
use crate::flow::{FlowKey, FlowKind};
use crate::proto;
use crate::proto::tcp;
use crate::proto::tcp::TcpHdr;
use crate::proto::{EchoHdr, EthHdr, Ipv4Hdr, Ipv6Hdr, UdpHdr};
use crate::tap;
use crate::tap::VnetHdr;
use crate::tcp as conn;
use crate::wire;
use crate::wire::put;

verus! {

/// Offset of the IP header in a frame read from the tap.
pub const L3_OFF: usize = 24;

/// Length of the longest IPv4 header.
pub const IP_HDR_MAX: usize = 60;

/// An L4 message may start here in a frame read from the tap.
pub open spec fn l4_start_ok(at: usize) -> bool {
    L3_OFF + proto::IPV4_HDR_LEN <= at <= L3_OFF + IP_HDR_MAX
}

/// L4 payload of a guest frame read from the tap.
#[derive(Debug, Clone, Copy)]
pub struct GuestFrame {
    pub src_mac: [u8; 6],
    pub src_ip: IpAddr,
    pub dst_ip: IpAddr,
    pub proto: u8,
    /// Start of the L4 header within the tap buffer.
    pub l4_start: usize,
    /// End of the L4 payload within the tap buffer.
    pub l4_end: usize,
}

/// End of an L4 message of `len` bytes at `start`, cut at the frame's end.
pub open spec fn l4_end(start: int, len: int, frame_len: int) -> usize {
    (if start + len <= frame_len {
        start + len
    } else {
        frame_len
    }) as usize
}

impl GuestFrame {
    /// The guest frame in `s`: vnet and ethernet headers, then an IPv4 or
    /// IPv6 packet whose length field bounds the L4 message.
    #[verifier::opaque]
    pub open spec fn spec_parse(s: Seq<u8>) -> Option<GuestFrame> {
        if s.len() < L3_OFF {
            None
        } else {
            let eth = EthHdr::spec_parse(s.skip(tap::VNET_HDR_LEN as int))->0;
            let l3 = s.skip(L3_OFF as int);
            if eth.ethertype == proto::ETHERTYPE_IPV4 {
                match Ipv4Hdr::spec_parse(l3) {
                    Some(ip) => if ip.total_len < ip.header_len {
                        None
                    } else {
                        Some(
                            GuestFrame {
                                src_mac: eth.src,
                                src_ip: IpAddr::V4(ip.src),
                                dst_ip: IpAddr::V4(ip.dst),
                                proto: ip.proto,
                                l4_start: (L3_OFF + ip.header_len) as usize,
                                l4_end: l4_end(
                                    L3_OFF + ip.header_len,
                                    ip.total_len - ip.header_len,
                                    s.len() as int,
                                ),
                            },
                        )
                    },
                    None => None,
                }
            } else if eth.ethertype == proto::ETHERTYPE_IPV6 {
                match Ipv6Hdr::spec_parse(l3) {
                    Some(ip) => Some(
                        GuestFrame {
                            src_mac: eth.src,
                            src_ip: IpAddr::V6(ip.src),
                            dst_ip: IpAddr::V6(ip.dst),
                            proto: ip.next_header,
                            l4_start: (L3_OFF + proto::IPV6_HDR_LEN) as usize,
                            l4_end: l4_end(
                                L3_OFF + proto::IPV6_HDR_LEN,
                                ip.payload_len as int,
                                s.len() as int,
                            ),
                        },
                    ),
                    None => None,
                }
            } else {
                None
            }
        }
    }

    /// Parse the L2/L3 headers of a frame read from the tap.
    #[must_use]
    pub fn parse(frame: &[u8]) -> (r: Option<Self>)
        requires
            frame@.len() <= buf::BUF_SIZE,
        ensures
            r == Self::spec_parse(frame@),
            r matches Some(g) ==> g.l4_start <= g.l4_end <= frame@.len() && l4_start_ok(g.l4_start),
    {
        reveal(GuestFrame::spec_parse);
        let n: usize = frame.len();
        if n < L3_OFF {
            return None;
        }
        let l3 = vstd::slice::slice_subrange(frame, L3_OFF, n);
        let l2 = vstd::slice::slice_subrange(frame, tap::VNET_HDR_LEN, n);
        assert(l3@ =~= frame@.skip(L3_OFF as int));
        assert(l2@ =~= frame@.skip(tap::VNET_HDR_LEN as int));
        let eth = EthHdr::parse(l2)?;
        if eth.ethertype == proto::ETHERTYPE_IPV4 {
            let ip = Ipv4Hdr::parse(l3)?;
            let total: usize = ip.total_len as usize;
            if total < ip.header_len {
                return None;
            }
            let start: usize = L3_OFF + ip.header_len;
            let len: usize = total - ip.header_len;
            Some(
                GuestFrame {
                    src_mac: eth.src,
                    src_ip: IpAddr::V4(ip.src),
                    dst_ip: IpAddr::V4(ip.dst),
                    proto: ip.proto,
                    l4_start: start,
                    l4_end: if start + len <= n {
                        start + len
                    } else {
                        n
                    },
                },
            )
        } else if eth.ethertype == proto::ETHERTYPE_IPV6 {
            let ip = Ipv6Hdr::parse(l3)?;
            let start: usize = L3_OFF + proto::IPV6_HDR_LEN;
            let len: usize = ip.payload_len as usize;
            Some(
                GuestFrame {
                    src_mac: eth.src,
                    src_ip: IpAddr::V6(ip.src),
                    dst_ip: IpAddr::V6(ip.dst),
                    proto: ip.next_header,
                    l4_start: start,
                    l4_end: if start + len <= n {
                        start + len
                    } else {
                        n
                    },
                },
            )
        } else {
            None
        }
    }
}

/// The L4 message of a guest frame lies within the frame.
pub proof fn lemma_guest_frame(frame: Seq<u8>)
    requires
        frame.len() <= buf::BUF_SIZE,
    ensures
        GuestFrame::spec_parse(frame) matches Some(g) ==> g.l4_start <= g.l4_end <= frame.len()
            && l4_start_ok(g.l4_start),
{
    reveal(GuestFrame::spec_parse);
}

/// Addresses that frames towards the guest are built from.
#[derive(Debug, Clone, Copy)]
pub struct Link {
    pub guest4: Ipv4Addr,
    pub guest6: Ipv6Addr,
    pub guest_mac: [u8; 6],
    pub gateway_mac: [u8; 6],
}

/// Length of the IP header in front of a message from `src`.
pub open spec fn ip_hdr_len(src: IpAddr) -> int {
    match src {
        IpAddr::V4(_) => proto::IPV4_HDR_LEN as int,
        IpAddr::V6(_) => proto::IPV6_HDR_LEN as int,
    }
}

/// Length of all headers in front of a message from `src`.
pub open spec fn frame_hdr_len(src: IpAddr) -> int {
    tap::VNET_HDR_LEN + proto::ETH_LEN + ip_hdr_len(src)
}

impl Link {
    /// IP header of a packet from `src` to the guest.
    pub open spec fn ip_to_guest(self, src: IpAddr, proto: u8, l4_len: u16) -> Seq<u8> {
        match src {
            IpAddr::V4(ip) => proto::ipv4_bytes(ip, self.guest4, proto, l4_len),
            IpAddr::V6(ip) => proto::ipv6_bytes(ip, self.guest6, proto, l4_len),
        }
    }

    /// IP header of a packet from the guest to `dst`.
    pub open spec fn ip_from_guest(self, dst: IpAddr, proto: u8, l4_len: u16) -> Seq<u8> {
        match dst {
            IpAddr::V4(ip) => proto::ipv4_bytes(self.guest4, ip, proto, l4_len),
            IpAddr::V6(ip) => proto::ipv6_bytes(self.guest6, ip, proto, l4_len),
        }
    }

    /// Pseudo-header sum of a message between the guest and `ip`.
    pub open spec fn pseudo(self, ip: IpAddr, proto: u8, l4_len: u16) -> nat {
        match ip {
            IpAddr::V4(ip) => proto::spec_pseudo_v4(ip, self.guest4, proto, l4_len),
            IpAddr::V6(ip) => proto::spec_pseudo_v6(ip, self.guest6, proto, l4_len),
        }
    }

    /// Ethernet header of a frame from the gateway to the guest.
    pub open spec fn eth(self, src: IpAddr) -> EthHdr {
        EthHdr {
            dst: self.guest_mac,
            src: self.gateway_mac,
            ethertype: match src {
                IpAddr::V4(_) => proto::ETHERTYPE_IPV4,
                IpAddr::V6(_) => proto::ETHERTYPE_IPV6,
            },
        }
    }

    /// All headers in front of an L4 message of `l4_len` bytes from `src`.
    #[verifier::opaque]
    pub open spec fn frame_hdr(
        self,
        src: IpAddr,
        proto: u8,
        l4_len: u16,
        vnet: VnetHdr,
    ) -> Seq<u8> {
        vnet.bytes() + self.eth(src).bytes() + self.ip_to_guest(src, proto, l4_len)
    }

    /// The frame that carries the L4 message `l4` from `src` to the guest.
    pub open spec fn frame(self, src: IpAddr, proto: u8, l4: Seq<u8>, vnet: VnetHdr) -> Seq<u8> {
        self.frame_hdr(src, proto, proto::len16(l4.len()), vnet) + l4
    }

    /// Pseudo-header sum of a message between the guest and `ip`.
    fn sum(&self, ip: IpAddr, proto: u8, l4_len: u16) -> (r: u32)
        ensures
            r == self.pseudo(ip, proto, l4_len),
            r <= 18 * 65535,
    {
        match ip {
            IpAddr::V4(ip) => proto::pseudo_v4(ip, self.guest4, proto, l4_len),
            IpAddr::V6(ip) => proto::pseudo_v6(ip, self.guest6, proto, l4_len),
        }
    }

    /// Write the headers of a frame from `src` to the guest in front of
    /// `l4_start`. Returns the frame's start.
    fn write_hdr(
        &self,
        b: &mut [u8],
        src: IpAddr,
        proto: u8,
        l4_start: usize,
        l4_len: u16,
        vnet: &VnetHdr,
    ) -> (start: usize)
        requires
            frame_hdr_len(src) <= l4_start <= old(b)@.len(),
        ensures
            start == l4_start - frame_hdr_len(src),
            self.frame_hdr(src, proto, l4_len, *vnet).len() == frame_hdr_len(src),
            final(b)@ == wire::splice(
                old(b)@,
                start as int,
                self.frame_hdr(src, proto, l4_len, *vnet),
            ),
    {
        reveal(Link::frame_hdr);
        let ghost s = b@;
        assert(b.len() == b@.len());
        let ip_len: usize = match src {
            IpAddr::V4(_) => proto::IPV4_HDR_LEN,
            IpAddr::V6(_) => proto::IPV6_HDR_LEN,
        };
        let ip_start: usize = l4_start - ip_len;
        let eth_start: usize = ip_start - proto::ETH_LEN;
        let start: usize = eth_start - tap::VNET_HDR_LEN;
        let (_front, rest) = b.split_at_mut(ip_start);
        let ethertype: u16 = match src {
            IpAddr::V4(ip) => {
                Ipv4Hdr::write(rest, ip, self.guest4, proto, l4_len);
                proto::ETHERTYPE_IPV4
            },
            IpAddr::V6(ip) => {
                Ipv6Hdr::write(rest, ip, self.guest6, proto, l4_len);
                proto::ETHERTYPE_IPV6
            },
        };
        let ghost ip = self.ip_to_guest(src, proto, l4_len);
        let eth = EthHdr { dst: self.guest_mac, src: self.gateway_mac, ethertype };
        assert(b@ =~= wire::splice(s, ip_start as int, ip));
        let (_front, rest) = b.split_at_mut(eth_start);
        eth.write(rest);
        assert(b@ =~= wire::splice(s, eth_start as int, self.eth(src).bytes() + ip));
        put(b, start, vnet.to_bytes().as_slice());
        assert(b@ =~= wire::splice(s, start as int, self.frame_hdr(src, proto, l4_len, *vnet)));
        start
    }

    /// Wrap the L4 message at `l4_start..end` of `b` in IP, ethernet and
    /// vnet headers (source `src`, destination the guest). Returns the
    /// frame's start.
    pub fn frame_to_guest(
        &self,
        b: &mut [u8],
        src: IpAddr,
        proto: u8,
        l4_start: usize,
        end: usize,
        vnet: &VnetHdr,
    ) -> (start: usize)
        requires
            frame_hdr_len(src) <= l4_start <= end <= old(b)@.len(),
        ensures
            start == l4_start - frame_hdr_len(src),
            final(b)@ == wire::splice(
                old(b)@,
                start as int,
                self.frame(src, proto, old(b)@.subrange(l4_start as int, end as int), *vnet),
            ),
            self.frame(src, proto, old(b)@.subrange(l4_start as int, end as int), *vnet).len()
                == end - start,
    {
        let n: usize = end - l4_start;
        let l4_len: u16 = if n > 65535 {
            65535
        } else {
            n as u16
        };
        let start: usize = self.write_hdr(b, src, proto, l4_start, l4_len, vnet);
        assert(b@ =~= wire::splice(
            old(b)@,
            start as int,
            self.frame(src, proto, old(b)@.subrange(l4_start as int, end as int), *vnet),
        ));
        start
    }
}

/// The vnet header of a UDP super-frame resegmented at `gso`, or of a
/// plain frame.
pub open spec fn udp_vnet(src: IpAddr, gso: Option<u16>) -> VnetHdr {
    match gso {
        Some(g) => VnetHdr {
            flags: tap::VIRTIO_NET_HDR_F_NEEDS_CSUM,
            gso_type: tap::VIRTIO_NET_HDR_GSO_UDP_L4,
            hdr_len: (proto::ETH_LEN + ip_hdr_len(src) + proto::UDP_HDR_LEN) as u16,
            gso_size: g,
            csum_start: (proto::ETH_LEN + ip_hdr_len(src)) as u16,
            csum_offset: 6,
        },
        None => VnetHdr::zero(),
    }
}

impl Link {
    /// The frame that answers the guest with a UDP payload from the host
    /// socket, as if it came from where the guest sent to.
    pub open spec fn udp_frame(self, key: FlowKey, payload: Seq<u8>, gso: Option<u16>) -> Seq<u8> {
        let l4_len = proto::len16(proto::UDP_HDR_LEN as nat + payload.len());
        self.frame(
            key.dst.ip,
            proto::IPPROTO_UDP,
            proto::udp_bytes(
                key.dst.port,
                key.guest_port,
                payload,
                self.pseudo(key.dst.ip, proto::IPPROTO_UDP, l4_len),
                gso is Some,
            ),
            udp_vnet(key.dst.ip, gso),
        )
    }

    /// The frame that answers the guest with an echo reply from the ping
    /// socket: the guest's identifier is put back and, under NAT64, the
    /// ICMPv6 reply becomes an ICMP one. Nothing else gets through.
    pub open spec fn ping_frame(self, key: FlowKey, nat64: bool, msg: Seq<u8>) -> Option<Seq<u8>> {
        let translate = nat64 && key.dst.ip is V4;
        if msg.len() < proto::ICMP_HDR_LEN || (translate && msg[0] != proto::ICMPV6_ECHO_REPLY) {
            None
        } else {
            let typed = if translate {
                msg.update(0, proto::ICMP_ECHO_REPLY)
            } else {
                msg
            };
            // ICMPv4 checksums have no pseudo-header.
            let pseudo = match key.dst.ip {
                IpAddr::V4(_) => 0,
                IpAddr::V6(_) => self.pseudo(key.dst.ip, key.proto, proto::len16(msg.len())),
            };
            Some(
                self.frame(
                    key.dst.ip,
                    key.proto,
                    EchoHdr::patched(typed, key.guest_port, pseudo),
                    VnetHdr::zero(),
                ),
            )
        }
    }

    /// The frame for a payload received on a UDP or ping flow's socket, if
    /// one is due. TCP replies are framed by the TCP handlers.
    pub open spec fn reply_frame(
        self,
        key: FlowKey,
        kind: FlowKind,
        nat64: bool,
        payload: Seq<u8>,
        gso: Option<u16>,
    ) -> Option<Seq<u8>> {
        match kind {
            FlowKind::Udp => Some(self.udp_frame(key, payload, gso)),
            FlowKind::Ping => self.ping_frame(key, nat64, payload),
            FlowKind::Tcp => None,
        }
    }

    /// Build the frame for the `len` payload bytes of a UDP flow that sit
    /// at the headroom offset of `b`. Returns the frame's start.
    fn write_udp(&self, b: &mut [u8], key: &FlowKey, len: usize, gso: Option<u16>) -> (r: usize)
        requires
            old(b)@.len() == buf::BUF_SIZE,
            len <= buf::FRAME,
        ensures
            final(b)@.len() == buf::BUF_SIZE,
            ({
                let end = buf::HEADROOM + len;
                let f = self.udp_frame(*key, old(b)@.subrange(buf::HEADROOM as int, end), gso);
                &&& r == end - f.len()
                &&& r <= buf::HEADROOM
                &&& final(b)@ == wire::splice(old(b)@, r as int, f)
            }),
    {
        let ghost s = b@;
        assert(b.len() == b@.len());
        let end: usize = buf::HEADROOM + len;
        let ghost payload = s.subrange(buf::HEADROOM as int, end as int);
        let src = key.dst.ip;
        let l4_start: usize = buf::HEADROOM - proto::UDP_HDR_LEN;
        let n: usize = end - l4_start;
        let l4_len: u16 = if n > 65535 {
            65535
        } else {
            n as u16
        };
        let pseudo: u32 = self.sum(src, proto::IPPROTO_UDP, l4_len);
        let ghost udp = proto::udp_bytes(
            key.dst.port,
            key.guest_port,
            payload,
            pseudo as nat,
            gso is Some,
        );
        let (_front, rest) = b.split_at_mut(l4_start);
        let (msg, _tail) = rest.split_at_mut(n);
        assert(msg@.skip(proto::UDP_HDR_LEN as int) =~= payload);
        UdpHdr::write(msg, key.dst.port, key.guest_port, pseudo, gso.is_some());
        proof {
            wire::lemma_splice_parts(s, l4_start as int, udp);
            wire::lemma_splice(s, l4_start as int, udp);
        }
        let ip_len: u16 = match src {
            IpAddr::V4(_) => 20,
            IpAddr::V6(_) => 40,
        };
        let vnet = match gso {
            Some(g) => VnetHdr {
                flags: tap::VIRTIO_NET_HDR_F_NEEDS_CSUM,
                gso_type: tap::VIRTIO_NET_HDR_GSO_UDP_L4,
                hdr_len: 22 + ip_len,
                gso_size: g,
                csum_start: 14 + ip_len,
                csum_offset: 6,  // UDP checksum field offset
            },
            None => VnetHdr::default(),
        };
        let start: usize = self.frame_to_guest(b, src, proto::IPPROTO_UDP, l4_start, end, &vnet);
        proof {
            wire::lemma_splice_over(
                s,
                l4_start as int,
                udp,
                start as int,
                self.udp_frame(*key, payload, gso),
            );
        }
        start
    }

    /// Build the frame for the `len` bytes received on a ping flow that
    /// sit at the headroom offset of `b`. Returns the frame's start.
    fn write_ping(&self, b: &mut [u8], key: &FlowKey, nat64: bool, len: usize) -> (r: Option<
        usize,
    >)
        requires
            old(b)@.len() == buf::BUF_SIZE,
            len <= buf::FRAME,
        ensures
            final(b)@.len() == buf::BUF_SIZE,
            ({
                let end = buf::HEADROOM + len;
                match self.ping_frame(*key, nat64, old(b)@.subrange(buf::HEADROOM as int, end)) {
                    Some(f) => {
                        &&& r == Some((end - f.len()) as usize)
                        &&& 0 <= end - f.len() <= buf::HEADROOM
                        &&& final(b)@ == wire::splice(old(b)@, end - f.len(), f)
                    },
                    None => r is None && final(b)@ == old(b)@,
                }
            }),
    {
        let ghost s = b@;
        assert(b.len() == b@.len());
        let end: usize = buf::HEADROOM + len;
        let ghost payload = s.subrange(buf::HEADROOM as int, end as int);
        let src = key.dst.ip;
        let l4_start: usize = buf::HEADROOM;
        let l4_len: u16 = if len > 65535 {
            65535
        } else {
            len as u16
        };
        if len < proto::ICMP_HDR_LEN {
            return None;
        }
        let translate = match src {
            IpAddr::V4(_) => nat64,
            IpAddr::V6(_) => false,
        };
        // Under NAT64 the ping socket delivers an ICMPv6 echo
        // reply; turn it back into ICMPv4 for the guest.
        if translate && b[l4_start] != proto::ICMPV6_ECHO_REPLY {
            return None;
        }
        // ICMPv4 checksums have no pseudo-header.
        let pseudo: u32 = match src {
            IpAddr::V4(_) => 0,
            IpAddr::V6(_) => self.sum(src, key.proto, l4_len),
        };
        let ghost typed = if translate {
            payload.update(0, proto::ICMP_ECHO_REPLY)
        } else {
            payload
        };
        let ghost echo = EchoHdr::patched(typed, key.guest_port, pseudo as nat);
        let (_front, rest) = b.split_at_mut(l4_start);
        let (msg, _tail) = rest.split_at_mut(len);
        assert(msg@ =~= payload);
        if translate {
            msg[0] = proto::ICMP_ECHO_REPLY;
        }
        EchoHdr::patch_id(msg, key.guest_port, pseudo);
        proof {
            wire::lemma_splice_parts(s, l4_start as int, echo);
            wire::lemma_splice(s, l4_start as int, echo);
        }
        let vnet = VnetHdr::default();
        let start: usize = self.frame_to_guest(b, src, key.proto, l4_start, end, &vnet);
        proof {
            wire::lemma_splice_over(
                s,
                l4_start as int,
                echo,
                start as int,
                self.ping_frame(*key, nat64, payload)->0,
            );
        }
        Some(start)
    }

    /// Build the frame for `len` payload bytes sitting at the headroom
    /// offset of `b`, headers in front of them. `gso` marks a UDP
    /// super-frame the guest resegments. Returns the frame's start.
    pub fn write_reply(
        &self,
        b: &mut [u8],
        key: &FlowKey,
        kind: FlowKind,
        nat64: bool,
        len: usize,
        gso: Option<u16>,
    ) -> (r: Option<usize>)
        requires
            old(b)@.len() == buf::BUF_SIZE,
            len <= buf::FRAME,
        ensures
            final(b)@.len() == buf::BUF_SIZE,
            ({
                let end = buf::HEADROOM + len;
                let payload = old(b)@.subrange(buf::HEADROOM as int, end);
                match self.reply_frame(*key, kind, nat64, payload, gso) {
                    Some(f) => {
                        &&& r == Some((end - f.len()) as usize)
                        &&& 0 <= end - f.len() <= buf::HEADROOM
                        &&& final(b)@ == wire::splice(old(b)@, end - f.len(), f)
                    },
                    None => r is None && final(b)@ == old(b)@,
                }
            }),
    {
        match kind {
            FlowKind::Udp => Some(self.write_udp(b, key, len, gso)),
            FlowKind::Ping => self.write_ping(b, key, nat64, len),
            FlowKind::Tcp => None,
        }
    }
}

/// Codes of the destination unreachable messages, ICMP and ICMPv6, that a
/// host socket error translates to (RFC 792, RFC 4443).
pub open spec fn spec_unreachable_codes(errno: i32) -> Option<(u8, u8)> {
    if errno == ECONNREFUSED {
        Some((3, 4))
    } else if errno == EHOSTUNREACH {
        Some((1, 3))
    } else if errno == ENETUNREACH {
        Some((0, 0))
    } else {
        None
    }
}

/// Connection refused (Linux `errno`).
pub const ECONNREFUSED: i32 = 111;

/// No route to host (Linux `errno`).
pub const EHOSTUNREACH: i32 = 113;

/// Network unreachable (Linux `errno`).
pub const ENETUNREACH: i32 = 101;

/// Codes of the destination unreachable messages, ICMP and ICMPv6, that a
/// host socket error translates to.
pub fn unreachable_codes(errno: i32) -> (r: Option<(u8, u8)>)
    ensures
        r == spec_unreachable_codes(errno),
{
    if errno == ECONNREFUSED {
        Some((3, 4))  // port unreachable
    } else if errno == EHOSTUNREACH {
        Some((1, 3))  // host / address unreachable
    } else if errno == ENETUNREACH {
        Some((0, 0))  // net unreachable / no route
    } else {
        None
    }
}

impl Link {
    /// IP and UDP header of a datagram of the guest's on a flow, as far as
    /// the flow's key tells.
    pub open spec fn offending(self, key: FlowKey) -> Seq<u8> {
        self.ip_from_guest(key.dst.ip, proto::IPPROTO_UDP, 8) + proto::udp_bytes(
            key.guest_port,
            key.dst.port,
            Seq::empty(),
            self.pseudo(key.dst.ip, proto::IPPROTO_UDP, 8),
            false,
        )
    }

    /// The destination unreachable message from `ip` about a packet of the
    /// guest's that starts with `packet`, with the codes for ICMP and
    /// ICMPv6.
    pub open spec fn unreachable(self, ip: IpAddr, packet: Seq<u8>, codes: (u8, u8)) -> Seq<u8> {
        let body = Seq::new(8, |i: int| 0u8) + packet;
        match ip {
            IpAddr::V4(_) => proto::unreachable_bytes(body, proto::ICMP_DEST_UNREACH, codes.0, 0),
            IpAddr::V6(_) => proto::unreachable_bytes(
                body,
                proto::ICMPV6_DEST_UNREACH,
                codes.1,
                self.pseudo(ip, proto::IPPROTO_ICMPV6, proto::len16(body.len())),
            ),
        }
    }

    /// The frame that tells the guest that the destination `ip` of a packet
    /// that starts with `packet` is unreachable.
    pub open spec fn unreachable_frame(
        self,
        ip: IpAddr,
        packet: Seq<u8>,
        codes: (u8, u8),
    ) -> Seq<u8> {
        self.frame(
            ip,
            match ip {
                IpAddr::V4(_) => proto::IPPROTO_ICMP,
                IpAddr::V6(_) => proto::IPPROTO_ICMPV6,
            },
            self.unreachable(ip, packet, codes),
            VnetHdr::zero(),
        )
    }

    /// Write the reconstructed IP and UDP header of the guest's datagram
    /// to the front of `b`. Returns their length.
    fn write_offending(&self, b: &mut [u8], key: &FlowKey) -> (n: usize)
        requires
            old(b)@.len() >= 48,
        ensures
            n == self.offending(*key).len(),
            n == ip_hdr_len(key.dst.ip) + 8,
            final(b)@ == wire::splice(old(b)@, 0, self.offending(*key)),
    {
        let ghost s = b@;
        let pseudo: u32 = match key.dst.ip {
            IpAddr::V4(dst) => proto::pseudo_v4(self.guest4, dst, proto::IPPROTO_UDP, 8),
            IpAddr::V6(dst) => proto::pseudo_v6(self.guest6, dst, proto::IPPROTO_UDP, 8),
        };
        let ip_len: usize = match key.dst.ip {
            IpAddr::V4(dst) => {
                Ipv4Hdr::write(b, self.guest4, dst, proto::IPPROTO_UDP, 8);
                proto::IPV4_HDR_LEN
            },
            IpAddr::V6(dst) => {
                Ipv6Hdr::write(b, self.guest6, dst, proto::IPPROTO_UDP, 8);
                proto::IPV6_HDR_LEN
            },
        };
        let ghost ip = self.ip_from_guest(key.dst.ip, proto::IPPROTO_UDP, 8);
        assert(ip.len() == ip_len);
        let ghost t = b@;
        let (_front, rest) = b.split_at_mut(ip_len);
        let (msg, _tail) = rest.split_at_mut(8);
        assert(msg@.skip(8) =~= Seq::<u8>::empty());
        UdpHdr::write(msg, key.guest_port, key.dst.port, pseudo, false);
        let ghost udp = proto::udp_bytes(
            key.guest_port,
            key.dst.port,
            Seq::empty(),
            pseudo as nat,
            false,
        );
        assert(udp.len() == 8);
        proof {
            wire::lemma_splice_parts(t, ip_len as int, udp);
        }
        assert(b@ =~= wire::splice(s, 0, self.offending(*key)));
        ip_len + 8
    }

    /// Build the destination unreachable frame around the first `n` bytes
    /// of a packet that sit behind the message's header in `b`. Returns the
    /// frame's start and end.
    fn wrap_unreachable(&self, b: &mut [u8], ip: IpAddr, n: usize, codes: (u8, u8)) -> (r: (
        usize,
        usize,
    ))
        requires
            old(b)@.len() == buf::BUF_SIZE,
            n <= IP_HDR_MAX + 8,
        ensures
            final(b)@.len() == buf::BUF_SIZE,
            ({
                let at = buf::HEADROOM + proto::ICMP_HDR_LEN;
                let f = self.unreachable_frame(ip, old(b)@.subrange(at as int, at + n), codes);
                &&& r.0 <= buf::HEADROOM <= r.1 <= buf::BUF_SIZE
                &&& r.1 - r.0 == f.len()
                &&& r.0 == buf::HEADROOM - frame_hdr_len(ip)
                &&& r.1 == at + n
                &&& final(b)@ == wire::splice(old(b)@, r.0 as int, f)
            }),
    {
        let ghost s = b@;
        assert(b.len() == b@.len());
        let l4_start: usize = buf::HEADROOM;
        let end: usize = l4_start + proto::ICMP_HDR_LEN + n;
        let len: usize = end - l4_start;
        let ghost packet = s.subrange(l4_start + 8, end as int);
        let (msg_type, code, ip_proto): (u8, u8, u8) = match ip {
            IpAddr::V4(_) => (proto::ICMP_DEST_UNREACH, codes.0, proto::IPPROTO_ICMP),
            IpAddr::V6(_) => (proto::ICMPV6_DEST_UNREACH, codes.1, proto::IPPROTO_ICMPV6),
        };
        // ICMPv4 checksums have no pseudo-header.
        let pseudo: u32 = match ip {
            IpAddr::V4(_) => 0,
            IpAddr::V6(_) => self.sum(ip, ip_proto, len as u16),
        };
        let (_front, rest) = b.split_at_mut(l4_start);
        let (msg, _tail) = rest.split_at_mut(len);
        let ghost body = msg@;
        proto::write_unreachable(msg, msg_type, code, pseudo);
        let ghost m = self.unreachable(ip, packet, codes);
        proof {
            let zeros = Seq::new(8, |i: int| 0u8) + packet;
            let head = seq![msg_type, code, 0u8, 0u8, 0u8, 0u8, 0u8, 0u8];
            assert(wire::splice(body, 0, head) =~= wire::splice(zeros, 0, head));
            assert(m == proto::unreachable_bytes(body, msg_type, code, pseudo as nat));
            assert(m.len() == len);
            wire::lemma_splice_parts(s, l4_start as int, m);
            wire::lemma_splice(s, l4_start as int, m);
        }
        let vnet = VnetHdr::default();
        let start: usize = self.frame_to_guest(b, ip, ip_proto, l4_start, end, &vnet);
        proof {
            wire::lemma_splice_over(
                s,
                l4_start as int,
                m,
                start as int,
                self.unreachable_frame(ip, packet, codes),
            );
        }
        (start, end)
    }

    /// Build a destination unreachable frame for a flow in `b`. The
    /// embedded offending packet is reconstructed from the flow's key (the
    /// original datagram is gone by the time the error surfaces), which is
    /// enough for the guest kernel to match it to the socket. Returns the
    /// frame's start and end.
    pub fn write_unreachable(&self, b: &mut [u8], key: &FlowKey, codes: (u8, u8)) -> (r: (
        usize,
        usize,
    ))
        requires
            old(b)@.len() == buf::BUF_SIZE,
        ensures
            final(b)@.len() == buf::BUF_SIZE,
            ({
                let f = self.unreachable_frame(key.dst.ip, self.offending(*key), codes);
                &&& r.0 <= buf::HEADROOM <= r.1 <= buf::BUF_SIZE
                &&& r.1 - r.0 == f.len()
                &&& r.0 == buf::HEADROOM - frame_hdr_len(key.dst.ip)
                &&& final(b)@ == wire::splice(old(b)@, r.0 as int, f)
            }),
    {
        let ghost s = b@;
        assert(b.len() == b@.len());
        let at: usize = buf::HEADROOM + proto::ICMP_HDR_LEN;
        let (_front, rest) = b.split_at_mut(at);
        let n: usize = self.write_offending(rest, key);
        let ghost off = self.offending(*key);
        assert(b@ =~= wire::splice(s, at as int, off));
        assert(b@.subrange(at as int, at + n) =~= off);
        let (start, end): (usize, usize) = self.wrap_unreachable(b, key.dst.ip, n, codes);
        proof {
            let f = self.unreachable_frame(key.dst.ip, off, codes);
            wire::lemma_splice_over(s, at as int, off, start as int, f);
        }
        (start, end)
    }

    /// Tell the guest that the destination `ip` of the packet in the tap
    /// buffer `b`, whose L4 message starts at `l4`, is unreachable: build
    /// the frame in the buffer, behind the packet's headers. `first` is the
    /// message's first byte where the buffer does not hold it any more.
    /// Returns the frame's start and end.
    pub fn write_refusal(
        &self,
        b: &mut [u8],
        ip: IpAddr,
        l4: usize,
        first: Option<u8>,
        codes: (u8, u8),
    ) -> (r: (usize, usize))
        requires
            old(b)@.len() == buf::BUF_SIZE,
            l4_start_ok(l4),
        ensures
            final(b)@.len() == buf::BUF_SIZE,
            ({
                let f = self.unreachable_frame(ip, packet_start(old(b)@, l4 as int, first), codes);
                &&& r.0 <= buf::HEADROOM <= r.1 <= buf::BUF_SIZE
                &&& r.1 - r.0 == f.len()
                &&& r.0 == buf::HEADROOM - frame_hdr_len(ip)
                &&& final(b)@ == wire::splice(old(b)@, r.0 as int, f)
            }),
    {
        let ghost s = b@;
        assert(b.len() == b@.len());
        let ghost packet = packet_start(s, l4 as int, first);
        let at: usize = buf::HEADROOM + proto::ICMP_HDR_LEN;
        let n: usize = l4 + 8 - L3_OFF;
        wire::copy_within(b, L3_OFF, n, at);
        if let Some(x) = first {
            b[at + (l4 - L3_OFF)] = x;
        }
        assert(b@ =~= wire::splice(s, at as int, packet));
        assert(b@.subrange(at as int, at + n) =~= packet);
        let (start, end): (usize, usize) = self.wrap_unreachable(b, ip, n, codes);
        proof {
            let f = self.unreachable_frame(ip, packet, codes);
            wire::lemma_splice_over(s, at as int, packet, start as int, f);
        }
        (start, end)
    }
}

/// Start of the guest packet in a tap buffer: its IP header and the first
/// eight bytes of its L4 message at `l4`, the very first replaced by
/// `first`.
pub open spec fn packet_start(b: Seq<u8>, l4: int, first: Option<u8>) -> Seq<u8> {
    let p = b.subrange(L3_OFF as int, l4 + 8);
    match first {
        Some(x) => p.update(l4 - L3_OFF, x),
        None => p,
    }
}

/// Options of a segment towards the guest.
#[derive(Debug, Clone, Copy, PartialEq, Eq, Structural)]
pub enum TcpOptions {
    Empty,
    /// Our MSS, as in a SYN-ACK to a guest that offered no scaling.
    Mss,
    /// Our MSS and window scale.
    MssAndScale,
}

impl TcpOptions {
    /// The options on the wire, padded to whole words.
    pub open spec fn bytes(self) -> Seq<u8> {
        match self {
            TcpOptions::Empty => Seq::empty(),
            TcpOptions::Mss => seq![2u8, 4u8] + wire::be16(conn::TCP_MSS),
            TcpOptions::MssAndScale => seq![2u8, 4u8] + wire::be16(conn::TCP_MSS) + seq![
                1u8,
                3u8,
                3u8,
                conn::WINDOW_SHIFT,
            ],
        }
    }

    /// The options on the wire, padded to whole words.
    pub fn to_bytes(self) -> (r: Vec<u8>)
        ensures
            r@ == self.bytes(),
            r@.len() <= 8,
            r@.len() % 4 == 0,
    {
        let mut r: Vec<u8> = Vec::new();
        match self {
            TcpOptions::Empty => {},
            TcpOptions::Mss => {
                r.push(2);
                r.push(4);
                r.push((conn::TCP_MSS / 256) as u8);
                r.push((conn::TCP_MSS % 256) as u8);
            },
            TcpOptions::MssAndScale => {
                r.push(2);
                r.push(4);
                r.push((conn::TCP_MSS / 256) as u8);
                r.push((conn::TCP_MSS % 256) as u8);
                r.push(1);
                r.push(3);
                r.push(3);
                r.push(conn::WINDOW_SHIFT);
            },
        }
        assert(r@ =~= self.bytes());
        r
    }
}

/// One TCP segment towards the guest, without its payload.
#[derive(Debug, Clone, Copy)]
pub struct TcpSegment {
    pub seq: u32,
    pub ack: u32,
    pub flags: u8,
    pub window: u16,
    pub options: TcpOptions,
    /// The guest resegments the frame at this size.
    pub gso_size: Option<u16>,
}

impl Link {
    /// The vnet header of a TCP frame.
    pub open spec fn tcp_vnet(src: IpAddr, seg: TcpSegment, csum: bool) -> VnetHdr {
        let l4 = proto::ETH_LEN + ip_hdr_len(src);
        VnetHdr {
            flags: if csum {
                tap::VIRTIO_NET_HDR_F_NEEDS_CSUM
            } else {
                0
            },
            gso_type: if seg.gso_size is None {
                0
            } else {
                match src {
                    IpAddr::V4(_) => tap::VIRTIO_NET_HDR_GSO_TCPV4,
                    IpAddr::V6(_) => tap::VIRTIO_NET_HDR_GSO_TCPV6,
                }
            },
            hdr_len: (l4 + proto::TCP_HDR_LEN + seg.options.bytes().len()) as u16,
            gso_size: match seg.gso_size {
                Some(g) => g,
                None => 0,
            },
            csum_start: l4 as u16,
            csum_offset: 16,
        }
    }

    /// The TCP header of a segment with its payload's checksum, unless the
    /// device completes it.
    #[verifier::opaque]
    pub open spec fn tcp_hdr(self, key: FlowKey, seg: TcpSegment, csum: bool, payload: Seq<u8>) -> Seq<
        u8,
    > {
        let l4_len = Link::segment_l4_len(seg, payload.len());
        tcp::tcp_bytes(
            key.dst.port,
            key.guest_port,
            seg.seq,
            seg.ack,
            seg.flags,
            seg.window,
            seg.options.bytes(),
            self.pseudo(key.dst.ip, proto::IPPROTO_TCP, l4_len) + (if csum {
                0nat
            } else {
                proto::fold(proto::word_sum(payload)) as nat
            }),
            csum,
        )
    }

    /// All headers of the frame that carries a segment with `payload`.
    pub open spec fn segment_hdr(
        self,
        key: FlowKey,
        seg: TcpSegment,
        csum: bool,
        payload: Seq<u8>,
    ) -> Seq<u8> {
        let l4_len = Link::segment_l4_len(seg, payload.len());
        self.frame_hdr(
            key.dst.ip,
            proto::IPPROTO_TCP,
            l4_len,
            Link::tcp_vnet(key.dst.ip, seg, csum),
        ) + self.tcp_hdr(key, seg, csum, payload)
    }

    /// Length field of a segment's IP packet payload, saturating.
    pub open spec fn segment_l4_len(seg: TcpSegment, payload_len: nat) -> u16 {
        proto::len16(proto::TCP_HDR_LEN as nat + seg.options.bytes().len() + payload_len)
    }

    /// The vnet header of a TCP frame whose options take `opt_len` bytes.
    fn build_tcp_vnet(src: IpAddr, seg: &TcpSegment, csum: bool, opt_len: usize) -> (r: VnetHdr)
        requires
            opt_len == seg.options.bytes().len(),
            opt_len <= 8,
        ensures
            r == Link::tcp_vnet(src, *seg, csum),
    {
        let (ip_len, gso_type): (u16, u8) = match src {
            IpAddr::V4(_) => (20, tap::VIRTIO_NET_HDR_GSO_TCPV4),
            IpAddr::V6(_) => (40, tap::VIRTIO_NET_HDR_GSO_TCPV6),
        };
        VnetHdr {
            flags: if csum {
                tap::VIRTIO_NET_HDR_F_NEEDS_CSUM
            } else {
                0
            },
            gso_type: if seg.gso_size.is_some() {
                gso_type
            } else {
                0
            },
            hdr_len: 34 + ip_len + opt_len as u16,
            gso_size: match seg.gso_size {
                Some(g) => g,
                None => 0,
            },
            csum_start: 14 + ip_len,
            csum_offset: 16,  // TCP checksum field offset
        }
    }

    /// Write the TCP header of a segment into `out`.
    fn write_tcp(
        &self,
        out: &mut [u8],
        key: &FlowKey,
        seg: &TcpSegment,
        csum: bool,
        options: &[u8],
        l4_len: u16,
        payload: &[u8],
        payload2: &[u8],
    )
        requires
            options@ == seg.options.bytes(),
            options@.len() <= 8,
            options@.len() % 4 == 0,
            old(out)@.len() == 20 + options@.len(),
            l4_len == Link::segment_l4_len(*seg, (payload@ + payload2@).len()),
        ensures
            final(out)@ == self.tcp_hdr(*key, *seg, csum, payload@ + payload2@),
            final(out)@.len() == 20 + options@.len(),
    {
        reveal(Link::tcp_hdr);
        let mut pseudo: u32 = self.sum(key.dst.ip, proto::IPPROTO_TCP, l4_len);
        if !csum {
            // The payload is not part of the header slice handed to
            // `TcpHdr::write`, so fold its sum in via the pseudo sum.
            pseudo = pseudo + proto::sum2(payload, payload2);
        }
        TcpHdr::write(
            out,
            (key.dst.port, key.guest_port),
            seg.seq,
            seg.ack,
            seg.flags,
            seg.window,
            options,
            pseudo,
            csum,
        );
    }

    /// Build the headers of the frame that carries a segment at the front
    /// of `hdr`. Returns their length.
    fn write_segment_hdr(
        &self,
        hdr: &mut [u8],
        key: &FlowKey,
        seg: &TcpSegment,
        csum: bool,
        payload: &[u8],
        payload2: &[u8],
    ) -> (n: usize)
        requires
            old(hdr)@.len() == buf::HEADROOM,
            payload@.len() + payload2@.len() <= buf::FRAME,
        ensures
            n == frame_hdr_len(key.dst.ip) + 20 + seg.options.bytes().len(),
            n <= buf::HEADROOM,
            final(hdr)@.len() == buf::HEADROOM,
            final(hdr)@.subrange(0, n as int) == self.segment_hdr(
                *key,
                *seg,
                csum,
                payload@ + payload2@,
            ),
    {
        let src = key.dst.ip;
        let options = seg.options.to_bytes();
        assert(payload.len() == payload@.len() && payload2.len() == payload2@.len());
        let tcp_hdr_len: usize = proto::TCP_HDR_LEN + options.len();
        let total: usize = tcp_hdr_len + payload.len() + payload2.len();
        let l4_len: u16 = if total > 65535 {
            65535
        } else {
            total as u16
        };
        let ip_len: usize = match src {
            IpAddr::V4(_) => proto::IPV4_HDR_LEN,
            IpAddr::V6(_) => proto::IPV6_HDR_LEN,
        };
        let l4_start: usize = 24 + ip_len;
        let hdr_end: usize = l4_start + tcp_hdr_len;
        let ghost z = hdr@;
        let ghost t = self.tcp_hdr(*key, *seg, csum, payload@ + payload2@);
        let (_front, rest) = hdr.split_at_mut(l4_start);
        let (l4, _tail) = rest.split_at_mut(tcp_hdr_len);
        self.write_tcp(l4, key, seg, csum, options.as_slice(), l4_len, payload, payload2);
        proof {
            wire::lemma_splice_parts(z, l4_start as int, t);
            wire::lemma_splice(z, l4_start as int, t);
        }
        let vnet = Link::build_tcp_vnet(src, seg, csum, options.len());
        let ghost y = hdr@;
        let start: usize = self.write_hdr(hdr, src, proto::IPPROTO_TCP, l4_start, l4_len, &vnet);
        let ghost fh = self.frame_hdr(src, proto::IPPROTO_TCP, l4_len, vnet);
        assert(hdr@.subrange(0, hdr_end as int) =~= fh + t) by {
            wire::lemma_splice(y, 0, fh);
        }
        hdr_end
    }

    /// Build the headers of the frame that carries a segment whose payload
    /// is `payload` followed by `payload2` (the part that wrapped around
    /// the ring), and append them to `out`. Returns their length.
    pub fn push_segment_hdr(
        &self,
        out: &mut Vec<u8>,
        key: &FlowKey,
        seg: &TcpSegment,
        csum: bool,
        payload: &[u8],
        payload2: &[u8],
    ) -> (n: usize)
        requires
            payload@.len() + payload2@.len() <= buf::FRAME,
        ensures
            n == frame_hdr_len(key.dst.ip) + 20 + seg.options.bytes().len(),
            n == self.segment_hdr(*key, *seg, csum, payload@ + payload2@).len(),
            n <= buf::HEADROOM,
            final(out)@ == old(out)@ + self.segment_hdr(
                *key,
                *seg,
                csum,
                payload@ + payload2@,
            ),
    {
        let mut scratch = [0u8; 256];
        let hdr: &mut [u8] = &mut scratch;
        let n: usize = self.write_segment_hdr(hdr, key, seg, csum, payload, payload2);
        let done = vstd::slice::slice_subrange(hdr, 0, n);
        out.extend_from_slice(done);
        assert(out@ =~= old(out)@ + done@);
        n
    }
}

impl Link {
    /// The guest's address of the family of `ip`.
    pub open spec fn guest(self, ip: IpAddr) -> IpAddr {
        match ip {
            IpAddr::V4(_) => IpAddr::V4(self.guest4),
            IpAddr::V6(_) => IpAddr::V6(self.guest6),
        }
    }
}

/// Runs of a concatenation, from the front.
proof fn lemma_parts(a: Seq<u8>, e: Seq<u8>, i: Seq<u8>, l: Seq<u8>)
    ensures
        (a + e + i + l).skip(a.len() as int) == e + (i + l),
        (a + e + i + l).skip((a.len() + e.len()) as int) == i + l,
        (a + e + i + l).skip((a.len() + e.len() + i.len()) as int) == l,
        (a + e + i + l).len() == a.len() + e.len() + i.len() + l.len(),
        wire::splice(e + (i + l), 0, e) == e + (i + l),
        wire::splice(i + l, 0, i) == i + l,
{
    assert((a + e + i + l).skip(a.len() as int) =~= e + (i + l));
    assert((a + e + i + l).skip((a.len() + e.len()) as int) =~= i + l);
    assert((a + e + i + l).skip((a.len() + e.len() + i.len()) as int) =~= l);
    assert(wire::splice(e + (i + l), 0, e) =~= e + (i + l));
    assert(wire::splice(i + l, 0, i) =~= i + l);
}

/// The headers of a frame have the length that their family gives.
proof fn lemma_hdr_lens(link: Link, src: IpAddr, proto: u8, l4_len: u16, vnet: VnetHdr)
    ensures
        vnet.bytes().len() == 10,
        link.eth(src).bytes().len() == 14,
        link.ip_to_guest(src, proto, l4_len).len() == ip_hdr_len(src),
{
}

/// An IP packet from `src` can hold an L4 message of `len` bytes. IPv4's
/// length field covers the IP header, IPv6's does not.
pub open spec fn fits_packet(src: IpAddr, len: nat) -> bool {
    match src {
        IpAddr::V4(_) => len + proto::IPV4_HDR_LEN <= u16::MAX,
        IpAddr::V6(_) => len <= u16::MAX,
    }
}

/// A frame built for the guest reads as what was put into it: from the
/// gateway's MAC and the given source to the guest's address, with the L4
/// message whole, as long as an IP packet can hold it.
pub proof fn law_frame_roundtrip(link: Link, src: IpAddr, proto: u8, l4: Seq<u8>, vnet: VnetHdr)
    requires
        fits_packet(src, l4.len()),
    ensures
        GuestFrame::spec_parse(link.frame(src, proto, l4, vnet)) == Some(
            GuestFrame {
                src_mac: link.gateway_mac,
                src_ip: src,
                dst_ip: link.guest(src),
                proto,
                l4_start: frame_hdr_len(src) as usize,
                l4_end: (frame_hdr_len(src) + l4.len()) as usize,
            },
        ),
        link.frame(src, proto, l4, vnet).skip(frame_hdr_len(src)) == l4,
        link.frame(src, proto, l4, vnet).len() == frame_hdr_len(src) + l4.len(),
{
    reveal(GuestFrame::spec_parse);
    reveal(Link::frame_hdr);
    let len = proto::len16(l4.len());
    let ip = link.ip_to_guest(src, proto, len);
    let eth = link.eth(src);
    lemma_hdr_lens(link, src, proto, len, vnet);
    lemma_parts(vnet.bytes(), eth.bytes(), ip, l4);
    proto::law_eth_roundtrip(eth, eth.bytes() + (ip + l4));
    match src {
        IpAddr::V4(a) => {
            proto::law_ipv4_roundtrip(a, link.guest4, proto, len, ip + l4);
        },
        IpAddr::V6(a) => {
            proto::law_ipv6_roundtrip(a, link.guest6, proto, len, ip + l4);
        },
    }
}

/// A frame around a UDP payload ends with the payload, and its headers fit
/// the headroom of a buffer.
pub proof fn lemma_udp_frame(link: Link, key: FlowKey, payload: Seq<u8>, gso: Option<u16>)
    ensures
        ({
            let f = link.udp_frame(key, payload, gso);
            &&& payload.len() <= f.len() <= payload.len() + buf::HEADROOM
            &&& f.skip(f.len() - payload.len()) == payload
        }),
{
    reveal(Link::frame_hdr);
    let f = link.udp_frame(key, payload, gso);
    assert(f.skip(f.len() - payload.len()) =~= payload);
}

/// A datagram delivered to the guest reads back, at the guest, as one from
/// where the guest's flow goes to the guest's port, payload unchanged.
pub proof fn law_udp_reply(link: Link, key: FlowKey, payload: Seq<u8>, gso: Option<u16>)
    requires
        fits_packet(key.dst.ip, payload.len() + proto::UDP_HDR_LEN as nat),
    ensures
        ({
            let f = link.udp_frame(key, payload, gso);
            let g = GuestFrame::spec_parse(f)->0;
            let l4 = f.subrange(g.l4_start as int, g.l4_end as int);
            &&& GuestFrame::spec_parse(f) is Some
            &&& g.src_ip == key.dst.ip && g.dst_ip == link.guest(key.dst.ip)
            &&& g.proto == proto::IPPROTO_UDP
            &&& UdpHdr::spec_parse(l4) == Some(
                UdpHdr {
                    src_port: key.dst.port,
                    dst_port: key.guest_port,
                    len: (payload.len() + 8) as u16,
                },
            )
            &&& l4.skip(8) == payload
        }),
{
    let l4_len = proto::len16(proto::UDP_HDR_LEN as nat + payload.len());
    let pseudo = link.pseudo(key.dst.ip, proto::IPPROTO_UDP, l4_len);
    let m = proto::udp_bytes(key.dst.port, key.guest_port, payload, pseudo, gso is Some);
    lemma_frame_message(
        link,
        key.dst.ip,
        proto::IPPROTO_UDP,
        m,
        udp_vnet(key.dst.ip, gso),
    );
    proto::law_udp_roundtrip(key.dst.port, key.guest_port, payload, pseudo, gso is Some);
    assert(m.skip(8) =~= payload);
}

/// The checksum of a segment built without checksum offload validates at
/// the guest.
pub proof fn law_segment_checksum(link: Link, key: FlowKey, seg: TcpSegment, payload: Seq<u8>)
    ensures
        ({
            let l4_len = Link::segment_l4_len(seg, payload.len());
            proto::spec_checksum(
                link.tcp_hdr(key, seg, false, payload) + payload,
                link.pseudo(key.dst.ip, proto::IPPROTO_TCP, l4_len),
            ) == 0
        }),
{
    reveal(Link::tcp_hdr);
    tcp::law_tcp_checksum_valid(
        key.dst.port,
        key.guest_port,
        seg.seq,
        seg.ack,
        seg.flags,
        seg.window,
        seg.options.bytes(),
        link.pseudo(
            key.dst.ip,
            proto::IPPROTO_TCP,
            Link::segment_l4_len(seg, payload.len()),
        ),
        payload,
    );
}

/// A TCP header with `payload` behind it reads back as its fields.
proof fn lemma_tcp_fields(
    key: FlowKey,
    seg: TcpSegment,
    pseudo: nat,
    partial: bool,
    payload: Seq<u8>,
)
    ensures
        ({
            let o = seg.options.bytes();
            let t = tcp::tcp_bytes(
                key.dst.port,
                key.guest_port,
                seg.seq,
                seg.ack,
                seg.flags,
                seg.window,
                o,
                pseudo,
                partial,
            );
            let h = TcpHdr::spec_parse(t + payload)->0;
            &&& t.len() == 20 + o.len()
            &&& TcpHdr::spec_parse(t + payload) is Some
            &&& h.src_port == key.dst.port && h.dst_port == key.guest_port
            &&& h.seq == seg.seq && h.ack == seg.ack
            &&& h.flags == seg.flags && h.window == seg.window
            &&& (t + payload).skip(h.header_len as int) == payload
        }),
{
    let o = seg.options.bytes();
    let t = tcp::tcp_bytes(
        key.dst.port,
        key.guest_port,
        seg.seq,
        seg.ack,
        seg.flags,
        seg.window,
        o,
        pseudo,
        partial,
    );
    let m = t + payload;
    wire::lemma_be32(seg.seq);
    wire::lemma_be32(seg.ack);
    assert(m[0] == (key.dst.port / 256) as u8 && m[1] == (key.dst.port % 256) as u8);
    assert(m[2] == (key.guest_port / 256) as u8 && m[3] == (key.guest_port % 256) as u8);
    assert(m[4] == wire::be32(seg.seq)[0] && m[5] == wire::be32(seg.seq)[1]);
    assert(m[6] == wire::be32(seg.seq)[2] && m[7] == wire::be32(seg.seq)[3]);
    assert(m[8] == wire::be32(seg.ack)[0] && m[9] == wire::be32(seg.ack)[1]);
    assert(m[10] == wire::be32(seg.ack)[2] && m[11] == wire::be32(seg.ack)[3]);
    assert(wire::be32_at(m, 4) == wire::be32_at(wire::be32(seg.seq), 0));
    assert(wire::be32_at(m, 8) == wire::be32_at(wire::be32(seg.ack), 0));
    assert(m[12] == ((20 + o.len()) / 4 * 16) as u8);
    assert(m[13] == seg.flags);
    assert(m[14] == (seg.window / 256) as u8 && m[15] == (seg.window % 256) as u8);
    assert(m.skip(t.len() as int) =~= payload);
}

/// A segment's headers fit the scratch space they are built in.
pub proof fn lemma_segment_hdr_len(
    link: Link,
    key: FlowKey,
    seg: TcpSegment,
    csum: bool,
    payload: Seq<u8>,
)
    ensures
        link.segment_hdr(key, seg, csum, payload).len() == frame_hdr_len(key.dst.ip) + 20
            + seg.options.bytes().len(),
        link.segment_hdr(key, seg, csum, payload).len() <= buf::HEADROOM,
{
    reveal(Link::tcp_hdr);
    reveal(Link::frame_hdr);
    let vnet = Link::tcp_vnet(key.dst.ip, seg, csum);
    let l4_len = Link::segment_l4_len(seg, payload.len());
    lemma_hdr_lens(link, key.dst.ip, proto::IPPROTO_TCP, l4_len, vnet);
}

/// A segment's frame is the frame around its TCP header and payload.
proof fn lemma_segment_frame(
    link: Link,
    key: FlowKey,
    seg: TcpSegment,
    csum: bool,
    payload: Seq<u8>,
)
    requires
        link.tcp_hdr(key, seg, csum, payload).len() == 20 + seg.options.bytes().len(),
    ensures
        link.segment_hdr(key, seg, csum, payload) + payload == link.frame(
            key.dst.ip,
            proto::IPPROTO_TCP,
            link.tcp_hdr(key, seg, csum, payload) + payload,
            Link::tcp_vnet(key.dst.ip, seg, csum),
        ),
{
    let t = link.tcp_hdr(key, seg, csum, payload);
    let vnet = Link::tcp_vnet(key.dst.ip, seg, csum);
    let l4_len = Link::segment_l4_len(seg, payload.len());
    let fh = link.frame_hdr(key.dst.ip, proto::IPPROTO_TCP, l4_len, vnet);
    assert(fh + t + payload =~= fh + (t + payload));
}

/// What a frame around the message `m` reads as.
proof fn lemma_frame_message(link: Link, src: IpAddr, proto: u8, m: Seq<u8>, vnet: VnetHdr)
    requires
        fits_packet(src, m.len()),
    ensures
        ({
            let f = link.frame(src, proto, m, vnet);
            let g = GuestFrame::spec_parse(f)->0;
            &&& GuestFrame::spec_parse(f) is Some
            &&& g.src_ip == src && g.dst_ip == link.guest(src)
            &&& g.proto == proto
            &&& f.subrange(g.l4_start as int, g.l4_end as int) == m
        }),
{
    law_frame_roundtrip(link, src, proto, m, vnet);
    let f = link.frame(src, proto, m, vnet);
    let n = frame_hdr_len(src);
    assert(f.subrange(n, n + m.len()) =~= f.skip(n));
}

/// A segment built for the guest reads back, at the guest, as one from
/// where the flow goes to the guest's port, with the given sequence
/// numbers, flags and window.
pub proof fn law_segment_roundtrip(
    link: Link,
    key: FlowKey,
    seg: TcpSegment,
    csum: bool,
    payload: Seq<u8>,
)
    requires
        fits_packet(
            key.dst.ip,
            proto::TCP_HDR_LEN as nat + seg.options.bytes().len() + payload.len(),
        ),
    ensures
        ({
            let f = link.segment_hdr(key, seg, csum, payload) + payload;
            let g = GuestFrame::spec_parse(f)->0;
            let l4 = f.subrange(g.l4_start as int, g.l4_end as int);
            let h = TcpHdr::spec_parse(l4)->0;
            &&& GuestFrame::spec_parse(f) is Some && TcpHdr::spec_parse(l4) is Some
            &&& g.src_ip == key.dst.ip && g.dst_ip == link.guest(key.dst.ip)
            &&& g.proto == proto::IPPROTO_TCP
            &&& h.src_port == key.dst.port && h.dst_port == key.guest_port
            &&& h.seq == seg.seq && h.ack == seg.ack
            &&& h.flags == seg.flags && h.window == seg.window
            &&& l4.skip(h.header_len as int) == payload
        }),
{
    let t = link.tcp_hdr(key, seg, csum, payload);
    let h = TcpHdr::spec_parse(t + payload)->0;
    assert({
        &&& t.len() == 20 + seg.options.bytes().len()
        &&& TcpHdr::spec_parse(t + payload) is Some
        &&& h.src_port == key.dst.port && h.dst_port == key.guest_port
        &&& h.seq == seg.seq && h.ack == seg.ack
        &&& h.flags == seg.flags && h.window == seg.window
        &&& (t + payload).skip(h.header_len as int) == payload
    }) by {
        let l4_len = Link::segment_l4_len(seg, payload.len());
        let pseudo = link.pseudo(key.dst.ip, proto::IPPROTO_TCP, l4_len) + (if csum {
            0nat
        } else {
            proto::fold(proto::word_sum(payload)) as nat
        });
        reveal(Link::tcp_hdr);
        lemma_tcp_fields(key, seg, pseudo, csum, payload);
    }
    let f = link.segment_hdr(key, seg, csum, payload) + payload;
    let g = GuestFrame::spec_parse(f)->0;
    assert({
        &&& GuestFrame::spec_parse(f) is Some
        &&& g.src_ip == key.dst.ip && g.dst_ip == link.guest(key.dst.ip)
        &&& g.proto == proto::IPPROTO_TCP
        &&& f.subrange(g.l4_start as int, g.l4_end as int) == t + payload
    }) by {
        assert(seg.options.bytes().len() <= 8);
        lemma_segment_frame(link, key, seg, csum, payload);
        lemma_frame_message(
            link,
            key.dst.ip,
            proto::IPPROTO_TCP,
            t + payload,
            Link::tcp_vnet(key.dst.ip, seg, csum),
        );
    }
}

/// An echo reply delivered to the guest comes from where the guest sent
/// its request to and carries the guest's identifier; sequence number and
/// data are those of the host's reply, and the checksum validates.
pub proof fn law_ping_reply(link: Link, key: FlowKey, nat64: bool, msg: Seq<u8>)
    requires
        fits_packet(key.dst.ip, msg.len()),
        link.ping_frame(key, nat64, msg) is Some,
    ensures
        ({
            let f = link.ping_frame(key, nat64, msg)->0;
            let g = GuestFrame::spec_parse(f)->0;
            let l4 = f.subrange(g.l4_start as int, g.l4_end as int);
            let pseudo = match key.dst.ip {
                IpAddr::V4(_) => 0,
                IpAddr::V6(_) => link.pseudo(key.dst.ip, key.proto, proto::len16(msg.len())),
            };
            &&& GuestFrame::spec_parse(f) is Some
            &&& g.src_ip == key.dst.ip && g.dst_ip == link.guest(key.dst.ip)
            &&& g.proto == key.proto
            &&& EchoHdr::spec_parse(l4) == Some(
                EchoHdr {
                    msg_type: if nat64 && key.dst.ip is V4 {
                        proto::ICMP_ECHO_REPLY
                    } else {
                        msg[0]
                    },
                    id: key.guest_port,
                },
            )
            &&& l4.len() == msg.len() && l4[1] == msg[1]
            &&& l4.skip(6) == msg.skip(6)
            &&& proto::spec_checksum(l4, pseudo) == 0
        }),
{
    let typed = if nat64 && key.dst.ip is V4 {
        msg.update(0, proto::ICMP_ECHO_REPLY)
    } else {
        msg
    };
    let pseudo = match key.dst.ip {
        IpAddr::V4(_) => 0,
        IpAddr::V6(_) => link.pseudo(key.dst.ip, key.proto, proto::len16(msg.len())),
    };
    let m = EchoHdr::patched(typed, key.guest_port, pseudo);
    assert(m.len() == msg.len());
    assert(m[1] == typed[1] && typed[1] == msg[1]);
    proto::law_patch_id(typed, key.guest_port, pseudo);
    assert(typed.skip(6) =~= msg.skip(6));
    lemma_frame_message(link, key.dst.ip, key.proto, m, VnetHdr::zero());
}

/// A host socket error reaches the guest as a destination unreachable
/// message from where the flow goes, around the headers of a datagram of
/// the guest's on that flow: same addresses, same ports.
pub proof fn law_unreachable(link: Link, key: FlowKey, codes: (u8, u8))
    ensures
        ({
            let f = link.unreachable_frame(key.dst.ip, link.offending(key), codes);
            let g = GuestFrame::spec_parse(f)->0;
            let l4 = f.subrange(g.l4_start as int, g.l4_end as int);
            let inner = l4.skip(8);
            &&& GuestFrame::spec_parse(f) is Some
            &&& g.src_ip == key.dst.ip && g.dst_ip == link.guest(key.dst.ip)
            &&& inner == link.offending(key)
            &&& UdpHdr::spec_parse(inner.skip(ip_hdr_len(key.dst.ip))) == Some(
                UdpHdr { src_port: key.guest_port, dst_port: key.dst.port, len: 8 },
            )
            &&& match key.dst.ip {
                IpAddr::V4(dst) => {
                    &&& g.proto == proto::IPPROTO_ICMP
                    &&& l4[0] == proto::ICMP_DEST_UNREACH && l4[1] == codes.0
                    &&& Ipv4Hdr::spec_parse(inner) matches Some(ip) && ip.src == link.guest4
                        && ip.dst == dst && ip.proto == proto::IPPROTO_UDP
                },
                IpAddr::V6(dst) => {
                    &&& g.proto == proto::IPPROTO_ICMPV6
                    &&& l4[0] == proto::ICMPV6_DEST_UNREACH && l4[1] == codes.1
                    &&& Ipv6Hdr::spec_parse(inner) matches Some(ip) && ip.src == link.guest6
                        && ip.dst == dst && ip.next_header == proto::IPPROTO_UDP
                },
            }
        }),
{
    let off = link.offending(key);
    let ip = link.ip_from_guest(key.dst.ip, proto::IPPROTO_UDP, 8);
    let pseudo = link.pseudo(key.dst.ip, proto::IPPROTO_UDP, 8);
    let udp = proto::udp_bytes(key.guest_port, key.dst.port, Seq::empty(), pseudo, false);
    assert(ip.len() == ip_hdr_len(key.dst.ip));
    assert(udp.len() == 8);
    lemma_unreachable_frame(link, key.dst.ip, off, codes);
    assert(off.skip(ip.len() as int) =~= udp);
    proto::law_udp_roundtrip(key.guest_port, key.dst.port, Seq::empty(), pseudo, false);
    assert(wire::splice(off, 0, ip) =~= off);
    match key.dst.ip {
        IpAddr::V4(dst) => {
            proto::law_ipv4_roundtrip(link.guest4, dst, proto::IPPROTO_UDP, 8, off);
        },
        IpAddr::V6(dst) => {
            proto::law_ipv6_roundtrip(link.guest6, dst, proto::IPPROTO_UDP, 8, off);
        },
    }
}

/// What a destination unreachable frame reads as.
proof fn lemma_unreachable_frame(link: Link, ip: IpAddr, packet: Seq<u8>, codes: (u8, u8))
    requires
        packet.len() <= IP_HDR_MAX + 8,
    ensures
        ({
            let f = link.unreachable_frame(ip, packet, codes);
            let e = GuestFrame::spec_parse(f)->0;
            let l4 = f.subrange(e.l4_start as int, e.l4_end as int);
            &&& GuestFrame::spec_parse(f) is Some
            &&& e.src_ip == ip && e.dst_ip == link.guest(ip)
            &&& l4.len() == packet.len() + 8
            &&& l4.skip(8) == packet
            &&& match ip {
                IpAddr::V4(_) => {
                    &&& e.proto == proto::IPPROTO_ICMP
                    &&& l4[0] == proto::ICMP_DEST_UNREACH && l4[1] == codes.0
                    &&& proto::spec_checksum(l4, 0) == 0
                },
                IpAddr::V6(_) => {
                    &&& e.proto == proto::IPPROTO_ICMPV6
                    &&& l4[0] == proto::ICMPV6_DEST_UNREACH && l4[1] == codes.1
                    &&& proto::spec_checksum(
                        l4,
                        link.pseudo(ip, proto::IPPROTO_ICMPV6, l4.len() as u16),
                    ) == 0
                },
            }
        }),
{
    let body = Seq::new(8, |i: int| 0u8) + packet;
    let m = link.unreachable(ip, packet, codes);
    let (msg_type, code, proto, pseudo) = match ip {
        IpAddr::V4(_) => (proto::ICMP_DEST_UNREACH, codes.0, proto::IPPROTO_ICMP, 0nat),
        IpAddr::V6(_) => (
            proto::ICMPV6_DEST_UNREACH,
            codes.1,
            proto::IPPROTO_ICMPV6,
            link.pseudo(ip, proto::IPPROTO_ICMPV6, proto::len16(body.len())),
        ),
    };
    let head = seq![msg_type, code, 0u8, 0u8, 0u8, 0u8, 0u8, 0u8];
    let t = wire::splice(body, 0, head);
    assert(t =~= head + packet);
    assert(m == proto::sealed(t, pseudo));
    assert(m.len() == body.len());
    assert(m.skip(8) =~= packet);
    assert(m[0] == msg_type && m[1] == code);
    proto::law_sealed_checksum_valid(t, pseudo);
    lemma_frame_message(link, ip, proto, m, VnetHdr::zero());
}

/// Length of a destination unreachable frame.
pub proof fn lemma_unreachable_len(link: Link, ip: IpAddr, packet: Seq<u8>, codes: (u8, u8))
    ensures
        link.unreachable_frame(ip, packet, codes).len() == frame_hdr_len(ip)
            + proto::ICMP_HDR_LEN + packet.len(),
{
    reveal(Link::frame_hdr);
}

/// The start of a guest packet reads as the packet: same addresses, same
/// protocol, and the first bytes of its L4 message behind the IP header.
proof fn lemma_packet_start(frame: Seq<u8>, g: GuestFrame)
    requires
        frame.len() <= buf::BUF_SIZE,
        GuestFrame::spec_parse(frame) == Some(g),
        g.l4_start + 8 <= g.l4_end,
    ensures
        ({
            let packet = packet_start(frame, g.l4_start as int, None);
            let hdr_len = g.l4_start - L3_OFF;
            &&& 20 <= hdr_len <= 60
            &&& packet.len() == hdr_len + 8
            &&& packet.skip(hdr_len) == frame.subrange(g.l4_start as int, g.l4_start + 8)
            &&& packet_of_guest(packet, g)
        }),
{
    reveal(GuestFrame::spec_parse);
    let packet = packet_start(frame, g.l4_start as int, None);
    let hdr_len = g.l4_start - L3_OFF;
    let l3 = frame.skip(L3_OFF as int);
    assert(packet.skip(hdr_len) =~= frame.subrange(g.l4_start as int, g.l4_start + 8));
    assert(forall|i: int| 0 <= i < packet.len() ==> packet[i] == l3[i]);
}

/// `packet` starts with the IP header of the guest packet `g`.
pub open spec fn packet_of_guest(packet: Seq<u8>, g: GuestFrame) -> bool {
    match (g.src_ip, g.dst_ip) {
        (IpAddr::V4(src), IpAddr::V4(dst)) => Ipv4Hdr::spec_parse(packet) matches Some(ip)
            && ip.src == src && ip.dst == dst && ip.proto == g.proto && ip.header_len == g.l4_start
            - L3_OFF,
        (IpAddr::V6(src), IpAddr::V6(dst)) => Ipv6Hdr::spec_parse(packet) matches Some(ip)
            && ip.src == src && ip.dst == dst && ip.next_header == g.proto && g.l4_start - L3_OFF
            == 40,
        _ => false,
    }
}

/// The frame `f` tells the guest that the host it sent the packet `g` to is
/// unreachable: it comes from there, goes to the guest, is an ICMP message
/// of type 3 and code 1 or an ICMPv6 message of type 1 and code 3 with a
/// valid checksum, and holds `packet`.
pub open spec fn is_refusal(link: Link, f: Seq<u8>, g: GuestFrame, packet: Seq<u8>) -> bool {
    let e = GuestFrame::spec_parse(f)->0;
    let l4 = f.subrange(e.l4_start as int, e.l4_end as int);
    &&& GuestFrame::spec_parse(f) is Some
    &&& e.src_ip == g.dst_ip && e.dst_ip == link.guest(g.dst_ip)
    &&& l4.skip(8) == packet
    &&& match g.dst_ip {
        IpAddr::V4(_) => {
            &&& e.proto == proto::IPPROTO_ICMP
            &&& l4[0] == 3 && l4[1] == 1
            &&& proto::spec_checksum(l4, 0) == 0
        },
        IpAddr::V6(_) => {
            &&& e.proto == proto::IPPROTO_ICMPV6
            &&& l4[0] == 1 && l4[1] == 3
            &&& proto::spec_checksum(
                l4,
                link.pseudo(g.dst_ip, proto::IPPROTO_ICMPV6, l4.len() as u16),
            ) == 0
        },
    }
}

/// A refusal reaches the guest as a host unreachable message from where the
/// guest sent its packet to, around the start of that packet: the guest's
/// own IP header and the first eight bytes behind it.
pub proof fn law_refusal(link: Link, frame: Seq<u8>, g: GuestFrame)
    requires
        frame.len() <= buf::BUF_SIZE,
        GuestFrame::spec_parse(frame) == Some(g),
        g.l4_start + 8 <= g.l4_end,
    ensures
        ({
            let packet = packet_start(frame, g.l4_start as int, None);
            &&& is_refusal(link, link.unreachable_frame(g.dst_ip, packet, (1, 3)), g, packet)
            &&& packet_of_guest(packet, g)
            &&& packet.skip(g.l4_start - L3_OFF) == frame.subrange(
                g.l4_start as int,
                g.l4_start + 8,
            )
        }),
{
    lemma_packet_start(frame, g);
    lemma_unreachable_frame(link, g.dst_ip, packet_start(frame, g.l4_start as int, None), (1, 3));
}

/// Bytes `i` and `i + 1` of `b` as a number, most significant first.
pub open spec fn word_at(b: Seq<u8>, i: int) -> int {
    b[i] * 256 + b[i + 1]
}

/// The smaller of two lengths.
pub open spec fn shorter(a: int, b: int) -> int {
    if a <= b {
        a
    } else {
        b
    }
}

/// What an IPv4 frame of the guest's reads as: behind ten bytes of vnet
/// header and fourteen of ethernet header comes the IP header, as long as
/// its own length field says, options included; the message behind it ends
/// where the packet's length field says, or with the frame.
pub proof fn law_guest_frame_v4(b: Seq<u8>)
    requires
        b.len() <= buf::BUF_SIZE,
        b.len() >= 44,
        word_at(b, 22) == 0x0800,
    ensures
        ({
            let hdr = b[24] % 16 * 4;
            let whole = b[24] / 16 == 4 && 20 <= hdr <= b.len() - 24 && word_at(b, 26) >= hdr;
            &&& GuestFrame::spec_parse(b) is Some <==> whole
            &&& GuestFrame::spec_parse(b) matches Some(g) ==> {
                &&& g.src_mac@ == b.subrange(16, 22)
                &&& g.src_ip matches IpAddr::V4(src) && src.octets@ == b.subrange(36, 40)
                &&& g.dst_ip matches IpAddr::V4(dst) && dst.octets@ == b.subrange(40, 44)
                &&& g.proto == b[33]
                &&& g.l4_start == 24 + hdr
                &&& g.l4_end == shorter(24 + word_at(b, 26), b.len() as int)
            }
        }),
{
    reveal(GuestFrame::spec_parse);
    if let Some(g) = GuestFrame::spec_parse(b) {
        assert(g.src_mac@ =~= b.subrange(16, 22));
        assert(g.src_ip->V4_0.octets@ =~= b.subrange(36, 40));
        assert(g.dst_ip->V4_0.octets@ =~= b.subrange(40, 44));
    }
}

/// What an IPv6 frame of the guest's reads as: the IP header has forty
/// bytes, and the message behind it ends where the packet's length field
/// says, or with the frame.
pub proof fn law_guest_frame_v6(b: Seq<u8>)
    requires
        b.len() <= buf::BUF_SIZE,
        b.len() >= 64,
        word_at(b, 22) == 0x86dd,
    ensures
        GuestFrame::spec_parse(b) is Some <==> b[24] / 16 == 6,
        GuestFrame::spec_parse(b) matches Some(g) ==> {
            &&& g.src_mac@ == b.subrange(16, 22)
            &&& g.src_ip matches IpAddr::V6(src) && src.octets@ == b.subrange(32, 48)
            &&& g.dst_ip matches IpAddr::V6(dst) && dst.octets@ == b.subrange(48, 64)
            &&& g.proto == b[30]
            &&& g.l4_start == 64
            &&& g.l4_end == shorter(64 + word_at(b, 28), b.len() as int)
        },
{
    reveal(GuestFrame::spec_parse);
    if let Some(g) = GuestFrame::spec_parse(b) {
        assert(g.src_mac@ =~= b.subrange(16, 22));
        assert(g.src_ip->V6_0.octets@ =~= b.subrange(32, 48));
        assert(g.dst_ip->V6_0.octets@ =~= b.subrange(48, 64));
    }
}

/// What is too short for its headers, or neither IPv4 nor IPv6, is no frame
/// of the guest's.
pub proof fn law_no_guest_frame(b: Seq<u8>)
    requires
        b.len() < 44 || (word_at(b, 22) == 0x86dd && b.len() < 64) || (word_at(b, 22) != 0x0800
            && word_at(b, 22) != 0x86dd),
    ensures
        GuestFrame::spec_parse(b) is None,
{
    reveal(GuestFrame::spec_parse);
}

/// The headers around a message for the guest: the given vnet header, the
/// guest's and the gateway's hardware address, and an IP header with a
/// valid checksum and a hop limit of 64.
pub proof fn law_frame_headers(link: Link, src: IpAddr, proto: u8, l4: Seq<u8>, vnet: VnetHdr)
    ensures
        ({
            let f = link.frame(src, proto, l4, vnet);
            &&& f.len() >= 44
            &&& f.take(10) == vnet.bytes()
            &&& f.subrange(10, 16) == link.guest_mac@
            &&& f.subrange(16, 22) == link.gateway_mac@
            &&& match src {
                IpAddr::V4(_) => {
                    &&& word_at(f, 22) == 0x0800
                    &&& f[24] == 0x45 && f[32] == 64 && f[33] == proto
                    &&& proto::spec_checksum(f.subrange(24, 44), 0) == 0
                },
                IpAddr::V6(_) => {
                    &&& word_at(f, 22) == 0x86dd
                    &&& f[24] == 0x60 && f[30] == proto && f[31] == 64
                },
            }
        }),
{
    reveal(Link::frame_hdr);
    let f = link.frame(src, proto, l4, vnet);
    let len = proto::len16(l4.len());
    let ip = link.ip_to_guest(src, proto, len);
    let eth = link.eth(src).bytes();
    lemma_hdr_lens(link, src, proto, len, vnet);
    assert(f.take(10) =~= vnet.bytes());
    assert(f.subrange(10, 16) =~= link.guest_mac@);
    assert(f.subrange(16, 22) =~= link.gateway_mac@);
    assert(f[22] == eth[12] && f[23] == eth[13]);
    assert(f[24] == ip[0]);
    match src {
        IpAddr::V4(a) => {
            assert(f.subrange(24, 44) =~= ip);
            proto::law_ipv4_checksum_valid(a, link.guest4, proto, len);
            assert(f[32] == ip[8] && f[33] == ip[9]);
        },
        IpAddr::V6(_) => {
            assert(f[30] == ip[6] && f[31] == ip[7]);
        },
    }
}

/// A datagram for the guest either checks out as it is, or says in its vnet
/// header how the device is to cut it up and where it is to complete the
/// checksum: from the UDP header on, in that header's checksum field, which
/// holds the sum of the pseudo-header.
pub proof fn law_udp_offload(link: Link, key: FlowKey, payload: Seq<u8>, gso: Option<u16>)
    ensures
        ({
            let f = link.udp_frame(key, payload, gso);
            let ip_len: int = if key.dst.ip is V4 {
                20
            } else {
                40
            };
            let l4 = f.skip(24 + ip_len);
            let pseudo = link.pseudo(key.dst.ip, 17, proto::len16(8 + payload.len()));
            let v = VnetHdr::spec_parse(f.take(10));
            &&& l4.skip(8) == payload
            &&& match gso {
                Some(g) => {
                    &&& v.flags == 1 && v.gso_type == 5 && v.gso_size == g
                    &&& v.hdr_len == 14 + ip_len + 8
                    &&& v.csum_start == 14 + ip_len && v.csum_offset == 6
                    &&& word_at(l4, 6) == proto::fold(pseudo)
                },
                None => {
                    &&& v == VnetHdr::zero()
                    &&& proto::spec_checksum(l4, pseudo) == 0
                },
            }
        }),
{
    let l4_len = proto::len16(8 + payload.len());
    let pseudo = link.pseudo(key.dst.ip, 17, l4_len);
    let vnet = udp_vnet(key.dst.ip, gso);
    let m = proto::udp_bytes(key.dst.port, key.guest_port, payload, pseudo, gso is Some);
    let f = link.udp_frame(key, payload, gso);
    assert(proto::UDP_HDR_LEN as nat + payload.len() == 8 + payload.len());
    assert(f == link.frame(key.dst.ip, 17, m, vnet));
    law_frame_headers(link, key.dst.ip, 17, m, vnet);
    tap::law_vnet_roundtrip(vnet, vnet.bytes());
    let n = frame_hdr_len(key.dst.ip);
    assert(f.skip(n) =~= m) by {
        reveal(Link::frame_hdr);
        lemma_hdr_lens(link, key.dst.ip, 17, proto::len16(m.len()), vnet);
    }
    assert(m.skip(8) =~= payload);
    proto::law_udp_checksum_valid(key.dst.port, key.guest_port, payload, pseudo);
    if gso is Some {
        let c = proto::fold(pseudo);
        assert(m[6] == (c / 256) as u8 && m[7] == (c % 256) as u8);
    }
}

/// A segment for the guest either checks out as it is or has the device
/// complete its checksum, and says in its vnet header where its headers end
/// and, for a super-frame, at what size it is to be cut.
pub proof fn law_segment_offload(
    link: Link,
    key: FlowKey,
    seg: TcpSegment,
    csum: bool,
    payload: Seq<u8>,
)
    ensures
        ({
            let f = link.segment_hdr(key, seg, csum, payload) + payload;
            let ip_len: int = if key.dst.ip is V4 {
                20
            } else {
                40
            };
            let hdr_len = 20 + seg.options.bytes().len();
            let l4 = f.skip(24 + ip_len);
            let pseudo = link.pseudo(
                key.dst.ip,
                6,
                proto::len16((hdr_len + payload.len()) as nat),
            );
            let v = VnetHdr::spec_parse(f.take(10));
            &&& l4.skip(hdr_len as int) == payload
            &&& v.hdr_len == 14 + ip_len + hdr_len
            &&& v.csum_start == 14 + ip_len && v.csum_offset == 16
            &&& v.gso_size == (if let Some(g) = seg.gso_size {
                g
            } else {
                0
            })
            &&& v.gso_type == (if seg.gso_size is None {
                0u8
            } else if key.dst.ip is V4 {
                1u8
            } else {
                4u8
            })
            &&& f.subrange(10, 16) == link.guest_mac@ && f.subrange(16, 22) == link.gateway_mac@
            &&& csum ==> v.flags == 1 && word_at(l4, 16) == proto::fold(pseudo)
            &&& !csum ==> v.flags == 0 && proto::spec_checksum(l4, pseudo) == 0
        }),
{
    let t = link.tcp_hdr(key, seg, csum, payload);
    let o = seg.options.bytes();
    let vnet = Link::tcp_vnet(key.dst.ip, seg, csum);
    let f = link.segment_hdr(key, seg, csum, payload) + payload;
    let l4_len = Link::segment_l4_len(seg, payload.len());
    assert(t.len() == 20 + o.len()) by {
        reveal(Link::tcp_hdr);
    }
    lemma_segment_frame(link, key, seg, csum, payload);
    let m = t + payload;
    law_frame_headers(link, key.dst.ip, 6, m, vnet);
    tap::law_vnet_roundtrip(vnet, vnet.bytes());
    let n = frame_hdr_len(key.dst.ip);
    assert(f.skip(n) =~= m) by {
        reveal(Link::frame_hdr);
        lemma_hdr_lens(link, key.dst.ip, 6, proto::len16(m.len()), vnet);
    }
    assert(m.skip((20 + o.len()) as int) =~= payload);
    if csum {
        let c = proto::fold(link.pseudo(key.dst.ip, 6, l4_len));
        assert(t[16] == (c / 256) as u8 && t[17] == (c % 256) as u8) by {
            reveal(Link::tcp_hdr);
        }
    } else {
        law_segment_checksum(link, key, seg, payload);
    }
}

/// What the options of our segments announce: nothing, an MSS of 65495, or
/// that and a window scale of 7. They take whole words.
pub proof fn law_own_options()
    ensures
        tcp::announced(TcpOptions::Empty.bytes()) == (None::<u16>, None::<u8>),
        tcp::announced(TcpOptions::Mss.bytes()) == (Some(65_495u16), None::<u8>),
        tcp::announced(TcpOptions::MssAndScale.bytes()) == (Some(65_495u16), Some(7u8)),
        TcpOptions::Empty.bytes().len() == 0,
        TcpOptions::Mss.bytes().len() == 4,
        TcpOptions::MssAndScale.bytes().len() == 8,
{
    let e = Seq::<u8>::empty();
    let m = TcpOptions::Mss.bytes();
    let s = seq![3u8, 3, 7] + e;
    tcp::law_options(e, 65_495, 7, 4, e);
    assert(m =~= seq![2u8, 4] + wire::be16(65_495) + e);
    tcp::law_options(s, 65_495, 7, 4, e);
    tcp::law_options(seq![1u8] + s, 65_495, 7, 4, e);
    assert(TcpOptions::MssAndScale.bytes() =~= seq![2u8, 4] + wire::be16(65_495) + (seq![1u8] + s));
}

/// Which host socket errors the guest is told of, and with what code: a
/// refused connection as an unreachable port, an unreachable host and an
/// unreachable network as such; of others it is told nothing.
pub proof fn law_error_codes(errno: i32)
    ensures
        spec_unreachable_codes(errno) == (if errno == 111 {
            Some((3u8, 4u8))
        } else if errno == 113 {
            Some((1u8, 3u8))
        } else if errno == 101 {
            Some((0u8, 0u8))
        } else {
            None
        }),
{
}

/// The frame of a segment holds its TCP header and payload, and nothing
/// else, behind the IP header.
pub proof fn law_segment_message(
    link: Link,
    key: FlowKey,
    seg: TcpSegment,
    csum: bool,
    payload: Seq<u8>,
)
    requires
        fits_packet(key.dst.ip, 20 + seg.options.bytes().len() + payload.len()),
    ensures
        ({
            let f = link.segment_hdr(key, seg, csum, payload) + payload;
            &&& GuestFrame::spec_parse(f) matches Some(g) && g.l4_start == 24 + ip_hdr_len(
                key.dst.ip,
            ) && g.l4_end == f.len()
            &&& f.skip(24 + ip_hdr_len(key.dst.ip)) == link.tcp_hdr(key, seg, csum, payload)
                + payload
        }),
{
    let t = link.tcp_hdr(key, seg, csum, payload);
    assert(t.len() == 20 + seg.options.bytes().len()) by {
        reveal(Link::tcp_hdr);
    }
    lemma_segment_frame(link, key, seg, csum, payload);
    law_frame_roundtrip(
        link,
        key.dst.ip,
        proto::IPPROTO_TCP,
        t + payload,
        Link::tcp_vnet(key.dst.ip, seg, csum),
    );
}

} // verus!
