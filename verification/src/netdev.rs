//! Guest-side interface configuration.
//!
//! presto-pasta has no ARP/NDP responder and no DHCP: the tap
//! interface inside the sandbox namespace must carry the addresses
//! from [`Config`], default routes via the gateway addresses and
//! permanent neighbor entries for [`Config::gateway_mac`]. The requests
//! that set this up are built here, so callers do not need an `ip` binary
//! in the sandbox.

use vstd::prelude::*;

use crate::addr::IpAddr;
use crate::wire;
use crate::Config;

verus! {

/// MTU set on the tap interface: large frames let the guest emit GSO
/// aggregates that presto-pasta forwards as single writes.
pub const MTU: u32 = 65520;

/// Size of an interface name with its terminating zero (`IFNAMSIZ`).
pub const IFNAMSIZ: usize = 16;

/// Size of `struct nlmsghdr`.
pub const NLMSG_HDR_LEN: usize = 16;

// linux/netlink.h
pub const NLMSG_ERROR: u16 = 2;

/// `NLM_F_REQUEST | NLM_F_ACK | NLM_F_CREATE | NLM_F_REPLACE`.
pub const NLM_F_FLAGS: u16 = 0x505;

// linux/rtnetlink.h, linux/if_addr.h, linux/neighbour.h
pub const RTM_NEWADDR: u16 = 20;

pub const RTM_NEWROUTE: u16 = 24;

pub const RTM_NEWNEIGH: u16 = 28;

pub const IFA_ADDRESS: u16 = 1;

pub const IFA_LOCAL: u16 = 2;

pub const RTA_OIF: u16 = 4;

pub const RTA_GATEWAY: u16 = 5;

pub const NDA_DST: u16 = 1;

pub const NDA_LLADDR: u16 = 2;

pub const IFA_F_NODAD: u8 = 2;

pub const NUD_PERMANENT: u16 = 0x80;

/// `RTNH_F_ONLINK`: the gateway is reachable on the interface even
/// though it is outside the (host-width) address prefix.
pub const ONLINK: u32 = 0x4;

pub const RT_TABLE_MAIN: u8 = 254;

pub const RTPROT_BOOT: u8 = 3;

pub const RT_SCOPE_UNIVERSE: u8 = 0;

pub const RTN_UNICAST: u8 = 1;

pub const AF_INET: u8 = 2;

pub const AF_INET6: u8 = 10;

/// Byte order of the machine that runs the kernel.
#[derive(Debug, Clone, Copy, PartialEq, Eq, Structural)]
pub enum Endian {
    Little,
    Big,
}

impl Endian {
    /// A 16-bit value in this byte order.
    pub open spec fn bytes16(self, x: u16) -> Seq<u8> {
        match self {
            Endian::Little => wire::le16(x),
            Endian::Big => wire::be16(x),
        }
    }

    /// A 32-bit value in this byte order.
    pub open spec fn bytes32(self, x: u32) -> Seq<u8> {
        match self {
            Endian::Little => wire::le32(x),
            Endian::Big => wire::be32(x),
        }
    }

    /// The 16-bit value at index `i` in this byte order.
    pub open spec fn at16(self, s: Seq<u8>, i: int) -> u16 {
        match self {
            Endian::Little => wire::le16_at(s, i),
            Endian::Big => wire::be16_at(s, i),
        }
    }

    /// The 32-bit value at index `i` in this byte order.
    pub open spec fn at32(self, s: Seq<u8>, i: int) -> u32 {
        match self {
            Endian::Little => wire::le32_at(s, i),
            Endian::Big => wire::be32_at(s, i),
        }
    }

    fn push16(self, out: &mut Vec<u8>, x: u16)
        ensures
            final(out)@ == old(out)@ + self.bytes16(x),
    {
        let hi: u8 = (x / 256) as u8;
        let lo: u8 = (x % 256) as u8;
        match self {
            Endian::Little => {
                out.push(lo);
                out.push(hi);
            },
            Endian::Big => {
                out.push(hi);
                out.push(lo);
            },
        }
        assert(out@ =~= old(out)@ + self.bytes16(x));
    }

    fn push32(self, out: &mut Vec<u8>, x: u32)
        ensures
            final(out)@ == old(out)@ + self.bytes32(x),
    {
        let hi: u16 = (x / 65536) as u16;
        let lo: u16 = (x % 65536) as u16;
        match self {
            Endian::Little => {
                self.push16(out, lo);
                self.push16(out, hi);
            },
            Endian::Big => {
                self.push16(out, hi);
                self.push16(out, lo);
            },
        }
        assert(out@ =~= old(out)@ + self.bytes32(x));
    }

    fn get16(self, b: &[u8], i: usize) -> (r: u16)
        requires
            i + 2 <= b@.len(),
        ensures
            r == self.at16(b@, i as int),
    {
        assert(b.len() == b@.len());
        match self {
            Endian::Little => b[i + 1] as u16 * 256 + b[i] as u16,
            Endian::Big => b[i] as u16 * 256 + b[i + 1] as u16,
        }
    }

    fn get32(self, b: &[u8], i: usize) -> (r: u32)
        requires
            i + 4 <= b@.len(),
        ensures
            r == self.at32(b@, i as int),
    {
        assert(b.len() == b@.len());
        match self {
            Endian::Little => self.get16(b, i + 2) as u32 * 65536 + self.get16(b, i) as u32,
            Endian::Big => self.get16(b, i) as u32 * 65536 + self.get16(b, i + 2) as u32,
        }
    }
}

/// `s` filled up with zeros to a multiple of four bytes.
pub open spec fn padded(s: Seq<u8>) -> Seq<u8> {
    s + Seq::new((3 - (s.len() + 3) % 4) as nat, |i: int| 0u8)
}

/// Netlink message header: the length is filled in last.
pub open spec fn nl_hdr(e: Endian, len: u32, msg_type: u16) -> Seq<u8> {
    e.bytes32(len) + e.bytes16(msg_type) + e.bytes16(NLM_F_FLAGS) + e.bytes32(1) + e.bytes32(0)
}

/// An attribute.
pub open spec fn attr_bytes(e: Endian, kind: u16, data: Seq<u8>) -> Seq<u8> {
    e.bytes16((4 + data.len()) as u16) + e.bytes16(kind) + data
}

/// One rtnetlink request: a payload header followed by attributes,
/// serialized with the kernel's 4-byte alignment rules.
pub struct Request {
    buf: Vec<u8>,
    endian: Endian,
}

impl View for Request {
    type V = Seq<u8>;

    closed spec fn view(&self) -> Seq<u8> {
        self.buf@
    }
}

fn pad(buf: &mut Vec<u8>)
    ensures
        final(buf)@ == padded(old(buf)@),
{
    let ghost s = buf@;
    let mut k: usize = 0;
    while buf.len() % 4 != 0
        invariant
            buf@ == s + Seq::new(k as nat, |i: int| 0u8),
            k <= 3 - (s.len() + 3) % 4,
        decreases 4 - k,
    {
        buf.push(0);
        k += 1;
        assert(buf@ =~= s + Seq::new(k as nat, |i: int| 0u8));
    }
}

impl Request {
    /// Byte order of the request.
    pub closed spec fn endian(self) -> Endian {
        self.endian
    }

    /// A request of type `msg_type` with a payload header.
    #[must_use]
    pub fn new(endian: Endian, msg_type: u16, header: &[u8]) -> (r: Self)
        ensures
            r.endian() == endian,
            r@ == nl_hdr(endian, 0, msg_type) + header@,
    {
        let mut buf: Vec<u8> = Vec::new();
        // The length is fixed up in finish().
        endian.push32(&mut buf, 0);
        endian.push16(&mut buf, msg_type);
        endian.push16(&mut buf, NLM_F_FLAGS);
        endian.push32(&mut buf, 1);
        endian.push32(&mut buf, 0);
        assert(buf@ =~= nl_hdr(endian, 0, msg_type));
        buf.extend_from_slice(header);
        assert(buf@ =~= nl_hdr(endian, 0, msg_type) + header@);
        Request { buf, endian }
    }

    /// The request with one more attribute.
    #[must_use]
    pub fn attr(self, kind: u16, data: &[u8]) -> (r: Self)
        requires
            4 + data@.len() <= u16::MAX,
        ensures
            r.endian() == self.endian(),
            r@ == padded(self@) + attr_bytes(self.endian(), kind, data@),
    {
        let mut buf = self.buf;
        let endian = self.endian;
        pad(&mut buf);
        let ghost s = buf@;
        let len: u16 = 4 + data.len() as u16;
        endian.push16(&mut buf, len);
        endian.push16(&mut buf, kind);
        buf.extend_from_slice(data);
        assert(buf@ =~= s + attr_bytes(endian, kind, data@));
        Request { buf, endian }
    }

    /// The bytes to send.
    #[must_use]
    pub fn finish(self) -> (r: Vec<u8>)
        requires
            4 <= self@.len(),
            self@.len() + 3 <= u32::MAX,
        ensures
            r@ == wire::splice(
                padded(self@),
                0,
                self.endian().bytes32(padded(self@).len() as u32),
            ),
    {
        let mut buf = self.buf;
        let endian = self.endian;
        pad(&mut buf);
        let ghost s = buf@;
        let len: u32 = buf.len() as u32;
        let mut field: Vec<u8> = Vec::new();
        endian.push32(&mut field, len);
        assert(field@ =~= endian.bytes32(len));
        buf[0] = field[0];
        buf[1] = field[1];
        buf[2] = field[2];
        buf[3] = field[3];
        assert(buf@ =~= wire::splice(s, 0, endian.bytes32(len)));
        buf
    }
}

/// An address as the bytes of an attribute.
pub open spec fn spec_ip_bytes(ip: IpAddr) -> Seq<u8> {
    match ip {
        IpAddr::V4(a) => a.octets@,
        IpAddr::V6(a) => a.octets@,
    }
}

/// An address as the bytes of an attribute.
#[must_use]
pub fn ip_bytes(ip: IpAddr) -> (r: Vec<u8>)
    ensures
        r@ == spec_ip_bytes(ip),
{
    let mut r: Vec<u8> = Vec::new();
    match ip {
        IpAddr::V4(a) => r.extend_from_slice(a.octets.as_slice()),
        IpAddr::V6(a) => r.extend_from_slice(a.octets.as_slice()),
    }
    assert(r@ =~= spec_ip_bytes(ip));
    r
}

/// Address family number.
pub open spec fn spec_family(ip: IpAddr) -> u8 {
    match ip {
        IpAddr::V4(_) => AF_INET,
        IpAddr::V6(_) => AF_INET6,
    }
}

/// Address family number.
#[must_use]
pub fn family(ip: IpAddr) -> (r: u8)
    ensures
        r == spec_family(ip),
{
    match ip {
        IpAddr::V4(_) => AF_INET,
        IpAddr::V6(_) => AF_INET6,
    }
}

/// A finished request with two attributes.
pub open spec fn request(
    e: Endian,
    msg_type: u16,
    header: Seq<u8>,
    kind1: u16,
    data1: Seq<u8>,
    kind2: u16,
    data2: Seq<u8>,
) -> Seq<u8> {
    let body = padded(nl_hdr(e, 0, msg_type) + header) + attr_bytes(e, kind1, data1);
    let all = padded(padded(body) + attr_bytes(e, kind2, data2));
    wire::splice(all, 0, e.bytes32(all.len() as u32))
}

fn build(
    e: Endian,
    msg_type: u16,
    header: &[u8],
    kind1: u16,
    data1: &[u8],
    kind2: u16,
    data2: &[u8],
) -> (r: Vec<u8>)
    requires
        header@.len() <= 64,
        data1@.len() <= 64,
        data2@.len() <= 64,
    ensures
        r@ == request(e, msg_type, header@, kind1, data1@, kind2, data2@),
{
    Request::new(e, msg_type, header).attr(kind1, data1).attr(kind2, data2).finish()
}

/// `struct ifaddrmsg` of a host-width address; duplicate address detection
/// is off for IPv6.
pub open spec fn ifaddr_bytes(e: Endian, ifindex: u32, ip: IpAddr) -> Seq<u8> {
    seq![
        spec_family(ip),
        if ip is V4 {
            32u8
        } else {
            128u8
        },
        if ip is V4 {
            0u8
        } else {
            IFA_F_NODAD
        },
        RT_SCOPE_UNIVERSE,
    ] + e.bytes32(ifindex)
}

/// `struct rtmsg` of a default route.
pub open spec fn route_bytes(e: Endian, gateway: IpAddr) -> Seq<u8> {
    seq![
        spec_family(gateway),
        0u8,
        0u8,
        0u8,
        RT_TABLE_MAIN,
        RTPROT_BOOT,
        RT_SCOPE_UNIVERSE,
        RTN_UNICAST,
    ] + e.bytes32(ONLINK)
}

/// `struct ndmsg` of a permanent neighbor entry.
pub open spec fn neighbor_bytes(e: Endian, ifindex: u32, gateway: IpAddr) -> Seq<u8> {
    seq![spec_family(gateway), 0u8, 0u8, 0u8] + e.bytes32(ifindex) + e.bytes16(NUD_PERMANENT)
        + seq![0u8, 0u8]
}

/// The request that assigns an address.
pub open spec fn spec_add_addr(e: Endian, ifindex: u32, ip: IpAddr) -> Seq<u8> {
    request(
        e,
        RTM_NEWADDR,
        ifaddr_bytes(e, ifindex, ip),
        IFA_LOCAL,
        spec_ip_bytes(ip),
        IFA_ADDRESS,
        spec_ip_bytes(ip),
    )
}

/// The request that adds an onlink default route.
pub open spec fn spec_add_default_route(e: Endian, ifindex: u32, gateway: IpAddr) -> Seq<u8> {
    request(
        e,
        RTM_NEWROUTE,
        route_bytes(e, gateway),
        RTA_GATEWAY,
        spec_ip_bytes(gateway),
        RTA_OIF,
        e.bytes32(ifindex),
    )
}

/// The request that adds a permanent neighbor entry.
pub open spec fn spec_add_neighbor(
    e: Endian,
    ifindex: u32,
    gateway: IpAddr,
    mac: [u8; 6],
) -> Seq<u8> {
    request(
        e,
        RTM_NEWNEIGH,
        neighbor_bytes(e, ifindex, gateway),
        NDA_DST,
        spec_ip_bytes(gateway),
        NDA_LLADDR,
        mac@,
    )
}

/// The request that assigns an address.
#[must_use]
pub fn add_addr(e: Endian, ifindex: u32, ip: IpAddr) -> (r: Vec<u8>)
    ensures
        r@ == spec_add_addr(e, ifindex, ip),
{
    let v4 = ip.is_ipv4();
    let mut hdr: Vec<u8> = Vec::new();
    hdr.push(family(ip));
    hdr.push(
        if v4 {
            32
        } else {
            128
        },
    );
    hdr.push(
        if v4 {
            0
        } else {
            IFA_F_NODAD
        },
    );
    hdr.push(RT_SCOPE_UNIVERSE);
    e.push32(&mut hdr, ifindex);
    assert(hdr@ =~= ifaddr_bytes(e, ifindex, ip));
    let bytes = ip_bytes(ip);
    build(
        e,
        RTM_NEWADDR,
        hdr.as_slice(),
        IFA_LOCAL,
        bytes.as_slice(),
        IFA_ADDRESS,
        bytes.as_slice(),
    )
}

/// The request that adds an onlink default route.
#[must_use]
pub fn add_default_route(e: Endian, ifindex: u32, gateway: IpAddr) -> (r: Vec<u8>)
    ensures
        r@ == spec_add_default_route(e, ifindex, gateway),
{
    let mut hdr: Vec<u8> = Vec::new();
    hdr.push(family(gateway));
    hdr.push(0);
    hdr.push(0);
    hdr.push(0);
    hdr.push(RT_TABLE_MAIN);
    hdr.push(RTPROT_BOOT);
    hdr.push(RT_SCOPE_UNIVERSE);
    hdr.push(RTN_UNICAST);
    e.push32(&mut hdr, ONLINK);
    assert(hdr@ =~= route_bytes(e, gateway));
    let mut oif: Vec<u8> = Vec::new();
    e.push32(&mut oif, ifindex);
    assert(oif@ =~= e.bytes32(ifindex));
    build(
        e,
        RTM_NEWROUTE,
        hdr.as_slice(),
        RTA_GATEWAY,
        ip_bytes(gateway).as_slice(),
        RTA_OIF,
        oif.as_slice(),
    )
}

/// The request that adds a permanent neighbor entry.
#[must_use]
pub fn add_neighbor(e: Endian, ifindex: u32, gateway: IpAddr, mac: [u8; 6]) -> (r: Vec<u8>)
    ensures
        r@ == spec_add_neighbor(e, ifindex, gateway, mac),
{
    let mut hdr: Vec<u8> = Vec::new();
    hdr.push(family(gateway));
    hdr.push(0);
    hdr.push(0);
    hdr.push(0);
    e.push32(&mut hdr, ifindex);
    e.push16(&mut hdr, NUD_PERMANENT);
    hdr.push(0);
    hdr.push(0);
    assert(hdr@ =~= neighbor_bytes(e, ifindex, gateway));
    build(
        e,
        RTM_NEWNEIGH,
        hdr.as_slice(),
        NDA_DST,
        ip_bytes(gateway).as_slice(),
        NDA_LLADDR,
        mac.as_slice(),
    )
}

/// The requests that configure the interface, in order: for IPv4 and then
/// for IPv6 the guest's address, the gateway's neighbor entry and the
/// default route.
pub open spec fn spec_configure(e: Endian, ifindex: u32, cfg: Config) -> Seq<Seq<u8>> {
    let guest4 = IpAddr::V4(cfg.guest4);
    let gateway4 = IpAddr::V4(cfg.gateway4);
    let guest6 = IpAddr::V6(cfg.guest6);
    let gateway6 = IpAddr::V6(cfg.gateway6);
    seq![
        spec_add_addr(e, ifindex, guest4),
        spec_add_neighbor(e, ifindex, gateway4, cfg.gateway_mac),
        spec_add_default_route(e, ifindex, gateway4),
        spec_add_addr(e, ifindex, guest6),
        spec_add_neighbor(e, ifindex, gateway6, cfg.gateway_mac),
        spec_add_default_route(e, ifindex, gateway6),
    ]
}

/// The requests that configure the tap interface inside the sandbox
/// namespace to match `cfg`: the guest addresses (host-width prefixes),
/// permanent neighbor entries for the gateway MAC and onlink default
/// routes via the gateway addresses.
#[must_use]
pub fn configure(e: Endian, ifindex: u32, cfg: &Config) -> (r: Vec<Vec<u8>>)
    ensures
        r@.len() == 6,
        forall|i: int|
            0 <= i < 6 ==> (#[trigger] r@[i])@ == spec_configure(e, ifindex, *cfg)[i],
{
    let guest4 = IpAddr::V4(cfg.guest4);
    let gateway4 = IpAddr::V4(cfg.gateway4);
    let guest6 = IpAddr::V6(cfg.guest6);
    let gateway6 = IpAddr::V6(cfg.gateway6);
    let mut r: Vec<Vec<u8>> = Vec::new();
    r.push(add_addr(e, ifindex, guest4));
    r.push(add_neighbor(e, ifindex, gateway4, cfg.gateway_mac));
    r.push(add_default_route(e, ifindex, gateway4));
    r.push(add_addr(e, ifindex, guest6));
    r.push(add_neighbor(e, ifindex, gateway6, cfg.gateway_mac));
    r.push(add_default_route(e, ifindex, gateway6));
    r
}

/// Why a request was not acknowledged.
#[derive(Debug, Clone, Copy, PartialEq, Eq)]
pub enum NetlinkError {
    /// The reply is too short for an error message.
    Short,
    /// The reply is something else than an error message.
    UnexpectedType,
    /// The kernel refused the request with this error number.
    Os(i32),
}

/// Outcome of a request from the kernel's reply.
pub open spec fn spec_parse_ack(e: Endian, reply: Seq<u8>) -> Result<(), NetlinkError> {
    if reply.len() < NLMSG_HDR_LEN + 4 {
        Err(NetlinkError::Short)
    } else if e.at16(reply, 4) != NLMSG_ERROR {
        Err(NetlinkError::UnexpectedType)
    } else if e.at32(reply, 16) == 0 {
        Ok(())
    } else {
        // The kernel sends the negated error number.
        Err(NetlinkError::Os(((0x1_0000_0000 - e.at32(reply, 16)) as u32) as i32))
    }
}

/// Outcome of a request from the kernel's reply.
pub fn parse_ack(e: Endian, reply: &[u8]) -> (r: Result<(), NetlinkError>)
    ensures
        r == spec_parse_ack(e, reply@),
{
    if reply.len() < NLMSG_HDR_LEN + 4 {
        return Err(NetlinkError::Short);
    }
    if e.get16(reply, 4) != NLMSG_ERROR {
        return Err(NetlinkError::UnexpectedType);
    }
    let code: u32 = e.get32(reply, NLMSG_HDR_LEN);
    if code == 0 {
        return Ok(());
    }
    let errno: u32 = (0x1_0000_0000u64 - code as u64) as u32;
    Err(NetlinkError::Os(errno as i32))
}

/// An interface name as the kernel takes it: at most 15 bytes, filled up
/// with zeros.
pub open spec fn name_field(name: Seq<u8>) -> Seq<u8> {
    name + Seq::new((IFNAMSIZ - name.len()) as nat, |i: int| 0u8)
}

/// An interface name as the kernel takes it; `None` if it is too long.
#[must_use]
pub fn interface_name(name: &[u8]) -> (r: Option<[u8; 16]>)
    ensures
        match r {
            Some(f) => name@.len() < IFNAMSIZ && f@ == name_field(name@),
            None => name@.len() >= IFNAMSIZ,
        },
{
    let n: usize = name.len();
    if n >= IFNAMSIZ {
        return None;
    }
    let mut f = [0u8; 16];
    let mut i: usize = 0;
    while i < n
        invariant
            i <= n == name@.len(),
            n < IFNAMSIZ,
            forall|j: int| 0 <= j < i ==> #[trigger] f@[j] == name@[j],
            forall|j: int| i <= j < 16 ==> #[trigger] f@[j] == 0,
        decreases n - i,
    {
        f[i] = name[i];
        i += 1;
    }
    assert(f@ =~= name_field(name@));
    Some(f)
}

/// Padding keeps what is there and ends at a multiple of four.
proof fn lemma_padded(s: Seq<u8>)
    ensures
        padded(s).len() % 4 == 0,
        s.len() <= padded(s).len() <= s.len() + 3,
        forall|i: int| 0 <= i < s.len() ==> #[trigger] padded(s)[i] == s[i],
{
}

/// The encodings of a value have their width and read back as it.
proof fn lemma_endian(e: Endian, x: u32, y: u16)
    ensures
        e.bytes32(x).len() == 4,
        e.at32(e.bytes32(x), 0) == x,
        e.bytes16(y).len() == 2,
        e.at16(e.bytes16(y), 0) == y,
{
    wire::lemma_be32(x);
    wire::lemma_le32(x);
    wire::lemma_be16(y);
    wire::lemma_le16(y);
}

/// A request's length field says its length, which is a multiple of four,
/// and its type field says its type.
pub proof fn law_request_length(
    e: Endian,
    msg_type: u16,
    header: Seq<u8>,
    kind1: u16,
    data1: Seq<u8>,
    kind2: u16,
    data2: Seq<u8>,
)
    requires
        header.len() + data1.len() + data2.len() <= 0x1_0000,
    ensures
        ({
            let r = request(e, msg_type, header, kind1, data1, kind2, data2);
            &&& r.len() % 4 == 0
            &&& e.at32(r, 0) == r.len()
            &&& e.at16(r, 4) == msg_type
        }),
{
    let hdr = nl_hdr(e, 0, msg_type);
    let a = padded(hdr + header);
    let b = a + attr_bytes(e, kind1, data1);
    let c = padded(b) + attr_bytes(e, kind2, data2);
    let all = padded(c);
    let f = e.bytes32(all.len() as u32);
    let r = request(e, msg_type, header, kind1, data1, kind2, data2);
    let t = e.bytes16(msg_type);
    lemma_endian(e, 0, msg_type);
    lemma_endian(e, 1, NLM_F_FLAGS);
    assert(hdr.len() == 16);
    assert(hdr[4] == t[0] && hdr[5] == t[1]);
    lemma_padded(hdr + header);
    lemma_padded(b);
    lemma_padded(c);
    assert(all[4] == t[0] && all[5] == t[1]);
    lemma_endian(e, 0, (4 + data1.len()) as u16);
    lemma_endian(e, 0, (4 + data2.len()) as u16);
    lemma_endian(e, 0, kind1);
    lemma_endian(e, 0, kind2);
    assert(attr_bytes(e, kind1, data1).len() == 4 + data1.len());
    assert(attr_bytes(e, kind2, data2).len() == 4 + data2.len());
    lemma_endian(e, all.len() as u32, msg_type);
    wire::lemma_splice(all, 0, f);
    assert(r[0] == f[0] && r[1] == f[1] && r[2] == f[2] && r[3] == f[3]);
    assert(r[4] == t[0] && r[5] == t[1]);
}

/// What the kernel sends when it refuses a request with an error number
/// from 1 to 4095 is reported as that number.
pub proof fn law_refusal_reported(e: Endian, errno: i32, reply: Seq<u8>)
    requires
        0 < errno <= 4095,
        reply.len() >= 20,
        e.at16(reply, 4) == NLMSG_ERROR,
        e.at32(reply, 16) == 0x1_0000_0000 - errno,
    ensures
        spec_parse_ack(e, reply) == Err::<(), NetlinkError>(NetlinkError::Os(errno)),
{
}

/// Length that `n` bytes take with their padding.
pub open spec fn whole_words(n: nat) -> int {
    (n + 3) as int / 4 * 4
}

/// A value read at `i` where its encoding stands.
proof fn lemma_reads(e: Endian, r: Seq<u8>, i: int, x: u32, y: u16)
    requires
        0 <= i,
    ensures
        i + 4 <= r.len() && r.subrange(i, i + 4) == e.bytes32(x) ==> e.at32(r, i) == x,
        i + 2 <= r.len() && r.subrange(i, i + 2) == e.bytes16(y) ==> e.at16(r, i) == y,
{
    lemma_endian(e, x, y);
    if i + 4 <= r.len() && r.subrange(i, i + 4) == e.bytes32(x) {
        let s = r.subrange(i, i + 4);
        assert(s[0] == r[i] && s[1] == r[i + 1] && s[2] == r[i + 2] && s[3] == r[i + 3]);
    }
    if i + 2 <= r.len() && r.subrange(i, i + 2) == e.bytes16(y) {
        let s = r.subrange(i, i + 2);
        assert(s[0] == r[i] && s[1] == r[i + 1]);
    }
}

/// Attribute `kind` with `data` stands at `i` of `r`.
pub open spec fn attr_at(e: Endian, r: Seq<u8>, i: int, kind: u16, data: Seq<u8>) -> bool {
    &&& i % 4 == 0
    &&& i + 4 + data.len() <= r.len()
    &&& e.at16(r, i) == 4 + data.len()
    &&& e.at16(r, i + 2) == kind
    &&& r.subrange(i + 4, i + 4 + data.len()) == data
}

/// Where the parts of a message stand that is put together from a header of
/// 16 bytes, a fixed header, and two attributes.
proof fn lemma_message_parts(
    h: Seq<u8>,
    header: Seq<u8>,
    a1: Seq<u8>,
    a2: Seq<u8>,
    f: Seq<u8>,
)
    requires
        h.len() == 16,
        header.len() % 4 == 0,
        f.len() == 4,
    ensures
        ({
            let all = padded(padded(padded(h + header) + a1) + a2);
            let r = wire::splice(all, 0, f);
            let a = (16 + header.len()) as int;
            let b = a + whole_words(a1.len());
            &&& all.len() == r.len() && r.len() == b + whole_words(a2.len())
            &&& r.subrange(0, 4) == f
            &&& r.subrange(4, 16) == h.subrange(4, 16)
            &&& r.subrange(16, a) == header
            &&& r.subrange(a, a + a1.len()) == a1
            &&& r.subrange(b, b + a2.len()) == a2
        }),
{
    let front = h + header;
    assert(padded(front) =~= front);
    let body = front + a1;
    let all = padded(padded(body) + a2);
    let r = wire::splice(all, 0, f);
    let a = (16 + header.len()) as int;
    let b = a + whole_words(a1.len());
    assert(padded(body).len() == b);
    assert(all.len() == b + whole_words(a2.len()));
    wire::lemma_splice(all, 0, f);
    assert(r.subrange(4, 16) =~= h.subrange(4, 16));
    assert(r.subrange(16, a) =~= header);
    assert(r.subrange(a, a + a1.len()) =~= a1);
    assert(r.subrange(b, b + a2.len()) =~= a2);
}

/// An attribute's bytes read as the attribute.
proof fn lemma_attr_at(e: Endian, r: Seq<u8>, i: int, kind: u16, data: Seq<u8>)
    requires
        0 <= i,
        i % 4 == 0,
        data.len() <= 64,
        i + 4 + data.len() <= r.len(),
        r.subrange(i, i + 4 + data.len()) == attr_bytes(e, kind, data),
    ensures
        attr_at(e, r, i, kind, data),
{
    let s = attr_bytes(e, kind, data);
    let n = (4 + data.len()) as u16;
    lemma_endian(e, 0, n);
    lemma_endian(e, 0, kind);
    assert(s.subrange(0, 2) =~= e.bytes16(n));
    assert(s.subrange(2, 4) =~= e.bytes16(kind));
    assert(s.subrange(4, 4 + data.len() as int) =~= data);
    assert(r.subrange(i, i + 2) =~= s.subrange(0, 2));
    assert(r.subrange(i + 2, i + 4) =~= s.subrange(2, 4));
    assert(r.subrange(i + 4, i + 4 + data.len()) =~= s.subrange(4, 4 + data.len() as int));
    lemma_reads(e, r, i, 0, n);
    lemma_reads(e, r, i + 2, 0, kind);
}

/// The fields of a message header behind its length.
proof fn lemma_header_fields(e: Endian, r: Seq<u8>, msg_type: u16)
    requires
        r.len() >= 16,
        r.subrange(4, 16) == nl_hdr(e, 0, msg_type).subrange(4, 16),
    ensures
        e.at16(r, 4) == msg_type,
        e.at16(r, 6) == 0x505,
        e.at32(r, 8) == 1,
        e.at32(r, 12) == 0,
        nl_hdr(e, 0, msg_type).len() == 16,
{
    let h = nl_hdr(e, 0, msg_type);
    lemma_endian(e, 0, msg_type);
    lemma_endian(e, 1, 0x505);
    let s = r.subrange(4, 16);
    assert(h.subrange(4, 6) =~= e.bytes16(msg_type));
    assert(h.subrange(6, 8) =~= e.bytes16(0x505));
    assert(h.subrange(8, 12) =~= e.bytes32(1));
    assert(h.subrange(12, 16) =~= e.bytes32(0));
    let t = h.subrange(4, 16);
    assert(r.subrange(4, 6) =~= s.subrange(0, 2) && t.subrange(0, 2) =~= h.subrange(4, 6));
    assert(r.subrange(6, 8) =~= s.subrange(2, 4) && t.subrange(2, 4) =~= h.subrange(6, 8));
    assert(r.subrange(8, 12) =~= s.subrange(4, 8) && t.subrange(4, 8) =~= h.subrange(8, 12));
    assert(r.subrange(12, 16) =~= s.subrange(8, 12) && t.subrange(8, 12) =~= h.subrange(12, 16));
    lemma_reads(e, r, 4, 0, msg_type);
    lemma_reads(e, r, 6, 0, 0x505);
    lemma_reads(e, r, 8, 1, 0);
    lemma_reads(e, r, 12, 0, 0);
}

/// The message `r` reads as: its own length, the type `msg_type`, flags that
/// ask for the object to be made and for an acknowledgement, sequence number
/// one, the fixed header `header`, and the two attributes one after the
/// other, each at a word boundary.
pub open spec fn reads_as(
    e: Endian,
    r: Seq<u8>,
    msg_type: u16,
    header: Seq<u8>,
    kind1: u16,
    data1: Seq<u8>,
    kind2: u16,
    data2: Seq<u8>,
) -> bool {
    let a = (16 + header.len()) as int;
    let b = a + whole_words(4 + data1.len());
    &&& e.at32(r, 0) == r.len() && r.len() == b + whole_words(4 + data2.len())
    &&& e.at16(r, 4) == msg_type && e.at16(r, 6) == 0x505
    &&& e.at32(r, 8) == 1 && e.at32(r, 12) == 0
    &&& r.subrange(16, a) == header
    &&& attr_at(e, r, a, kind1, data1)
    &&& attr_at(e, r, b, kind2, data2)
}

/// A message whose parts stand where they should reads as them.
proof fn lemma_reads_as(
    e: Endian,
    r: Seq<u8>,
    msg_type: u16,
    header: Seq<u8>,
    kind1: u16,
    data1: Seq<u8>,
    kind2: u16,
    data2: Seq<u8>,
)
    requires
        header.len() % 4 == 0,
        data1.len() <= 64,
        data2.len() <= 64,
        r.len() <= u32::MAX,
        r.len() == 16 + header.len() + whole_words(4 + data1.len()) + whole_words(
            4 + data2.len(),
        ),
        r.subrange(0, 4) == e.bytes32(r.len() as u32),
        r.subrange(4, 16) == nl_hdr(e, 0, msg_type).subrange(4, 16),
        ({
            let a = (16 + header.len()) as int;
            let b = a + whole_words(4 + data1.len());
            &&& r.subrange(16, a) == header
            &&& r.subrange(a, a + 4 + data1.len()) == attr_bytes(e, kind1, data1)
            &&& r.subrange(b, b + 4 + data2.len()) == attr_bytes(e, kind2, data2)
        }),
    ensures
        reads_as(e, r, msg_type, header, kind1, data1, kind2, data2),
{
    let a = (16 + header.len()) as int;
    lemma_reads(e, r, 0, r.len() as u32, 0);
    lemma_header_fields(e, r, msg_type);
    lemma_attr_at(e, r, a, kind1, data1);
    lemma_attr_at(e, r, a + whole_words(4 + data1.len()), kind2, data2);
}

/// A request reads as what was put into it.
pub proof fn law_request_contents(
    e: Endian,
    msg_type: u16,
    header: Seq<u8>,
    kind1: u16,
    data1: Seq<u8>,
    kind2: u16,
    data2: Seq<u8>,
)
    requires
        header.len() % 4 == 0,
        header.len() <= 64,
        data1.len() <= 64,
        data2.len() <= 64,
    ensures
        reads_as(
            e,
            request(e, msg_type, header, kind1, data1, kind2, data2),
            msg_type,
            header,
            kind1,
            data1,
            kind2,
            data2,
        ),
{
    let r = request(e, msg_type, header, kind1, data1, kind2, data2);
    let h = nl_hdr(e, 0, msg_type);
    let a1 = attr_bytes(e, kind1, data1);
    let a2 = attr_bytes(e, kind2, data2);
    lemma_endian(e, 0, msg_type);
    lemma_endian(e, 1, NLM_F_FLAGS);
    assert(h.len() == 16);
    lemma_attr_len(e, kind1, data1);
    lemma_attr_len(e, kind2, data2);
    let all = padded(padded(padded(h + header) + a1) + a2);
    let f = e.bytes32(all.len() as u32);
    lemma_endian(e, all.len() as u32, 0);
    lemma_message_parts(h, header, a1, a2, f);
    lemma_reads_as(e, r, msg_type, header, kind1, data1, kind2, data2);
}

/// Length of an attribute.
proof fn lemma_attr_len(e: Endian, kind: u16, data: Seq<u8>)
    ensures
        attr_bytes(e, kind, data).len() == 4 + data.len(),
{
    lemma_endian(e, 0, (4 + data.len()) as u16);
    lemma_endian(e, 0, kind);
}

/// Bytes of an address.
pub open spec fn octets(ip: IpAddr) -> Seq<u8> {
    match ip {
        IpAddr::V4(a) => a.octets@,
        IpAddr::V6(a) => a.octets@,
    }
}

/// Number of the address family of `ip`.
pub open spec fn family_of(ip: IpAddr) -> u8 {
    if ip is V4 {
        2
    } else {
        10
    }
}

/// The fixed header of a message, byte by byte and word by word.
proof fn lemma_fixed_header(e: Endian, r: Seq<u8>, h: Seq<u8>)
    requires
        h.len() >= 8,
        16 + h.len() <= r.len(),
        r.subrange(16, (16 + h.len()) as int) == h,
    ensures
        forall|i: int| 0 <= i < h.len() ==> #[trigger] h[i] == r[16 + i],
        r.subrange(20, 24) == h.subrange(4, 8),
        h.len() == 12 ==> r.subrange(24, 28) == h.subrange(8, 12) && r.subrange(24, 26)
            == h.subrange(8, 10),
{
    let s = r.subrange(16, (16 + h.len()) as int);
    assert forall|i: int| 0 <= i < h.len() implies #[trigger] h[i] == r[16 + i] by {
        assert(s[i] == r[16 + i]);
    }
    assert(r.subrange(20, 24) =~= h.subrange(4, 8));
    if h.len() == 12 {
        assert(r.subrange(24, 28) =~= h.subrange(8, 12));
        assert(r.subrange(24, 26) =~= h.subrange(8, 10));
    }
}

/// The message `r` asks for the address `ip`, as a host address of its
/// family, on interface `ifindex`, for IPv6 without duplicate address
/// detection.
pub open spec fn asks_for_addr(e: Endian, r: Seq<u8>, ifindex: u32, ip: IpAddr) -> bool {
    let n = octets(ip).len() as int;
    &&& e.at32(r, 0) == r.len() && r.len() == 24 + (4 + n) + (4 + n)
    &&& e.at16(r, 4) == 20 && e.at16(r, 6) == 0x505
    &&& r[16] == family_of(ip) && r[17] == 8 * n
    &&& r[18] == (if ip is V4 {
        0u8
    } else {
        2u8
    }) && r[19] == 0
    &&& e.at32(r, 20) == ifindex
    &&& attr_at(e, r, 24, 2, octets(ip))
    &&& attr_at(e, r, 28 + n, 1, octets(ip))
}

proof fn lemma_asks_for_addr(e: Endian, r: Seq<u8>, ifindex: u32, ip: IpAddr)
    requires
        reads_as(e, r, 20, ifaddr_bytes(e, ifindex, ip), 2, octets(ip), 1, octets(ip)),
    ensures
        asks_for_addr(e, r, ifindex, ip),
{
    let h = ifaddr_bytes(e, ifindex, ip);
    lemma_endian(e, ifindex, 0);
    assert(h.subrange(4, 8) =~= e.bytes32(ifindex));
    lemma_fixed_header(e, r, h);
    assert(h[0] == r[16] && h[1] == r[17] && h[2] == r[18] && h[3] == r[19]);
    lemma_reads(e, r, 20, ifindex, 0);
}

/// Adding an address asks for exactly that address.
pub proof fn law_add_addr(e: Endian, ifindex: u32, ip: IpAddr)
    ensures
        asks_for_addr(e, spec_add_addr(e, ifindex, ip), ifindex, ip),
{
    let h = ifaddr_bytes(e, ifindex, ip);
    lemma_endian(e, ifindex, 0);
    assert(h.len() == 8);
    law_request_contents(e, 20, h, 2, octets(ip), 1, octets(ip));
    lemma_asks_for_addr(e, spec_add_addr(e, ifindex, ip), ifindex, ip);
}

/// The message `r` asks for a route through `ip` on interface `ifindex`, for
/// all destinations of its family, in the main table, on link.
pub open spec fn asks_for_route(e: Endian, r: Seq<u8>, ifindex: u32, ip: IpAddr) -> bool {
    let n = octets(ip).len() as int;
    &&& e.at32(r, 0) == r.len() && r.len() == 28 + (4 + n) + 8
    &&& e.at16(r, 4) == 24 && e.at16(r, 6) == 0x505
    &&& r[16] == family_of(ip) && r[17] == 0 && r[18] == 0 && r[19] == 0
    &&& r[20] == 254 && r[21] == 3 && r[22] == 0 && r[23] == 1
    &&& e.at32(r, 24) == 4
    &&& attr_at(e, r, 28, 5, octets(ip))
    &&& attr_at(e, r, 32 + n, 4, e.bytes32(ifindex))
}

proof fn lemma_asks_for_route(e: Endian, r: Seq<u8>, ifindex: u32, ip: IpAddr)
    requires
        reads_as(e, r, 24, route_bytes(e, ip), 5, octets(ip), 4, e.bytes32(ifindex)),
    ensures
        asks_for_route(e, r, ifindex, ip),
{
    let h = route_bytes(e, ip);
    lemma_endian(e, ifindex, 0);
    lemma_endian(e, 4, 0);
    assert(h.subrange(8, 12) =~= e.bytes32(4));
    lemma_fixed_header(e, r, h);
    assert(h[0] == r[16] && h[1] == r[17] && h[2] == r[18] && h[3] == r[19]);
    assert(h[4] == r[20] && h[5] == r[21] && h[6] == r[22] && h[7] == r[23]);
    lemma_reads(e, r, 24, 4, 0);
}

/// Adding a default route asks for exactly that gateway.
pub proof fn law_add_route(e: Endian, ifindex: u32, ip: IpAddr)
    ensures
        asks_for_route(e, spec_add_default_route(e, ifindex, ip), ifindex, ip),
{
    let h = route_bytes(e, ip);
    lemma_endian(e, ifindex, 0);
    lemma_endian(e, 4, 0);
    assert(h.len() == 12);
    law_request_contents(e, 24, h, 5, octets(ip), 4, e.bytes32(ifindex));
    lemma_asks_for_route(e, spec_add_default_route(e, ifindex, ip), ifindex, ip);
}

/// The message `r` asks for a permanent neighbor `ip` with the hardware
/// address `mac` on interface `ifindex`.
pub open spec fn asks_for_neighbor(
    e: Endian,
    r: Seq<u8>,
    ifindex: u32,
    ip: IpAddr,
    mac: Seq<u8>,
) -> bool {
    let n = octets(ip).len() as int;
    &&& e.at32(r, 0) == r.len() && r.len() == 28 + (4 + n) + 12
    &&& e.at16(r, 4) == 28 && e.at16(r, 6) == 0x505
    &&& r[16] == family_of(ip) && r[17] == 0 && r[18] == 0 && r[19] == 0
    &&& e.at32(r, 20) == ifindex
    &&& e.at16(r, 24) == 0x80 && r[26] == 0 && r[27] == 0
    &&& attr_at(e, r, 28, 1, octets(ip))
    &&& attr_at(e, r, 32 + n, 2, mac)
}

proof fn lemma_asks_for_neighbor(
    e: Endian,
    r: Seq<u8>,
    ifindex: u32,
    ip: IpAddr,
    mac: Seq<u8>,
)
    requires
        mac.len() == 6,
        reads_as(e, r, 28, neighbor_bytes(e, ifindex, ip), 1, octets(ip), 2, mac),
    ensures
        asks_for_neighbor(e, r, ifindex, ip, mac),
{
    let h = neighbor_bytes(e, ifindex, ip);
    lemma_endian(e, ifindex, 0x80);
    assert(h.subrange(4, 8) =~= e.bytes32(ifindex));
    assert(h.subrange(8, 10) =~= e.bytes16(0x80));
    lemma_fixed_header(e, r, h);
    assert(h[0] == r[16] && h[1] == r[17] && h[2] == r[18] && h[3] == r[19]);
    assert(h[10] == r[26] && h[11] == r[27]);
    lemma_reads(e, r, 20, ifindex, 0);
    lemma_reads(e, r, 24, 0, 0x80);
}

/// Adding a neighbor asks for exactly that entry.
pub proof fn law_add_neighbor(e: Endian, ifindex: u32, ip: IpAddr, mac: [u8; 6])
    ensures
        asks_for_neighbor(e, spec_add_neighbor(e, ifindex, ip, mac), ifindex, ip, mac@),
{
    let h = neighbor_bytes(e, ifindex, ip);
    lemma_endian(e, ifindex, 0x80);
    assert(h.len() == 12);
    law_request_contents(e, 28, h, 1, octets(ip), 2, mac@);
    lemma_asks_for_neighbor(e, spec_add_neighbor(e, ifindex, ip, mac), ifindex, ip, mac@);
}

/// Configuring the interface asks for the guest's address, then the
/// gateway's hardware address, then the route through it, for IPv4 and then
/// for IPv6.
pub proof fn law_configure(e: Endian, ifindex: u32, cfg: Config)
    ensures
        ({
            let r = spec_configure(e, ifindex, cfg);
            let v4 = IpAddr::V4(cfg.gateway4);
            let v6 = IpAddr::V6(cfg.gateway6);
            &&& r.len() == 6
            &&& r[0] == spec_add_addr(e, ifindex, IpAddr::V4(cfg.guest4))
            &&& r[1] == spec_add_neighbor(e, ifindex, v4, cfg.gateway_mac)
            &&& r[2] == spec_add_default_route(e, ifindex, v4)
            &&& r[3] == spec_add_addr(e, ifindex, IpAddr::V6(cfg.guest6))
            &&& r[4] == spec_add_neighbor(e, ifindex, v6, cfg.gateway_mac)
            &&& r[5] == spec_add_default_route(e, ifindex, v6)
        }),
{
}

/// What the kernel's reply says: a reply too short for an error code is
/// none, one of another type is unexpected, and a request went through
/// exactly where the code is zero.
pub proof fn law_acknowledgement(e: Endian, reply: Seq<u8>)
    ensures
        spec_parse_ack(e, reply) is Ok <==> reply.len() >= 20 && e.at16(reply, 4) == 2 && e.at32(
            reply,
            16,
        ) == 0,
        spec_parse_ack(e, reply) == Err::<(), NetlinkError>(NetlinkError::Short) <==> reply.len()
            < 20,
        spec_parse_ack(e, reply) == Err::<(), NetlinkError>(NetlinkError::UnexpectedType)
            <==> reply.len() >= 20 && e.at16(reply, 4) != 2,
{
}

/// An interface name keeps its bytes and ends in zeros.
pub proof fn law_name_field(name: Seq<u8>, i: int)
    requires
        name.len() < 16,
        0 <= i < 16,
    ensures
        name_field(name).len() == 16,
        name_field(name)[i] == (if i < name.len() {
            name[i]
        } else {
            0
        }),
{
}

} // verus!
