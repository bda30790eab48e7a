//! Wire formats: ethernet, IPv4/IPv6, TCP/UDP/ICMP header views and
//! builders, plus the internet checksum for the no-offload fallback.

use vstd::prelude::*;

pub mod tcp;

use crate::addr;
use crate::addr::{get_v4, get_v6, Ipv4Addr, Ipv6Addr};
use crate::wire;
use crate::wire::{get_be16, put, put_be16};

verus! {

pub const ETH_LEN: usize = 14;

pub const ETHERTYPE_IPV4: u16 = 0x0800;

pub const ETHERTYPE_IPV6: u16 = 0x86dd;

pub const IPV4_HDR_LEN: usize = 20;

pub const IPV6_HDR_LEN: usize = 40;

pub const UDP_HDR_LEN: usize = 8;

pub const TCP_HDR_LEN: usize = 20;

pub const ICMP_HDR_LEN: usize = 8;

pub const IPPROTO_ICMP: u8 = 1;

pub const IPPROTO_TCP: u8 = 6;

pub const IPPROTO_UDP: u8 = 17;

pub const IPPROTO_ICMPV6: u8 = 58;

pub const ICMP_ECHO_REPLY: u8 = 0;

pub const ICMP_DEST_UNREACH: u8 = 3;

pub const ICMP_ECHO_REQUEST: u8 = 8;

pub const ICMPV6_DEST_UNREACH: u8 = 1;

pub const ICMPV6_ECHO_REQUEST: u8 = 128;

pub const ICMPV6_ECHO_REPLY: u8 = 129;

pub const TCP_FIN: u8 = 0x01;

pub const TCP_SYN: u8 = 0x02;

pub const TCP_RST: u8 = 0x04;

pub const TCP_PSH: u8 = 0x08;

pub const TCP_ACK: u8 = 0x10;

/// Hop limit of the IP headers built here.
pub const TTL: u8 = 64;

// ---------------------------------------------------------------------
// Internet checksum

/// Sum of `s` read as network-order 16-bit words, a trailing odd byte
/// padded with zero: bytes at even offsets weigh 256, the others 1.
pub open spec fn word_sum(s: Seq<u8>) -> nat
    decreases s.len(),
{
    if s.len() == 0 {
        0
    } else {
        word_sum(s.drop_last()) + (if s.len() % 2 == 1 {
            s.last() as nat * 256
        } else {
            s.last() as nat
        })
    }
}

/// One's complement fold of a sum to 16 bits: zero only for zero,
/// otherwise the representative of the sum modulo 65535 in 1..=65535.
pub open spec fn fold(t: nat) -> u16 {
    if t == 0 {
        0
    } else {
        ((t - 1) % 65535 + 1) as u16
    }
}

/// RFC 1071 checksum of `data` with an initial sum.
pub open spec fn spec_checksum(data: Seq<u8>, init: nat) -> u16 {
    (65535 - fold(init + word_sum(data))) as u16
}

/// The word sum of a concatenation whose first part has even length.
pub proof fn lemma_word_sum_concat(a: Seq<u8>, b: Seq<u8>)
    requires
        a.len() % 2 == 0,
    ensures
        word_sum(a + b) == word_sum(a) + word_sum(b),
    decreases b.len(),
{
    if b.len() == 0 {
        assert(a + b =~= a);
    } else {
        assert((a + b).drop_last() =~= a + b.drop_last());
        lemma_word_sum_concat(a, b.drop_last());
    }
}

/// The word sum of two bytes is their network-order value.
pub proof fn lemma_word_sum_be16(x: u16)
    ensures
        word_sum(wire::be16(x)) == x,
{
    let s = wire::be16(x);
    reveal_with_fuel(word_sum, 3);
    assert(s.drop_last() =~= seq![(x / 256) as u8]);
    assert(s.drop_last().drop_last() =~= Seq::<u8>::empty());
}

/// Two sums in the same class modulo 65535, both nonzero, fold alike.
pub proof fn lemma_fold_class(a: nat, b: nat)
    requires
        a > 0,
        b > 0,
        a % 65535 == b % 65535,
    ensures
        fold(a) == fold(b),
{
}

/// Folding a part of a sum beforehand does not change the fold.
pub proof fn lemma_fold_part(a: nat, b: nat)
    ensures
        fold((fold(a) + b) as nat) == fold(a + b),
{
    if a > 0 {
        lemma_fold_class((fold(a) + b) as nat, a + b);
    }
}

/// A message whose checksum field (at an even offset, zero while the
/// checksum was computed) holds the checksum sums to all ones, which is
/// how a receiver validates it.
pub proof fn law_checksum_verifies(before: Seq<u8>, after: Seq<u8>, init: nat)
    requires
        before.len() % 2 == 0,
    ensures
        ({
            let c = spec_checksum(before + seq![0u8, 0u8] + after, init);
            spec_checksum(before + wire::be16(c) + after, init) == 0
        }),
{
    let zero = seq![0u8, 0u8];
    assert(zero =~= wire::be16(0));
    let c = spec_checksum(before + zero + after, init);
    lemma_word_sum_field(before, 0, after);
    lemma_word_sum_field(before, c, after);
}

/// A field value at an even offset adds itself to the word sum.
pub proof fn lemma_word_sum_field(before: Seq<u8>, x: u16, after: Seq<u8>)
    requires
        before.len() % 2 == 0,
    ensures
        word_sum(before + wire::be16(x) + after) == word_sum(before) + x + word_sum(after),
{
    lemma_word_sum_concat(before, wire::be16(x));
    lemma_word_sum_concat(before + wire::be16(x), after);
    lemma_word_sum_be16(x);
}

/// Checksum offload: completing a message whose checksum field holds the
/// folded pseudo-header sum gives the checksum computed in software.
pub proof fn law_offload_matches_software(before: Seq<u8>, after: Seq<u8>, pseudo: nat)
    requires
        before.len() % 2 == 0,
    ensures
        spec_checksum(before + wire::be16(fold(pseudo)) + after, 0) == spec_checksum(
            before + seq![0u8, 0u8] + after,
            pseudo,
        ),
{
    assert(seq![0u8, 0u8] =~= wire::be16(0));
    lemma_word_sum_field(before, fold(pseudo), after);
    lemma_word_sum_field(before, 0, after);
    lemma_fold_part(pseudo, word_sum(before) + word_sum(after));
}

/// Fold a sum to 16 bits in one's complement arithmetic.
#[must_use]
pub fn fold_sum(init: u64) -> (r: u16)
    ensures
        r == fold(init as nat),
{
    let mut sum: u64 = init;
    while sum > 0xffff
        invariant
            fold(sum as nat) == fold(init as nat),
        decreases sum,
    {
        let lo: u64 = sum & 0xffff;
        let hi: u64 = sum >> 16;
        assert(lo == sum % 65536 && hi == sum / 65536) by (bit_vector)
            requires
                lo == sum & 0xffff,
                hi == sum >> 16,
        ;
        proof {
            lemma_fold_class(sum as nat, (lo + hi) as nat);
        }
        sum = lo + hi;
    }
    sum as u16
}

/// Fold of `init` plus the word sum of `data`.
fn fold_words(data: &[u8], init: u64) -> (r: u16)
    requires
        init <= u32::MAX,
    ensures
        r == fold((init + word_sum(data@)) as nat),
{
    let n: usize = data.len();
    let mut sum: u64 = init;
    let mut i: usize = 0;
    proof {
        assert(data@.subrange(0, 0) =~= Seq::<u8>::empty());
    }
    while i + 1 < n
        invariant
            n == data@.len(),
            i <= n,
            i % 2 == 0,
            sum <= u32::MAX,
            fold(sum as nat) == fold((init + word_sum(data@.subrange(0, i as int))) as nat),
        decreases n - i,
    {
        let ghost head = data@.subrange(0, i as int);
        let ghost pair = data@.subrange(i as int, i + 2);
        let w: u16 = get_be16(data, i);
        proof {
            wire::lemma_be16_at(data@, i as int);
            lemma_word_sum_concat(head, pair);
            lemma_word_sum_be16(w);
            assert(head + pair =~= data@.subrange(0, i + 2));
            lemma_fold_part(sum as nat, w as nat);
            lemma_fold_part((init + word_sum(head)) as nat, w as nat);
        }
        sum = sum + w as u64;
        if sum > 0x8000_0000 {
            sum = fold_sum(sum) as u64;
            proof {
                lemma_fold_idem(sum as nat);
            }
        }
        i = i + 2;
    }
    if i < n {
        let last: u64 = data[i] as u64 * 256;
        proof {
            assert(data@.subrange(0, i as int) =~= data@.drop_last());
            lemma_fold_part(sum as nat, last as nat);
            lemma_fold_part((init + word_sum(data@.drop_last())) as nat, last as nat);
        }
        sum = sum + last;
    } else {
        assert(data@.subrange(0, i as int) =~= data@);
    }
    fold_sum(sum)
}

/// Folding a folded sum changes nothing.
proof fn lemma_fold_idem(t: nat)
    requires
        t <= 65535,
    ensures
        fold(t) == t,
{
}

/// RFC 1071 internet checksum over `data` with an initial sum (for
/// pseudo-headers). Only used when checksum offload is unavailable.
#[must_use]
pub fn checksum(data: &[u8], init: u32) -> (r: u16)
    ensures
        r == spec_checksum(data@, init as nat),
{
    65535 - fold_words(data, init as u64)
}

/// Folded word sum of `a` followed by `b`, for a payload that wraps
/// around the end of a ring.
#[must_use]
pub fn sum2(a: &[u8], b: &[u8]) -> (r: u32)
    ensures
        r == fold(word_sum(a@ + b@)),
{
    let n: usize = b.len();
    let head: u16 = fold_words(a, 0);
    if a.len() % 2 == 0 || n == 0 {
        proof {
            if n == 0 {
                assert(a@ + b@ =~= a@);
                assert(word_sum(b@) == 0);
            } else {
                lemma_word_sum_concat(a@, b@);
            }
            lemma_fold_part(word_sum(a@), word_sum(b@));
        }
        fold_words(b, head as u64) as u32
    } else {
        let first: u8 = b[0];
        let rest = vstd::slice::slice_subrange(b, 1, n);
        proof {
            let joined = a@.push(first);
            assert(joined.drop_last() =~= a@);
            assert(joined + rest@ =~= a@ + b@);
            lemma_word_sum_concat(joined, rest@);
            lemma_fold_part(word_sum(a@), first as nat + word_sum(rest@));
        }
        fold_words(rest, head as u64 + first as u64) as u32
    }
}

/// Word sum of the IPv4 pseudo-header.
pub open spec fn spec_pseudo_v4(src: Ipv4Addr, dst: Ipv4Addr, proto: u8, len: u16) -> nat {
    word_sum(src.octets@) + word_sum(dst.octets@) + proto as nat + len as nat
}

/// Word sum of the IPv6 pseudo-header.
pub open spec fn spec_pseudo_v6(src: Ipv6Addr, dst: Ipv6Addr, proto: u8, len: u16) -> nat {
    word_sum(src.octets@) + word_sum(dst.octets@) + proto as nat + len as nat
}

/// Sum of eight or fewer words.
fn add_words(data: &[u8]) -> (r: u32)
    requires
        data@.len() <= 16,
        data@.len() % 2 == 0,
    ensures
        r == word_sum(data@),
        r <= 8 * 65535,
{
    let n: usize = data.len();
    let mut sum: u32 = 0;
    let mut i: usize = 0;
    proof {
        assert(data@.subrange(0, 0) =~= Seq::<u8>::empty());
    }
    while i < n
        invariant
            n == data@.len(),
            n <= 16,
            n % 2 == 0,
            i <= n,
            i % 2 == 0,
            sum <= 65535 * (i / 2),
            sum == word_sum(data@.subrange(0, i as int)),
        decreases n - i,
    {
        let ghost head = data@.subrange(0, i as int);
        let ghost pair = data@.subrange(i as int, i + 2);
        let w: u16 = get_be16(data, i);
        proof {
            wire::lemma_be16_at(data@, i as int);
            lemma_word_sum_concat(head, pair);
            lemma_word_sum_be16(w);
            assert(head + pair =~= data@.subrange(0, i + 2));
        }
        sum = sum + w as u32;
        i = i + 2;
    }
    assert(data@.subrange(0, n as int) =~= data@);
    sum
}

/// Pseudo-header sum for a TCP or UDP message of `len` bytes over IPv4.
#[must_use]
pub fn pseudo_v4(src: Ipv4Addr, dst: Ipv4Addr, proto: u8, len: u16) -> (r: u32)
    ensures
        r == spec_pseudo_v4(src, dst, proto, len),
        r <= 18 * 65535,
{
    let a: u32 = add_words(src.octets.as_slice());
    let b: u32 = add_words(dst.octets.as_slice());
    a + b + proto as u32 + len as u32
}

/// Pseudo-header sum for a message of `len` bytes over IPv6.
#[must_use]
pub fn pseudo_v6(src: Ipv6Addr, dst: Ipv6Addr, proto: u8, len: u16) -> (r: u32)
    ensures
        r == spec_pseudo_v6(src, dst, proto, len),
        r <= 18 * 65535,
{
    let a: u32 = add_words(src.octets.as_slice());
    let b: u32 = add_words(dst.octets.as_slice());
    a + b + proto as u32 + len as u32
}

// ---------------------------------------------------------------------
// Ethernet

/// Ethernet header of a frame (after the vnet header).
#[derive(Debug, Clone, Copy)]
pub struct EthHdr {
    pub dst: [u8; 6],
    pub src: [u8; 6],
    pub ethertype: u16,
}

/// The six bytes of `s` from index `i` on, as a MAC address.
pub open spec fn mac_at(s: Seq<u8>, i: int) -> [u8; 6] {
    [s[i], s[i + 1], s[i + 2], s[i + 3], s[i + 4], s[i + 5]]
}

/// Two MAC addresses with the same octets are the same.
pub proof fn lemma_mac_ext(a: [u8; 6], b: [u8; 6])
    requires
        a@ == b@,
    ensures
        a == b,
{
    assert forall|i: int| 0 <= i < 6 implies a[i] == b[i] by {
        assert(a@[i] == b@[i]);
    }
    assert(a =~= b);
}

/// Read a MAC address from the six bytes at `i`.
fn get_mac(b: &[u8], i: usize) -> (r: [u8; 6])
    requires
        i + 6 <= b@.len(),
    ensures
        r == mac_at(b@, i as int),
{
    assert(b.len() == b@.len());
    [b[i], b[i + 1], b[i + 2], b[i + 3], b[i + 4], b[i + 5]]
}

impl EthHdr {
    /// The header on the wire.
    pub open spec fn bytes(self) -> Seq<u8> {
        self.dst@ + self.src@ + wire::be16(self.ethertype)
    }

    /// The header at the front of `s`, if `s` is long enough for one.
    pub open spec fn spec_parse(s: Seq<u8>) -> Option<EthHdr> {
        if s.len() >= ETH_LEN {
            Some(
                EthHdr {
                    dst: mac_at(s, 0),
                    src: mac_at(s, 6),
                    ethertype: wire::be16_at(s, 12),
                },
            )
        } else {
            None
        }
    }

    #[must_use]
    pub fn parse(b: &[u8]) -> (r: Option<Self>)
        ensures
            r == Self::spec_parse(b@),
    {
        if b.len() < ETH_LEN {
            return None;
        }
        Some(EthHdr { dst: get_mac(b, 0), src: get_mac(b, 6), ethertype: get_be16(b, 12) })
    }

    pub fn write(&self, out: &mut [u8])
        requires
            old(out)@.len() >= ETH_LEN,
        ensures
            final(out)@ == wire::splice(old(out)@, 0, self.bytes()),
    {
        put(out, 0, self.dst.as_slice());
        put(out, 6, self.src.as_slice());
        put_be16(out, 12, self.ethertype);
        assert(out@ =~= wire::splice(old(out)@, 0, self.bytes()));
    }
}

/// A written ethernet header reads back as itself.
pub proof fn law_eth_roundtrip(h: EthHdr, s: Seq<u8>)
    requires
        s.len() >= ETH_LEN,
    ensures
        EthHdr::spec_parse(wire::splice(s, 0, h.bytes())) == Some(h),
{
    let w = wire::splice(s, 0, h.bytes());
    assert(mac_at(w, 0)@ =~= h.dst@);
    assert(mac_at(w, 6)@ =~= h.src@);
    lemma_mac_ext(mac_at(w, 0), h.dst);
    lemma_mac_ext(mac_at(w, 6), h.src);
}

// ---------------------------------------------------------------------
// IPv4

/// The fields of an IPv4 header that the datapath reads.
#[derive(Debug, Clone, Copy)]
pub struct Ipv4Hdr {
    pub src: Ipv4Addr,
    pub dst: Ipv4Addr,
    pub proto: u8,
    /// Header length in bytes, options included.
    pub header_len: usize,
    pub total_len: u16,
}

/// Total length of an IPv4 packet around `l4_len` bytes, saturating.
pub open spec fn ipv4_total(l4_len: u16) -> u16 {
    if l4_len + IPV4_HDR_LEN > u16::MAX {
        u16::MAX
    } else {
        (l4_len + IPV4_HDR_LEN) as u16
    }
}

/// An option-less IPv4 header (don't-fragment, no identification) with
/// the given checksum field.
pub open spec fn ipv4_with_csum(
    src: Ipv4Addr,
    dst: Ipv4Addr,
    proto: u8,
    l4_len: u16,
    csum: u16,
) -> Seq<u8> {
    seq![0x45u8, 0u8] + wire::be16(ipv4_total(l4_len)) + seq![
        0u8,
        0u8,
        0x40u8,
        0u8,
        TTL,
        proto,
    ] + wire::be16(csum) + src.octets@ + dst.octets@
}

/// The IPv4 header in front of `l4_len` bytes of `proto`.
pub open spec fn ipv4_bytes(src: Ipv4Addr, dst: Ipv4Addr, proto: u8, l4_len: u16) -> Seq<u8> {
    ipv4_with_csum(
        src,
        dst,
        proto,
        l4_len,
        spec_checksum(ipv4_with_csum(src, dst, proto, l4_len, 0), 0),
    )
}

impl Ipv4Hdr {
    /// The header at the front of `s`: version 4, at least five words of
    /// header, all of it present.
    pub open spec fn spec_parse(s: Seq<u8>) -> Option<Ipv4Hdr> {
        if s.len() >= IPV4_HDR_LEN && s[0] / 16 == 4 && s[0] % 16 >= 5 && s.len() >= s[0] % 16 * 4 {
            Some(
                Ipv4Hdr {
                    src: addr::v4_at(s, 12),
                    dst: addr::v4_at(s, 16),
                    proto: s[9],
                    header_len: (s[0] % 16 * 4) as usize,
                    total_len: wire::be16_at(s, 2),
                },
            )
        } else {
            None
        }
    }

    #[must_use]
    pub fn parse(b: &[u8]) -> (r: Option<Self>)
        ensures
            r == Self::spec_parse(b@),
    {
        if b.len() < IPV4_HDR_LEN || b[0] / 16 != 4 {
            return None;
        }
        let header_len: usize = (b[0] % 16) as usize * 4;
        if header_len < IPV4_HDR_LEN || b.len() < header_len {
            return None;
        }
        Some(
            Ipv4Hdr {
                src: get_v4(b, 12),
                dst: get_v4(b, 16),
                proto: b[9],
                header_len,
                total_len: get_be16(b, 2),
            },
        )
    }

    /// Write an option-less header with its checksum.
    pub fn write(out: &mut [u8], src: Ipv4Addr, dst: Ipv4Addr, proto: u8, l4_len: u16)
        requires
            old(out)@.len() >= IPV4_HDR_LEN,
        ensures
            final(out)@ == wire::splice(old(out)@, 0, ipv4_bytes(src, dst, proto, l4_len)),
    {
        let mut h = [0u8; 20];
        let total: u16 = if l4_len > u16::MAX - 20 {
            u16::MAX
        } else {
            l4_len + 20
        };
        h[0] = 0x45;
        h[2] = (total / 256) as u8;
        h[3] = (total % 256) as u8;
        h[6] = 0x40;
        h[8] = TTL;
        h[9] = proto;
        h[12] = src.octets[0];
        h[13] = src.octets[1];
        h[14] = src.octets[2];
        h[15] = src.octets[3];
        h[16] = dst.octets[0];
        h[17] = dst.octets[1];
        h[18] = dst.octets[2];
        h[19] = dst.octets[3];
        assert(h@ =~= ipv4_with_csum(src, dst, proto, l4_len, 0));
        let csum: u16 = checksum(h.as_slice(), 0);
        h[10] = (csum / 256) as u8;
        h[11] = (csum % 256) as u8;
        assert(h@ =~= ipv4_bytes(src, dst, proto, l4_len));
        put(out, 0, h.as_slice());
    }
}

/// A written IPv4 header reads back with the addresses, protocol and
/// length it was written with.
pub proof fn law_ipv4_roundtrip(
    src: Ipv4Addr,
    dst: Ipv4Addr,
    proto: u8,
    l4_len: u16,
    s: Seq<u8>,
)
    requires
        s.len() >= IPV4_HDR_LEN,
    ensures
        Ipv4Hdr::spec_parse(wire::splice(s, 0, ipv4_bytes(src, dst, proto, l4_len))) == Some(
            Ipv4Hdr {
                src,
                dst,
                proto,
                header_len: IPV4_HDR_LEN,
                total_len: ipv4_total(l4_len),
            },
        ),
{
    let w = wire::splice(s, 0, ipv4_bytes(src, dst, proto, l4_len));
    assert(addr::v4_at(w, 12).octets@ =~= src.octets@);
    assert(addr::v4_at(w, 16).octets@ =~= dst.octets@);
    addr::lemma_v4_ext(addr::v4_at(w, 12), src);
    addr::lemma_v4_ext(addr::v4_at(w, 16), dst);
    assert(w[0] == 0x45u8 && w[9] == proto);
    assert(w[2] == (ipv4_total(l4_len) / 256) as u8 && w[3] == (ipv4_total(l4_len) % 256) as u8);
}

/// A written IPv4 header carries a valid checksum.
pub proof fn law_ipv4_checksum_valid(src: Ipv4Addr, dst: Ipv4Addr, proto: u8, l4_len: u16)
    ensures
        spec_checksum(ipv4_bytes(src, dst, proto, l4_len), 0) == 0,
{
    let before = seq![0x45u8, 0u8] + wire::be16(ipv4_total(l4_len)) + seq![
        0u8,
        0u8,
        0x40u8,
        0u8,
        TTL,
        proto,
    ];
    let after = src.octets@ + dst.octets@;
    assert(ipv4_with_csum(src, dst, proto, l4_len, 0) =~= before + seq![0u8, 0u8] + after);
    let c = spec_checksum(ipv4_with_csum(src, dst, proto, l4_len, 0), 0);
    assert(ipv4_bytes(src, dst, proto, l4_len) =~= before + wire::be16(c) + after);
    law_checksum_verifies(before, after, 0);
}

// ---------------------------------------------------------------------
// IPv6

/// The fields of an IPv6 header that the datapath reads.
#[derive(Debug, Clone, Copy)]
pub struct Ipv6Hdr {
    pub src: Ipv6Addr,
    pub dst: Ipv6Addr,
    pub next_header: u8,
    pub payload_len: u16,
}

/// The IPv6 header in front of `l4_len` bytes of `proto`.
pub open spec fn ipv6_bytes(src: Ipv6Addr, dst: Ipv6Addr, proto: u8, l4_len: u16) -> Seq<u8> {
    seq![0x60u8, 0u8, 0u8, 0u8] + wire::be16(l4_len) + seq![proto, TTL] + src.octets@
        + dst.octets@
}

impl Ipv6Hdr {
    /// The header at the front of `s`: version 6 and complete.
    pub open spec fn spec_parse(s: Seq<u8>) -> Option<Ipv6Hdr> {
        if s.len() >= IPV6_HDR_LEN && s[0] / 16 == 6 {
            Some(
                Ipv6Hdr {
                    src: addr::v6_at(s, 8),
                    dst: addr::v6_at(s, 24),
                    next_header: s[6],
                    payload_len: wire::be16_at(s, 4),
                },
            )
        } else {
            None
        }
    }

    #[must_use]
    pub fn parse(b: &[u8]) -> (r: Option<Self>)
        ensures
            r == Self::spec_parse(b@),
    {
        if b.len() < IPV6_HDR_LEN || b[0] / 16 != 6 {
            return None;
        }
        Some(
            Ipv6Hdr {
                src: get_v6(b, 8),
                dst: get_v6(b, 24),
                next_header: b[6],
                payload_len: get_be16(b, 4),
            },
        )
    }

    /// Write a header without extension headers.
    pub fn write(out: &mut [u8], src: Ipv6Addr, dst: Ipv6Addr, proto: u8, l4_len: u16)
        requires
            old(out)@.len() >= IPV6_HDR_LEN,
        ensures
            final(out)@ == wire::splice(old(out)@, 0, ipv6_bytes(src, dst, proto, l4_len)),
    {
        out[0] = 0x60;
        out[1] = 0;
        out[2] = 0;
        out[3] = 0;
        put_be16(out, 4, l4_len);
        out[6] = proto;
        out[7] = TTL;
        put(out, 8, src.octets.as_slice());
        put(out, 24, dst.octets.as_slice());
        assert(out@ =~= wire::splice(old(out)@, 0, ipv6_bytes(src, dst, proto, l4_len)));
    }
}

/// A written IPv6 header reads back with the addresses, protocol and
/// length it was written with.
pub proof fn law_ipv6_roundtrip(
    src: Ipv6Addr,
    dst: Ipv6Addr,
    proto: u8,
    l4_len: u16,
    s: Seq<u8>,
)
    requires
        s.len() >= IPV6_HDR_LEN,
    ensures
        Ipv6Hdr::spec_parse(wire::splice(s, 0, ipv6_bytes(src, dst, proto, l4_len))) == Some(
            Ipv6Hdr { src, dst, next_header: proto, payload_len: l4_len },
        ),
{
    let w = wire::splice(s, 0, ipv6_bytes(src, dst, proto, l4_len));
    assert(addr::v6_at(w, 8).octets@ =~= src.octets@);
    assert(addr::v6_at(w, 24).octets@ =~= dst.octets@);
    addr::lemma_v6_ext(addr::v6_at(w, 8), src);
    addr::lemma_v6_ext(addr::v6_at(w, 24), dst);
    assert(w[0] == 0x60u8 && w[6] == proto);
    assert(w[4] == (l4_len / 256) as u8 && w[5] == (l4_len % 256) as u8);
}

// ---------------------------------------------------------------------
// UDP

/// UDP header fields.
#[derive(Debug, Clone, Copy)]
pub struct UdpHdr {
    pub src_port: u16,
    pub dst_port: u16,
    /// Length field: header plus payload.
    pub len: u16,
}

/// A UDP header with the given checksum field.
pub open spec fn udp_hdr(src_port: u16, dst_port: u16, len: u16, csum: u16) -> Seq<u8> {
    wire::be16(src_port) + wire::be16(dst_port) + wire::be16(len)
        + wire::be16(csum)
}

/// Length of a message as a 16-bit field, saturating.
pub open spec fn len16(n: nat) -> u16 {
    if n > u16::MAX {
        u16::MAX
    } else {
        n as u16
    }
}

/// Checksum field of a UDP datagram: the folded pseudo-header sum when
/// the device completes it, else the full checksum with zero (which
/// means "none") sent as all ones.
pub open spec fn udp_csum(
    src_port: u16,
    dst_port: u16,
    payload: Seq<u8>,
    pseudo: nat,
    partial: bool,
) -> u16 {
    let len = len16(UDP_HDR_LEN as nat + payload.len());
    let c = spec_checksum(udp_hdr(src_port, dst_port, len, 0) + payload, pseudo);
    if partial {
        fold(pseudo)
    } else if c == 0 {
        65535
    } else {
        c
    }
}

/// A UDP datagram on the wire.
pub open spec fn udp_bytes(
    src_port: u16,
    dst_port: u16,
    payload: Seq<u8>,
    pseudo: nat,
    partial: bool,
) -> Seq<u8> {
    udp_hdr(
        src_port,
        dst_port,
        len16(UDP_HDR_LEN as nat + payload.len()),
        udp_csum(src_port, dst_port, payload, pseudo, partial),
    ) + payload
}

impl UdpHdr {
    /// The header at the front of `s`; the length field must cover it.
    pub open spec fn spec_parse(s: Seq<u8>) -> Option<UdpHdr> {
        if s.len() >= UDP_HDR_LEN && wire::be16_at(s, 4) >= UDP_HDR_LEN {
            Some(
                UdpHdr {
                    src_port: wire::be16_at(s, 0),
                    dst_port: wire::be16_at(s, 2),
                    len: wire::be16_at(s, 4),
                },
            )
        } else {
            None
        }
    }

    #[must_use]
    pub fn parse(b: &[u8]) -> (r: Option<Self>)
        ensures
            r == Self::spec_parse(b@),
    {
        if b.len() < UDP_HDR_LEN {
            return None;
        }
        let len: u16 = get_be16(b, 4);
        if (len as usize) < UDP_HDR_LEN {
            return None;
        }
        Some(UdpHdr { src_port: get_be16(b, 0), dst_port: get_be16(b, 2), len })
    }

    /// Write the header in front of the payload that `out` already holds
    /// from offset 8 on. With `partial` the device completes the checksum.
    pub fn write(out: &mut [u8], src_port: u16, dst_port: u16, pseudo: u32, partial: bool)
        requires
            old(out)@.len() >= UDP_HDR_LEN,
        ensures
            final(out)@ == udp_bytes(
                src_port,
                dst_port,
                old(out)@.skip(UDP_HDR_LEN as int),
                pseudo as nat,
                partial,
            ),
    {
        let ghost payload = out@.skip(UDP_HDR_LEN as int);
        let n: usize = out.len();
        let len: u16 = if n > 65535 {
            65535
        } else {
            n as u16
        };
        put_be16(out, 0, src_port);
        put_be16(out, 2, dst_port);
        put_be16(out, 4, len);
        put_be16(out, 6, 0);
        assert(out@ =~= udp_hdr(src_port, dst_port, len, 0) + payload);
        let csum: u16 = if partial {
            fold_sum(pseudo as u64)
        } else {
            let c: u16 = checksum(out, pseudo);
            if c == 0 {
                65535
            } else {
                c
            }
        };
        put_be16(out, 6, csum);
        assert(out@ =~= udp_hdr(src_port, dst_port, len, csum) + payload);
    }
}

/// A written UDP header reads back with its ports and length.
pub proof fn law_udp_roundtrip(
    src_port: u16,
    dst_port: u16,
    payload: Seq<u8>,
    pseudo: nat,
    partial: bool,
)
    ensures
        UdpHdr::spec_parse(udp_bytes(src_port, dst_port, payload, pseudo, partial)) == Some(
            UdpHdr { src_port, dst_port, len: len16(UDP_HDR_LEN as nat + payload.len()) },
        ),
{
    let w = udp_bytes(src_port, dst_port, payload, pseudo, partial);
    let len = len16(UDP_HDR_LEN as nat + payload.len());
    assert(w[0] == (src_port / 256) as u8 && w[1] == (src_port % 256) as u8);
    assert(w[2] == (dst_port / 256) as u8 && w[3] == (dst_port % 256) as u8);
    assert(w[4] == (len / 256) as u8 && w[5] == (len % 256) as u8);
}

/// A UDP datagram written with a full checksum validates at the receiver.
pub proof fn law_udp_checksum_valid(
    src_port: u16,
    dst_port: u16,
    payload: Seq<u8>,
    pseudo: nat,
)
    ensures
        spec_checksum(udp_bytes(src_port, dst_port, payload, pseudo, false), pseudo) == 0,
{
    let len = len16(UDP_HDR_LEN as nat + payload.len());
    let before = wire::be16(src_port) + wire::be16(dst_port) + wire::be16(len);
    let c = spec_checksum(udp_hdr(src_port, dst_port, len, 0) + payload, pseudo);
    let field = udp_csum(src_port, dst_port, payload, pseudo, false);
    assert(udp_hdr(src_port, dst_port, len, 0) + payload =~= before + wire::be16(0)
        + payload);
    assert(udp_bytes(src_port, dst_port, payload, pseudo, false) =~= before + wire::be16(
        field,
    ) + payload);
    lemma_word_sum_field(before, 0, payload);
    lemma_word_sum_field(before, field, payload);
}

// ---------------------------------------------------------------------
// ICMP

/// Type and identifier of an ICMP or ICMPv6 echo message.
#[derive(Debug, Clone, Copy)]
pub struct EchoHdr {
    pub msg_type: u8,
    pub id: u16,
}

/// `s` with its checksum field (bytes 2 and 3) recomputed.
pub open spec fn sealed(s: Seq<u8>, pseudo: nat) -> Seq<u8> {
    let zeroed = wire::splice(s, 2, wire::be16(0));
    wire::splice(s, 2, wire::be16(spec_checksum(zeroed, pseudo)))
}

/// Recompute the checksum field of the ICMP message in `out`.
fn seal(out: &mut [u8], pseudo: u32)
    requires
        old(out)@.len() >= ICMP_HDR_LEN,
    ensures
        final(out)@ == sealed(old(out)@, pseudo as nat),
{
    put_be16(out, 2, 0);
    let csum: u16 = checksum(out, pseudo);
    put_be16(out, 2, csum);
    assert(out@ =~= sealed(old(out)@, pseudo as nat));
}

/// A sealed ICMP message validates at the receiver.
pub proof fn law_sealed_checksum_valid(s: Seq<u8>, pseudo: nat)
    requires
        s.len() >= ICMP_HDR_LEN,
    ensures
        spec_checksum(sealed(s, pseudo), pseudo) == 0,
{
    let before = s.subrange(0, 2);
    let after = s.subrange(4, s.len() as int);
    let zeroed = wire::splice(s, 2, wire::be16(0));
    assert(zeroed =~= before + seq![0u8, 0u8] + after);
    let c = spec_checksum(zeroed, pseudo);
    assert(sealed(s, pseudo) =~= before + wire::be16(c) + after);
    law_checksum_verifies(before, after, pseudo);
}

impl EchoHdr {
    /// The echo fields at the front of `s`, if a whole header is there.
    pub open spec fn spec_parse(s: Seq<u8>) -> Option<EchoHdr> {
        if s.len() >= ICMP_HDR_LEN {
            Some(EchoHdr { msg_type: s[0], id: wire::be16_at(s, 4) })
        } else {
            None
        }
    }

    #[must_use]
    pub fn parse(b: &[u8]) -> (r: Option<Self>)
        ensures
            r == Self::spec_parse(b@),
    {
        if b.len() < ICMP_HDR_LEN {
            return None;
        }
        Some(EchoHdr { msg_type: b[0], id: get_be16(b, 4) })
    }

    /// `s` with its identifier replaced and its checksum recomputed.
    pub open spec fn patched(s: Seq<u8>, id: u16, pseudo: nat) -> Seq<u8> {
        sealed(wire::splice(s, 4, wire::be16(id)), pseudo)
    }

    /// Replace the echo identifier and recompute the checksum.
    pub fn patch_id(out: &mut [u8], id: u16, pseudo: u32)
        requires
            old(out)@.len() >= ICMP_HDR_LEN,
        ensures
            final(out)@ == Self::patched(old(out)@, id, pseudo as nat),
    {
        put_be16(out, 4, id);
        seal(out, pseudo);
    }
}

/// A patched echo message carries the given identifier, keeps its type
/// and everything behind the identifier, and validates.
pub proof fn law_patch_id(s: Seq<u8>, id: u16, pseudo: nat)
    requires
        s.len() >= ICMP_HDR_LEN,
    ensures
        EchoHdr::spec_parse(EchoHdr::patched(s, id, pseudo)) == Some(
            EchoHdr { msg_type: s[0], id },
        ),
        EchoHdr::patched(s, id, pseudo).skip(6) == s.skip(6),
        spec_checksum(EchoHdr::patched(s, id, pseudo), pseudo) == 0,
{
    let p = EchoHdr::patched(s, id, pseudo);
    assert(p[4] == (id / 256) as u8 && p[5] == (id % 256) as u8);
    assert(p.skip(6) =~= s.skip(6));
    law_sealed_checksum_valid(wire::splice(s, 4, wire::be16(id)), pseudo);
}

/// A destination unreachable message around the offending packet that
/// `s` holds from offset 8 on.
pub open spec fn unreachable_bytes(s: Seq<u8>, msg_type: u8, code: u8, pseudo: nat) -> Seq<u8> {
    sealed(
        wire::splice(s, 0, seq![msg_type, code, 0u8, 0u8, 0u8, 0u8, 0u8, 0u8]),
        pseudo,
    )
}

/// Write the header of a destination unreachable message in front of the
/// offending packet that `out` already holds from offset 8 on.
pub fn write_unreachable(out: &mut [u8], msg_type: u8, code: u8, pseudo: u32)
    requires
        old(out)@.len() >= ICMP_HDR_LEN,
    ensures
        final(out)@ == unreachable_bytes(old(out)@, msg_type, code, pseudo as nat),
{
    out[0] = msg_type;
    out[1] = code;
    out[2] = 0;
    out[3] = 0;
    out[4] = 0;
    out[5] = 0;
    out[6] = 0;
    out[7] = 0;
    assert(out@ =~= wire::splice(
        old(out)@,
        0,
        seq![msg_type, code, 0u8, 0u8, 0u8, 0u8, 0u8, 0u8],
    ));
    seal(out, pseudo);
}

/// The sum of a message is that of its 16-bit words, most significant byte
/// first, from the front; a last odd byte counts as a word with a zero
/// behind it.
pub proof fn law_word_sum(a: u8, b: u8, s: Seq<u8>)
    ensures
        word_sum(Seq::<u8>::empty()) == 0,
        word_sum(seq![a]) == a * 256,
        word_sum(seq![a, b] + s) == a * 256 + b + word_sum(s),
{
    reveal_with_fuel(word_sum, 3);
    assert(seq![a].drop_last() =~= Seq::<u8>::empty());
    assert(seq![a, b].drop_last() =~= seq![a]);
    lemma_word_sum_concat(seq![a, b], s);
}

/// The fold of a sum is the same number modulo 65535, fits 16 bits, and is
/// zero only for zero; so a sum that folds to all ones checks out.
pub proof fn law_fold(t: nat, data: Seq<u8>, init: nat)
    ensures
        fold(t) % 65535 == t % 65535,
        fold(t) == 0 <==> t == 0,
        spec_checksum(data, init) == 0 <==> init + word_sum(data) > 0 && (init + word_sum(data))
            % 65535 == 0,
{
}

/// The sums that stand for the pseudo-headers are those of their bytes:
/// addresses, protocol and length.
pub proof fn law_pseudo_headers(
    src4: Ipv4Addr,
    dst4: Ipv4Addr,
    src6: Ipv6Addr,
    dst6: Ipv6Addr,
    proto: u8,
    len: u16,
)
    ensures
        spec_pseudo_v4(src4, dst4, proto, len) == word_sum(
            src4.octets@ + (dst4.octets@ + (seq![0u8, proto] + wire::be16(len))),
        ),
        spec_pseudo_v6(src6, dst6, proto, len) == word_sum(
            src6.octets@ + (dst6.octets@ + (seq![0u8, 0] + (wire::be16(len) + (seq![0u8, 0] + seq![
                0u8,
                proto,
            ])))),
        ),
{
    let n = wire::be16(len);
    let p = seq![0u8, proto];
    lemma_word_sum_be16(len);
    law_word_sum(0, proto, Seq::empty());
    assert(seq![0u8, proto] + Seq::<u8>::empty() =~= p);
    assert(word_sum(p) == proto);
    law_word_sum(0, proto, n);
    lemma_word_sum_concat(dst4.octets@, p + n);
    lemma_word_sum_concat(src4.octets@, dst4.octets@ + (p + n));
    law_word_sum(0, 0, p);
    let q = seq![0u8, 0] + p;
    assert(word_sum(q) == proto);
    lemma_word_sum_concat(n, q);
    law_word_sum(0, 0, n + q);
    lemma_word_sum_concat(dst6.octets@, seq![0u8, 0] + (n + q));
    lemma_word_sum_concat(src6.octets@, dst6.octets@ + (seq![0u8, 0] + (n + q)));
}

/// A UDP checksum of zero, which would mean that there is none, is never
/// sent.
pub proof fn law_udp_checksum_is_sent(
    src_port: u16,
    dst_port: u16,
    payload: Seq<u8>,
    pseudo: nat,
)
    ensures
        wire::be16_at(udp_bytes(src_port, dst_port, payload, pseudo, false), 6) != 0,
{
    let b = udp_bytes(src_port, dst_port, payload, pseudo, false);
    let c = udp_csum(src_port, dst_port, payload, pseudo, false);
    assert(b[6] == (c / 256) as u8 && b[7] == (c % 256) as u8);
}

} // verus!
