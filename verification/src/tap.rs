//! Tap device: offload negotiation and vnet header framing.
//!
//! The caller opens the device inside the sandbox netns with
//! `IFF_TAP | IFF_NO_PI | IFF_VNET_HDR`.

use vstd::prelude::*;

use crate::wire;

verus! {

// TUN_F_* offload flags (linux/if_tun.h).
pub const TUN_F_CSUM: i32 = 0x01;

pub const TUN_F_TSO4: i32 = 0x02;

pub const TUN_F_TSO6: i32 = 0x04;

pub const TUN_F_USO4: i32 = 0x20;

pub const TUN_F_USO6: i32 = 0x40;

/// Size of `struct virtio_net_hdr` prepended to every frame on a
/// `IFF_VNET_HDR` tap.
pub const VNET_HDR_LEN: usize = 10;

// virtio_net_hdr flag/gso constants (linux/virtio_net.h).
pub const VIRTIO_NET_HDR_F_NEEDS_CSUM: u8 = 1;

pub const VIRTIO_NET_HDR_GSO_TCPV4: u8 = 1;

pub const VIRTIO_NET_HDR_GSO_TCPV6: u8 = 4;

pub const VIRTIO_NET_HDR_GSO_UDP_L4: u8 = 5;

/// Parsed `struct virtio_net_hdr`.
#[derive(Debug, Clone, Copy)]
pub struct VnetHdr {
    pub flags: u8,
    pub gso_type: u8,
    pub hdr_len: u16,
    pub gso_size: u16,
    pub csum_start: u16,
    pub csum_offset: u16,
}

impl Default for VnetHdr {
    fn default() -> (r: Self)
        ensures
            r == VnetHdr::zero(),
    {
        VnetHdr {
            flags: 0,
            gso_type: 0,
            hdr_len: 0,
            gso_size: 0,
            csum_start: 0,
            csum_offset: 0,
        }
    }
}

impl VnetHdr {
    /// The header that asks for no offload.
    pub open spec fn zero() -> VnetHdr {
        VnetHdr {
            flags: 0,
            gso_type: 0,
            hdr_len: 0,
            gso_size: 0,
            csum_start: 0,
            csum_offset: 0,
        }
    }

    /// The header on the wire: two bytes, then four little-endian words.
    pub open spec fn bytes(self) -> Seq<u8> {
        seq![self.flags, self.gso_type] + wire::le16(self.hdr_len) + wire::le16(self.gso_size)
            + wire::le16(self.csum_start) + wire::le16(self.csum_offset)
    }

    /// The header that the ten bytes `s` hold.
    pub open spec fn spec_parse(s: Seq<u8>) -> VnetHdr {
        VnetHdr {
            flags: s[0],
            gso_type: s[1],
            hdr_len: wire::le16_at(s, 2),
            gso_size: wire::le16_at(s, 4),
            csum_start: wire::le16_at(s, 6),
            csum_offset: wire::le16_at(s, 8),
        }
    }

    #[must_use]
    pub fn parse(b: &[u8; VNET_HDR_LEN]) -> (r: Self)
        ensures
            r == Self::spec_parse(b@),
    {
        VnetHdr {
            flags: b[0],
            gso_type: b[1],
            hdr_len: b[2] as u16 + b[3] as u16 * 256,
            gso_size: b[4] as u16 + b[5] as u16 * 256,
            csum_start: b[6] as u16 + b[7] as u16 * 256,
            csum_offset: b[8] as u16 + b[9] as u16 * 256,
        }
    }

    #[must_use]
    pub fn to_bytes(self) -> (r: [u8; VNET_HDR_LEN])
        ensures
            r@ == self.bytes(),
    {
        let r = [
            self.flags,
            self.gso_type,
            (self.hdr_len % 256) as u8,
            (self.hdr_len / 256) as u8,
            (self.gso_size % 256) as u8,
            (self.gso_size / 256) as u8,
            (self.csum_start % 256) as u8,
            (self.csum_start / 256) as u8,
            (self.csum_offset % 256) as u8,
            (self.csum_offset / 256) as u8,
        ];
        assert(r@ =~= self.bytes());
        r
    }
}

/// A written vnet header reads back as itself, and a header that was read
/// is written back as the same bytes.
pub proof fn law_vnet_roundtrip(h: VnetHdr, s: Seq<u8>)
    requires
        s.len() == VNET_HDR_LEN,
    ensures
        VnetHdr::spec_parse(h.bytes()) == h,
        VnetHdr::spec_parse(s).bytes() == s,
{
    let b = h.bytes();
    assert(b[2] == wire::le16(h.hdr_len)[0] && b[3] == wire::le16(h.hdr_len)[1]);
    assert(b[4] == wire::le16(h.gso_size)[0] && b[5] == wire::le16(h.gso_size)[1]);
    assert(b[6] == wire::le16(h.csum_start)[0] && b[7] == wire::le16(h.csum_start)[1]);
    assert(b[8] == wire::le16(h.csum_offset)[0] && b[9] == wire::le16(h.csum_offset)[1]);
    assert(VnetHdr::spec_parse(s).bytes() =~= s);
}

/// Offloads negotiated with the tap device, as `TUN_F_*` flags.
#[derive(Debug, Clone, Copy)]
pub struct Offloads(i32);

impl Default for Offloads {
    fn default() -> (r: Self)
        ensures
            r.flags() == 0,
    {
        Offloads(0)
    }
}

impl Offloads {
    /// The flag word.
    pub closed spec fn flags(self) -> i32 {
        self.0
    }

    /// Checksum offload was granted.
    pub open spec fn spec_csum(self) -> bool {
        self.flags() & TUN_F_CSUM != 0
    }

    /// TCP segmentation offload was granted for either family.
    pub open spec fn spec_tso(self) -> bool {
        self.flags() & (TUN_F_TSO4 | TUN_F_TSO6) != 0
    }

    /// UDP segmentation offload was granted for either family.
    pub open spec fn spec_uso(self) -> bool {
        self.flags() & (TUN_F_USO4 | TUN_F_USO6) != 0
    }

    /// Offloads for an accepted flag word.
    #[must_use]
    pub fn new(flags: i32) -> (r: Self)
        ensures
            r.flags() == flags,
    {
        Offloads(flags)
    }

    #[must_use]
    pub fn csum(self) -> (r: bool)
        ensures
            r == self.spec_csum(),
    {
        self.0 & TUN_F_CSUM != 0
    }

    #[must_use]
    pub fn tso(self) -> (r: bool)
        ensures
            r == self.spec_tso(),
    {
        self.0 & (TUN_F_TSO4 | TUN_F_TSO6) != 0
    }

    #[must_use]
    pub fn uso(self) -> (r: bool)
        ensures
            r == self.spec_uso(),
    {
        self.0 & (TUN_F_USO4 | TUN_F_USO6) != 0
    }
}

/// Offload sets in the order in which they are offered to the kernel: with
/// UDP segmentation (kernel 6.2 and later), without it, and none.
pub open spec fn spec_attempt(n: int) -> i32 {
    if n == 0 {
        TUN_F_CSUM | TUN_F_TSO4 | TUN_F_TSO6 | TUN_F_USO4 | TUN_F_USO6
    } else if n == 1 {
        TUN_F_CSUM | TUN_F_TSO4 | TUN_F_TSO6
    } else {
        0
    }
}

/// Progress of the offload negotiation.
#[derive(Debug, Clone, Copy)]
pub enum Negotiation {
    /// Offer these flags to the kernel and report its answer.
    Offer { attempt: u8, flags: i32 },
    /// Settled.
    Done(Offloads),
}

impl Negotiation {
    /// First offer.
    #[must_use]
    pub fn start() -> (r: Self)
        ensures
            r == (Negotiation::Offer { attempt: 0, flags: spec_attempt(0) }),
    {
        Negotiation::Offer {
            attempt: 0,
            flags: TUN_F_CSUM | TUN_F_TSO4 | TUN_F_TSO6 | TUN_F_USO4 | TUN_F_USO6,
        }
    }

    /// The kernel answered the current offer: an accepted set is settled
    /// on, a refused one is followed by the next. When everything was
    /// refused the tap runs without offloads.
    #[must_use]
    pub fn answered(self, accepted: bool) -> (r: Self)
        ensures
            match self {
                Negotiation::Done(_) => r == self,
                Negotiation::Offer { attempt, flags } => if accepted {
                    r matches Negotiation::Done(o) && o.flags() == flags
                } else if attempt < 2 {
                    r == (Negotiation::Offer {
                        attempt: (attempt + 1) as u8,
                        flags: spec_attempt(attempt + 1),
                    })
                } else {
                    r matches Negotiation::Done(o) && o.flags() == 0
                },
            },
    {
        match self {
            Negotiation::Done(_) => self,
            Negotiation::Offer { attempt, flags } => {
                if accepted {
                    Negotiation::Done(Offloads(flags))
                } else if attempt == 0 {
                    Negotiation::Offer { attempt: 1, flags: TUN_F_CSUM | TUN_F_TSO4 | TUN_F_TSO6 }
                } else if attempt == 1 {
                    Negotiation::Offer { attempt: 2, flags: 0 }
                } else {
                    Negotiation::Done(Offloads(0))
                }
            },
        }
    }
}

/// What each accepted offer grants: everything, everything but UDP
/// segmentation, nothing.
pub proof fn law_attempts(a: Offloads, b: Offloads, c: Offloads)
    requires
        a.flags() == spec_attempt(0),
        b.flags() == spec_attempt(1),
        c.flags() == spec_attempt(2),
    ensures
        a.spec_csum() && a.spec_tso() && a.spec_uso(),
        b.spec_csum() && b.spec_tso() && !b.spec_uso(),
        !c.spec_csum() && !c.spec_tso() && !c.spec_uso(),
{
    assert((1i32 | 2i32 | 4i32 | 0x20i32 | 0x40i32) & 1i32 != 0) by (bit_vector);
    assert((1i32 | 2i32 | 4i32 | 0x20i32 | 0x40i32) & (2i32 | 4i32) != 0) by (bit_vector);
    assert((1i32 | 2i32 | 4i32 | 0x20i32 | 0x40i32) & (0x20i32 | 0x40i32) != 0) by (bit_vector);
    assert((1i32 | 2i32 | 4i32) & 1i32 != 0) by (bit_vector);
    assert((1i32 | 2i32 | 4i32) & (2i32 | 4i32) != 0) by (bit_vector);
    assert((1i32 | 2i32 | 4i32) & (0x20i32 | 0x40i32) == 0) by (bit_vector);
    assert(0i32 & 1i32 == 0) by (bit_vector);
    assert(0i32 & (2i32 | 4i32) == 0) by (bit_vector);
    assert(0i32 & (0x20i32 | 0x40i32) == 0) by (bit_vector);
}

} // verus!
