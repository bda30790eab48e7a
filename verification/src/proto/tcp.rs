//! TCP header: parsing of guest segments (with the MSS and window scale
//! options) and writing of the headers sent to the guest.

use vstd::prelude::*;

use crate::proto;
use crate::proto::{checksum, fold_sum, TCP_HDR_LEN};
use crate::wire;
use crate::wire::{get_be16, get_be32, put, put_be16, put_be32};

verus! {

/// TCP header fields of a guest segment.
#[derive(Debug, Clone, Copy)]
pub struct TcpHdr {
    pub src_port: u16,
    pub dst_port: u16,
    pub seq: u32,
    pub ack: u32,
    /// Header length in bytes, options included.
    pub header_len: usize,
    pub flags: u8,
    pub window: u16,
    /// Maximum segment size option, if present and not zero.
    pub mss: Option<u16>,
    /// Window scale option, if present.
    pub wscale: Option<u8>,
}

/// MSS and window scale found in the options `o` from index `i` on; the
/// last well-formed occurrence of each wins. Parsing ends at the
/// end-of-options marker or at the first malformed option.
pub open spec fn options_from(
    o: Seq<u8>,
    i: int,
    mss: Option<u16>,
    wscale: Option<u8>,
) -> (Option<u16>, Option<u8>)
    decreases o.len() - i,
{
    if i < 0 || i >= o.len() || o[i] == 0 {
        (mss, wscale)
    } else if o[i] == 1 {
        options_from(o, i + 1, mss, wscale)
    } else if i + 1 >= o.len() || o[i + 1] < 2 || i + o[i + 1] > o.len() {
        (mss, wscale)
    } else if o[i] == 2 && o[i + 1] == 4 && wire::be16_at(o, i + 2) != 0 {
        options_from(o, i + 4, Some(wire::be16_at(o, i + 2)), wscale)
    } else if o[i] == 3 && o[i + 1] == 3 {
        options_from(o, i + 3, mss, Some(o[i + 2]))
    } else {
        options_from(o, i + o[i + 1], mss, wscale)
    }
}

/// Scan the options that `b` holds between `start` and `end`.
fn parse_options(b: &[u8], start: usize, end: usize) -> (r: (Option<u16>, Option<u8>))
    requires
        start <= end <= b@.len(),
        end <= 60,
    ensures
        r == options_from(b@.subrange(start as int, end as int), 0, None, None),
{
    let ghost o = b@.subrange(start as int, end as int);
    let mut mss: Option<u16> = None;
    let mut wscale: Option<u8> = None;
    let mut i: usize = start;
    while i < end
        invariant
            start <= i <= end <= b@.len(),
            end <= 60,
            o == b@.subrange(start as int, end as int),
            options_from(o, 0, None, None) == options_from(o, i - start, mss, wscale),
        decreases end - i,
    {
        let kind: u8 = b[i];
        if kind == 0 {
            return (mss, wscale);
        }
        if kind == 1 {
            i = i + 1;
            continue;
        }
        if i + 1 >= end {
            return (mss, wscale);
        }
        let len: usize = b[i + 1] as usize;
        if len < 2 || i + len > end {
            return (mss, wscale);
        }
        if kind == 2 && len == 4 {
            let v: u16 = get_be16(b, i + 2);
            assert(v == wire::be16_at(o, i - start + 2));
            if v != 0 {
                mss = Some(v);
            }
        } else if kind == 3 && len == 3 {
            wscale = Some(b[i + 2]);
        }
        i = i + len;
    }
    (mss, wscale)
}

/// A TCP header with the given checksum field.
pub open spec fn tcp_with_csum(
    src_port: u16,
    dst_port: u16,
    seq: u32,
    ack: u32,
    flags: u8,
    window: u16,
    options: Seq<u8>,
    csum: u16,
) -> Seq<u8> {
    wire::be16(src_port) + wire::be16(dst_port) + wire::be32(seq) + wire::be32(ack) + seq![
        ((TCP_HDR_LEN + options.len()) / 4 * 16) as u8,
        flags,
    ] + wire::be16(window) + wire::be16(csum) + wire::be16(0) + options
}

/// Checksum field of a TCP header. `pseudo` is the sum of the
/// pseudo-header and, when the device does not complete the checksum, of
/// the payload behind the header.
pub open spec fn tcp_csum(
    src_port: u16,
    dst_port: u16,
    seq: u32,
    ack: u32,
    flags: u8,
    window: u16,
    options: Seq<u8>,
    pseudo: nat,
    partial: bool,
) -> u16 {
    if partial {
        proto::fold(pseudo)
    } else {
        proto::spec_checksum(tcp_with_csum(src_port, dst_port, seq, ack, flags, window, options, 0), pseudo)
    }
}

/// The TCP header written for a segment.
pub open spec fn tcp_bytes(
    src_port: u16,
    dst_port: u16,
    seq: u32,
    ack: u32,
    flags: u8,
    window: u16,
    options: Seq<u8>,
    pseudo: nat,
    partial: bool,
) -> Seq<u8> {
    tcp_with_csum(
        src_port,
        dst_port,
        seq,
        ack,
        flags,
        window,
        options,
        tcp_csum(src_port, dst_port, seq, ack, flags, window, options, pseudo, partial),
    )
}

impl TcpHdr {
    /// The header at the front of `s`: at least five words, all present.
    pub open spec fn spec_parse(s: Seq<u8>) -> Option<TcpHdr> {
        if s.len() >= TCP_HDR_LEN && s[12] / 16 >= 5 && s.len() >= s[12] / 16 * 4 {
            let end = s[12] / 16 * 4;
            let opts = options_from(s.subrange(TCP_HDR_LEN as int, end), 0, None, None);
            Some(
                TcpHdr {
                    src_port: wire::be16_at(s, 0),
                    dst_port: wire::be16_at(s, 2),
                    seq: wire::be32_at(s, 4),
                    ack: wire::be32_at(s, 8),
                    header_len: end as usize,
                    flags: s[13],
                    window: wire::be16_at(s, 14),
                    mss: opts.0,
                    wscale: opts.1,
                },
            )
        } else {
            None
        }
    }

    #[must_use]
    pub fn parse(b: &[u8]) -> (r: Option<Self>)
        ensures
            r == Self::spec_parse(b@),
    {
        if b.len() < TCP_HDR_LEN {
            return None;
        }
        let header_len: usize = (b[12] / 16) as usize * 4;
        if header_len < TCP_HDR_LEN || b.len() < header_len {
            return None;
        }
        let (mss, wscale) = parse_options(b, TCP_HDR_LEN, header_len);
        Some(
            TcpHdr {
                src_port: get_be16(b, 0),
                dst_port: get_be16(b, 2),
                seq: get_be32(b, 4),
                ack: get_be32(b, 8),
                header_len,
                flags: b[13],
                window: get_be16(b, 14),
                mss,
                wscale,
            },
        )
    }

    /// Write the header with `options` into the front of `out`. With
    /// `partial` the device completes the checksum.
    #[allow(clippy::too_many_arguments)]
    pub fn write(
        out: &mut [u8],
        ports: (u16, u16),
        seq: u32,
        ack: u32,
        flags: u8,
        window: u16,
        options: &[u8],
        pseudo: u32,
        partial: bool,
    )
        requires
            old(out)@.len() == TCP_HDR_LEN + options@.len(),
            options@.len() <= 40,
            options@.len() % 4 == 0,
        ensures
            final(out)@ == tcp_bytes(
                ports.0,
                ports.1,
                seq,
                ack,
                flags,
                window,
                options@,
                pseudo as nat,
                partial,
            ),
    {
        put_be16(out, 0, ports.0);
        put_be16(out, 2, ports.1);
        put_be32(out, 4, seq);
        put_be32(out, 8, ack);
        out[12] = ((TCP_HDR_LEN + options.len()) / 4 * 16) as u8;
        out[13] = flags;
        put_be16(out, 14, window);
        put_be16(out, 16, 0);
        put_be16(out, 18, 0);
        put(out, TCP_HDR_LEN, options);
        assert(out@ =~= tcp_with_csum(ports.0, ports.1, seq, ack, flags, window, options@, 0));
        let csum: u16 = if partial {
            fold_sum(pseudo as u64)
        } else {
            checksum(out, pseudo)
        };
        put_be16(out, 16, csum);
        assert(out@ =~= tcp_with_csum(ports.0, ports.1, seq, ack, flags, window, options@, csum));
    }
}

/// A written TCP header reads back with the fields it was written with,
/// its options as the option scan finds them, whatever follows it.
pub proof fn law_tcp_roundtrip(
    src_port: u16,
    dst_port: u16,
    seq: u32,
    ack: u32,
    flags: u8,
    window: u16,
    options: Seq<u8>,
    pseudo: nat,
    partial: bool,
    payload: Seq<u8>,
)
    requires
        options.len() <= 40,
        options.len() % 4 == 0,
    ensures
        TcpHdr::spec_parse(
            tcp_bytes(src_port, dst_port, seq, ack, flags, window, options, pseudo, partial)
                + payload,
        ) == Some(
            TcpHdr {
                src_port,
                dst_port,
                seq,
                ack,
                header_len: (TCP_HDR_LEN + options.len()) as usize,
                flags,
                window,
                mss: options_from(options, 0, None, None).0,
                wscale: options_from(options, 0, None, None).1,
            },
        ),
{
    let w = tcp_bytes(src_port, dst_port, seq, ack, flags, window, options, pseudo, partial)
        + payload;
    let n = TCP_HDR_LEN + options.len();
    assert(w[12] == (n / 4 * 16) as u8);
    assert(w[12] / 16 * 4 == n);
    assert(w[13] == flags);
    assert(w.subrange(TCP_HDR_LEN as int, n as int) =~= options);
    assert(w[0] == wire::be16(src_port)[0] && w[1] == wire::be16(src_port)[1]);
    assert(w[2] == wire::be16(dst_port)[0] && w[3] == wire::be16(dst_port)[1]);
    assert(w[4] == wire::be32(seq)[0] && w[5] == wire::be32(seq)[1] && w[6] == wire::be32(seq)[2] && w[7] == wire::be32(
        seq,
    )[3]);
    assert(w[8] == wire::be32(ack)[0] && w[9] == wire::be32(ack)[1] && w[10] == wire::be32(ack)[2] && w[11] == wire::be32(
        ack,
    )[3]);
    assert(w[14] == wire::be16(window)[0] && w[15] == wire::be16(window)[1]);
    wire::lemma_be16(src_port);
    wire::lemma_be16(dst_port);
    wire::lemma_be16(window);
    wire::lemma_be32(seq);
    wire::lemma_be32(ack);
}

/// A TCP segment whose header was written with the software checksum over
/// a pseudo-header and payload sum validates at the receiver.
pub proof fn law_tcp_checksum_valid(
    src_port: u16,
    dst_port: u16,
    seq: u32,
    ack: u32,
    flags: u8,
    window: u16,
    options: Seq<u8>,
    pseudo: nat,
    payload: Seq<u8>,
)
    requires
        options.len() % 4 == 0,
    ensures
        proto::spec_checksum(
            tcp_bytes(
                src_port,
                dst_port,
                seq,
                ack,
                flags,
                window,
                options,
                (pseudo + proto::fold(proto::word_sum(payload))) as nat,
                false,
            ) + payload,
            pseudo,
        ) == 0,
{
    let before = wire::be16(src_port) + wire::be16(dst_port) + wire::be32(seq) + wire::be32(ack) + seq![
        ((TCP_HDR_LEN + options.len()) / 4 * 16) as u8,
        flags,
    ] + wire::be16(window);
    let after = wire::be16(0) + options;
    let p = (pseudo + proto::fold(proto::word_sum(payload))) as nat;
    let zero = tcp_with_csum(src_port, dst_port, seq, ack, flags, window, options, 0);
    assert(zero =~= before + seq![0u8, 0u8] + after);
    let c = proto::spec_checksum(zero, p);
    let hdr = tcp_bytes(src_port, dst_port, seq, ack, flags, window, options, p, false);
    assert(hdr =~= before + wire::be16(c) + after);
    proto::law_checksum_verifies(before, after, p);
    // The header sums to all ones together with `p`; replacing the folded
    // payload sum in `p` by the payload itself stays in the same class.
    let h = proto::word_sum(hdr);
    let d = proto::word_sum(payload);
    assert(hdr.len() % 2 == 0);
    proto::lemma_word_sum_concat(hdr, payload);
    proto::lemma_fold_part(d, pseudo + h);
}

/// MSS and window scale that the options `o` announce.
pub open spec fn announced(o: Seq<u8>) -> (Option<u16>, Option<u8>) {
    options_from(o, 0, None, None)
}

/// The first of two announcements that is there.
pub open spec fn either<T>(a: Option<T>, b: Option<T>) -> Option<T> {
    if a is Some {
        a
    } else {
        b
    }
}

/// Options found so far give way to those behind them, wherever the scan
/// stands.
proof fn lemma_options_from(o: Seq<u8>, i: int, mss: Option<u16>, wscale: Option<u8>)
    requires
        0 <= i <= o.len(),
    ensures
        options_from(o, i, mss, wscale) == (
            either(announced(o.skip(i)).0, mss),
            either(announced(o.skip(i)).1, wscale),
        ),
    decreases o.len() - i,
{
    let p = o.skip(i);
    if i < o.len() && o[i] != 0 {
        assert(p[0] == o[i]);
        if o[i] == 1 {
            lemma_options_from(o, i + 1, mss, wscale);
            assert(o.skip(i + 1) =~= p.skip(1));
            lemma_options_from(p, 1, None, None);
        } else if i + 1 < o.len() && o[i + 1] >= 2 && i + o[i + 1] <= o.len() {
            let n = o[i + 1] as int;
            assert(p[1] == o[i + 1]);
            assert(o.skip(i + n) =~= p.skip(n));
            if o[i] == 2 && n == 4 {
                assert(wire::be16_at(p, 2) == wire::be16_at(o, i + 2));
            }
            if o[i] == 3 && n == 3 {
                assert(p[2] == o[i + 2]);
            }
            let (m, w) = if o[i] == 2 && n == 4 && wire::be16_at(o, i + 2) != 0 {
                (Some(wire::be16_at(o, i + 2)), wscale)
            } else if o[i] == 3 && n == 3 {
                (mss, Some(o[i + 2]))
            } else {
                (mss, wscale)
            };
            lemma_options_from(o, i + n, m, w);
            let (m0, w0) = if o[i] == 2 && n == 4 && wire::be16_at(o, i + 2) != 0 {
                (Some(wire::be16_at(o, i + 2)), None)
            } else if o[i] == 3 && n == 3 {
                (None, Some(o[i + 2]))
            } else {
                (None, None)
            };
            lemma_options_from(p, n, m0, w0);
        }
    }
}

/// The options of a segment are gone through from the front: padding and
/// options of no interest are passed over by their length, an MSS other
/// than zero and a window scale count unless they are announced again
/// further on, and everything behind the end marker or behind an option
/// that does not fit is left out.
pub proof fn law_options(rest: Seq<u8>, mss: u16, scale: u8, kind: u8, data: Seq<u8>)
    requires
        data.len() <= 253,
    ensures
        announced(Seq::<u8>::empty()) == (None::<u16>, None::<u8>),
        announced(seq![0u8] + rest) == (None::<u16>, None::<u8>),
        announced(seq![1u8] + rest) == announced(rest),
        mss != 0 ==> announced(seq![2u8, 4] + wire::be16(mss) + rest) == (
            either(announced(rest).0, Some(mss)),
            announced(rest).1,
        ),
        announced(seq![2u8, 4, 0, 0] + rest) == announced(rest),
        announced(seq![3u8, 3, scale] + rest) == (
            announced(rest).0,
            either(announced(rest).1, Some(scale)),
        ),
        kind > 3 || (kind == 2 && data.len() != 2) || (kind == 3 && data.len() != 1) ==> announced(
            seq![kind, (2 + data.len()) as u8] + data + rest,
        ) == announced(rest),
        kind > 1 && scale > 2 + data.len() ==> announced(seq![kind, scale] + data) == (
            None::<u16>,
            None::<u8>,
        ),
        kind > 1 && scale < 2 ==> announced(seq![kind, scale] + rest) == (None::<u16>, None::<u8>),
        kind > 1 ==> announced(seq![kind]) == (None::<u16>, None::<u8>),
{
    let a = seq![1u8] + rest;
    lemma_options_from(a, 1, None, None);
    assert(a.skip(1) =~= rest);
    let b = seq![2u8, 4] + wire::be16(mss) + rest;
    assert(b[2] == wire::be16(mss)[0] && b[3] == wire::be16(mss)[1]);
    assert(wire::be16_at(b, 2) == mss);
    lemma_options_from(b, 4, Some(mss), None);
    assert(b.skip(4) =~= rest);
    let z = seq![2u8, 4, 0, 0] + rest;
    assert(wire::be16_at(z, 2) == 0);
    lemma_options_from(z, 4, None, None);
    assert(z.skip(4) =~= rest);
    let c = seq![3u8, 3, scale] + rest;
    lemma_options_from(c, 3, None, Some(scale));
    assert(c.skip(3) =~= rest);
    let d = seq![kind, (2 + data.len()) as u8] + data + rest;
    lemma_options_from(d, (2 + data.len()) as int, None, None);
    assert(d.skip((2 + data.len()) as int) =~= rest);
}

} // verus!
