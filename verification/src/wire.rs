//! Byte-level helpers shared by the wire formats: fixed-width integers in
//! network and little-endian order, and in-place splicing of byte runs.

use vstd::prelude::*;

verus! {

/// Network byte order encoding of a 16-bit value.
pub open spec fn be16(x: u16) -> Seq<u8> {
    seq![(x / 256) as u8, (x % 256) as u8]
}

/// Network byte order encoding of a 32-bit value.
pub open spec fn be32(x: u32) -> Seq<u8> {
    be16((x / 65536) as u16) + be16((x % 65536) as u16)
}

/// Little-endian encoding of a 16-bit value.
pub open spec fn le16(x: u16) -> Seq<u8> {
    seq![(x % 256) as u8, (x / 256) as u8]
}

/// Little-endian encoding of a 32-bit value.
pub open spec fn le32(x: u32) -> Seq<u8> {
    le16((x % 65536) as u16) + le16((x / 65536) as u16)
}

/// The 16-bit value in network byte order at index `i` of `s`.
pub open spec fn be16_at(s: Seq<u8>, i: int) -> u16 {
    (s[i] * 256 + s[i + 1]) as u16
}

/// The 32-bit value in network byte order at index `i` of `s`.
pub open spec fn be32_at(s: Seq<u8>, i: int) -> u32 {
    (be16_at(s, i) * 65536 + be16_at(s, i + 2)) as u32
}

/// The 16-bit little-endian value at index `i` of `s`.
pub open spec fn le16_at(s: Seq<u8>, i: int) -> u16 {
    (s[i] + s[i + 1] * 256) as u16
}

/// The 32-bit little-endian value at index `i` of `s`.
pub open spec fn le32_at(s: Seq<u8>, i: int) -> u32 {
    (le16_at(s, i) + le16_at(s, i + 2) * 65536) as u32
}

/// `s` with the bytes from index `at` on replaced by `d`.
pub open spec fn splice(s: Seq<u8>, at: int, d: Seq<u8>) -> Seq<u8> {
    s.subrange(0, at) + d + s.subrange(at + d.len(), s.len() as int)
}

/// Reading back a network-order 16-bit value gives the value written.
pub broadcast proof fn lemma_be16(x: u16)
    ensures
        (#[trigger] be16(x)).len() == 2,
        be16_at(be16(x), 0) == x,
{
}

/// Writing a network-order 16-bit value read from `s` gives the bytes of `s`.
pub proof fn lemma_be16_at(s: Seq<u8>, i: int)
    requires
        0 <= i,
        i + 2 <= s.len(),
    ensures
        be16(be16_at(s, i)) == s.subrange(i, i + 2),
{
    assert(be16(be16_at(s, i)) =~= s.subrange(i, i + 2));
}

/// Reading back a network-order 32-bit value gives the value written.
pub broadcast proof fn lemma_be32(x: u32)
    ensures
        (#[trigger] be32(x)).len() == 4,
        be32_at(be32(x), 0) == x,
{
    let s = be32(x);
    assert(be16_at(s, 0) == (x / 65536) as u16);
    assert(be16_at(s, 2) == (x % 65536) as u16);
}

/// Reading back a little-endian 16-bit value gives the value written.
pub broadcast proof fn lemma_le16(x: u16)
    ensures
        (#[trigger] le16(x)).len() == 2,
        le16_at(le16(x), 0) == x,
{
}

/// Reading back a little-endian 32-bit value gives the value written.
pub broadcast proof fn lemma_le32(x: u32)
    ensures
        (#[trigger] le32(x)).len() == 4,
        le32_at(le32(x), 0) == x,
{
    let s = le32(x);
    assert(le16_at(s, 0) == (x % 65536) as u16);
    assert(le16_at(s, 2) == (x / 65536) as u16);
}

/// A splice that fits keeps the length and every byte outside the run.
pub proof fn lemma_splice(s: Seq<u8>, at: int, d: Seq<u8>)
    requires
        0 <= at,
        at + d.len() <= s.len(),
    ensures
        splice(s, at, d).len() == s.len(),
        splice(s, at, d).subrange(at, at + d.len()) == d,
        forall|i: int|
            0 <= i < s.len() ==> #[trigger] splice(s, at, d)[i] == if at <= i < at + d.len() {
                d[i - at]
            } else {
                s[i]
            },
{
    assert(splice(s, at, d).subrange(at, at + d.len()) =~= d);
}

/// A splice over an earlier one leaves no trace of it.
pub proof fn lemma_splice_over(s: Seq<u8>, a: int, x: Seq<u8>, b: int, y: Seq<u8>)
    requires
        0 <= b <= a,
        a + x.len() <= b + y.len() <= s.len(),
    ensures
        splice(splice(s, a, x), b, y) == splice(s, b, y),
{
    assert(splice(splice(s, a, x), b, y) =~= splice(s, b, y));
}

/// Replacing the run between a front and a tail is a splice.
pub proof fn lemma_splice_parts(s: Seq<u8>, at: int, d: Seq<u8>)
    requires
        0 <= at,
        at + d.len() <= s.len(),
    ensures
        s.subrange(0, at) + (d + s.subrange(at, s.len() as int).subrange(
            d.len() as int,
            s.len() - at,
        )) == splice(s, at, d),
{
    assert(s.subrange(0, at) + (d + s.subrange(at, s.len() as int).subrange(
        d.len() as int,
        s.len() - at,
    )) =~= splice(s, at, d));
}

/// Value of the two bytes at `i` in network byte order.
pub fn get_be16(b: &[u8], i: usize) -> (r: u16)
    requires
        i + 2 <= b@.len(),
    ensures
        r == be16_at(b@, i as int),
{
    b[i] as u16 * 256 + b[i + 1] as u16
}

/// Value of the four bytes at `i` in network byte order.
pub fn get_be32(b: &[u8], i: usize) -> (r: u32)
    requires
        i + 4 <= b@.len(),
    ensures
        r == be32_at(b@, i as int),
{
    assert(b.len() == b@.len());
    get_be16(b, i) as u32 * 65536 + get_be16(b, i + 2) as u32
}

/// Copy `data` into `out` at index `at`.
pub fn put(out: &mut [u8], at: usize, data: &[u8])
    requires
        at + data@.len() <= old(out)@.len(),
    ensures
        final(out)@ == splice(old(out)@, at as int, data@),
{
    let n: usize = data.len();
    let total: usize = out.len();
    let mut i: usize = 0;
    assert(out@ =~= splice(out@, at as int, data@.subrange(0, 0)));
    while i < n
        invariant
            i <= n,
            n == data@.len(),
            at + n <= total,
            total == old(out)@.len(),
            out@ == splice(old(out)@, at as int, data@.subrange(0, i as int)),
        decreases n - i,
    {
        out[at + i] = data[i];
        i += 1;
        assert(out@ =~= splice(old(out)@, at as int, data@.subrange(0, i as int)));
    }
    assert(data@.subrange(0, n as int) =~= data@);
}

/// Write `x` into `out` at index `at` in network byte order.
pub fn put_be16(out: &mut [u8], at: usize, x: u16)
    requires
        at + 2 <= old(out)@.len(),
    ensures
        final(out)@ == splice(old(out)@, at as int, be16(x)),
{
    out[at] = (x / 256) as u8;
    out[at + 1] = (x % 256) as u8;
    assert(out@ =~= splice(old(out)@, at as int, be16(x)));
}

/// Write `x` into `out` at index `at` in network byte order.
pub fn put_be32(out: &mut [u8], at: usize, x: u32)
    requires
        at + 4 <= old(out)@.len(),
    ensures
        final(out)@ == splice(old(out)@, at as int, be32(x)),
{
    assert(out.len() == out@.len());
    put_be16(out, at, (x / 65536) as u16);
    put_be16(out, at + 2, (x % 65536) as u16);
    assert(out@ =~= splice(old(out)@, at as int, be32(x)));
}

/// Copy the `len` bytes at `from` to `to` within `out`: down, or to where
/// they do not overlap.
pub fn copy_within(out: &mut [u8], from: usize, len: usize, to: usize)
    requires
        to <= from || from + len <= to,
        from + len <= old(out)@.len(),
        to + len <= old(out)@.len(),
    ensures
        final(out)@ == splice(old(out)@, to as int, old(out)@.subrange(from as int, from + len)),
{
    let ghost src = out@.subrange(from as int, from + len);
    let total: usize = out.len();
    let mut i: usize = 0;
    assert(out@ =~= splice(out@, to as int, src.subrange(0, 0)));
    while i < len
        invariant
            i <= len,
            to <= from || from + len <= to,
            from + len <= total,
            to + len <= total,
            total == old(out)@.len(),
            src == old(out)@.subrange(from as int, from + len),
            out@ == splice(old(out)@, to as int, src.subrange(0, i as int)),
        decreases len - i,
    {
        assert(out@[from + i] == old(out)@[from + i]);
        out[to + i] = out[from + i];
        i += 1;
        assert(out@ =~= splice(old(out)@, to as int, src.subrange(0, i as int)));
    }
    assert(src.subrange(0, len as int) =~= src);
}

} // verus!
