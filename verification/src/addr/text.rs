//! Textual IP addresses.

use vstd::prelude::*;

use crate::addr;
use crate::addr::{IpAddr, Ipv4Addr, Ipv6Addr};
use crate::wire;

verus! {

/// Index of the first `c` in `s`, or the length of `s`.
pub open spec fn spec_index_of(s: Seq<char>, c: char) -> int
    decreases s.len(),
{
    if s.len() == 0 || s[0] == c {
        0
    } else {
        1 + spec_index_of(s.skip(1), c)
    }
}

/// The index of the first `c` is within `s`, only it and what follows may
/// hold `c`.
pub proof fn lemma_index_of(s: Seq<char>, c: char)
    ensures
        0 <= spec_index_of(s, c) <= s.len(),
        spec_index_of(s, c) < s.len() ==> s[spec_index_of(s, c)] == c,
        forall|i: int| 0 <= i < spec_index_of(s, c) ==> #[trigger] s[i] != c,
    decreases s.len(),
{
    if s.len() > 0 && s[0] != c {
        lemma_index_of(s.skip(1), c);
        assert forall|i: int| 0 <= i < spec_index_of(s, c) implies #[trigger] s[i] != c by {
            if i > 0 {
                assert(s.skip(1)[i - 1] == s[i]);
            }
        }
    }
}

/// The first index that holds `c` is `spec_index_of`.
pub proof fn lemma_index_is_first(s: Seq<char>, c: char, n: int)
    requires
        0 <= n <= s.len(),
        forall|i: int| 0 <= i < n ==> #[trigger] s[i] != c,
        n == s.len() || s[n] == c,
    ensures
        spec_index_of(s, c) == n,
    decreases n,
{
    if n > 0 {
        assert(s[0] != c);
        assert forall|i: int| 0 <= i < n - 1 implies #[trigger] s.skip(1)[i] != c by {
            assert(s.skip(1)[i] == s[i + 1]);
        }
        lemma_index_is_first(s.skip(1), c, n - 1);
    }
}

/// Index of the first `c` in `s`, or the length of `s`.
pub fn index_of(s: &[char], c: char) -> (r: usize)
    ensures
        r == spec_index_of(s@, c),
        r <= s@.len(),
{
    let mut i: usize = 0;
    while i < s.len() && s[i] != c
        invariant
            i <= s@.len(),
            forall|j: int| 0 <= j < i ==> #[trigger] s@[j] != c,
        decreases s@.len() - i,
    {
        i += 1;
    }
    proof {
        lemma_index_is_first(s@, c, i as int);
    }
    i
}

/// Value of a digit in base ten, or sixteen where `hex` is set.
pub open spec fn spec_digit(c: char, hex: bool) -> Option<int> {
    if '0' <= c <= '9' {
        Some(c as int - '0' as int)
    } else if hex && 'a' <= c <= 'f' {
        Some(c as int - 'a' as int + 10)
    } else if hex && 'A' <= c <= 'F' {
        Some(c as int - 'A' as int + 10)
    } else {
        None
    }
}

/// Value of a digit in base ten, or sixteen where `hex` is set.
fn digit(c: char, hex: bool) -> (r: Option<u32>)
    ensures
        match r {
            Some(d) => spec_digit(c, hex) == Some(d as int) && d < (if hex {
                16
            } else {
                10int
            }),
            None => spec_digit(c, hex) is None,
        },
{
    let n: u32 = c as u32;
    if '0' <= c && c <= '9' {
        Some(n - 48)
    } else if hex && 'a' <= c && c <= 'f' {
        Some(n - 97 + 10)
    } else if hex && 'A' <= c && c <= 'F' {
        Some(n - 65 + 10)
    } else {
        None
    }
}

/// Value of a run of digits; none if it holds anything else.
pub open spec fn spec_number(s: Seq<char>, hex: bool) -> Option<int>
    decreases s.len(),
{
    if s.len() == 0 {
        Some(0)
    } else {
        match (spec_number(s.drop_last(), hex), spec_digit(s.last(), hex)) {
            (Some(n), Some(d)) => Some(
                n * (if hex {
                    16
                } else {
                    10int
                }) + d,
            ),
            _ => None,
        }
    }
}

/// Value of a run of at most four digits.
fn number(s: &[char], hex: bool) -> (r: Option<u32>)
    requires
        s@.len() <= 4,
    ensures
        match r {
            Some(n) => spec_number(s@, hex) == Some(n as int) && n < 65536,
            None => spec_number(s@, hex) is None,
        },
{
    let mut n: u32 = 0;
    let mut i: usize = 0;
    assert(s@.subrange(0, 0) =~= Seq::<char>::empty());
    while i < s.len()
        invariant
            i <= s@.len() <= 4,
            spec_number(s@.subrange(0, i as int), hex) == Some(n as int),
            i == 0 ==> n == 0,
            i <= 1 ==> n < 16,
            i <= 2 ==> n < 256,
            i <= 3 ==> n < 4096,
            n < 65536,
        decreases s@.len() - i,
    {
        let ghost next = s@.subrange(0, i + 1);
        assert(next.drop_last() =~= s@.subrange(0, i as int));
        match digit(s[i], hex) {
            Some(d) => {
                n = n * (if hex {
                    16
                } else {
                    10
                }) + d;
            },
            None => {
                proof {
                    lemma_number_prefix(s@, i + 1, hex);
                }
                return None;
            },
        }
        i += 1;
    }
    assert(s@.subrange(0, i as int) =~= s@);
    Some(n)
}

/// A run with a prefix that is no number is no number.
proof fn lemma_number_prefix(s: Seq<char>, n: int, hex: bool)
    requires
        0 <= n <= s.len(),
        spec_number(s.subrange(0, n), hex) is None,
    ensures
        spec_number(s, hex) is None,
    decreases s.len() - n,
{
    if n < s.len() {
        assert(s.subrange(0, n + 1).drop_last() =~= s.subrange(0, n));
        lemma_number_prefix(s, n + 1, hex);
    } else {
        assert(s.subrange(0, n) =~= s);
    }
}

/// A decimal number from 0 to 255 without leading zeros.
pub open spec fn spec_octet(s: Seq<char>) -> Option<u8> {
    if s.len() == 0 || s.len() > 3 || (s.len() > 1 && s[0] == '0') {
        None
    } else {
        match spec_number(s, false) {
            Some(n) => if n <= 255 {
                Some(n as u8)
            } else {
                None
            },
            None => None,
        }
    }
}

fn octet(s: &[char]) -> (r: Option<u8>)
    ensures
        r == spec_octet(s@),
{
    if s.len() == 0 || s.len() > 3 || (s.len() > 1 && s[0] == '0') {
        return None;
    }
    match number(s, false) {
        Some(n) => if n <= 255 {
            Some(n as u8)
        } else {
            None
        },
        None => None,
    }
}

/// `n` octets separated by dots.
pub open spec fn spec_octets(s: Seq<char>, n: nat) -> Option<Seq<u8>>
    decreases n,
{
    if n <= 1 {
        match spec_octet(s) {
            Some(a) => Some(seq![a]),
            None => None,
        }
    } else {
        let i = spec_index_of(s, '.');
        if i >= s.len() {
            None
        } else {
            match (spec_octet(s.take(i)), spec_octets(s.skip(i + 1), (n - 1) as nat)) {
                (Some(a), Some(rest)) => Some(seq![a] + rest),
                _ => None,
            }
        }
    }
}

/// An IPv4 address in dotted decimal notation.
pub open spec fn spec_parse_v4(s: Seq<char>) -> Option<Ipv4Addr> {
    match spec_octets(s, 4) {
        Some(o) => Some(addr::v4_at(o, 0)),
        None => None,
    }
}

/// The part of `s` before its first `c` and the part behind it.
fn split(s: &[char], c: char) -> (r: Option<(&[char], &[char])>)
    ensures
        match r {
            Some((a, b)) => {
                &&& spec_index_of(s@, c) < s@.len()
                &&& a@ == s@.take(spec_index_of(s@, c))
                &&& b@ == s@.skip(spec_index_of(s@, c) + 1)
            },
            None => spec_index_of(s@, c) >= s@.len(),
        },
{
    let n: usize = s.len();
    let i: usize = index_of(s, c);
    if i >= n {
        return None;
    }
    let a = vstd::slice::slice_subrange(s, 0, i);
    let b = vstd::slice::slice_subrange(s, i + 1, n);
    assert(a@ =~= s@.take(i as int));
    assert(b@ =~= s@.skip(i + 1));
    Some((a, b))
}

/// An IPv4 address in dotted decimal notation.
#[must_use]
pub fn parse_v4(s: &[char]) -> (r: Option<Ipv4Addr>)
    ensures
        r == spec_parse_v4(s@),
{
    reveal_with_fuel(spec_octets, 5);
    let (t, rest) = split(s, '.')?;
    let a: Option<u8> = octet(t);
    let (t, rest) = split(rest, '.')?;
    let b: Option<u8> = octet(t);
    let (t, rest) = split(rest, '.')?;
    let c: Option<u8> = octet(t);
    let d: Option<u8> = octet(rest);
    match (a, b, c, d) {
        (Some(a), Some(b), Some(c), Some(d)) => {
            let r = Ipv4Addr { octets: [a, b, c, d] };
            proof {
                let o = seq![a] + (seq![b] + (seq![c] + seq![d]));
                assert(spec_octets(s@, 4) == Some(o));
                assert(o[0] == a && o[1] == b && o[2] == c && o[3] == d);
                addr::lemma_v4_ext(r, addr::v4_at(o, 0));
            }
            Some(r)
        },
        _ => None,
    }
}

/// One to four hexadecimal digits.
pub open spec fn spec_group(s: Seq<char>) -> Option<u16> {
    if s.len() == 0 || s.len() > 4 {
        None
    } else {
        match spec_number(s, true) {
            Some(n) => Some(n as u16),
            None => None,
        }
    }
}

fn group(s: &[char]) -> (r: Option<u16>)
    ensures
        r == spec_group(s@),
{
    if s.len() == 0 || s.len() > 4 {
        return None;
    }
    match number(s, true) {
        Some(n) => Some(n as u16),
        None => None,
    }
}

/// The two groups that an IPv4 address makes.
pub open spec fn v4_groups(a: Ipv4Addr) -> Seq<u16> {
    seq![wire::be16_at(a.octets@, 0), wire::be16_at(a.octets@, 2)]
}

/// Groups separated by colons, the last of which may be an IPv4 address
/// that stands for two; and whether it is.
pub open spec fn spec_groups(s: Seq<char>) -> Option<(Seq<u16>, bool)>
    decreases s.len(),
    via groups_decreases
{
    let i = spec_index_of(s, ':');
    if i >= s.len() {
        match (spec_group(s), spec_parse_v4(s)) {
            (Some(g), _) => Some((seq![g], false)),
            (None, Some(a)) => Some((v4_groups(a), true)),
            (None, None) => None,
        }
    } else {
        match (spec_group(s.take(i)), spec_groups(s.skip(i + 1))) {
            (Some(g), Some((rest, v4))) => Some((seq![g] + rest, v4)),
            _ => None,
        }
    }
}

#[via_fn]
proof fn groups_decreases(s: Seq<char>) {
    lemma_index_of(s, ':');
}

/// Groups in front of others.
pub open spec fn after_groups(
    head: Seq<u16>,
    rest: Option<(Seq<u16>, bool)>,
) -> Option<(Seq<u16>, bool)> {
    match rest {
        Some((g, v4)) => Some((head + g, v4)),
        None => None,
    }
}

fn groups(s: &[char]) -> (r: Option<(Vec<u16>, bool)>)
    ensures
        match r {
            Some((g, v4)) => spec_groups(s@) == Some((g@, v4)),
            None => spec_groups(s@) is None,
        },
{
    let mut acc: Vec<u16> = Vec::new();
    let mut rest: &[char] = s;
    proof {
        match spec_groups(s@) {
            Some((g, v4)) => assert(acc@ + g =~= g),
            None => {},
        }
    }
    loop
        invariant
            spec_groups(s@) == after_groups(acc@, spec_groups(rest@)),
        decreases rest@.len(),
    {
        proof {
            lemma_index_of(rest@, ':');
        }
        match split(rest, ':') {
            None => {
                if let Some(g) = group(rest) {
                    acc.push(g);
                    assert(acc@ =~= acc@.drop_last() + seq![g]);
                    return Some((acc, false));
                }
                return match parse_v4(rest) {
                    Some(a) => {
                        let ghost before = acc@;
                        let o = a.octets;
                        acc.push(o[0] as u16 * 256 + o[1] as u16);
                        acc.push(o[2] as u16 * 256 + o[3] as u16);
                        assert(acc@ =~= before + v4_groups(a));
                        Some((acc, true))
                    },
                    None => None,
                };
            },
            Some((t, tail)) => {
                match group(t) {
                    Some(g) => {
                        proof {
                            match spec_groups(tail@) {
                                Some((gs, v4)) => assert(acc@ + (seq![g] + gs) =~= acc@.push(g)
                                    + gs),
                                None => {},
                            }
                        }
                        acc.push(g);
                    },
                    None => {
                        return None;
                    },
                }
                rest = tail;
            },
        }
    }
}

/// Index of the first `::` in `s`, or the length of `s`.
pub open spec fn spec_gap(s: Seq<char>) -> int
    decreases s.len(),
{
    if s.len() < 2 {
        s.len() as int
    } else if s[0] == ':' && s[1] == ':' {
        0
    } else {
        1 + spec_gap(s.skip(1))
    }
}

/// There is a `::` at `i`.
pub open spec fn gap_at(s: Seq<char>, i: int) -> bool {
    0 <= i && i + 1 < s.len() && s[i] == ':' && s[i + 1] == ':'
}

proof fn lemma_gap(s: Seq<char>, n: int)
    requires
        0 <= n <= s.len(),
        forall|i: int| 0 <= i < n ==> !#[trigger] gap_at(s, i),
        n == s.len() || gap_at(s, n),
    ensures
        spec_gap(s) == n,
    decreases s.len(),
{
    if s.len() >= 2 {
        assert(gap_at(s, 0) <==> s[0] == ':' && s[1] == ':');
        if n > 0 {
            assert(!gap_at(s, 0));
            assert forall|i: int| 0 <= i < n - 1 implies !#[trigger] gap_at(s.skip(1), i) by {
                assert(!gap_at(s, i + 1));
            }
            if n < s.len() {
                assert(gap_at(s.skip(1), n - 1));
            }
            lemma_gap(s.skip(1), n - 1);
        }
    } else if n < s.len() {
        assert(gap_at(s, n));
    }
}

/// Index of the first `::` in `s`, or the length of `s`.
fn gap(s: &[char]) -> (r: usize)
    ensures
        r == spec_gap(s@),
        r <= s@.len(),
        r < s@.len() ==> r + 1 < s@.len(),
{
    let n: usize = s.len();
    let mut i: usize = 0;
    while i < n
        invariant
            i <= n == s@.len(),
            forall|j: int| 0 <= j < i ==> !#[trigger] gap_at(s@, j),
        decreases n - i,
    {
        if n - i >= 2 && s[i] == ':' && s[i + 1] == ':' {
            assert(gap_at(s@, i as int));
            proof {
                lemma_gap(s@, i as int);
            }
            return i;
        }
        i += 1;
    }
    proof {
        lemma_gap(s@, n as int);
    }
    n
}

/// The address made of eight groups.
pub open spec fn v6_of(g: Seq<u16>) -> Ipv6Addr {
    addr::v6_at(
        wire::be16(g[0]) + wire::be16(g[1]) + wire::be16(g[2]) + wire::be16(g[3]) + wire::be16(
            g[4],
        ) + wire::be16(g[5]) + wire::be16(g[6]) + wire::be16(g[7]),
        0,
    )
}

/// Groups, or none at all.
pub open spec fn spec_groups_or_none(s: Seq<char>) -> Option<(Seq<u16>, bool)> {
    if s.len() == 0 {
        Some((Seq::empty(), false))
    } else {
        spec_groups(s)
    }
}

/// `head`, as many zero groups as make eight in all, and `tail`.
pub open spec fn gap_filled(head: Seq<u16>, tail: Seq<u16>) -> Seq<u16> {
    head + Seq::new((8 - head.len() - tail.len()) as nat, |i: int| 0u16) + tail
}

/// An IPv6 address: eight groups, or fewer with one `::` for the missing
/// ones. An IPv4 address may stand for the last two groups.
pub open spec fn spec_parse_v6(s: Seq<char>) -> Option<Ipv6Addr> {
    let d = spec_gap(s);
    if d >= s.len() {
        match spec_groups(s) {
            Some((g, _)) => if g.len() == 8 {
                Some(v6_of(g))
            } else {
                None
            },
            None => None,
        }
    } else {
        match (spec_groups_or_none(s.take(d)), spec_groups_or_none(s.skip(d + 2))) {
            (Some((head, v4)), Some((tail, _))) => if v4 || head.len() + tail.len() > 7 {
                None
            } else {
                Some(v6_of(gap_filled(head, tail)))
            },
            _ => None,
        }
    }
}

fn groups_or_none(s: &[char]) -> (r: Option<(Vec<u16>, bool)>)
    ensures
        match r {
            Some((g, v4)) => spec_groups_or_none(s@) == Some((g@, v4)),
            None => spec_groups_or_none(s@) is None,
        },
{
    if s.len() == 0 {
        let g: Vec<u16> = Vec::new();
        assert(g@ =~= Seq::<u16>::empty());
        Some((g, false))
    } else {
        groups(s)
    }
}

fn v6_from(g: &Vec<u16>) -> (r: Ipv6Addr)
    requires
        g@.len() == 8,
    ensures
        r == v6_of(g@),
{
    let r = Ipv6Addr::new(g[0], g[1], g[2], g[3], g[4], g[5], g[6], g[7]);
    proof {
        addr::lemma_v6_at(r.octets@, 0);
        assert(r.octets@.subrange(0, 16) =~= r.octets@);
        addr::lemma_v6_ext(r, addr::v6_at(r.octets@, 0));
    }
    r
}

/// An IPv6 address.
#[must_use]
pub fn parse_v6(s: &[char]) -> (r: Option<Ipv6Addr>)
    ensures
        r == spec_parse_v6(s@),
{
    let n: usize = s.len();
    let d: usize = gap(s);
    if d >= n {
        return match groups(s) {
            Some((g, _v4)) => if g.len() == 8 {
                Some(v6_from(&g))
            } else {
                None
            },
            None => None,
        };
    }
    let front = vstd::slice::slice_subrange(s, 0, d);
    let back = vstd::slice::slice_subrange(s, d + 2, n);
    assert(front@ =~= s@.take(d as int));
    assert(back@ =~= s@.skip(d + 2));
    match (groups_or_none(front), groups_or_none(back)) {
        (Some((head, v4)), Some((tail, _v4))) => {
            // IPv4 is not allowed in front of `::`, which stands for at
            // least one group.
            if v4 || head.len() > 7 || tail.len() > 7 - head.len() {
                return None;
            }
            let ghost h = head@;
            let ghost t = tail@;
            let mut g = head;
            let zeros: usize = 8 - g.len() - tail.len();
            let mut i: usize = 0;
            while i < zeros
                invariant
                    i <= zeros,
                    zeros == 8 - h.len() - t.len(),
                    g@ == h + Seq::new(i as nat, |j: int| 0u16),
                decreases zeros - i,
            {
                g.push(0);
                i += 1;
                assert(g@ =~= h + Seq::new(i as nat, |j: int| 0u16));
            }
            let mut k: usize = 0;
            while k < tail.len()
                invariant
                    k <= t.len(),
                    tail@ == t,
                    zeros == 8 - h.len() - t.len(),
                    g@ == h + Seq::new(zeros as nat, |j: int| 0u16) + t.subrange(0, k as int),
                decreases t.len() - k,
            {
                g.push(tail[k]);
                k += 1;
                assert(g@ =~= h + Seq::new(zeros as nat, |j: int| 0u16) + t.subrange(
                    0,
                    k as int,
                ));
            }
            assert(g@ =~= gap_filled(h, t));
            Some(v6_from(&g))
        },
        _ => None,
    }
}

/// An IP address of either family.
pub open spec fn spec_parse_ip(s: Seq<char>) -> Option<IpAddr> {
    match spec_parse_v4(s) {
        Some(a) => Some(IpAddr::V4(a)),
        None => match spec_parse_v6(s) {
            Some(a) => Some(IpAddr::V6(a)),
            None => None,
        },
    }
}

/// An IP address of either family.
#[must_use]
pub fn parse_ip(s: &[char]) -> (r: Option<IpAddr>)
    ensures
        r == spec_parse_ip(s@),
{
    match parse_v4(s) {
        Some(a) => Some(IpAddr::V4(a)),
        None => match parse_v6(s) {
            Some(a) => Some(IpAddr::V6(a)),
            None => None,
        },
    }
}

/// The digit character of `n`.
pub open spec fn digit_char(n: int) -> char {
    ('0' as int + n) as char
}

/// `n` in decimal.
pub open spec fn octet_text(n: u8) -> Seq<char> {
    if n < 10 {
        seq![digit_char(n as int)]
    } else if n < 100 {
        seq![digit_char(n as int / 10), digit_char(n as int % 10)]
    } else {
        seq![
            digit_char(n as int / 100),
            digit_char(n as int / 10 % 10),
            digit_char(n as int % 10),
        ]
    }
}

/// An IPv4 address in dotted decimal notation.
pub open spec fn v4_text(a: Ipv4Addr) -> Seq<char> {
    octet_text(a.octets[0]) + (seq!['.'] + (octet_text(a.octets[1]) + (seq!['.'] + (octet_text(
        a.octets[2],
    ) + (seq!['.'] + octet_text(a.octets[3]))))))
}

/// A number in decimal reads back as itself and holds no dot.
proof fn lemma_octet_text(n: u8)
    ensures
        spec_octet(octet_text(n)) == Some(n),
        forall|i: int| 0 <= i < octet_text(n).len() ==> #[trigger] octet_text(n)[i] != '.',
{
    reveal_with_fuel(spec_number, 4);
    let s = octet_text(n);
    if s.len() == 2 {
        assert(s.drop_last() =~= seq![s[0]]);
        assert(s.drop_last().drop_last() =~= Seq::<char>::empty());
    } else if s.len() == 3 {
        assert(s.drop_last() =~= seq![s[0], s[1]]);
        assert(s.drop_last().drop_last() =~= seq![s[0]]);
        assert(s.drop_last().drop_last().drop_last() =~= Seq::<char>::empty());
    } else {
        assert(s.drop_last() =~= Seq::<char>::empty());
    }
}

/// Text up to a dot splits at that dot.
proof fn lemma_split_dot(a: Seq<char>, b: Seq<char>)
    requires
        forall|i: int| 0 <= i < a.len() ==> #[trigger] a[i] != '.',
    ensures
        ({
            let s = a + (seq!['.'] + b);
            &&& spec_index_of(s, '.') == a.len()
            &&& s.take(a.len() as int) == a
            &&& s.skip(a.len() as int + 1) == b
        }),
{
    let s = a + (seq!['.'] + b);
    assert forall|i: int| 0 <= i < a.len() implies #[trigger] s[i] != '.' by {
        assert(s[i] == a[i]);
    }
    lemma_index_is_first(s, '.', a.len() as int);
    assert(s.take(a.len() as int) =~= a);
    assert(s.skip(a.len() as int + 1) =~= b);
}

/// An IPv4 address written in dotted decimal notation reads back as itself.
pub proof fn law_v4_text_roundtrip(a: Ipv4Addr)
    ensures
        spec_parse_v4(v4_text(a)) == Some(a),
{
    reveal_with_fuel(spec_octets, 5);
    let o = a.octets;
    lemma_octet_text(o[0]);
    lemma_octet_text(o[1]);
    lemma_octet_text(o[2]);
    lemma_octet_text(o[3]);
    let s3 = octet_text(o[3]);
    let s2 = octet_text(o[2]) + (seq!['.'] + s3);
    let s1 = octet_text(o[1]) + (seq!['.'] + s2);
    lemma_split_dot(octet_text(o[2]), s3);
    lemma_split_dot(octet_text(o[1]), s2);
    lemma_split_dot(octet_text(o[0]), s1);
    let r = seq![o[0]] + (seq![o[1]] + (seq![o[2]] + seq![o[3]]));
    assert(spec_octets(s3, 1) == Some(seq![o[3]]));
    assert(spec_octets(s2, 2) == Some(seq![o[2]] + seq![o[3]]));
    assert(spec_octets(s1, 3) == Some(seq![o[1]] + (seq![o[2]] + seq![o[3]])));
    assert(spec_octets(v4_text(a), 4) == Some(r));
    assert(r[0] == o[0] && r[1] == o[1] && r[2] == o[2] && r[3] == o[3]);
    assert(addr::v4_at(r, 0).octets@ =~= o@);
    addr::lemma_v4_ext(addr::v4_at(r, 0), a);
}

/// A decimal number in the range of an octet has one text only.
proof fn lemma_octet_is_text(s: Seq<char>)
    requires
        spec_octet(s) is Some,
    ensures
        s == octet_text(spec_octet(s)->0),
{
    reveal_with_fuel(spec_number, 4);
    if s.len() == 1 {
        assert(s.drop_last() =~= Seq::<char>::empty());
    } else if s.len() == 2 {
        assert(s.drop_last() =~= seq![s[0]]);
        assert(s.drop_last().drop_last() =~= Seq::<char>::empty());
    } else {
        assert(s.drop_last() =~= seq![s[0], s[1]]);
        assert(s.drop_last().drop_last() =~= seq![s[0]]);
        assert(s.drop_last().drop_last().drop_last() =~= Seq::<char>::empty());
    }
    assert(s =~= octet_text(spec_octet(s)->0));
}

/// The first of several octets, and the rest behind a dot.
proof fn lemma_octets_step(s: Seq<char>, n: nat) -> (rest: Seq<char>)
    requires
        n > 1,
        spec_octets(s, n) is Some,
    ensures
        spec_octets(rest, (n - 1) as nat) is Some,
        spec_octets(s, n)->0 == seq![(spec_octets(s, n)->0)[0]] + spec_octets(
            rest,
            (n - 1) as nat,
        )->0,
        s == octet_text((spec_octets(s, n)->0)[0]) + (seq!['.'] + rest),
{
    let i = spec_index_of(s, '.');
    lemma_index_of(s, '.');
    let rest = s.skip(i + 1);
    lemma_octet_is_text(s.take(i));
    assert(s =~= s.take(i) + (seq!['.'] + rest));
    assert((spec_octets(s, n)->0)[0] == spec_octet(s.take(i))->0);
    rest
}

/// Dotted decimal notation is the only text of an IPv4 address: no leading
/// zeros, no missing or extra parts, nothing around it.
pub proof fn law_v4_text_only(s: Seq<char>)
    ensures
        spec_parse_v4(s) matches Some(a) ==> s == v4_text(a),
{
    if spec_parse_v4(s) is Some {
        let s1 = lemma_octets_step(s, 4);
        let s2 = lemma_octets_step(s1, 3);
        let s3 = lemma_octets_step(s2, 2);
        lemma_octet_is_text(s3);
        let o = spec_octets(s, 4)->0;
        let o1 = spec_octets(s1, 3)->0;
        let o2 = spec_octets(s2, 2)->0;
        let o3 = spec_octets(s3, 1)->0;
        assert(o3[0] == spec_octet(s3)->0);
        assert(o[1] == o1[0] && o[2] == o1[1] && o[3] == o1[2]);
        assert(o1[1] == o2[0] && o1[2] == o2[1] && o2[1] == o3[0]);
        let a = spec_parse_v4(s)->0;
        assert(a.octets[0] == o[0] && a.octets[1] == o[1] && a.octets[2] == o[2] && a.octets[3]
            == o[3]);
    }
}

/// The hexadecimal digit character of `n`.
pub open spec fn hex_char(n: int) -> char {
    if n < 10 {
        ('0' as int + n) as char
    } else {
        ('a' as int + n - 10) as char
    }
}

/// `n` in hexadecimal, without leading zeros.
pub open spec fn group_text(n: u16) -> Seq<char> {
    if n < 0x10 {
        seq![hex_char(n as int)]
    } else if n < 0x100 {
        seq![hex_char(n as int / 16), hex_char(n as int % 16)]
    } else if n < 0x1000 {
        seq![hex_char(n as int / 256), hex_char(n as int / 16 % 16), hex_char(n as int % 16)]
    } else {
        seq![
            hex_char(n as int / 4096),
            hex_char(n as int / 256 % 16),
            hex_char(n as int / 16 % 16),
            hex_char(n as int % 16),
        ]
    }
}

/// One more hexadecimal digit behind a number.
proof fn lemma_hex_push(s: Seq<char>, n: int, d: int)
    requires
        spec_number(s, true) == Some(n),
        0 <= d < 16,
    ensures
        spec_number(s.push(hex_char(d)), true) == Some(n * 16 + d),
        hex_char(d) != ':',
{
    assert(s.push(hex_char(d)).drop_last() =~= s);
}

/// A group in hexadecimal reads back as itself and holds no colon.
proof fn lemma_group_text(n: u16)
    ensures
        spec_group(group_text(n)) == Some(n),
        group_text(n).len() > 0,
        forall|i: int| 0 <= i < group_text(n).len() ==> #[trigger] group_text(n)[i] != ':',
{
    let n = n as int;
    let e = Seq::<char>::empty();
    let (a, b, c, d) = (n / 4096, n / 256 % 16, n / 16 % 16, n % 16);
    let s = group_text(n as u16);
    if n < 0x10 {
        lemma_hex_push(e, 0, d);
        assert(s =~= e.push(hex_char(d)));
    } else if n < 0x100 {
        lemma_hex_push(e, 0, c);
        lemma_hex_push(e.push(hex_char(c)), c, d);
        assert(s =~= e.push(hex_char(c)).push(hex_char(d)));
    } else if n < 0x1000 {
        lemma_hex_push(e, 0, b);
        lemma_hex_push(e.push(hex_char(b)), b, c);
        lemma_hex_push(e.push(hex_char(b)).push(hex_char(c)), b * 16 + c, d);
        assert(s =~= e.push(hex_char(b)).push(hex_char(c)).push(hex_char(d)));
    } else {
        lemma_hex_push(e, 0, a);
        lemma_hex_push(e.push(hex_char(a)), a, b);
        lemma_hex_push(e.push(hex_char(a)).push(hex_char(b)), a * 16 + b, c);
        lemma_hex_push(
            e.push(hex_char(a)).push(hex_char(b)).push(hex_char(c)),
            (a * 16 + b) * 16 + c,
            d,
        );
        assert(s =~= e.push(hex_char(a)).push(hex_char(b)).push(hex_char(c)).push(hex_char(d)));
    }
}

/// Groups in hexadecimal with colons between them.
pub open spec fn groups_text(g: Seq<u16>) -> Seq<char>
    decreases g.len(),
{
    if g.len() == 0 {
        Seq::empty()
    } else if g.len() == 1 {
        group_text(g[0])
    } else {
        group_text(g[0]) + (seq![':'] + groups_text(g.skip(1)))
    }
}

/// Groups with colons between them read back as themselves; there is no
/// `::` among them, and they neither start nor end with a colon.
proof fn lemma_groups_text(g: Seq<u16>)
    requires
        g.len() > 0,
    ensures
        spec_groups(groups_text(g)) == Some((g, false)),
        groups_text(g).len() > 0,
        groups_text(g)[0] != ':',
        groups_text(g).last() != ':',
        forall|i: int| !#[trigger] gap_at(groups_text(g), i),
    decreases g.len(),
{
    let a = group_text(g[0]);
    lemma_group_text(g[0]);
    if g.len() == 1 {
        assert forall|i: int| 0 <= i < a.len() implies #[trigger] a[i] != ':' by {}
        lemma_index_is_first(a, ':', a.len() as int);
        assert(seq![g[0]] =~= g);
    } else {
        let rest = groups_text(g.skip(1));
        lemma_groups_text(g.skip(1));
        let s = a + (seq![':'] + rest);
        let n = a.len() as int;
        assert forall|i: int| 0 <= i < n implies #[trigger] s[i] != ':' by {
            assert(s[i] == a[i]);
        }
        lemma_index_is_first(s, ':', n);
        assert(s.take(n) =~= a);
        assert(s.skip(n + 1) =~= rest);
        assert(seq![g[0]] + g.skip(1) =~= g);
        assert(s.last() == rest.last());
        assert forall|i: int| !#[trigger] gap_at(s, i) by {
            if gap_at(s, i) {
                if i > n {
                    assert(s[i] == rest[i - n - 1] && s[i + 1] == rest[i - n]);
                    assert(gap_at(rest, i - n - 1));
                } else if i == n {
                    assert(s[i + 1] == rest[0]);
                } else {
                    assert(s[i] == a[i]);
                }
            }
        }
    }
}

/// The octets of an address made of eight groups.
pub open spec fn octets_of(g: Seq<u16>) -> Seq<u8> {
    wire::be16(g[0]) + wire::be16(g[1]) + wire::be16(g[2]) + wire::be16(g[3]) + wire::be16(g[4])
        + wire::be16(g[5]) + wire::be16(g[6]) + wire::be16(g[7])
}

proof fn lemma_octets_of(g: Seq<u16>)
    ensures
        v6_of(g).octets@ == octets_of(g),
{
    let b = octets_of(g);
    addr::lemma_v6_at(b, 0);
    assert(b.subrange(0, 16) =~= b);
}

/// An IPv6 address written as eight groups reads back as the address with
/// those groups.
pub proof fn law_v6_text_roundtrip(g: Seq<u16>)
    requires
        g.len() == 8,
    ensures
        spec_parse_v6(groups_text(g)) matches Some(a) && a.octets@ == octets_of(g),
{
    let s = groups_text(g);
    lemma_groups_text(g);
    lemma_gap(s, s.len() as int);
    lemma_octets_of(g);
}

/// The eight groups that an address with a `::` between `head` and `tail`
/// has: zeros take the place of the missing ones.
pub open spec fn with_gap(head: Seq<u16>, tail: Seq<u16>) -> Seq<u16> {
    Seq::new(
        8,
        |i: int|
            if i < head.len() {
                head[i]
            } else if i < 8 - tail.len() {
                0u16
            } else {
                tail[i - (8 - tail.len())]
            },
    )
}

/// Groups, or none, read back as themselves.
proof fn lemma_groups_or_none(g: Seq<u16>)
    ensures
        spec_groups_or_none(groups_text(g)) == Some((g, false)),
{
    if g.len() > 0 {
        lemma_groups_text(g);
    } else {
        assert(g =~= Seq::<u16>::empty());
    }
}

/// The gap of an address stands where it was put.
proof fn lemma_gap_between(head: Seq<u16>, b: Seq<char>)
    ensures
        ({
            let a = groups_text(head);
            let s = a + (seq![':', ':'] + b);
            &&& spec_gap(s) == a.len()
            &&& s.take(a.len() as int) == a
            &&& s.skip(a.len() as int + 2) == b
        }),
{
    let a = groups_text(head);
    let s = a + (seq![':', ':'] + b);
    let n = a.len() as int;
    if head.len() > 0 {
        lemma_groups_text(head);
    }
    assert forall|i: int| 0 <= i < n implies !#[trigger] gap_at(s, i) by {
        if gap_at(s, i) {
            if i + 1 < n {
                assert(s[i] == a[i] && s[i + 1] == a[i + 1]);
                assert(gap_at(a, i));
            } else {
                assert(s[i] == a.last());
            }
        }
    }
    assert(gap_at(s, n));
    lemma_gap(s, n);
    assert(s.take(n) =~= a);
    assert(s.skip(n + 2) =~= b);
}

/// An IPv6 address with a `::` reads as the groups in front of it and
/// behind it, with as many zero groups between them as make eight in all.
pub proof fn law_v6_gap(head: Seq<u16>, tail: Seq<u16>)
    requires
        head.len() + tail.len() <= 7,
    ensures
        spec_parse_v6(groups_text(head) + (seq![':', ':'] + groups_text(tail))) matches Some(a)
            && a.octets@ == octets_of(with_gap(head, tail)),
{
    lemma_gap_between(head, groups_text(tail));
    lemma_groups_or_none(head);
    lemma_groups_or_none(tail);
    assert(gap_filled(head, tail) =~= with_gap(head, tail));
    lemma_octets_of(with_gap(head, tail));
}

/// The text of an IPv4 address holds digits and dots only.
pub proof fn lemma_v4_text_chars(a: Ipv4Addr)
    ensures
        v4_text(a).len() > 0,
        forall|i: int|
            0 <= i < v4_text(a).len() ==> (#[trigger] v4_text(a)[i] == '.' || '0' <= v4_text(a)[i]
                <= '9'),
        '0' <= v4_text(a)[0] <= '9',
        '0' <= v4_text(a).last() <= '9',
{
    let o = a.octets;
    let t0 = octet_text(o[0]);
    let t1 = octet_text(o[1]);
    let t2 = octet_text(o[2]);
    let t3 = octet_text(o[3]);
    let s3 = t3;
    let s2 = t2 + (seq!['.'] + s3);
    let s1 = t1 + (seq!['.'] + s2);
    assert(forall|i: int| 0 <= i < t0.len() ==> '0' <= #[trigger] t0[i] <= '9');
    assert(forall|i: int| 0 <= i < t1.len() ==> '0' <= #[trigger] t1[i] <= '9');
    assert(forall|i: int| 0 <= i < t2.len() ==> '0' <= #[trigger] t2[i] <= '9');
    assert(forall|i: int| 0 <= i < t3.len() ==> '0' <= #[trigger] t3[i] <= '9');
}

/// Each text is read in its own family: dotted decimal as IPv4, anything
/// with a colon as IPv6 or not at all.
pub proof fn law_family_of_text(s: Seq<char>, a: Ipv4Addr)
    ensures
        spec_parse_ip(v4_text(a)) == Some(IpAddr::V4(a)),
        s.contains(':') ==> spec_parse_ip(s) == (match spec_parse_v6(s) {
            Some(b) => Some(IpAddr::V6(b)),
            None => None,
        }),
{
    law_v4_text_roundtrip(a);
    if s.contains(':') {
        law_v4_text_only(s);
        if let Some(b) = spec_parse_v4(s) {
            lemma_v4_text_chars(b);
            let i = choose|i: int| 0 <= i < s.len() && s[i] == ':';
            assert(s[i] == v4_text(b)[i]);
        }
    }
}

} // verus!
