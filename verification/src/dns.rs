//! Host resolver discovery for DNS forwarding and DNS64-based NAT64
//! prefix discovery: what is in resolv.conf and in DNS messages.

use vstd::prelude::*;

use crate::addr;
use crate::addr::text;
use crate::addr::{Ipv6Addr, SocketAddr};
use crate::wire;
use crate::wire::get_be16;

verus! {

/// Characters that `trim` removes (Unicode `White_Space`).
pub open spec fn spec_whitespace(c: char) -> bool {
    let n = c as int;
    ||| 9 <= n <= 13
    ||| n == 0x20
    ||| n == 0x85
    ||| n == 0xa0
    ||| n == 0x1680
    ||| 0x2000 <= n <= 0x200a
    ||| n == 0x2028
    ||| n == 0x2029
    ||| n == 0x202f
    ||| n == 0x205f
    ||| n == 0x3000
}

fn is_whitespace(c: char) -> (r: bool)
    ensures
        r == spec_whitespace(c),
{
    let n: u32 = c as u32;
    (9 <= n && n <= 13) || n == 0x20 || n == 0x85 || n == 0xa0 || n == 0x1680 || (0x2000 <= n && n
        <= 0x200a) || n == 0x2028 || n == 0x2029 || n == 0x202f || n == 0x205f || n == 0x3000
}

/// `s` without leading whitespace.
pub open spec fn trim_start(s: Seq<char>) -> Seq<char>
    decreases s.len(),
{
    if s.len() > 0 && spec_whitespace(s[0]) {
        trim_start(s.skip(1))
    } else {
        s
    }
}

/// `s` without trailing whitespace.
pub open spec fn trim_end(s: Seq<char>) -> Seq<char>
    decreases s.len(),
{
    if s.len() > 0 && spec_whitespace(s.last()) {
        trim_end(s.drop_last())
    } else {
        s
    }
}

/// `s` without leading and trailing whitespace.
fn trim(s: &[char]) -> (r: &[char])
    ensures
        r@ == trim_end(trim_start(s@)),
{
    let n: usize = s.len();
    let mut a: usize = 0;
    assert(s@.skip(0) =~= s@);
    while a < n && is_whitespace(s[a])
        invariant
            a <= n == s@.len(),
            trim_start(s@) == trim_start(s@.skip(a as int)),
        decreases n - a,
    {
        assert(s@.skip(a as int).skip(1) =~= s@.skip(a + 1));
        a += 1;
    }
    let ghost t = trim_start(s@);
    assert(t == s@.skip(a as int));
    let mut b: usize = n;
    assert(s@.subrange(a as int, n as int) =~= t);
    while b > a && is_whitespace(s[b - 1])
        invariant
            a <= b <= n == s@.len(),
            trim_end(t) == trim_end(s@.subrange(a as int, b as int)),
        decreases b,
    {
        assert(s@.subrange(a as int, b as int).drop_last() =~= s@.subrange(a as int, b - 1));
        b -= 1;
    }
    vstd::slice::slice_subrange(s, a, b)
}

/// The keyword that starts a nameserver line.
pub open spec fn keyword() -> Seq<char> {
    seq!['n', 'a', 'm', 'e', 's', 'e', 'r', 'v', 'e', 'r']
}

/// The address on a nameserver line.
pub open spec fn spec_nameserver(line: Seq<char>) -> Option<addr::IpAddr> {
    if line.len() >= 10 && line.take(10) == keyword() {
        text::spec_parse_ip(trim_end(trim_start(line.skip(10))))
    } else {
        None
    }
}

fn nameserver(line: &[char]) -> (r: Option<addr::IpAddr>)
    ensures
        r == spec_nameserver(line@),
{
    let n: usize = line.len();
    if n < 10 {
        return None;
    }
    let hit = line[0] == 'n' && line[1] == 'a' && line[2] == 'm' && line[3] == 'e' && line[4]
        == 's' && line[5] == 'e' && line[6] == 'r' && line[7] == 'v' && line[8] == 'e' && line[9]
        == 'r';
    proof {
        let k = keyword();
        let t = line@.take(10);
        if hit {
            assert(t =~= k);
        } else if t == k {
            assert(t[0] == k[0] && t[1] == k[1] && t[2] == k[2] && t[3] == k[3] && t[4] == k[4]);
            assert(t[5] == k[5] && t[6] == k[6] && t[7] == k[7] && t[8] == k[8] && t[9] == k[9]);
        }
    }
    if !hit {
        return None;
    }
    let rest = vstd::slice::slice_subrange(line, 10, n);
    assert(rest@ =~= line@.skip(10));
    text::parse_ip(trim(rest))
}

/// The address on the first line that is a nameserver line with one.
pub open spec fn first_nameserver(s: Seq<char>) -> Option<addr::IpAddr>
    decreases s.len(),
    via first_nameserver_decreases
{
    let i = text::spec_index_of(s, '\n');
    match spec_nameserver(s.take(i)) {
        Some(ip) => Some(ip),
        None => if i < s.len() {
            first_nameserver(s.skip(i + 1))
        } else {
            None
        },
    }
}

#[via_fn]
proof fn first_nameserver_decreases(s: Seq<char>) {
    text::lemma_index_of(s, '\n');
}

/// First nameserver of a resolv.conf, port 53.
pub open spec fn spec_parse(conf: Seq<char>) -> Option<SocketAddr> {
    match first_nameserver(conf) {
        Some(ip) => Some(SocketAddr { ip, port: 53 }),
        None => None,
    }
}

/// The characters of a string.
fn chars_of(s: &str) -> (v: Vec<char>)
    ensures
        v@ == s@,
{
    let mut v: Vec<char> = Vec::new();
    for c in it: s.chars()
        invariant
            v@ == it.seq().subrange(0, it.index() as int),
            it.seq() == s@,
    {
        v.push(c);
        assert(v@ =~= it.seq().subrange(0, it.index() + 1));
    }
    v
}

/// First nameserver of a resolv.conf, port 53. Loopback resolvers work
/// because presto-pasta's sockets live in the host netns.
#[must_use]
pub fn parse(conf: &str) -> (r: Option<SocketAddr>)
    ensures
        r == spec_parse(conf@),
{
    let chars = chars_of(conf);
    let mut rest: &[char] = chars.as_slice();
    loop
        invariant
            first_nameserver(conf@) == first_nameserver(rest@),
        decreases rest@.len(),
    {
        let n: usize = rest.len();
        let i: usize = text::index_of(rest, '\n');
        let line = vstd::slice::slice_subrange(rest, 0, i);
        assert(line@ =~= rest@.take(i as int));
        if let Some(ip) = nameserver(line) {
            return Some(SocketAddr { ip, port: 53 });
        }
        if i >= n {
            return None;
        }
        let tail = vstd::slice::slice_subrange(rest, i + 1, n);
        assert(tail@ =~= rest@.skip(i + 1));
        rest = tail;
    }
}

/// Index just past a (possibly compressed) DNS name starting at `i`.
pub open spec fn spec_skip_name(b: Seq<u8>, i: int) -> Option<int>
    decreases b.len() + 256 - i,
{
    if i < 0 || i >= b.len() {
        None
    } else if b[i] >= 0xc0 {
        Some(i + 2)
    } else if b[i] == 0 {
        Some(i + 1)
    } else {
        spec_skip_name(b, i + 1 + b[i])
    }
}

/// A name that is skipped lies before the end, up to a cut-off pointer.
proof fn lemma_skip_name(b: Seq<u8>, i: int)
    requires
        0 <= i,
    ensures
        spec_skip_name(b, i) matches Some(j) ==> i < j <= b.len() + 1,
    decreases b.len() + 256 - i,
{
    if i < b.len() && 0 < b[i] < 0xc0 {
        lemma_skip_name(b, i + 1 + b[i]);
    }
}

/// Index just past a (possibly compressed) DNS name starting at `i`.
#[must_use]
pub fn skip_name(b: &[u8], i: usize) -> (r: Option<usize>)
    requires
        b@.len() <= isize::MAX,
    ensures
        match r {
            Some(j) => spec_skip_name(b@, i as int) == Some(j as int) && i < j <= b@.len() + 1,
            None => spec_skip_name(b@, i as int) is None,
        },
{
    let mut at: usize = i;
    proof {
        lemma_skip_name(b@, i as int);
    }
    loop
        invariant
            b@.len() <= isize::MAX,
            spec_skip_name(b@, i as int) == spec_skip_name(b@, at as int),
            spec_skip_name(b@, i as int) matches Some(j) ==> i < j <= b@.len() + 1,
        decreases b@.len() + 256 - at,
    {
        if at >= b.len() {
            return None;
        }
        let len: u8 = b[at];
        if len >= 0xc0 {
            return Some(at + 2);
        }
        if len == 0 {
            return Some(at + 1);
        }
        at = at + 1 + len as usize;
    }
}

/// Index past `n` questions starting at `i`.
pub open spec fn spec_skip_questions(b: Seq<u8>, i: int, n: nat) -> Option<int>
    decreases n,
{
    if n == 0 {
        Some(i)
    } else {
        match spec_skip_name(b, i) {
            Some(j) => spec_skip_questions(b, j + 4, (n - 1) as nat),
            None => None,
        }
    }
}

/// One of the IPv4 addresses that `ipv4only.arpa` resolves to (RFC 7050),
/// 192.0.0.170 and 192.0.0.171; a DNS64 resolver synthesizes AAAA records
/// that embed one of them.
pub open spec fn is_well_known(v4: Seq<u8>) -> bool {
    v4 == seq![192u8, 0, 0, 170] || v4 == seq![192u8, 0, 0, 171]
}

/// A /96 prefix as an address: the first twelve bytes of `rdata`.
pub open spec fn prefix_of(rdata: Seq<u8>) -> Ipv6Addr {
    addr::v6_at(rdata.take(12) + seq![0u8, 0, 0, 0], 0)
}

/// The prefix in the first of `n` answers, starting at `i`, that is an
/// AAAA record around a well-known IPv4 address.
pub open spec fn spec_find_prefix(b: Seq<u8>, i: int, n: nat) -> Option<Ipv6Addr>
    decreases n,
{
    if n == 0 {
        None
    } else {
        match spec_skip_name(b, i) {
            Some(j) => if j + 10 > b.len() {
                None
            } else {
                let rtype = wire::be16_at(b, j);
                let rdlen = wire::be16_at(b, j + 8);
                let end = j + 10 + rdlen;
                if end > b.len() {
                    None
                } else if rtype == 28 && rdlen == 16 && is_well_known(b.subrange(end - 4, end)) {
                    Some(prefix_of(b.subrange(j + 10, end)))
                } else {
                    spec_find_prefix(b, end, (n - 1) as nat)
                }
            },
            None => None,
        }
    }
}

/// The /96 NAT64 prefix in a DNS response's AAAA records.
pub open spec fn spec_parse_nat64_prefix(b: Seq<u8>) -> Option<Ipv6Addr> {
    if b.len() < 8 {
        None
    } else {
        match spec_skip_questions(b, 12, wire::be16_at(b, 4) as nat) {
            Some(i) => spec_find_prefix(b, i, wire::be16_at(b, 6) as nat),
            None => None,
        }
    }
}

/// The prefix in a record's data, if it embeds a well-known IPv4 address.
fn embedded_prefix(rdata: &[u8]) -> (r: Option<Ipv6Addr>)
    requires
        rdata@.len() == 16,
    ensures
        r == (if is_well_known(rdata@.subrange(12, 16)) {
            Some(prefix_of(rdata@))
        } else {
            None
        }),
{
    let known = rdata[12] == 192 && rdata[13] == 0 && rdata[14] == 0 && (rdata[15] == 170
        || rdata[15] == 171);
    proof {
        let t = rdata@.subrange(12, 16);
        if known {
            assert(t =~= seq![192u8, 0, 0, 170] || t =~= seq![192u8, 0, 0, 171]);
        } else {
            assert(t[0] == rdata@[12] && t[1] == rdata@[13] && t[2] == rdata@[14] && t[3]
                == rdata@[15]);
        }
    }
    if !known {
        return None;
    }
    let r = Ipv6Addr {
        octets: [
            rdata[0],
            rdata[1],
            rdata[2],
            rdata[3],
            rdata[4],
            rdata[5],
            rdata[6],
            rdata[7],
            rdata[8],
            rdata[9],
            rdata[10],
            rdata[11],
            0,
            0,
            0,
            0,
        ],
    };
    proof {
        let p = rdata@.take(12) + seq![0u8, 0, 0, 0];
        addr::lemma_v6_at(p, 0);
        assert(r.octets@ =~= p);
        assert(p.subrange(0, 16) =~= p);
        addr::lemma_v6_ext(r, addr::v6_at(p, 0));
    }
    Some(r)
}

/// Extract the /96 NAT64 prefix from a DNS response's AAAA records.
#[must_use]
pub fn parse_nat64_prefix(b: &[u8]) -> (r: Option<Ipv6Addr>)
    requires
        b@.len() <= isize::MAX,
    ensures
        r == spec_parse_nat64_prefix(b@),
{
    let n: usize = b.len();
    if n < 8 {
        return None;
    }
    let qdcount: u16 = get_be16(b, 4);
    let ancount: u16 = get_be16(b, 6);
    let mut i: usize = 12;
    let mut q: u16 = 0;
    while q < qdcount
        invariant
            8 <= n == b@.len() <= isize::MAX,
            qdcount == wire::be16_at(b@, 4),
            q <= qdcount,
            i <= n + 12,
            spec_skip_questions(b@, 12, qdcount as nat) == spec_skip_questions(
                b@,
                i as int,
                (qdcount - q) as nat,
            ),
        decreases qdcount - q,
    {
        i = skip_name(b, i)? + 4;
        q += 1;
    }
    let mut a: u16 = 0;
    while a < ancount
        invariant
            n == b@.len() <= isize::MAX,
            a <= ancount,
            i <= n + 12,
            spec_parse_nat64_prefix(b@) == spec_find_prefix(b@, i as int, (ancount - a) as nat),
        decreases ancount - a,
    {
        i = skip_name(b, i)?;
        if i > n || n - i < 10 {
            return None;
        }
        let rtype: u16 = get_be16(b, i);
        let rdlen: usize = get_be16(b, i + 8) as usize;
        if n - i - 10 < rdlen {
            return None;
        }
        let end: usize = i + 10 + rdlen;
        if rtype == 28 && rdlen == 16 {
            let rdata = vstd::slice::slice_subrange(b, i + 10, end);
            assert(rdata@.subrange(12, 16) =~= b@.subrange(end - 4, end as int));
            if let Some(p) = embedded_prefix(rdata) {
                return Some(p);
            }
        }
        i = end;
        a += 1;
    }
    None
}

/// The name `ipv4only.arpa` in a DNS message.
pub open spec fn ipv4only_arpa() -> Seq<u8> {
    seq![8u8, 105, 112, 118, 52, 111, 110, 108, 121, 4, 97, 114, 112, 97, 0]
}

/// AAAA query for `ipv4only.arpa` (recursion desired, id 0).
pub open spec fn spec_query() -> Seq<u8> {
    seq![0u8, 0, 1, 0, 0, 1, 0, 0, 0, 0, 0, 0] + ipv4only_arpa() + seq![0u8, 28, 0, 1]
}

/// AAAA query for `ipv4only.arpa` (recursion desired, id 0).
#[must_use]
pub fn ipv4only_arpa_query() -> (r: Vec<u8>)
    ensures
        r@ == spec_query(),
{
    let r: Vec<u8> = vec![
        0, 0, 1, 0, 0, 1, 0, 0, 0, 0, 0, 0, 8, 105, 112, 118, 52, 111, 110, 108, 121, 4, 97, 114,
        112, 97, 0, 0, 28, 0, 1,
    ];
    assert(r@ =~= spec_query());
    r
}

/// A response to the query with one AAAA record, which holds `addr`.
pub open spec fn response(addr: Ipv6Addr) -> Seq<u8> {
    seq![0u8, 0, 0x81, 0x80, 0, 1, 0, 1, 0, 0, 0, 0] + ipv4only_arpa() + seq![0u8, 28, 0, 1]
        + seq![0xc0u8, 0x0c, 0, 28, 0, 1, 0, 0, 0, 60, 0, 16] + addr.octets@
}

/// The prefix that a DNS64 resolver embeds the well-known address in is
/// found: what NAT64 embeds, discovery extracts.
pub proof fn law_nat64_discovery(prefix: Ipv6Addr, v4: addr::Ipv4Addr)
    requires
        is_well_known(v4.octets@),
    ensures
        spec_parse_nat64_prefix(response(crate::nat64_embed(prefix, v4))) == Some(
            prefix_of(prefix.octets@),
        ),
{
    let a = crate::nat64_embed(prefix, v4);
    let whole = prefix.octets@.subrange(0, 12) + v4.octets@;
    addr::lemma_v6_at(whole, 0);
    assert(whole.subrange(0, 16) =~= whole);
    let b = response(a);
    assert(b.len() == 59);
    assert(b[4] == 0 && b[5] == 1 && b[6] == 0 && b[7] == 1);
    assert(b[12] == 8 && b[21] == 4 && b[26] == 0);
    assert(b[31] == 0xc0);
    assert(b[33] == 0 && b[34] == 28 && b[41] == 0 && b[42] == 16);
    reveal_with_fuel(spec_skip_name, 4);
    reveal_with_fuel(spec_skip_questions, 2);
    reveal_with_fuel(spec_find_prefix, 2);
    assert(spec_skip_name(b, 12) == Some(27int));
    assert(spec_skip_questions(b, 12, 1) == Some(31int));
    assert(spec_skip_name(b, 31) == Some(33int));
    assert(b.subrange(43, 59) =~= whole);
    assert(b.subrange(55, 59) =~= v4.octets@);
    assert(whole.take(12) =~= prefix.octets@.take(12));
}

/// A response whose one AAAA record embeds no well-known address yields no
/// prefix.
pub proof fn law_no_synthesis(a: Ipv6Addr)
    requires
        !is_well_known(a.octets@.subrange(12, 16)),
    ensures
        spec_parse_nat64_prefix(response(a)) is None,
{
    let b = response(a);
    assert(b.len() == 59);
    assert(b[4] == 0 && b[5] == 1 && b[6] == 0 && b[7] == 1);
    assert(b[12] == 8 && b[21] == 4 && b[26] == 0);
    assert(b[31] == 0xc0);
    assert(b[33] == 0 && b[34] == 28 && b[41] == 0 && b[42] == 16);
    reveal_with_fuel(spec_skip_name, 4);
    reveal_with_fuel(spec_skip_questions, 2);
    reveal_with_fuel(spec_find_prefix, 2);
    assert(spec_skip_name(b, 12) == Some(27int));
    assert(spec_skip_questions(b, 12, 1) == Some(31int));
    assert(spec_skip_name(b, 31) == Some(33int));
    assert(b.subrange(55, 59) =~= a.octets@.subrange(12, 16));
}

/// Discovery of the NAT64 prefix: what to do next.
#[derive(Debug, Clone, Copy, PartialEq, Eq)]
pub enum Discovery {
    /// Send the query and wait for a response; this many tries are left.
    Ask { tries: u8 },
    Done(Option<Ipv6Addr>),
}

impl Discovery {
    /// Begin: up to three tries.
    #[must_use]
    pub fn start() -> (r: Self)
        ensures
            r == (Discovery::Ask { tries: 3 }),
    {
        Discovery::Ask { tries: 3 }
    }

    /// The query could not be sent.
    #[must_use]
    pub fn unsent(self) -> (r: Self)
        ensures
            r == Discovery::Done(None),
    {
        Discovery::Done(None)
    }

    /// What follows from a response, or from none within the time limit.
    pub open spec fn spec_received(self, response: Option<Seq<u8>>) -> Discovery {
        match (self, response) {
            (Discovery::Ask { .. }, Some(b)) => Discovery::Done(spec_parse_nat64_prefix(b)),
            (Discovery::Ask { tries }, None) => if tries > 1 {
                Discovery::Ask { tries: (tries - 1) as u8 }
            } else {
                Discovery::Done(None)
            },
            (Discovery::Done(p), _) => Discovery::Done(p),
        }
    }

    /// A response came.
    #[must_use]
    pub fn received(self, response: &[u8]) -> (r: Self)
        requires
            response@.len() <= isize::MAX,
        ensures
            r == self.spec_received(Some(response@)),
    {
        match self {
            Discovery::Ask { .. } => Discovery::Done(parse_nat64_prefix(response)),
            Discovery::Done(p) => Discovery::Done(p),
        }
    }

    /// No response came in time.
    #[must_use]
    pub fn timed_out(self) -> (r: Self)
        ensures
            r == self.spec_received(None),
    {
        match self {
            Discovery::Ask { tries } => if tries > 1 {
                Discovery::Ask { tries: tries - 1 }
            } else {
                Discovery::Done(None)
            },
            Discovery::Done(p) => Discovery::Done(p),
        }
    }
}

/// A line in front of others: a nameserver line gives its address, whatever
/// follows; any other line, the empty one included, is passed over.
pub proof fn law_lines_in_order(line: Seq<char>, rest: Seq<char>)
    requires
        forall|i: int| 0 <= i < line.len() ==> #[trigger] line[i] != '\n',
    ensures
        ({
            let conf = line + (seq!['\n'] + rest);
            match spec_nameserver(line) {
                Some(ip) => spec_parse(conf) == Some(SocketAddr { ip, port: 53 }),
                None => spec_parse(conf) == spec_parse(rest),
            }
        }),
{
    let conf = line + (seq!['\n'] + rest);
    let n = line.len() as int;
    assert forall|i: int| 0 <= i < n implies #[trigger] conf[i] != '\n' by {
        assert(conf[i] == line[i]);
    }
    text::lemma_index_is_first(conf, '\n', n);
    assert(conf.take(n) =~= line);
    assert(conf.skip(n + 1) =~= rest);
}

/// The last line counts without a line feed behind it.
pub proof fn law_last_line(line: Seq<char>)
    requires
        forall|i: int| 0 <= i < line.len() ==> #[trigger] line[i] != '\n',
    ensures
        spec_parse(line) == (match spec_nameserver(line) {
            Some(ip) => Some(SocketAddr { ip, port: 53 }),
            None => None,
        }),
{
    text::lemma_index_is_first(line, '\n', line.len() as int);
    assert(line.take(line.len() as int) =~= line);
}

/// Spaces, tabs and carriage returns.
pub open spec fn blank(s: Seq<char>) -> bool {
    forall|i: int|
        0 <= i < s.len() ==> (#[trigger] s[i] == ' ' || s[i] == '\t' || s[i] == '\r')
}

/// Blanks around a text are trimmed away.
proof fn lemma_trim(a: Seq<char>, t: Seq<char>, b: Seq<char>)
    requires
        blank(a),
        blank(b),
        t.len() > 0,
        !spec_whitespace(t[0]),
        !spec_whitespace(t.last()),
    ensures
        trim_end(trim_start(a + (t + b))) == t,
    decreases a.len() + b.len(),
{
    if a.len() > 0 {
        assert(a[0] == ' ' || a[0] == '\t' || a[0] == '\r');
        assert((a + (t + b)).skip(1) =~= a.skip(1) + (t + b));
        assert forall|i: int| 0 <= i < a.skip(1).len() implies (#[trigger] a.skip(1)[i] == ' '
            || a.skip(1)[i] == '\t' || a.skip(1)[i] == '\r') by {
            assert(a.skip(1)[i] == a[i + 1]);
        }
        lemma_trim(a.skip(1), t, b);
    } else {
        let s = t + b;
        assert(a + s =~= s);
        assert(trim_start(s) == s);
        if b.len() > 0 {
            assert(b.last() == ' ' || b.last() == '\t' || b.last() == '\r');
            assert(s.drop_last() =~= t + b.drop_last());
            assert forall|i: int| 0 <= i < b.drop_last().len() implies (#[trigger] b.drop_last()[i]
                == ' ' || b.drop_last()[i] == '\t' || b.drop_last()[i] == '\r') by {
                assert(b.drop_last()[i] == b[i]);
            }
            lemma_trim(a, t, b.drop_last());
            assert(a + (t + b.drop_last()) =~= t + b.drop_last());
        } else {
            assert(s =~= t);
        }
    }
}

/// A nameserver line gives the IPv4 address behind the keyword, blanks
/// around it left aside.
pub proof fn law_nameserver_v4(ip: addr::Ipv4Addr, a: Seq<char>, b: Seq<char>)
    requires
        blank(a),
        blank(b),
    ensures
        spec_nameserver(
            seq!['n', 'a', 'm', 'e', 's', 'e', 'r', 'v', 'e', 'r'] + (a + (text::v4_text(ip) + b)),
        ) == Some(addr::IpAddr::V4(ip)),
{
    let t = text::v4_text(ip);
    let k = seq!['n', 'a', 'm', 'e', 's', 'e', 'r', 'v', 'e', 'r'];
    let line = k + (a + (t + b));
    text::lemma_v4_text_chars(ip);
    lemma_trim(a, t, b);
    assert(line.take(10) =~= keyword());
    assert(line.skip(10) =~= a + (t + b));
    text::law_family_of_text(t, ip);
}

/// A nameserver line gives the IPv6 address behind the keyword, blanks
/// around it left aside, in any notation that starts and ends with a
/// visible character.
pub proof fn law_nameserver_v6(t: Seq<char>, ip: Ipv6Addr, a: Seq<char>, b: Seq<char>)
    requires
        blank(a),
        blank(b),
        t.contains(':'),
        text::spec_parse_v6(t) == Some(ip),
        0x20 < t[0] as int <= 0x7e,
        0x20 < t.last() as int <= 0x7e,
    ensures
        spec_nameserver(
            seq!['n', 'a', 'm', 'e', 's', 'e', 'r', 'v', 'e', 'r'] + (a + (t + b)),
        ) == Some(addr::IpAddr::V6(ip)),
{
    let k = seq!['n', 'a', 'm', 'e', 's', 'e', 'r', 'v', 'e', 'r'];
    let line = k + (a + (t + b));
    lemma_trim(a, t, b);
    assert(line.take(10) =~= keyword());
    assert(line.skip(10) =~= a + (t + b));
    text::law_family_of_text(t, addr::Ipv4Addr { octets: [0, 0, 0, 0] });
}

/// A line that does not start with the keyword names no server.
pub proof fn law_no_nameserver(line: Seq<char>, i: int)
    requires
        line.len() < 10 || (0 <= i < 10 && line[i] != seq![
            'n',
            'a',
            'm',
            'e',
            's',
            'e',
            'r',
            'v',
            'e',
            'r',
        ][i]),
    ensures
        spec_nameserver(line) is None,
{
    if line.len() >= 10 {
        assert(line.take(10)[i] == line[i]);
        let k = seq!['n', 'a', 'm', 'e', 's', 'e', 'r', 'v', 'e', 'r'];
        assert(keyword() =~= k);
    }
}

/// The labels of a name, each behind its length.
pub open spec fn label_bytes(labels: Seq<Seq<u8>>) -> Seq<u8>
    decreases labels.len(),
{
    if labels.len() == 0 {
        Seq::empty()
    } else {
        seq![labels[0].len() as u8] + labels[0] + label_bytes(labels.skip(1))
    }
}

/// A name is passed over whole: its labels and the root label, or the
/// compression pointer, behind them.
pub proof fn law_name_skipped(before: Seq<u8>, labels: Seq<Seq<u8>>, p: u8, q: u8, after: Seq<u8>)
    requires
        forall|i: int| 0 <= i < labels.len() ==> 0 < (#[trigger] labels[i]).len() < 64,
        p >= 0xc0,
    ensures
        ({
            let n = label_bytes(labels);
            &&& spec_skip_name(before + n + seq![0u8] + after, before.len() as int) == Some(
                (before.len() + n.len() + 1) as int,
            )
            &&& spec_skip_name(before + n + seq![p, q] + after, before.len() as int) == Some(
                (before.len() + n.len() + 2) as int,
            )
        }),
    decreases labels.len(),
{
    let n = label_bytes(labels);
    let i = before.len() as int;
    let x = before + n + seq![0u8] + after;
    let y = before + n + seq![p, q] + after;
    if labels.len() == 0 {
        assert(x[i] == 0);
        assert(y[i] == p);
    } else {
        let first = seq![labels[0].len() as u8] + labels[0];
        let rest = labels.skip(1);
        assert forall|j: int| 0 <= j < rest.len() implies 0 < (#[trigger] rest[j]).len() < 64 by {
            assert(rest[j] == labels[j + 1]);
        }
        law_name_skipped(before + first, rest, p, q, after);
        assert(x =~= (before + first) + label_bytes(rest) + seq![0u8] + after);
        assert(y =~= (before + first) + label_bytes(rest) + seq![p, q] + after);
        assert(x[i] == labels[0].len() && y[i] == labels[0].len());
    }
}

/// A resource record: its name on the wire, type, six bytes of class and
/// time to live, and data.
pub struct Record {
    pub name: Seq<u8>,
    pub rtype: u16,
    pub meta: Seq<u8>,
    pub data: Seq<u8>,
}

impl Record {
    /// The record on the wire.
    pub open spec fn bytes(self) -> Seq<u8> {
        self.name + wire::be16(self.rtype) + self.meta + wire::be16(self.data.len() as u16)
            + self.data
    }

    /// The name is a compression pointer, and the parts have their sizes.
    pub open spec fn wf(self) -> bool {
        &&& self.name.len() == 2 && self.name[0] >= 0xc0
        &&& self.meta.len() == 6
        &&& self.data.len() <= u16::MAX
    }

    /// An AAAA record that embeds one of the addresses of `ipv4only.arpa`.
    pub open spec fn synthesized(self) -> bool {
        &&& self.rtype == 28
        &&& self.data.len() == 16
        &&& self.data[12] == 192 && self.data[13] == 0 && self.data[14] == 0
        &&& self.data[15] == 170 || self.data[15] == 171
    }
}

/// Records one after the other.
pub open spec fn records_bytes(r: Seq<Record>) -> Seq<u8>
    decreases r.len(),
{
    if r.len() == 0 {
        Seq::empty()
    } else {
        r[0].bytes() + records_bytes(r.skip(1))
    }
}

proof fn lemma_record(before: Seq<u8>, r: Record, after: Seq<u8>)
    requires
        r.wf(),
    ensures
        ({
            let b = before + r.bytes() + after;
            let i = before.len() as int;
            &&& spec_skip_name(b, i) == Some(i + 2)
            &&& b.len() >= i + 12 + r.data.len()
            &&& wire::be16_at(b, i + 2) == r.rtype
            &&& wire::be16_at(b, i + 10) == r.data.len()
            &&& b.subrange(i + 12, i + 12 + r.data.len()) == r.data
            &&& r.bytes().len() == 12 + r.data.len()
        }),
{
    let b = before + r.bytes() + after;
    let i = before.len() as int;
    let t = wire::be16(r.rtype);
    let n = wire::be16(r.data.len() as u16);
    assert(r.bytes().len() == 12 + r.data.len());
    assert(b[i] == r.name[0]);
    assert(b[i + 2] == t[0] && b[i + 3] == t[1]);
    assert(b[i + 10] == n[0] && b[i + 11] == n[1]);
    wire::lemma_be16(r.rtype);
    wire::lemma_be16(r.data.len() as u16);
    assert(b.subrange(i + 12, i + 12 + r.data.len()) =~= r.data);
}

/// One record of the answers is looked at and passed over, unless it is an
/// AAAA record around an address of `ipv4only.arpa`.
proof fn lemma_find_step(before: Seq<u8>, r: Record, after: Seq<u8>, n: nat)
    requires
        r.wf(),
        n > 0,
    ensures
        ({
            let b = before + r.bytes() + after;
            let i = before.len() as int;
            let f = spec_find_prefix(b, i, n);
            if r.synthesized() {
                f matches Some(p) && p.octets@ == r.data.take(12) + seq![0u8, 0, 0, 0]
            } else {
                f == spec_find_prefix(b, i + r.bytes().len(), (n - 1) as nat)
            }
        }),
{
    let b = before + r.bytes() + after;
    let i = before.len() as int;
    let d = r.data;
    lemma_record(before, r, after);
    let end = i + 12 + d.len();
    if d.len() == 16 {
        let v4 = b.subrange(end - 4, end);
        assert(v4 =~= d.subrange(12, 16)) by {
            assert(forall|j: int|
                0 <= j < 4 ==> b[end - 4 + j] == #[trigger] b.subrange(i + 12, end)[12 + j]);
        }
        assert(v4[0] == d[12] && v4[1] == d[13] && v4[2] == d[14] && v4[3] == d[15]);
        if r.synthesized() {
            assert(v4 =~= seq![192u8, 0, 0, 170] || v4 =~= seq![192u8, 0, 0, 171]);
            let p = d.take(12) + seq![0u8, 0, 0, 0];
            addr::lemma_v6_at(p, 0);
            assert(p.subrange(0, 16) =~= p);
        }
    }
}

proof fn lemma_find_prefix(before: Seq<u8>, r: Seq<Record>, k: int, after: Seq<u8>)
    requires
        forall|i: int| 0 <= i < r.len() ==> (#[trigger] r[i]).wf(),
        0 <= k <= r.len(),
        forall|i: int| 0 <= i < k ==> !(#[trigger] r[i]).synthesized(),
        k < r.len() ==> r[k].synthesized(),
    ensures
        ({
            let b = before + records_bytes(r) + after;
            let f = spec_find_prefix(b, before.len() as int, r.len());
            if k < r.len() {
                f matches Some(p) && p.octets@ == r[k].data.take(12) + seq![0u8, 0, 0, 0]
            } else {
                f is None
            }
        }),
    decreases r.len(),
{
    let b = before + records_bytes(r) + after;
    if r.len() > 0 {
        let rest = r.skip(1);
        let tail = records_bytes(rest) + after;
        lemma_find_step(before, r[0], tail, r.len());
        assert(b =~= before + r[0].bytes() + tail);
        if k > 0 {
            assert forall|j: int| 0 <= j < rest.len() implies (#[trigger] rest[j]).wf() by {
                assert(rest[j] == r[j + 1]);
            }
            assert forall|j: int| 0 <= j < k - 1 implies !(#[trigger] rest[j]).synthesized() by {
                assert(rest[j] == r[j + 1]);
            }
            lemma_find_prefix(before + r[0].bytes(), rest, k - 1, after);
            assert(b =~= (before + r[0].bytes()) + records_bytes(rest) + after);
        }
    }
}

/// A response with one question and any number of answers: the prefix is
/// that of the first AAAA record around an address of `ipv4only.arpa`,
/// whatever records stand in front of it and whatever follows; without such
/// a record there is none.
pub proof fn law_first_synthesized_record(
    id_and_flags: Seq<u8>,
    labels: Seq<Seq<u8>>,
    question: Seq<u8>,
    counts: Seq<u8>,
    r: Seq<Record>,
    k: int,
    after: Seq<u8>,
)
    requires
        id_and_flags.len() == 4,
        counts.len() == 4,
        question.len() == 4,
        forall|i: int| 0 <= i < labels.len() ==> 0 < (#[trigger] labels[i]).len() < 64,
        r.len() <= u16::MAX,
        forall|i: int| 0 <= i < r.len() ==> (#[trigger] r[i]).wf(),
        0 <= k <= r.len(),
        forall|i: int| 0 <= i < k ==> !(#[trigger] r[i]).synthesized(),
        k < r.len() ==> r[k].synthesized(),
    ensures
        ({
            let b = id_and_flags + wire::be16(1) + wire::be16(r.len() as u16) + counts
                + label_bytes(labels) + seq![0u8] + question + records_bytes(r) + after;
            if k < r.len() {
                spec_parse_nat64_prefix(b) matches Some(p) && p.octets@ == r[k].data.take(12)
                    + seq![0u8, 0, 0, 0]
            } else {
                spec_parse_nat64_prefix(b) is None
            }
        }),
{
    let one = wire::be16(1);
    let an = wire::be16(r.len() as u16);
    let head = id_and_flags + one + an + counts;
    let name = label_bytes(labels);
    let b = head + name + seq![0u8] + question + records_bytes(r) + after;
    assert(head.len() == 12);
    assert(b[4] == one[0] && b[5] == one[1] && b[6] == an[0] && b[7] == an[1]);
    wire::lemma_be16(1);
    wire::lemma_be16(r.len() as u16);
    assert(b =~= head + name + seq![0u8] + (question + records_bytes(r) + after));
    law_name_skipped(head, labels, 0xc0, 0, question + records_bytes(r) + after);
    reveal_with_fuel(spec_skip_questions, 2);
    let before = head + name + seq![0u8] + question;
    assert(before.len() == 12 + name.len() + 1 + 4);
    lemma_find_prefix(before, r, k, after);
}

/// Discovery asks three times at most, and takes the first response.
pub proof fn law_discovery_tries(b: Seq<u8>)
    ensures
        ({
            let first = Discovery::Ask { tries: 3 };
            let second = first.spec_received(None);
            let third = second.spec_received(None);
            &&& second is Ask && third is Ask
            &&& third.spec_received(None) == Discovery::Done(None)
            &&& first.spec_received(Some(b)) == Discovery::Done(spec_parse_nat64_prefix(b))
            &&& second.spec_received(Some(b)) == Discovery::Done(spec_parse_nat64_prefix(b))
            &&& third.spec_received(Some(b)) == Discovery::Done(spec_parse_nat64_prefix(b))
        }),
{
}

} // verus!
