//! Target specifications: a CIDR block, a range of addresses written with a
//! dash, or a single address, expanded into the list of addresses to scan.

use vstd::prelude::*;
use vstd::string::{StrSliceExecFns, StringExecFns};
use crate::addr::{parse_ip, parse_ip_chars, IpAddress};
use crate::fields::{
    free_of, lemma_free_extend, lemma_split_nonempty, lemma_split_single, lemma_split_step,
    split_fields,
};
use crate::text::{
    lemma_trimmed_idempotent, parse_unsigned, parse_unsigned_chars, str_chars, trim_bounds, trimmed,
};

verus! {

/// Why a target specification was refused.
#[derive(Clone, Copy, Debug, PartialEq, Eq, Structural)]
pub enum RangeError {
    /// `a.b.c.d-e` with `e` below `d`.
    EndOctetBelowStart { end: u8, start: u8 },
    /// The first address of a range is above the last one.
    StartAfterEnd,
    /// An IPv6 range spans more than 100,000 steps.
    Ipv6RangeTooLarge,
    /// A range mixes an IPv4 and an IPv6 address.
    VersionMismatch,
    /// The text is neither a CIDR block, a range, nor a single address
    /// (it may still be a host name, which only a resolver can answer).
    Unrecognized,
}

/// The text of one decimal digit.
pub open spec fn digit_text(d: nat) -> Seq<char> {
    if d == 0 {
        "0"@
    } else if d == 1 {
        "1"@
    } else if d == 2 {
        "2"@
    } else if d == 3 {
        "3"@
    } else if d == 4 {
        "4"@
    } else if d == 5 {
        "5"@
    } else if d == 6 {
        "6"@
    } else if d == 7 {
        "7"@
    } else if d == 8 {
        "8"@
    } else {
        "9"@
    }
}

/// A number written in decimal, without leading zeros.
pub open spec fn decimal_text(n: nat) -> Seq<char>
    decreases n,
{
    if n < 10 {
        digit_text(n)
    } else {
        decimal_text(n / 10) + digit_text(n % 10)
    }
}

/// The text that reports a refused target specification.
pub open spec fn range_error_text(e: RangeError) -> Seq<char> {
    match e {
        RangeError::EndOctetBelowStart { end, start } => "End octet ("@ + decimal_text(end as nat)
            + ") must be greater than or equal to start octet ("@ + decimal_text(start as nat)
            + ")"@,
        RangeError::StartAfterEnd => "Start IP must be less than or equal to End IP"@,
        RangeError::Ipv6RangeTooLarge => "IPv6 range is too large (maximum size is 100,000 addresses)"@,
        RangeError::VersionMismatch => "IP version mismatch (cannot mix IPv4 and IPv6 in range)"@,
        RangeError::Unrecognized => "Invalid IP/Host format. Supported options: single IP (e.g., 192.168.1.1), domain (e.g., localhost), CIDR (e.g., 192.168.1.0/24), IP range (e.g., 192.168.1.1-50)"@,
    }
}

fn push_digit(s: &mut String, d: u8)
    requires
        d < 10,
    ensures
        final(s)@ == old(s)@ + digit_text(d as nat),
{
    if d == 0 {
        s.append("0");
    } else if d == 1 {
        s.append("1");
    } else if d == 2 {
        s.append("2");
    } else if d == 3 {
        s.append("3");
    } else if d == 4 {
        s.append("4");
    } else if d == 5 {
        s.append("5");
    } else if d == 6 {
        s.append("6");
    } else if d == 7 {
        s.append("7");
    } else if d == 8 {
        s.append("8");
    } else {
        s.append("9");
    }
}

fn push_decimal(s: &mut String, n: u8)
    ensures
        final(s)@ == old(s)@ + decimal_text(n as nat),
{
    let ghost start = s@;
    if n >= 100 {
        push_digit(s, n / 100);
        push_digit(s, n / 10 % 10);
        push_digit(s, n % 10);
        assert(decimal_text((n / 10) as nat) == decimal_text((n / 100) as nat) + digit_text(
            (n / 10 % 10) as nat,
        ));
        assert(decimal_text((n / 100) as nat) == digit_text((n / 100) as nat));
        assert(s@ =~= start + decimal_text(n as nat));
    } else if n >= 10 {
        push_digit(s, n / 10);
        push_digit(s, n % 10);
        assert(decimal_text((n / 10) as nat) == digit_text((n / 10) as nat));
        assert(s@ =~= start + decimal_text(n as nat));
    } else {
        push_digit(s, n);
    }
}

impl RangeError {
    /// The text that reports this refusal (see `range_error_text`).
    pub fn message(&self) -> (res: String)
        ensures
            res@ == range_error_text(*self),
    {
        match self {
            RangeError::EndOctetBelowStart { end, start } => {
                let mut s = String::from_str("End octet (");
                push_decimal(&mut s, *end);
                s.append(") must be greater than or equal to start octet (");
                push_decimal(&mut s, *start);
                s.append(")");
                s
            },
            RangeError::StartAfterEnd => String::from_str(
                "Start IP must be less than or equal to End IP",
            ),
            RangeError::Ipv6RangeTooLarge => String::from_str(
                "IPv6 range is too large (maximum size is 100,000 addresses)",
            ),
            RangeError::VersionMismatch => String::from_str(
                "IP version mismatch (cannot mix IPv4 and IPv6 in range)",
            ),
            RangeError::Unrecognized => String::from_str(
                "Invalid IP/Host format. Supported options: single IP (e.g., 192.168.1.1), domain (e.g., localhost), CIDR (e.g., 192.168.1.0/24), IP range (e.g., 192.168.1.1-50)",
            ),
        }
    }
}

/// The largest distance between the two ends of an IPv6 range.
pub const MAX_IPV6_RANGE: u128 = 100_000;

/// The addresses `first, first + 1, ..., last` of one family.
pub open spec fn span(first: IpAddress, last: IpAddress) -> Seq<IpAddress> {
    match (first, last) {
        (IpAddress::V4(a), IpAddress::V4(b)) => Seq::new(
            (b - a + 1) as nat,
            |i: int| IpAddress::V4((a + i) as u32),
        ),
        (IpAddress::V6(a), IpAddress::V6(b)) => Seq::new(
            (b - a + 1) as nat,
            |i: int| IpAddress::V6((a + i) as u128),
        ),
        _ => Seq::empty(),
    }
}

/// Every address from `start` to `end`, both included.
pub open spec fn range_between(start: IpAddress, end: IpAddress) -> Result<
    Seq<IpAddress>,
    RangeError,
> {
    match (start, end) {
        (IpAddress::V4(a), IpAddress::V4(b)) => if a > b {
            Err(RangeError::StartAfterEnd)
        } else {
            Ok(span(start, end))
        },
        (IpAddress::V6(a), IpAddress::V6(b)) => if a > b {
            Err(RangeError::StartAfterEnd)
        } else if b - a > MAX_IPV6_RANGE {
            Err(RangeError::Ipv6RangeTooLarge)
        } else {
            Ok(span(start, end))
        },
        _ => Err(RangeError::VersionMismatch),
    }
}

fn ipv4_span(first: u32, last: u32) -> (res: Vec<IpAddress>)
    requires
        first <= last,
    ensures
        res@ == span(IpAddress::V4(first), IpAddress::V4(last)),
{
    let mut res: Vec<IpAddress> = Vec::new();
    let mut cur = first;
    loop
        invariant_except_break
            res@ == Seq::new((cur - first) as nat, |i: int| IpAddress::V4((first + i) as u32)),
        invariant
            first <= cur <= last,
        ensures
            res@ == span(IpAddress::V4(first), IpAddress::V4(last)),
        decreases last - cur,
    {
        res.push(IpAddress::V4(cur));
        if cur == last {
            assert(res@ =~= span(IpAddress::V4(first), IpAddress::V4(last)));
            break;
        }
        cur = cur + 1;
        assert(res@ =~= Seq::new((cur - first) as nat, |i: int| IpAddress::V4((first + i) as u32)));
    }
    res
}

fn ipv6_span(first: u128, last: u128) -> (res: Vec<IpAddress>)
    requires
        first <= last,
    ensures
        res@ == span(IpAddress::V6(first), IpAddress::V6(last)),
{
    let mut res: Vec<IpAddress> = Vec::new();
    let mut cur = first;
    loop
        invariant_except_break
            res@ == Seq::new((cur - first) as nat, |i: int| IpAddress::V6((first + i) as u128)),
        invariant
            first <= cur <= last,
        ensures
            res@ == span(IpAddress::V6(first), IpAddress::V6(last)),
        decreases last - cur,
    {
        res.push(IpAddress::V6(cur));
        if cur == last {
            assert(res@ =~= span(IpAddress::V6(first), IpAddress::V6(last)));
            break;
        }
        cur = cur + 1;
        assert(res@ =~= Seq::new((cur - first) as nat, |i: int| IpAddress::V6((first + i) as u128)));
    }
    res
}

/// Every address from `start` to `end`, both included: both must be of one
/// family with `start <= end`, and an IPv6 range spans at most 100,000 steps.
pub fn ip_range_between(start: IpAddress, end: IpAddress) -> (res: Result<Vec<IpAddress>, RangeError>)
    ensures
        match res {
            Ok(v) => range_between(start, end) == Ok::<Seq<IpAddress>, RangeError>(v@),
            Err(e) => range_between(start, end) == Err::<Seq<IpAddress>, RangeError>(e),
        },
{
    match (start, end) {
        (IpAddress::V4(a), IpAddress::V4(b)) => {
            if a > b {
                return Err(RangeError::StartAfterEnd);
            }
            Ok(ipv4_span(a, b))
        },
        (IpAddress::V6(a), IpAddress::V6(b)) => {
            if a > b {
                return Err(RangeError::StartAfterEnd);
            }
            if b - a > MAX_IPV6_RANGE {
                return Err(RangeError::Ipv6RangeTooLarge);
            }
            Ok(ipv6_span(a, b))
        },
        _ => Err(RangeError::VersionMismatch),
    }
}


/// A network written in CIDR notation: an address and a prefix length.
#[derive(Clone, Copy, Debug, PartialEq, Eq, Structural)]
pub struct CidrBlock {
    pub addr: IpAddress,
    pub prefix_len: u8,
}

impl CidrBlock {
    /// The prefix length fits the address family.
    pub open spec fn wf(self) -> bool {
        match self.addr {
            IpAddress::V4(_) => self.prefix_len <= 32,
            IpAddress::V6(_) => self.prefix_len <= 128,
        }
    }
}

/// The host bits of an IPv4 network with prefix length `p`.
pub open spec fn hostmask_v4(p: u8) -> u32 {
    if p >= 32 {
        0
    } else {
        0xffff_ffffu32 >> p
    }
}

/// The host bits of an IPv6 network with prefix length `p`.
pub open spec fn hostmask_v6(p: u8) -> u128 {
    if p >= 128 {
        0
    } else {
        0xffff_ffff_ffff_ffff_ffff_ffff_ffff_ffffu128 >> p
    }
}

/// The usable hosts of a network, as `ipnet`'s `hosts()` documents them: every
/// address from the network address to the broadcast address, except that an
/// IPv4 network with a prefix shorter than 31 leaves both of those out.
pub open spec fn cidr_hosts(b: CidrBlock) -> Seq<IpAddress> {
    match b.addr {
        IpAddress::V4(a) => {
            let m = hostmask_v4(b.prefix_len);
            let network = a & !m;
            let broadcast = a | m;
            if b.prefix_len < 31 {
                span(IpAddress::V4((network + 1) as u32), IpAddress::V4((broadcast - 1) as u32))
            } else {
                span(IpAddress::V4(network), IpAddress::V4(broadcast))
            }
        },
        IpAddress::V6(a) => {
            let m = hostmask_v6(b.prefix_len);
            span(IpAddress::V6(a & !m), IpAddress::V6(a | m))
        },
    }
}

/// The network address plus the host bits is the broadcast address.
pub proof fn lemma_mask_v4(a: u32, m: u32)
    by (bit_vector)
    ensures
        (a & !m) <= (a | m),
        (a & !m) + (m as int) == (a | m),
{
}

/// The network address plus the host bits is the last address.
pub proof fn lemma_mask_v6(a: u128, m: u128)
    by (bit_vector)
    ensures
        (a & !m) <= (a | m),
        (a & !m) + (m as int) == (a | m),
{
}

/// A prefix shorter than 31 leaves at least two host bits.
pub proof fn lemma_hostmask_v4_wide(p: u8)
    by (bit_vector)
    requires
        p < 31,
    ensures
        (0xffff_ffffu32 >> p) >= 3,
{
}

/// The usable hosts of a network (see `cidr_hosts`).
pub fn network_hosts(b: CidrBlock) -> (res: Vec<IpAddress>)
    requires
        b.wf(),
    ensures
        res@ == cidr_hosts(b),
{
    match b.addr {
        IpAddress::V4(a) => {
            let m: u32 = if b.prefix_len >= 32 {
                0
            } else {
                0xffff_ffffu32 >> b.prefix_len
            };
            let network = a & !m;
            let broadcast = a | m;
            proof {
                lemma_mask_v4(a, m);
            }
            if b.prefix_len < 31 {
                proof {
                    lemma_hostmask_v4_wide(b.prefix_len);
                }
                ipv4_span(network + 1, broadcast - 1)
            } else {
                ipv4_span(network, broadcast)
            }
        },
        IpAddress::V6(a) => {
            let m: u128 = if b.prefix_len >= 128 {
                0
            } else {
                0xffff_ffff_ffff_ffff_ffff_ffff_ffff_ffffu128 >> b.prefix_len
            };
            proof {
                lemma_mask_v6(a, m);
            }
            ipv6_span(a & !m, a | m)
        },
    }
}

/// What `ipnet` reads from CIDR notation (`<address>/<prefix length>`).
pub uninterp spec fn ipnet_parse(s: Seq<char>) -> Option<CidrBlock>;

/// Calls `<ipnet::IpNet as FromStr>::from_str` and keeps the address and
/// prefix length of the network it reads. `ipnet` refuses a prefix length
/// longer than the address, so a block it gives back is well formed. The
/// grammar it accepts is not restated here.
#[verifier::external_body]
fn parse_ipnet(s: &str) -> (res: Option<CidrBlock>)
    ensures
        res == ipnet_parse(s@),
        res matches Some(b) ==> b.wf(),
{
    match s.parse::<ipnet::IpNet>() {
        Ok(ipnet::IpNet::V4(n)) => Some(
            CidrBlock { addr: IpAddress::V4(u32::from(n.addr())), prefix_len: n.prefix_len() },
        ),
        Ok(ipnet::IpNet::V6(n)) => Some(
            CidrBlock { addr: IpAddress::V6(u128::from(n.addr())), prefix_len: n.prefix_len() },
        ),
        Err(_) => None,
    }
}


/// `a.b.c.d-e`: the addresses from `start` up to the one whose last octet is `end_octet`.
pub open spec fn last_octet_range(start: u32, end_octet: nat) -> Result<Seq<IpAddress>, RangeError> {
    let o = start % 256;
    if end_octet >= o {
        Ok(span(IpAddress::V4(start), IpAddress::V4((start - o + end_octet) as u32)))
    } else {
        Err(RangeError::EndOctetBelowStart { end: end_octet as u8, start: o as u8 })
    }
}

/// A range written with one dash: `<address>-<address>` or `<IPv4 address>-<last octet>`,
/// spaces around either part allowed. `None` when the text is not such a range.
pub open spec fn dash_range(t: Seq<char>) -> Option<Result<Seq<IpAddress>, RangeError>> {
    let parts = split_fields(t, '-');
    if parts.len() != 2 {
        None
    } else {
        match parse_ip(trimmed(parts[0])) {
            None => None,
            Some(start) => match parse_ip(trimmed(parts[1])) {
                Some(end) => Some(range_between(start, end)),
                None => match (start, parse_unsigned(trimmed(parts[1]), 255)) {
                    (IpAddress::V4(a), Some(o)) => Some(last_octet_range(a, o)),
                    _ => None,
                },
            },
        }
    }
}

/// A range written with a dash, else a single address, else unrecognized.
pub open spec fn text_range(t: Seq<char>) -> Result<Seq<IpAddress>, RangeError> {
    match dash_range(t) {
        Some(r) => r,
        None => match parse_ip(t) {
            Some(ip) => Ok(seq![ip]),
            None => Err(RangeError::Unrecognized),
        },
    }
}

/// The addresses that a target specification stands for: the text, trimmed, is
/// read as a CIDR block (its usable hosts), else as a dash range, else as one address.
pub open spec fn target_addresses(s: Seq<char>) -> Result<Seq<IpAddress>, RangeError> {
    match ipnet_parse(trimmed(s)) {
        Some(b) => Ok(cidr_hosts(b)),
        None => text_range(trimmed(s)),
    }
}

/// The first position in `s[lo..hi]` that holds `c`, or `hi`.
fn find_char(s: &Vec<char>, lo: usize, hi: usize, c: char) -> (res: usize)
    requires
        lo <= hi <= s@.len(),
    ensures
        lo <= res <= hi,
        free_of(s@.subrange(lo as int, res as int), c),
        res < hi ==> s@[res as int] == c,
{
    let mut i = lo;
    while i < hi
        invariant
            lo <= i <= hi <= s@.len(),
            free_of(s@.subrange(lo as int, i as int), c),
        decreases hi - i,
    {
        if s[i] == c {
            return i;
        }
        proof {
            lemma_free_extend(s@, lo as int, i as int, c);
        }
        i = i + 1;
    }
    i
}

/// `a.b.c.d-e` evaluated.
fn last_octet_range_exec(a: u32, o: u64) -> (res: Result<Vec<IpAddress>, RangeError>)
    requires
        o <= 255,
    ensures
        match res {
            Ok(v) => last_octet_range(a, o as nat) == Ok::<Seq<IpAddress>, RangeError>(v@),
            Err(e) => last_octet_range(a, o as nat) == Err::<Seq<IpAddress>, RangeError>(e),
        },
{
    let o3 = a % 256;
    if o as u32 >= o3 {
        Ok(ipv4_span(a, a - o3 + o as u32))
    } else {
        Err(RangeError::EndOctetBelowStart { end: o as u8, start: o3 as u8 })
    }
}

/// The range `s[lo..d]-s[d+1..hi]`, where `d` is the only dash in `s[lo..hi]`.
fn dash_parts_range(s: &Vec<char>, lo: usize, d: usize, hi: usize) -> (res: Option<
    Result<Vec<IpAddress>, RangeError>,
>)
    requires
        lo <= d < hi <= s@.len(),
        s@[d as int] == '-',
        free_of(s@.subrange(lo as int, d as int), '-'),
        free_of(s@.subrange(d + 1, hi as int), '-'),
    ensures
        match res {
            Some(Ok(v)) => dash_range(s@.subrange(lo as int, hi as int)) == Some(
                Ok::<Seq<IpAddress>, RangeError>(v@),
            ),
            Some(Err(e)) => dash_range(s@.subrange(lo as int, hi as int)) == Some(
                Err::<Seq<IpAddress>, RangeError>(e),
            ),
            None => dash_range(s@.subrange(lo as int, hi as int)) is None,
        },
{
    let ghost t = s@.subrange(lo as int, hi as int);
    let ghost rest = s@.subrange(d + 1, hi as int);
    proof {
        lemma_split_step(s@, lo as int, lo as int, d as int, hi as int, '-');
        lemma_split_single(rest, '-');
        assert(split_fields(t, '-') =~= seq![s@.subrange(lo as int, d as int), rest]);
    }
    let (a0, a1) = trim_bounds(s, lo, d);
    let (b0, b1) = trim_bounds(s, d + 1, hi);
    match parse_ip_chars(s, a0, a1) {
        None => None,
        Some(start) => match parse_ip_chars(s, b0, b1) {
            Some(end) => Some(ip_range_between(start, end)),
            None => match start {
                IpAddress::V4(a) => match parse_unsigned_chars(s, b0, b1, 255) {
                    Some(o) => Some(last_octet_range_exec(a, o)),
                    None => None,
                },
                IpAddress::V6(_) => None,
            },
        },
    }
}

/// The addresses of `s[lo..hi]` read as a dash range, or a single address.
fn text_range_chars(s: &Vec<char>, lo: usize, hi: usize) -> (res: Result<Vec<IpAddress>, RangeError>)
    requires
        lo <= hi <= s@.len(),
    ensures
        match res {
            Ok(v) => text_range(s@.subrange(lo as int, hi as int)) == Ok::<
                Seq<IpAddress>,
                RangeError,
            >(v@),
            Err(e) => text_range(s@.subrange(lo as int, hi as int)) == Err::<
                Seq<IpAddress>,
                RangeError,
            >(e),
        },
{
    let ghost t = s@.subrange(lo as int, hi as int);
    let d = find_char(s, lo, hi, '-');
    let mut dash_result: Option<Result<Vec<IpAddress>, RangeError>> = None;
    if d < hi {
        let d2 = find_char(s, d + 1, hi, '-');
        if d2 < hi {
            proof {
                lemma_split_step(s@, lo as int, lo as int, d as int, hi as int, '-');
                lemma_split_step(s@, (d + 1) as int, (d + 1) as int, d2 as int, hi as int, '-');
                lemma_split_nonempty(s@.subrange(d2 + 1, hi as int), '-');
            }
        } else {
            dash_result = dash_parts_range(s, lo, d, hi);
        }
    } else {
        proof {
            lemma_split_single(t, '-');
        }
    }
    match dash_result {
        Some(r) => r,
        None => match parse_ip_chars(s, lo, hi) {
            Some(ip) => {
                let mut v: Vec<IpAddress> = Vec::new();
                v.push(ip);
                assert(v@ =~= seq![ip]);
                Ok(v)
            },
            None => Err(RangeError::Unrecognized),
        },
    }
}

/// Expands a target specification whose CIDR reading, by `ipnet`, is `cidr`:
/// a block stands for its usable hosts; otherwise the trimmed text is read as a
/// dash range, else as a single address.
pub fn expand_target(cidr: Option<CidrBlock>, text: &str) -> (res: Result<Vec<IpAddress>, RangeError>)
    requires
        cidr matches Some(b) ==> b.wf(),
    ensures
        match res {
            Ok(v) => match cidr {
                Some(b) => v@ == cidr_hosts(b),
                None => text_range(trimmed(text@)) == Ok::<Seq<IpAddress>, RangeError>(v@),
            },
            Err(e) => cidr is None && text_range(trimmed(text@)) == Err::<
                Seq<IpAddress>,
                RangeError,
            >(e),
        },
{
    match cidr {
        Some(b) => Ok(network_hosts(b)),
        None => {
            let cs = str_chars(text);
            let (a, b) = trim_bounds(&cs, 0, cs.len());
            assert(cs@.subrange(0, cs@.len() as int) =~= text@);
            text_range_chars(&cs, a, b)
        },
    }
}

/// The addresses that a target specification stands for (see `target_addresses`).
/// `Unrecognized` is left for a caller that can resolve host names.
pub fn parse_ip_range(input: &str) -> (res: Result<Vec<IpAddress>, RangeError>)
    ensures
        match res {
            Ok(v) => target_addresses(input@) == Ok::<Seq<IpAddress>, RangeError>(v@),
            Err(e) => target_addresses(input@) == Err::<Seq<IpAddress>, RangeError>(e),
        },
{
    let cs = str_chars(input);
    let (a, b) = trim_bounds(&cs, 0, cs.len());
    assert(cs@.subrange(0, cs@.len() as int) =~= input@);
    let t = input.substring_char(a, b);
    proof {
        lemma_trimmed_idempotent(input@);
    }
    assert(t@ == trimmed(input@));
    assert(trimmed(t@) == trimmed(input@));
    let cidr = parse_ipnet(t);
    expand_target(cidr, t)
}

/// A textual IP address, read as `IpAddr`'s `FromStr` reads it.
pub fn parse_ip_address(s: &str) -> (res: Option<IpAddress>)
    ensures
        res == parse_ip(s@),
{
    let cs = str_chars(s);
    assert(cs@.subrange(0, cs@.len() as int) =~= s@);
    parse_ip_chars(&cs, 0, cs.len())
}

} // verus!
